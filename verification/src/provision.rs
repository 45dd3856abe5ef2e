//! Table provisioning: the fixed schema of the target table, the
//! check-then-create decision, and the rule that makes duplicate creation a
//! non-error, so provisioning is idempotent and race-safe.
use vstd::prelude::*;

verus! {

/// The static schema of the provisioned table: a string-typed partition key,
/// a string-typed sort key, and on-demand billing.
pub struct TableSchema {
    pub partition_key: String,
    pub sort_key: String,
    pub on_demand_billing: bool,
}

/// The one schema this service ever provisions: partition key `name`, sort
/// key `createdAt`, billed on demand.
pub fn table_schema() -> (r: TableSchema)
    ensures
        r.partition_key@ == "name"@,
        r.sort_key@ == "createdAt"@,
        r.on_demand_billing,
{
    TableSchema {
        partition_key: "name".to_owned(),
        sort_key: "createdAt".to_owned(),
        on_demand_billing: true,
    }
}

/// Whether a table listing (as the backend reports it, possibly absent)
/// contains the given table name.
pub open spec fn listing_has(listing: Option<Seq<Seq<char>>>, name: Seq<char>) -> bool {
    match listing {
        Option::Some(l) => l.contains(name),
        Option::None => false,
    }
}

/// The view of a listing as the backend hands it out.
pub open spec fn listing_view(listing: Option<Vec<String>>) -> Option<Seq<Seq<char>>> {
    match listing {
        Option::Some(l) => Option::Some(l@.map_values(|s: String| s@)),
        Option::None => Option::None,
    }
}

/// The check-then-create decision: create exactly when the listing does not
/// show the table, including when the listing reports no tables at all.
pub fn needs_creation(listing: &Option<Vec<String>>, table_name: &String) -> (r: bool)
    ensures
        r == !listing_has(listing_view(*listing), table_name@),
{
    match listing {
        Option::Some(l) => {
            proof {
                assert(listing_view(*listing) == Option::Some(
                    l@.map_values(|s: String| s@),
                ));
            }
            let ghost lv = l@.map_values(|s: String| s@);
            let n = l.len();
            let mut i: usize = 0;
            while i < n
                invariant
                    0 <= i <= n == l@.len(),
                    lv == l@.map_values(|s: String| s@),
                    listing_view(*listing) == Option::Some(lv),
                    forall|k: int| 0 <= k < i ==> #[trigger] lv[k] != table_name@,
                decreases n - i,
            {
                proof {
                    assert(lv[i as int] == l@[i as int]@);
                }
                if l[i] == *table_name {
                    proof {
                        assert(l@[i as int]@ == table_name@);
                        assert(lv.contains(table_name@)) by {
                            assert(0 <= i < lv.len() && lv[i as int] == table_name@);
                        }
                    }
                    return false;
                }
                i = i + 1;
            }
            proof {
                assert(!listing_has(listing_view(*listing), table_name@));
            }
            true
        },
        Option::None => true,
    }
}

/// How the backend answered a create-table call, after telling a duplicate
/// name apart from any other failure.
pub enum CreateError {
    /// The table already exists or its creation is already in progress.
    AlreadyExists,
    /// Any other creation failure.
    Other,
}

/// Whether provisioning as a whole succeeded, given the create call's
/// outcome: a duplicate create is a success, only an unrelated failure is
/// not.
pub fn provision_outcome(create_result: &Result<(), CreateError>) -> (r: Result<(), ()>)
    ensures
        r is Ok <==> (create_result is Ok || create_result matches Result::Err(
            CreateError::AlreadyExists,
        )),
{
    match create_result {
        Result::Ok(_) => Result::Ok(()),
        Result::Err(CreateError::AlreadyExists) => Result::Ok(()),
        Result::Err(CreateError::Other) => Result::Err(()),
    }
}

/// The effect of one `ensure_table` call on the set of existing tables: the
/// table exists afterwards, whether or not it existed before.
pub open spec fn tables_after_ensure(tables: Set<Seq<char>>, name: Seq<char>) -> Set<Seq<char>> {
    tables.insert(name)
}

/// Ensuring a table is idempotent: a second call against the same name
/// changes nothing, and the table exists after the first call.
pub proof fn lemma_ensure_idempotent(tables: Set<Seq<char>>, name: Seq<char>)
    ensures
        tables_after_ensure(tables_after_ensure(tables, name), name) == tables_after_ensure(
            tables,
            name,
        ),
        tables_after_ensure(tables, name).contains(name),
{
    assert(tables_after_ensure(tables_after_ensure(tables, name), name) =~= tables_after_ensure(
        tables,
        name,
    ));
}

/// The tables after `n` ensure calls for the same name, in any interleaving:
/// each call's effect is the same insertion.
pub open spec fn tables_after_n_ensures(tables: Set<Seq<char>>, name: Seq<char>, n: nat) -> Set<
    Seq<char>,
>
    decreases n,
{
    if n == 0 {
        tables
    } else {
        tables_after_ensure(tables_after_n_ensures(tables, name, (n - 1) as nat), name)
    }
}

/// Any number of concurrent ensure calls for one absent name leaves exactly
/// the state one call leaves: the name present once, nothing else changed.
pub proof fn lemma_ensure_concurrent(tables: Set<Seq<char>>, name: Seq<char>, n: nat)
    requires
        n >= 1,
    ensures
        tables_after_n_ensures(tables, name, n) == tables_after_ensure(tables, name),
    decreases n,
{
    if n == 1 {
        assert(tables_after_n_ensures(tables, name, 0) == tables);
    } else {
        lemma_ensure_concurrent(tables, name, (n - 1) as nat);
    }
    assert(tables_after_n_ensures(tables, name, n) =~= tables_after_ensure(tables, name));
}

} // verus!
