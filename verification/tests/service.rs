use dice_service::codec::{decode_roll_result, encode_roll_result};
use dice_service::config::{
    connection_plan, needs_connection_check, require_table_name, resolve_backend, BackendKind,
};
use dice_service::handler::handle_roll;
use dice_service::provision::{needs_creation, provision_outcome, table_schema, CreateError};
use dice_service::record::{build_record, logical_name, new_record};
use dice_service::roll::{roll_dice, RollResult, MAX_DICE};

#[test]
fn roll_zero_dice_is_empty_with_total_zero() {
    let r = roll_dice(0);
    assert_eq!(r.dice, 0);
    assert_eq!(r.rolls.len(), 0);
    assert_eq!(r.total, 0);
}

#[test]
fn roll_counts_faces_and_total_agree() {
    for n in [1u32, 2, 3, 7, 50] {
        let r = roll_dice(n);
        assert_eq!(r.dice, n);
        assert_eq!(r.rolls.len(), n as usize);
        for &f in r.rolls.iter() {
            assert!((1..=6).contains(&f));
        }
        let sum: u32 = r.rolls.iter().sum();
        assert_eq!(r.total, sum);
    }
}

#[test]
fn single_die_rolls_are_roughly_uniform() {
    // Chi-square goodness of fit against the uniform law on six faces:
    // for 6000 draws and 5 degrees of freedom, 30.0 is far beyond the
    // 0.999 quantile (about 20.5), so a fair generator virtually never
    // trips this, while a constant or strongly biased one always does.
    let samples = 6000usize;
    let mut counts = [0u32; 6];
    for _ in 0..samples {
        let r = roll_dice(1);
        counts[(r.rolls[0] - 1) as usize] += 1;
    }
    let expected = samples as f64 / 6.0;
    let mut chi2 = 0.0f64;
    for &c in counts.iter() {
        let d = c as f64 - expected;
        chi2 += d * d / expected;
    }
    assert!(chi2 < 30.0, "chi-square statistic too large: {}", chi2);
    for &c in counts.iter() {
        assert!(c > 0, "a face never appeared over {} draws", samples);
    }
}

#[test]
fn encode_matches_expected_json() {
    let r = RollResult { dice: 3, rolls: vec![1, 2, 3], total: 6 };
    let bytes = encode_roll_result(&r);
    assert_eq!(bytes, b"{\"dice\":3,\"rolls\":[1,2,3],\"total\":6}".to_vec());
}

#[test]
fn encode_zero_dice_json() {
    let r = RollResult { dice: 0, rolls: vec![], total: 0 };
    let bytes = encode_roll_result(&r);
    assert_eq!(bytes, b"{\"dice\":0,\"rolls\":[],\"total\":0}".to_vec());
}

#[test]
fn encode_multi_digit_values() {
    let r = RollResult { dice: 12, rolls: vec![6, 6, 6, 6, 6, 6, 6, 6, 6, 6, 6, 6], total: 72 };
    let bytes = encode_roll_result(&r);
    assert_eq!(
        bytes,
        b"{\"dice\":12,\"rolls\":[6,6,6,6,6,6,6,6,6,6,6,6],\"total\":72}".to_vec()
    );
}

#[test]
fn decode_inverts_encode() {
    let cases = vec![
        RollResult { dice: 0, rolls: vec![], total: 0 },
        RollResult { dice: 1, rolls: vec![4], total: 4 },
        RollResult { dice: 3, rolls: vec![1, 2, 3], total: 6 },
        RollResult { dice: 11, rolls: vec![5, 6, 1, 2, 3, 4, 5, 6, 1, 2, 3], total: 38 },
        RollResult { dice: 4294967295, rolls: vec![6], total: 4294967295 },
    ];
    for r in cases {
        let bytes = encode_roll_result(&r);
        let back = decode_roll_result(&bytes).expect("an encoded result must decode");
        assert_eq!(back.dice, r.dice);
        assert_eq!(back.rolls, r.rolls);
        assert_eq!(back.total, r.total);
    }
}

#[test]
fn decode_rejects_malformed_payloads() {
    for bad in [
        &b""[..],
        &b"{}"[..],
        &b"{\"dice\":3,\"rolls\":[1,2,3],\"total\":6"[..],
        &b"{\"dice\":,\"rolls\":[],\"total\":0}"[..],
        &b"{\"dice\":3,\"rolls\":[1,,3],\"total\":6}"[..],
        &b"{\"dice\":3,\"rolls\":[1,2,3],\"total\":6} "[..],
        &b"{\"dice\":4294967296,\"rolls\":[1],\"total\":1}"[..],
    ] {
        assert!(decode_roll_result(&bad.to_vec()).is_none());
    }
}

#[test]
fn handle_roll_answers_with_the_rolls_json() {
    let resp = handle_roll(3);
    assert_eq!(resp.result.dice, 3);
    assert_eq!(resp.result.rolls.len(), 3);
    for &f in resp.result.rolls.iter() {
        assert!((1..=6).contains(&f));
    }
    let sum: u32 = resp.result.rolls.iter().sum();
    assert_eq!(resp.result.total, sum);
    let back = decode_roll_result(&resp.body).expect("the response body must be the JSON object");
    assert_eq!(back.dice, resp.result.dice);
    assert_eq!(back.rolls, resp.result.rolls);
    assert_eq!(back.total, resp.result.total);
}

#[test]
fn max_dice_bound_is_exact() {
    assert_eq!(MAX_DICE, u32::MAX / 6);
}

#[test]
fn backend_defaults_to_local() {
    assert_eq!(resolve_backend(None), BackendKind::Local);
    assert_eq!(resolve_backend(Some(&"".to_string())), BackendKind::Local);
    assert_eq!(resolve_backend(Some(&"remote".to_string())), BackendKind::Local);
    assert_eq!(resolve_backend(Some(&"Local".to_string())), BackendKind::Local);
}

#[test]
fn backend_sentinel_selects_remote() {
    assert_eq!(resolve_backend(Some(&"Remote".to_string())), BackendKind::Remote);
}

#[test]
fn only_remote_gets_a_connectivity_check() {
    assert!(!needs_connection_check(BackendKind::Local));
    assert!(needs_connection_check(BackendKind::Remote));
}

#[test]
fn connection_plans_match_the_backends() {
    let local = connection_plan(BackendKind::Local);
    assert_eq!(local.endpoint.as_deref(), Some("http://dynamodb:8000"));
    assert!(local.test_credentials);
    let remote = connection_plan(BackendKind::Remote);
    assert!(remote.endpoint.is_none());
    assert!(!remote.test_credentials);
}

#[test]
fn missing_table_name_is_a_startup_error() {
    assert!(require_table_name(None).is_err());
    assert_eq!(require_table_name(Some("Rolls".to_string())), Ok("Rolls".to_string()));
}

#[test]
fn table_schema_is_the_fixed_one() {
    let s = table_schema();
    assert_eq!(s.partition_key, "name");
    assert_eq!(s.sort_key, "createdAt");
    assert!(s.on_demand_billing);
}

#[test]
fn creation_is_needed_only_when_the_listing_lacks_the_table() {
    let name = "Rolls".to_string();
    assert!(needs_creation(&None, &name));
    assert!(needs_creation(&Some(vec![]), &name));
    assert!(needs_creation(&Some(vec!["Other".to_string()]), &name));
    assert!(!needs_creation(&Some(vec!["Other".to_string(), "Rolls".to_string()]), &name));
}

#[test]
fn ensure_table_twice_creates_once() {
    let name = "Rolls".to_string();
    let mut tables: Vec<String> = vec![];
    // First caller: the listing lacks the table, so it creates it.
    assert!(needs_creation(&Some(tables.clone()), &name));
    tables.push(name.clone());
    assert!(provision_outcome(&Ok(())).is_ok());
    // Second caller: the listing now shows the table; no create, no error.
    assert!(!needs_creation(&Some(tables.clone()), &name));
    assert_eq!(tables.len(), 1);
}

#[test]
fn racing_duplicate_create_is_not_an_error() {
    // Two callers both observed the table as absent; the loser of the race
    // gets the duplicate-name answer, which counts as success.
    assert!(provision_outcome(&Ok(())).is_ok());
    assert!(provision_outcome(&Err(CreateError::AlreadyExists)).is_ok());
    assert!(provision_outcome(&Err(CreateError::Other)).is_err());
}

#[test]
fn records_carry_name_timestamp_and_payload() {
    let r = RollResult { dice: 2, rolls: vec![3, 4], total: 7 };
    let rec = build_record(&logical_name(), "2024-01-02T03:04:05+00:00".to_string(), &r);
    assert_eq!(rec.name, "RollResult");
    assert_eq!(rec.created_at, "2024-01-02T03:04:05+00:00");
    let back = decode_roll_result(&rec.payload).expect("the payload must decode");
    assert_eq!(back.dice, 2);
    assert_eq!(back.rolls, vec![3, 4]);
    assert_eq!(back.total, 7);
}

#[test]
fn fresh_records_are_stamped_and_decodable() {
    let r = RollResult { dice: 1, rolls: vec![5], total: 5 };
    let rec = new_record(&logical_name(), &r);
    assert_eq!(rec.name, "RollResult");
    assert!(!rec.created_at.is_empty());
    let back = decode_roll_result(&rec.payload).expect("the payload must decode");
    assert_eq!(back.dice, 1);
    assert_eq!(back.rolls, vec![5]);
    assert_eq!(back.total, 5);
}
