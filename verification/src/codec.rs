//! The persisted payload format: a roll result as one JSON object,
//! `{"dice":N,"rolls":[r1,...,rk],"total":M}`, stated byte for byte as a
//! spec function, with a verified encoder.
use vstd::prelude::*;

verus! {

/// The decimal digits of `n`, most significant first; `0` is `"0"`.
pub open spec fn dec_of(n: int) -> Seq<u8>
    decreases n,
{
    if n < 10 {
        seq![(48 + n) as u8]
    } else {
        dec_of(n / 10).push((48 + n % 10) as u8)
    }
}

/// The bytes of the JSON list of rolls, comma separated, no brackets.
pub open spec fn list_of(rolls: Seq<u32>) -> Seq<u8>
    decreases rolls.len(),
{
    if rolls.len() == 0 {
        Seq::empty()
    } else if rolls.len() == 1 {
        dec_of(rolls[0] as int)
    } else {
        dec_of(rolls[0] as int) + seq![44u8] + list_of(rolls.drop_first())
    }
}

/// The literal `{"dice":`.
pub open spec fn lit_dice() -> Seq<u8> {
    seq![123u8, 34u8, 100u8, 105u8, 99u8, 101u8, 34u8, 58u8]
}

/// The literal `,"rolls":[`.
pub open spec fn lit_rolls() -> Seq<u8> {
    seq![44u8, 34u8, 114u8, 111u8, 108u8, 108u8, 115u8, 34u8, 58u8, 91u8]
}

/// The literal `],"total":`.
pub open spec fn lit_total() -> Seq<u8> {
    seq![93u8, 44u8, 34u8, 116u8, 111u8, 116u8, 97u8, 108u8, 34u8, 58u8]
}

/// The whole JSON object for a roll result, byte for byte.
pub open spec fn json_of(dice: u32, rolls: Seq<u32>, total: u32) -> Seq<u8> {
    lit_dice() + dec_of(dice as int) + lit_rolls() + list_of(rolls) + lit_total() + dec_of(
        total as int,
    ) + seq![125u8]
}

/// Append the decimal digits of `n`.
fn push_dec(out: &mut Vec<u8>, n: u32)
    ensures
        final(out)@ == old(out)@ + dec_of(n as int),
    decreases n,
{
    if n < 10 {
        out.push(48 + n as u8);
    } else {
        push_dec(out, n / 10);
        let d: u32 = n % 10;
        out.push(48 + d as u8);
        proof {
            assert(out@ =~= old(out)@ + dec_of(n as int));
        }
    }
}

/// How the list bytes grow when one more roll is appended.
proof fn lemma_list_snoc(s: Seq<u32>, x: u32)
    ensures
        s.len() == 0 ==> list_of(s.push(x)) == dec_of(x as int),
        s.len() > 0 ==> list_of(s.push(x)) == list_of(s) + seq![44u8] + dec_of(x as int),
    decreases s.len(),
{
    let p = s.push(x);
    if s.len() == 0 {
        assert(p.len() == 1);
        assert(p[0] == x);
        assert(list_of(p) == dec_of(x as int));
    } else if s.len() == 1 {
        assert(p.len() == 2);
        assert(p.drop_first() =~= seq![x]);
        assert(list_of(p.drop_first()) == dec_of(x as int));
        assert(list_of(p) == dec_of(s[0] as int) + seq![44u8] + dec_of(x as int));
        assert(list_of(s) == dec_of(s[0] as int));
    } else {
        assert(p.drop_first() =~= s.drop_first().push(x));
        lemma_list_snoc(s.drop_first(), x);
        assert(list_of(p) == dec_of(s[0] as int) + seq![44u8] + list_of(s.drop_first().push(x)));
        assert(list_of(p) =~= (dec_of(s[0] as int) + seq![44u8] + list_of(s.drop_first())) + seq![
            44u8,
        ] + dec_of(x as int));
    }
}

/// Append the bracketless list bytes of all the rolls.
fn push_list(out: &mut Vec<u8>, rolls: &Vec<u32>)
    ensures
        final(out)@ == old(out)@ + list_of(rolls@),
{
    let n = rolls.len();
    let mut i: usize = 0;
    while i < n
        invariant
            0 <= i <= n == rolls@.len(),
            out@ == old(out)@ + list_of(rolls@.take(i as int)),
        decreases n - i,
    {
        proof {
            assert(rolls@.take(i as int).push(rolls@[i as int]) =~= rolls@.take(i as int + 1));
            lemma_list_snoc(rolls@.take(i as int), rolls@[i as int]);
        }
        if i > 0 {
            out.push(44);
        }
        push_dec(out, rolls[i]);
        proof {
            assert(out@ =~= old(out)@ + list_of(rolls@.take(i as int + 1)));
        }
        i = i + 1;
    }
    proof {
        assert(rolls@.take(n as int) =~= rolls@);
    }
}

/// Whether a byte is an ASCII decimal digit.
pub open spec fn is_digit(b: u8) -> bool {
    48 <= b <= 57
}

/// The numeric value of a run of digit bytes, most significant first.
pub open spec fn val_of(s: Seq<u8>) -> int
    decreases s.len(),
{
    if s.len() == 0 {
        0
    } else {
        val_of(s.drop_last()) * 10 + (s.last() - 48)
    }
}

/// The first position at or after `i` holding a non-digit, or the end.
pub open spec fn digit_run(s: Seq<u8>, i: int) -> int
    decreases s.len() - i when 0 <= i <= s.len()
{
    if i >= s.len() {
        i
    } else if is_digit(s[i]) {
        digit_run(s, i + 1)
    } else {
        i
    }
}

proof fn lemma_digit_run_bounds(s: Seq<u8>, i: int)
    requires
        0 <= i <= s.len(),
    ensures
        i <= digit_run(s, i) <= s.len(),
    decreases s.len() - i,
{
    if i < s.len() && is_digit(s[i]) {
        lemma_digit_run_bounds(s, i + 1);
    }
}

proof fn lemma_digit_run_digits(s: Seq<u8>, i: int)
    requires
        0 <= i <= s.len(),
    ensures
        forall|k: int| i <= k < digit_run(s, i) ==> is_digit(#[trigger] s[k]),
    decreases s.len() - i,
{
    if i < s.len() && is_digit(s[i]) {
        lemma_digit_run_digits(s, i + 1);
    }
}

/// Parse a decimal number at `i`: the whole digit run, at most ten digits,
/// value at most `u32::MAX`.
pub open spec fn parse_num(s: Seq<u8>, i: int) -> Option<(u32, int)> {
    let j = digit_run(s, i);
    if j == i || j - i > 10 {
        Option::None
    } else {
        let v = val_of(s.subrange(i, j));
        if v <= u32::MAX {
            Option::Some((v as u32, j))
        } else {
            Option::None
        }
    }
}

/// Parse a non-empty comma-separated run of numbers starting at `i`,
/// returning them and the position just after the last one.
pub open spec fn parse_items(s: Seq<u8>, i: int) -> Option<(Seq<u32>, int)>
    decreases s.len() - i when 0 <= i <= s.len() via parse_items_decreases
{
    match parse_num(s, i) {
        Option::None => Option::None,
        Option::Some((v, j)) => if j < s.len() && s[j] == 44 {
            match parse_items(s, j + 1) {
                Option::Some((rest, e)) => Option::Some((seq![v] + rest, e)),
                Option::None => Option::None,
            }
        } else {
            Option::Some((seq![v], j))
        },
    }
}

#[via_fn]
proof fn parse_items_decreases(s: Seq<u8>, i: int) {
    lemma_digit_run_bounds(s, i);
}

/// Whether `pat` occurs in `s` at position `i`.
pub open spec fn expect(s: Seq<u8>, i: int, pat: Seq<u8>) -> bool {
    &&& 0 <= i
    &&& i + pat.len() <= s.len()
    &&& forall|k: int| 0 <= k < pat.len() ==> s[i + k] == #[trigger] pat[k]
}

/// Parse the closing `total` number and the final `}`, which must end the
/// input.
pub open spec fn finish_num(s: Seq<u8>, i: int) -> Option<u32> {
    match parse_num(s, i) {
        Option::None => Option::None,
        Option::Some((t, j)) => if j + 1 == s.len() && s[j] == 125 {
            Option::Some(t)
        } else {
            Option::None
        },
    }
}

/// Parse a whole JSON roll-result object into its dice count, rolls and
/// total; anything whose shape differs is rejected.
pub open spec fn spec_decode(s: Seq<u8>) -> Option<(u32, Seq<u32>, u32)> {
    if !expect(s, 0, lit_dice()) {
        Option::None
    } else {
        match parse_num(s, 8) {
            Option::None => Option::None,
            Option::Some((d, j1)) => if !expect(s, j1, lit_rolls()) {
                Option::None
            } else {
                let i2 = j1 + 10;
                if expect(s, i2, lit_total()) {
                    match finish_num(s, i2 + 10) {
                        Option::Some(t) => Option::Some((d, Seq::empty(), t)),
                        Option::None => Option::None,
                    }
                } else {
                    match parse_items(s, i2) {
                        Option::None => Option::None,
                        Option::Some((rolls, e)) => if !expect(s, e, lit_total()) {
                            Option::None
                        } else {
                            match finish_num(s, e + 10) {
                                Option::Some(t) => Option::Some((d, rolls, t)),
                                Option::None => Option::None,
                            }
                        },
                    }
                }
            },
        }
    }
}

/// Encode a roll result as its JSON object.
pub fn encode_roll_result(r: &crate::roll::RollResult) -> (out: Vec<u8>)
    ensures
        out@ == json_of(r.dice, r.rolls@, r.total),
{
    let mut out: Vec<u8> = Vec::new();
    out.push(123);
    out.push(34);
    out.push(100);
    out.push(105);
    out.push(99);
    out.push(101);
    out.push(34);
    out.push(58);
    proof {
        assert(out@ =~= lit_dice());
    }
    push_dec(&mut out, r.dice);
    out.push(44);
    out.push(34);
    out.push(114);
    out.push(111);
    out.push(108);
    out.push(108);
    out.push(115);
    out.push(34);
    out.push(58);
    out.push(91);
    proof {
        assert(out@ =~= lit_dice() + dec_of(r.dice as int) + lit_rolls());
    }
    push_list(&mut out, &r.rolls);
    out.push(93);
    out.push(44);
    out.push(34);
    out.push(116);
    out.push(111);
    out.push(116);
    out.push(97);
    out.push(108);
    out.push(34);
    out.push(58);
    proof {
        assert(out@ =~= lit_dice() + dec_of(r.dice as int) + lit_rolls() + list_of(r.rolls@)
            + lit_total());
    }
    push_dec(&mut out, r.total);
    out.push(125);
    proof {
        assert(out@ =~= json_of(r.dice, r.rolls@, r.total));
    }
    out
}

spec fn pow10(k: nat) -> int
    decreases k,
{
    if k == 0 {
        1
    } else {
        10 * pow10((k - 1) as nat)
    }
}

proof fn lemma_pow10_ten()
    ensures
        pow10(10) == 10000000000,
        forall|a: nat, b: nat| a <= b ==> #[trigger] pow10(a) <= #[trigger] pow10(b),
{
    assert(pow10(0) == 1);
    assert(pow10(1) == 10);
    assert(pow10(2) == 100);
    assert(pow10(3) == 1000);
    assert(pow10(4) == 10000);
    assert(pow10(5) == 100000);
    assert(pow10(6) == 1000000);
    assert(pow10(7) == 10000000);
    assert(pow10(8) == 100000000);
    assert(pow10(9) == 1000000000);
    assert(pow10(10) == 10000000000);
    assert forall|a: nat, b: nat| a <= b implies #[trigger] pow10(a) <= #[trigger] pow10(b) by {
        lemma_pow10_mono(a, b);
    }
}

proof fn lemma_pow10_mono(a: nat, b: nat)
    requires
        a <= b,
    ensures
        1 <= pow10(a) <= pow10(b),
    decreases b,
{
    if b > 0 {
        if a == b {
            lemma_pow10_mono(0, (b - 1) as nat);
        } else {
            lemma_pow10_mono(a, (b - 1) as nat);
        }
    }
}

/// The end of the digit run starting at `i`.
fn scan_digits(s: &Vec<u8>, i: usize) -> (j: usize)
    requires
        i <= s@.len(),
    ensures
        j == digit_run(s@, i as int),
        i <= j <= s@.len(),
{
    let n = s.len();
    let mut j = i;
    while j < n
        invariant
            i <= j <= n == s@.len(),
            digit_run(s@, i as int) == digit_run(s@, j as int),
        decreases n - j,
    {
        let b = s[j];
        if !(48 <= b && b <= 57) {
            proof {
                assert(digit_run(s@, j as int) == j as int);
            }
            return j;
        }
        proof {
            assert(digit_run(s@, j as int) == digit_run(s@, j as int + 1));
        }
        j = j + 1;
    }
    proof {
        assert(digit_run(s@, j as int) == j as int);
    }
    j
}

/// Parse a decimal number at `i`, as `parse_num` describes.
fn parse_num_exec(s: &Vec<u8>, i: usize) -> (r: Option<(u32, usize)>)
    requires
        i <= s@.len(),
    ensures
        match r {
            Option::Some((v, j)) => parse_num(s@, i as int) == Option::Some((v, j as int)) && i < j
                <= s@.len(),
            Option::None => parse_num(s@, i as int) is None,
        },
{
    let j = scan_digits(s, i);
    if j == i || j - i > 10 {
        return Option::None;
    }
    proof {
        lemma_digit_run_digits(s@, i as int);
        lemma_pow10_ten();
    }
    let mut acc: u64 = 0;
    let mut k = i;
    while k < j
        invariant
            i <= k <= j <= s@.len(),
            j - i <= 10,
            j == digit_run(s@, i as int),
            forall|t: int| i <= t < j ==> is_digit(#[trigger] s@[t]),
            acc == val_of(s@.subrange(i as int, k as int)),
            0 <= acc < pow10((k - i) as nat),
            pow10(10) == 10000000000,
            forall|a: nat, b: nat| a <= b ==> #[trigger] pow10(a) <= #[trigger] pow10(b),
        decreases j - k,
    {
        let b = s[k];
        proof {
            assert(is_digit(s@[k as int]));
            assert(pow10(((k - i) as nat)) <= pow10(9)) by {
                assert((k - i) as nat <= 9nat);
            }
            assert(pow10(9) <= pow10(10));
        }
        acc = acc * 10 + ((b - 48) as u64);
        proof {
            let sub1 = s@.subrange(i as int, k as int + 1);
            assert(sub1.drop_last() =~= s@.subrange(i as int, k as int));
            assert(sub1.last() == s@[k as int]);
            assert(acc == val_of(sub1));
            assert(pow10(((k + 1 - i) as nat)) == 10 * pow10(((k - i) as nat)));
        }
        k = k + 1;
    }
    if acc > 4294967295 {
        return Option::None;
    }
    Option::Some((acc as u32, j))
}

/// Whether `pat` occurs at position `i`, as `expect` describes.
fn expect_bytes(s: &Vec<u8>, i: usize, pat: &Vec<u8>) -> (r: bool)
    requires
        i <= s@.len(),
    ensures
        r == expect(s@, i as int, pat@),
{
    let n = s.len();
    let m = pat.len();
    if n - i < m {
        return false;
    }
    let mut k: usize = 0;
    while k < m
        invariant
            i + m <= n == s@.len(),
            m == pat@.len(),
            0 <= k <= m,
            forall|t: int| 0 <= t < k ==> s@[i + t] == #[trigger] pat@[t],
        decreases m - k,
    {
        if s[i + k] != pat[k] {
            proof {
                assert(s@[i + k as int] != pat@[k as int]);
            }
            return false;
        }
        k = k + 1;
    }
    true
}

fn lit_dice_vec() -> (v: Vec<u8>)
    ensures
        v@ == lit_dice(),
{
    let mut v: Vec<u8> = Vec::new();
    v.push(123);
    v.push(34);
    v.push(100);
    v.push(105);
    v.push(99);
    v.push(101);
    v.push(34);
    v.push(58);
    proof {
        assert(v@ =~= lit_dice());
    }
    v
}

fn lit_rolls_vec() -> (v: Vec<u8>)
    ensures
        v@ == lit_rolls(),
{
    let mut v: Vec<u8> = Vec::new();
    v.push(44);
    v.push(34);
    v.push(114);
    v.push(111);
    v.push(108);
    v.push(108);
    v.push(115);
    v.push(34);
    v.push(58);
    v.push(91);
    proof {
        assert(v@ =~= lit_rolls());
    }
    v
}

fn lit_total_vec() -> (v: Vec<u8>)
    ensures
        v@ == lit_total(),
{
    let mut v: Vec<u8> = Vec::new();
    v.push(93);
    v.push(44);
    v.push(34);
    v.push(116);
    v.push(111);
    v.push(116);
    v.push(97);
    v.push(108);
    v.push(34);
    v.push(58);
    proof {
        assert(v@ =~= lit_total());
    }
    v
}

/// Parse a non-empty comma-separated run of numbers, as `parse_items`
/// describes.
fn parse_items_exec(s: &Vec<u8>, i: usize) -> (r: Option<(Vec<u32>, usize)>)
    requires
        i <= s@.len(),
    ensures
        match r {
            Option::Some((v, e)) => parse_items(s@, i as int) == Option::Some((v@, e as int)) && e
                <= s@.len(),
            Option::None => parse_items(s@, i as int) is None,
        },
{
    let mut out: Vec<u32> = Vec::new();
    let mut cur = i;
    loop
        invariant
            i <= cur <= s@.len(),
            (match parse_items(s@, cur as int) {
                Option::Some((rest, e)) => parse_items(s@, i as int) == Option::Some(
                    (out@ + rest, e),
                ),
                Option::None => parse_items(s@, i as int) is None,
            }),
        decreases s@.len() - cur,
    {
        match parse_num_exec(s, cur) {
            Option::None => {
                return Option::None;
            },
            Option::Some((v, j)) => {
                if j < s.len() && s[j] == 44 {
                    proof {
                        let rec = parse_items(s@, j as int + 1);
                        match rec {
                            Option::Some((rest, e)) => {
                                assert(parse_items(s@, cur as int) == Option::Some((
                                    seq![v] + rest,
                                    e,
                                )));
                                assert(out@ + (seq![v] + rest) =~= out@.push(v) + rest);
                            },
                            Option::None => {
                                assert(parse_items(s@, cur as int) is None);
                            },
                        }
                    }
                    out.push(v);
                    cur = j + 1;
                } else {
                    proof {
                        assert(parse_items(s@, cur as int) == Option::Some((seq![v], j as int)));
                        assert(out@ + seq![v] =~= out@.push(v));
                    }
                    out.push(v);
                    return Option::Some((out, j));
                }
            },
        }
    }
}

/// Parse the total and the closing brace, as `finish_num` describes.
fn parse_total_end(s: &Vec<u8>, i: usize) -> (r: Option<u32>)
    requires
        i <= s@.len(),
    ensures
        r == finish_num(s@, i as int),
{
    match parse_num_exec(s, i) {
        Option::None => Option::None,
        Option::Some((t, j)) => {
            if j == s.len() - 1 && s[j] == 125 {
                Option::Some(t)
            } else {
                Option::None
            }
        },
    }
}

/// Decode the JSON object of a roll result; `None` on anything else.
pub fn decode_roll_result(s: &Vec<u8>) -> (r: Option<crate::roll::RollResult>)
    ensures
        match r {
            Option::Some(v) => spec_decode(s@) == Option::Some((v.dice, v.rolls@, v.total)),
            Option::None => spec_decode(s@) is None,
        },
{
    let ld = lit_dice_vec();
    let lr = lit_rolls_vec();
    let lt = lit_total_vec();
    if !expect_bytes(s, 0, &ld) {
        return Option::None;
    }
    match parse_num_exec(s, 8) {
        Option::None => Option::None,
        Option::Some((d, j1)) => {
            if !expect_bytes(s, j1, &lr) {
                return Option::None;
            }
            let i2 = j1 + 10;
            if expect_bytes(s, i2, &lt) {
                match parse_total_end(s, i2 + 10) {
                    Option::None => Option::None,
                    Option::Some(t) => Option::Some(
                        crate::roll::RollResult { dice: d, rolls: Vec::new(), total: t },
                    ),
                }
            } else {
                match parse_items_exec(s, i2) {
                    Option::None => Option::None,
                    Option::Some((rolls, e)) => {
                        if !expect_bytes(s, e, &lt) {
                            return Option::None;
                        }
                        let n = s.len();
                        proof {
                            assert(lit_total().len() == 10);
                            assert(e + 10 <= n);
                        }
                        match parse_total_end(s, e + 10) {
                            Option::None => Option::None,
                            Option::Some(t) => Option::Some(
                                crate::roll::RollResult { dice: d, rolls, total: t },
                            ),
                        }
                    },
                }
            }
        },
    }
}


proof fn lemma_dec_of_digits(n: int)
    requires
        0 <= n,
    ensures
        dec_of(n).len() >= 1,
        forall|k: int| 0 <= k < dec_of(n).len() ==> is_digit(#[trigger] dec_of(n)[k]),
    decreases n,
{
    if n < 10 {
        assert(is_digit(dec_of(n)[0]));
    } else {
        lemma_dec_of_digits(n / 10);
        assert forall|k: int| 0 <= k < dec_of(n).len() implies is_digit(
            #[trigger] dec_of(n)[k],
        ) by {
            if k < dec_of(n / 10).len() {
                assert(dec_of(n)[k] == dec_of(n / 10)[k]);
            } else {
                assert(dec_of(n)[k] == (48 + n % 10) as u8);
            }
        }
    }
}

proof fn lemma_dec_of_len(n: int, k: nat)
    requires
        1 <= k,
        0 <= n < pow10(k),
    ensures
        dec_of(n).len() <= k,
    decreases k,
{
    if n >= 10 {
        assert(pow10(k) == 10 * pow10((k - 1) as nat));
        if k == 1 {
            assert(pow10(0) == 1);
            assert(false);
        }
        assert(n == 10 * (n / 10) + n % 10);
        assert(n / 10 < pow10((k - 1) as nat));
        lemma_dec_of_len(n / 10, (k - 1) as nat);
    }
}

proof fn lemma_dec_of_u32_len(n: int)
    requires
        0 <= n <= u32::MAX,
    ensures
        1 <= dec_of(n).len() <= 10,
    decreases n,
{
    lemma_pow10_ten();
    lemma_dec_of_len(n, 10);
    lemma_dec_of_digits(n);
}

proof fn lemma_val_of_dec_of(n: int)
    requires
        0 <= n,
    ensures
        val_of(dec_of(n)) == n,
    decreases n,
{
    if n < 10 {
        let d = dec_of(n);
        assert(d.len() == 1);
        assert(d.drop_last() =~= Seq::<u8>::empty());
        assert(val_of(d) == val_of(d.drop_last()) * 10 + (d.last() - 48));
        assert(d.last() == (48 + n) as u8);
    } else {
        lemma_val_of_dec_of(n / 10);
        assert(dec_of(n).drop_last() =~= dec_of(n / 10));
        assert(dec_of(n).last() == (48 + n % 10) as u8);
        assert(val_of(dec_of(n)) == (n / 10) * 10 + (n % 10));
        assert(n == 10 * (n / 10) + n % 10);
    }
}

proof fn lemma_digit_run_exact(s: Seq<u8>, i: int, j: int)
    requires
        0 <= i <= j <= s.len(),
        forall|t: int| i <= t < j ==> is_digit(#[trigger] s[t]),
        j == s.len() || !is_digit(s[j]),
    ensures
        digit_run(s, i) == j,
    decreases j - i,
{
    if i < j {
        assert(is_digit(s[i]));
        lemma_digit_run_exact(s, i + 1, j);
    }
}

/// Parsing a number right where its printed digits stand, with a non-digit
/// (or the end) just after them, yields exactly that number.
proof fn lemma_parse_num_at(s: Seq<u8>, i: int, n: int)
    requires
        0 <= n <= u32::MAX,
        0 <= i,
        i + dec_of(n).len() <= s.len(),
        forall|k: int| 0 <= k < dec_of(n).len() ==> s[i + k] == #[trigger] dec_of(n)[k],
        i + dec_of(n).len() == s.len() || !is_digit(s[i + dec_of(n).len()]),
    ensures
        parse_num(s, i) == Option::Some((n as u32, i + dec_of(n).len())),
{
    let j = i + dec_of(n).len();
    lemma_dec_of_digits(n);
    lemma_dec_of_u32_len(n);
    assert forall|t: int| i <= t < j implies is_digit(#[trigger] s[t]) by {
        assert(s[t] == dec_of(n)[t - i]);
    }
    lemma_digit_run_exact(s, i, j);
    assert(s.subrange(i, j) =~= dec_of(n)) by {
        assert forall|k: int| 0 <= k < dec_of(n).len() implies s.subrange(i, j)[k] == dec_of(n)[k]
        by {
            assert(s[i + k] == dec_of(n)[k]);
        }
    }
    lemma_val_of_dec_of(n);
}

/// Parsing a list of numbers right where their printed, comma-separated
/// digits stand, with a `]` just after them, yields exactly those numbers.
proof fn lemma_parse_items_at(s: Seq<u8>, i: int, rolls: Seq<u32>)
    requires
        rolls.len() >= 1,
        0 <= i,
        i + list_of(rolls).len() < s.len(),
        forall|k: int| 0 <= k < list_of(rolls).len() ==> s[i + k] == #[trigger] list_of(rolls)[k],
        s[i + list_of(rolls).len()] == 93,
    ensures
        parse_items(s, i) == Option::Some((rolls, i + list_of(rolls).len())),
    decreases rolls.len(),
{
    let ll = list_of(rolls).len();
    let r0 = rolls[0];
    let d0 = dec_of(r0 as int);
    lemma_dec_of_digits(r0 as int);
    if rolls.len() == 1 {
        assert(list_of(rolls) == d0);
        assert forall|k: int| 0 <= k < d0.len() implies s[i + k] == #[trigger] d0[k] by {
            assert(s[i + k] == list_of(rolls)[k]);
        }
        assert(!is_digit(s[i + d0.len()]));
        lemma_parse_num_at(s, i, r0 as int);
        assert(s[i + ll] != 44);
        assert(parse_items(s, i) == Option::Some((seq![r0], i + ll)));
        assert(seq![r0] =~= rolls);
    } else {
        let rest = rolls.drop_first();
        assert(list_of(rolls) == d0 + seq![44u8] + list_of(rest));
        assert(ll == d0.len() + 1 + list_of(rest).len());
        assert forall|k: int| 0 <= k < d0.len() implies s[i + k] == #[trigger] d0[k] by {
            assert(s[i + k] == list_of(rolls)[k]);
            assert(list_of(rolls)[k] == d0[k]);
        }
        assert(s[i + d0.len()] == list_of(rolls)[d0.len() as int]);
        assert(list_of(rolls)[d0.len() as int] == 44);
        lemma_parse_num_at(s, i, r0 as int);
        let i2 = i + d0.len() + 1;
        assert forall|k: int| 0 <= k < list_of(rest).len() implies s[i2 + k] == #[trigger] list_of(
            rest,
        )[k] by {
            assert(s[i + (d0.len() + 1 + k)] == list_of(rolls)[d0.len() + 1 + k]);
            assert(list_of(rolls)[d0.len() + 1 + k] == list_of(rest)[k]);
        }
        assert(s[i2 + list_of(rest).len()] == 93);
        lemma_parse_items_at(s, i2, rest);
        assert(parse_items(s, i2) == Option::Some((rest, i2 + list_of(rest).len())));
        assert(s[i + d0.len()] == 44);
        assert(parse_items(s, i) == Option::Some((seq![r0] + rest, i + ll)));
        assert(seq![r0] + rest =~= rolls);
    }
}

/// Decoding an encoded roll result gives back exactly the values that were
/// encoded: the payload format loses nothing.
pub proof fn lemma_round_trip(dice: u32, rolls: Seq<u32>, total: u32)
    ensures
        spec_decode(json_of(dice, rolls, total)) == Option::Some((dice, rolls, total)),
{
    let s = json_of(dice, rolls, total);
    let d1 = dec_of(dice as int);
    let lb = list_of(rolls);
    let d2 = dec_of(total as int);
    lemma_dec_of_digits(dice as int);
    lemma_dec_of_u32_len(dice as int);
    lemma_dec_of_digits(total as int);
    lemma_dec_of_u32_len(total as int);
    let a2 = 8 + d1.len() as int;
    let a3 = a2 + 10;
    let a4 = a3 + lb.len() as int;
    let a5 = a4 + 10;
    let a6 = a5 + d2.len() as int;
    assert(s.len() == a6 + 1);
    assert(expect(s, 0, lit_dice())) by {
        assert forall|k: int| 0 <= k < 8 implies s[0 + k] == #[trigger] lit_dice()[k] by {
            assert(s[k] == lit_dice()[k]);
        }
    }
    assert forall|k: int| 0 <= k < d1.len() implies s[8 + k] == #[trigger] d1[k] by {
        assert(s[8 + k] == d1[k]);
    }
    assert(s[a2] == lit_rolls()[0]);
    assert(lit_rolls()[0] == 44);
    lemma_parse_num_at(s, 8, dice as int);
    assert(parse_num(s, 8) == Option::Some((dice, a2)));
    assert(expect(s, a2, lit_rolls())) by {
        assert forall|k: int| 0 <= k < 10 implies s[a2 + k] == #[trigger] lit_rolls()[k] by {
            assert(s[a2 + k] == lit_rolls()[k]);
        }
    }
    if rolls.len() == 0 {
        assert(lb.len() == 0);
        assert(a3 == a4);
        assert(expect(s, a3, lit_total())) by {
            assert forall|k: int| 0 <= k < 10 implies s[a3 + k] == #[trigger] lit_total()[k] by {
                assert(s[a3 + k] == lit_total()[k]);
            }
        }
        assert forall|k: int| 0 <= k < d2.len() implies s[a5 + k] == #[trigger] d2[k] by {
            assert(s[a5 + k] == d2[k]);
        }
        assert(s[a6] == 125);
        lemma_parse_num_at(s, a5, total as int);
        assert(finish_num(s, a3 + 10) == Option::Some(total));
        assert(rolls =~= Seq::<u32>::empty());
    } else {
        assert(lb.len() >= 1);
        assert(lb[0] == dec_of(rolls[0] as int)[0]) by {
            if rolls.len() == 1 {
                assert(lb == dec_of(rolls[0] as int));
            } else {
                assert(lb == dec_of(rolls[0] as int) + seq![44u8] + list_of(rolls.drop_first()));
                lemma_dec_of_digits(rolls[0] as int);
            }
        }
        lemma_dec_of_digits(rolls[0] as int);
        assert(s[a3] == lb[0]);
        assert(is_digit(s[a3]));
        assert(!expect(s, a3, lit_total())) by {
            if expect(s, a3, lit_total()) {
                assert(s[a3 + 0] == lit_total()[0]);
                assert(lit_total()[0] == 93);
            }
        }
        assert forall|k: int| 0 <= k < lb.len() implies s[a3 + k] == #[trigger] lb[k] by {
            assert(s[a3 + k] == lb[k]);
        }
        assert(s[a4] == lit_total()[0]);
        assert(lit_total()[0] == 93);
        lemma_parse_items_at(s, a3, rolls);
        assert(parse_items(s, a3) == Option::Some((rolls, a4)));
        assert(expect(s, a4, lit_total())) by {
            assert forall|k: int| 0 <= k < 10 implies s[a4 + k] == #[trigger] lit_total()[k] by {
                assert(s[a4 + k] == lit_total()[k]);
            }
        }
        assert forall|k: int| 0 <= k < d2.len() implies s[a5 + k] == #[trigger] d2[k] by {
            assert(s[a5 + k] == d2[k]);
        }
        assert(s[a6] == 125);
        lemma_parse_num_at(s, a5, total as int);
        assert(finish_num(s, a4 + 10) == Option::Some(total));
    }
}

} // verus!
