//! CSV ingestion: parsing byte text with a header row into a
//! [`TabularStore`], and a bounded retry wrapper over a sequence of read
//! attempts.
//!
//! The grammar is plain CSV: lines separated by a newline (an optional
//! trailing carriage return per line is dropped, as is one trailing empty
//! line), fields separated by commas, every cell either empty (null) or a
//! decimal number with up to six fraction digits, read exactly into the
//! fixed-point scale [`UNIT`].

use vstd::prelude::*;
use crate::store::{Column, StoreModel, TabularStore, UNIT, VAL_LIMIT};

verus! {

/// Splitting a byte sequence at a separator: always at least one part;
/// a separator ends the current part.
pub open spec fn split_at_sep(s: Seq<u8>, sep: u8) -> Seq<Seq<u8>>
    decreases s.len(),
{
    if s.len() == 0 {
        seq![Seq::empty()]
    } else {
        let prev = split_at_sep(s.drop_last(), sep);
        if s.last() == sep {
            prev.push(Seq::empty())
        } else {
            prev.update(prev.len() - 1, prev.last().push(s.last()))
        }
    }
}

/// A split has at least one part.
pub proof fn lemma_split_nonempty(s: Seq<u8>, sep: u8)
    ensures
        split_at_sep(s, sep).len() >= 1,
    decreases s.len(),
{
    if s.len() > 0 {
        lemma_split_nonempty(s.drop_last(), sep);
    }
}

/// Splits a byte slice at every occurrence of `sep`.
pub fn split_bytes(s: &[u8], sep: u8) -> (r: Vec<Vec<u8>>)
    ensures
        r@.len() == split_at_sep(s@, sep).len(),
        forall|k: int| 0 <= k < r@.len() ==> (#[trigger] r@[k])@ == split_at_sep(s@, sep)[k],
{
    let mut out: Vec<Vec<u8>> = Vec::new();
    let mut cur: Vec<u8> = Vec::new();
    let mut i: usize = 0;
    proof {
        assert(s@.take(0) =~= Seq::<u8>::empty());
        assert(split_at_sep(s@.take(0), sep) =~= seq![Seq::<u8>::empty()]);
        assert(cur@ =~= Seq::<u8>::empty());
    }
    while i < s.len()
        invariant
            0 <= i <= s@.len(),
            out@.len() + 1 == split_at_sep(s@.take(i as int), sep).len(),
            forall|k: int| 0 <= k < out@.len() ==> (#[trigger] out@[k])@ == split_at_sep(
                s@.take(i as int),
                sep,
            )[k],
            cur@ == split_at_sep(s@.take(i as int), sep).last(),
        decreases s@.len() - i,
    {
        let ghost sp = split_at_sep(s@.take(i as int), sep);
        proof {
            lemma_split_nonempty(s@.take(i as int), sep);
            assert(s@.take(i + 1).drop_last() =~= s@.take(i as int));
            assert(s@.take(i + 1).last() == s@[i as int]);
        }
        let c = s[i];
        if c == sep {
            out.push(cur);
            cur = Vec::new();
            proof {
                let sp2 = split_at_sep(s@.take(i + 1), sep);
                assert(sp2 == sp.push(Seq::<u8>::empty()));
                assert(cur@ =~= Seq::<u8>::empty());
                assert(out@[out@.len() - 1]@ == sp2[out@.len() - 1]);
            }
        } else {
            cur.push(c);
            proof {
                let sp2 = split_at_sep(s@.take(i + 1), sep);
                assert(sp2 == sp.update(sp.len() - 1, sp.last().push(c)));
                assert(cur@ == sp2.last());
                assert(forall|k: int| 0 <= k < out@.len() ==> sp2[k] == sp[k]);
            }
        }
        i = i + 1;
    }
    proof {
        assert(s@.take(s@.len() as int) =~= s@);
        lemma_split_nonempty(s@, sep);
    }
    out.push(cur);
    out
}

/// A line with one trailing carriage return dropped.
pub open spec fn trim_cr(s: Seq<u8>) -> Seq<u8> {
    if s.len() > 0 && s.last() == 13 {
        s.drop_last()
    } else {
        s
    }
}

/// Drops one trailing carriage return, if present.
pub fn trim_cr_vec(v: Vec<u8>) -> (r: Vec<u8>)
    ensures
        r@ == trim_cr(v@),
{
    let mut v = v;
    if v.len() > 0 && v[v.len() - 1] == 13 {
        let _ = v.pop();
    }
    v
}

/// ASCII decimal digit.
pub open spec fn is_digit(b: u8) -> bool {
    48 <= b <= 57
}

/// All bytes are digits.
pub open spec fn all_digits(s: Seq<u8>) -> bool {
    forall|i: int| 0 <= i < s.len() ==> is_digit(#[trigger] s[i])
}

/// Value of a digit string, most significant first.
pub open spec fn digits_val(s: Seq<u8>) -> int
    decreases s.len(),
{
    if s.len() == 0 {
        0
    } else {
        digits_val(s.drop_last()) * 10 + (s.last() - 48)
    }
}

/// Ten to the `k`.
pub open spec fn pow10(k: nat) -> int
    decreases k,
{
    if k == 0 {
        1
    } else {
        10 * pow10((k - 1) as nat)
    }
}

/// A digit string's value is non-negative and below ten to its length.
pub proof fn lemma_digits_val_bounds(s: Seq<u8>)
    requires
        all_digits(s),
    ensures
        0 <= digits_val(s) < pow10(s.len()),
    decreases s.len(),
{
    if s.len() > 0 {
        assert(all_digits(s.drop_last())) by {
            assert(forall|i: int| 0 <= i < s.len() - 1 ==> s.drop_last()[i] == s[i]);
        }
        lemma_digits_val_bounds(s.drop_last());
        let d = s.last() - 48;
        assert(is_digit(s[s.len() - 1]));
        assert(0 <= d <= 9);
        let p = pow10((s.len() - 1) as nat);
        assert(digits_val(s) == digits_val(s.drop_last()) * 10 + d);
        assert(digits_val(s.drop_last()) * 10 + d < p * 10) by (nonlinear_arith)
            requires
                digits_val(s.drop_last()) < p,
                0 <= d <= 9,
        ;
        assert(pow10(s.len()) == 10 * p);
        assert(digits_val(s.drop_last()) * 10 >= 0) by (nonlinear_arith)
            requires
                digits_val(s.drop_last()) >= 0,
        ;
    }
}

/// A valid fraction split of a number: one dot, digits on both sides, one
/// to six fraction digits.
pub open spec fn frac_split_ok(s: Seq<u8>, p: int) -> bool {
    &&& 1 <= p < s.len()
    &&& s[p] == 46
    &&& all_digits(s.take(p))
    &&& all_digits(s.skip(p + 1))
    &&& 1 <= s.len() - p - 1 <= 6
}

/// At most one fraction split is valid.
pub proof fn lemma_frac_split_unique(s: Seq<u8>, p1: int, p2: int)
    requires
        frac_split_ok(s, p1),
        frac_split_ok(s, p2),
    ensures
        p1 == p2,
{
    if p1 < p2 {
        assert(s.skip(p1 + 1)[p2 - p1 - 1] == s[p2]);
        assert(is_digit(s[p2]));
    }
    if p2 < p1 {
        assert(s.skip(p2 + 1)[p1 - p2 - 1] == s[p1]);
        assert(is_digit(s[p1]));
    }
}

/// The non-negative fixed-point value of an unsigned number literal:
/// either all digits, or digits, one dot, and one to six fraction digits.
pub open spec fn spec_number(s: Seq<u8>) -> Option<int> {
    if s.len() > 0 && all_digits(s) {
        Some(digits_val(s) * UNIT)
    } else if exists|p: int| frac_split_ok(s, p) {
        let p = choose|p: int| frac_split_ok(s, p);
        Some(
            digits_val(s.take(p)) * UNIT + digits_val(s.skip(p + 1)) * pow10(
                (6 - (s.len() - p - 1)) as nat,
            ),
        )
    } else {
        None
    }
}

/// The value of a cell: `None` for a malformed cell, `Some(None)` for an
/// empty (null) cell, `Some(Some(v))` for a number whose fixed-point value
/// `v` fits the store's value bound.
pub open spec fn spec_cell_value(s: Seq<u8>) -> Option<Option<i64>> {
    if s.len() == 0 {
        Some(None)
    } else if s[0] == 45 {
        match spec_number(s.skip(1)) {
            Some(v) => if v <= VAL_LIMIT {
                Some(Some((-v) as i64))
            } else {
                None
            },
            None => None,
        }
    } else {
        match spec_number(s) {
            Some(v) => if v <= VAL_LIMIT {
                Some(Some(v as i64))
            } else {
                None
            },
            None => None,
        }
    }
}

/// A parsed cell value is in the store's range.
pub proof fn lemma_cell_value_bounded(s: Seq<u8>)
    ensures
        spec_cell_value(s) matches Some(c) ==> crate::store::cell_ok(c),
{
    if s.len() > 0 {
        if s[0] == 45 {
            if spec_number(s.skip(1)) matches Some(v) && v <= VAL_LIMIT {
                lemma_spec_number_nonneg(s.skip(1));
            }
        } else {
            if spec_number(s) matches Some(v) && v <= VAL_LIMIT {
                lemma_spec_number_nonneg(s);
            }
        }
    }
}

/// A parsed unsigned number is non-negative.
pub proof fn lemma_spec_number_nonneg(s: Seq<u8>)
    ensures
        spec_number(s) matches Some(v) ==> v >= 0,
{
    if s.len() > 0 && all_digits(s) {
        lemma_digits_val_bounds(s);
        assert(digits_val(s) * UNIT >= 0) by (nonlinear_arith)
            requires
                digits_val(s) >= 0,
                UNIT > 0,
        ;
    } else if exists|p: int| frac_split_ok(s, p) {
        let p = choose|p: int| frac_split_ok(s, p);
        lemma_digits_val_bounds(s.take(p));
        lemma_digits_val_bounds(s.skip(p + 1));
        lemma_pow10_pos((6 - (s.len() - p - 1)) as nat);
        assert(digits_val(s.take(p)) * UNIT >= 0) by (nonlinear_arith)
            requires
                digits_val(s.take(p)) >= 0,
                UNIT > 0,
        ;
        assert(digits_val(s.skip(p + 1)) * pow10((6 - (s.len() - p - 1)) as nat) >= 0)
            by (nonlinear_arith)
            requires
                digits_val(s.skip(p + 1)) >= 0,
                pow10((6 - (s.len() - p - 1)) as nat) > 0,
        ;
    }
}

/// Ten to the `k` is positive.
pub proof fn lemma_pow10_pos(k: nat)
    ensures
        pow10(k) >= 1,
    decreases k,
{
    if k > 0 {
        lemma_pow10_pos((k - 1) as nat);
    }
}

/// Powers of ten multiply by adding exponents.
pub proof fn lemma_pow10_add(a: nat, b: nat)
    ensures
        pow10(a + b) == pow10(a) * pow10(b),
    decreases a,
{
    if a == 0 {
        assert(pow10(b) == 1 * pow10(b)) by (nonlinear_arith);
    } else {
        lemma_pow10_add((a - 1) as nat, b);
        assert((a - 1) + b == (a + b) - 1);
        assert(pow10(a + b) == 10 * pow10(((a + b) - 1) as nat));
        assert(10 * (pow10((a - 1) as nat) * pow10(b)) == (10 * pow10((a - 1) as nat)) * pow10(
            b,
        )) by (nonlinear_arith);
    }
}

/// Ten to the `k`, for small `k`.
fn pow10_exec(k: usize) -> (r: i64)
    requires
        k <= 6,
    ensures
        r as int == pow10(k as nat),
        1 <= r <= 1_000_000,
{
    let mut r: i64 = 1;
    let mut i: usize = 0;
    while i < k
        invariant
            0 <= i <= k <= 6,
            r as int == pow10(i as nat),
            1 <= r <= 1_000_000,
        decreases k - i,
    {
        proof {
            reveal_with_fuel(pow10, 8);
            lemma_pow10_pos(k as nat);
        }
        r = r * 10;
        i = i + 1;
    }
    r
}

/// Value of the digit run `s[from..to]`, watching the integer-part cap:
/// `None` means the value exceeds one million.
fn digits_to_val(s: &[u8], from: usize, to: usize) -> (r: Option<i64>)
    requires
        from <= to <= s@.len(),
        forall|k: int| from <= k < to ==> is_digit(#[trigger] s@[k]),
    ensures
        match r {
            Some(w) => w as int == digits_val(s@.subrange(from as int, to as int)) && 0 <= w
                <= 1_000_000,
            None => digits_val(s@.subrange(from as int, to as int)) > 1_000_000,
        },
{
    let mut acc: i64 = 0;
    let mut over = false;
    let mut i: usize = from;
    proof {
        assert(s@.subrange(from as int, from as int) =~= Seq::<u8>::empty());
    }
    while i < to
        invariant
            from <= i <= to <= s@.len(),
            forall|k: int| from <= k < to ==> is_digit(#[trigger] s@[k]),
            !over ==> acc as int == digits_val(s@.subrange(from as int, i as int)) && 0 <= acc
                <= 1_000_000,
            over ==> digits_val(s@.subrange(from as int, i as int)) > 1_000_000,
        decreases to - i,
    {
        let ghost pre = s@.subrange(from as int, i as int);
        proof {
            assert(s@.subrange(from as int, i + 1).drop_last() =~= pre);
            assert(s@.subrange(from as int, i + 1).last() == s@[i as int]);
            assert(is_digit(s@[i as int]));
        }
        let c = s[i];
        let d: i64 = (c - 48) as i64;
        if !over {
            let tentative: i64 = acc * 10 + d;
            if tentative > 1_000_000 {
                over = true;
            } else {
                acc = tentative;
            }
        } else {
            proof {
                assert(digits_val(s@.subrange(from as int, i + 1)) == digits_val(pre) * 10 + (
                s@[i as int] - 48));
                assert(digits_val(pre) * 10 + (s@[i as int] - 48) > 1_000_000)
                    by (nonlinear_arith)
                    requires
                        digits_val(pre) > 1_000_000,
                        s@[i as int] >= 48,
                ;
            }
        }
        i = i + 1;
    }
    if over {
        None
    } else {
        Some(acc)
    }
}

/// Parses one cell into its fixed-point value.
pub fn parse_cell(s: &[u8]) -> (r: Option<Option<i64>>)
    ensures
        r == spec_cell_value(s@),
{
    if s.len() == 0 {
        return Some(None);
    }
    let neg = s[0] == 45;
    let from: usize = if neg { 1 } else { 0 };
    let ghost sub = s@.skip(from as int);
    proof {
        if !neg {
            assert(sub =~= s@);
        }
    }
    let v = parse_unsigned(s, from);
    match v {
        Some(w) => {
            if neg {
                Some(Some(-w))
            } else {
                Some(Some(w))
            }
        },
        None => None,
    }
}

/// Parses the unsigned number `s[from..]`: `Some(w)` exactly when the text
/// is a well-formed number whose value fits the store's bound.
fn parse_unsigned(s: &[u8], from: usize) -> (r: Option<i64>)
    requires
        from <= s@.len(),
    ensures
        match r {
            Some(w) => spec_number(s@.skip(from as int)) == Some(w as int) && 0 <= w
                <= VAL_LIMIT,
            None => !(spec_number(s@.skip(from as int)) matches Some(v) && v <= VAL_LIMIT),
        },
{
    let ghost sub = s@.skip(from as int);
    let n = s.len();
    let mut dot: Option<usize> = None;
    let mut i: usize = from;
    while i < n
        invariant
            from <= i <= n,
            n == s@.len(),
            sub == s@.skip(from as int),
            match dot {
                Some(d) => from <= d < i && s@[d as int] == 46 && forall|k: int|
                    from <= k < i && k != d ==> is_digit(#[trigger] s@[k]),
                None => forall|k: int| from <= k < i ==> is_digit(#[trigger] s@[k]),
            },
        decreases n - i,
    {
        let c = s[i];
        if c == 46 {
            match dot {
                Some(d) => {
                    proof {
                        lemma_no_split_two_dots(sub, d - from, i - from);
                        assert(!all_digits(sub)) by {
                            assert(sub[d - from] == 46);
                        }
                    }
                    return None;
                },
                None => {
                    dot = Some(i);
                },
            }
        } else if c < 48 || c > 57 {
            proof {
                lemma_no_split_bad_char(sub, i - from);
                assert(!all_digits(sub)) by {
                    assert(sub[i - from] == c);
                }
            }
            return None;
        }
        i = i + 1;
    }
    match dot {
        None => {
            if from == n {
                proof {
                    assert(sub.len() == 0);
                    assert forall|p: int| !frac_split_ok(sub, p) by {}
                }
                return None;
            }
            proof {
                assert(all_digits(sub)) by {
                    assert(forall|k: int| 0 <= k < sub.len() ==> sub[k] == s@[from + k]);
                }
                assert(sub =~= s@.subrange(from as int, n as int));
            }
            match digits_to_val(s, from, n) {
                Some(w) => {
                    proof {
                        assert(w * UNIT <= 1_000_000_000_000) by (nonlinear_arith)
                            requires
                                0 <= w <= 1_000_000,
                        ;
                        assert(w * UNIT >= 0) by (nonlinear_arith)
                            requires
                                w >= 0,
                        ;
                    }
                    Some(w * UNIT)
                },
                None => {
                    proof {
                        assert(digits_val(sub) * UNIT > VAL_LIMIT) by (nonlinear_arith)
                            requires
                                digits_val(sub) > 1_000_000,
                                UNIT == 1_000_000,
                                VAL_LIMIT == 1_000_000_000_000,
                        ;
                    }
                    None
                },
            }
        },
        Some(dp) => {
            let ghost p = dp - from;
            proof {
                assert(!all_digits(sub)) by {
                    assert(sub[p] == 46);
                }
            }
            let ip_len = dp - from;
            let fp_len = n - dp - 1;
            if ip_len < 1 || fp_len < 1 || fp_len > 6 {
                proof {
                    assert forall|q: int| !frac_split_ok(sub, q) by {
                        if frac_split_ok(sub, q) {
                            assert(sub[q] == 46);
                            if q != p {
                                if q < p {
                                    assert(sub.skip(q + 1)[p - q - 1] == sub[p]);
                                    assert(is_digit(sub[p]));
                                } else {
                                    assert(sub.take(q)[p] == sub[p]);
                                    assert(is_digit(sub[p]));
                                }
                            }
                        }
                    }
                }
                return None;
            }
            proof {
                assert(frac_split_ok(sub, p)) by {
                    assert(sub[p] == 46);
                    assert(forall|k: int| 0 <= k < p ==> sub.take(p)[k] == s@[from + k]);
                    assert(forall|k: int| 0 <= k < sub.len() - p - 1
                        ==> #[trigger] sub.skip(p + 1)[k] == s@[dp + 1 + k]);
                }
                assert(sub.take(p) =~= s@.subrange(from as int, dp as int));
                assert(sub.skip(p + 1) =~= s@.subrange(dp + 1, n as int));
                assert(forall|k: int| from <= k < dp ==> is_digit(#[trigger] s@[k]));
                assert(forall|k: int| dp + 1 <= k < n ==> is_digit(#[trigger] s@[k]));
            }
            let scale = pow10_exec(6 - fp_len);
            let wf = match digits_to_val(s, dp + 1, n) {
                Some(w) => w,
                None => {
                    proof {
                        lemma_digits_val_bounds(s@.subrange(dp + 1, n as int));
                        lemma_pow10_le6(s@.subrange(dp + 1, n as int).len() as nat);
                        assert(false);
                    }
                    0
                },
            };
            let wi = match digits_to_val(s, from, dp) {
                Some(w) => w,
                None => {
                    proof {
                        lemma_value_over(sub, p);
                    }
                    return None;
                },
            };
            proof {
                lemma_digits_val_bounds(sub.skip(p + 1));
                lemma_pow10_add((sub.len() - p - 1) as nat, (6 - (sub.len() - p - 1)) as nat);
                assert(pow10(6) == 1_000_000) by {
                    reveal_with_fuel(pow10, 8);
                }
                assert(wf * scale < 1_000_000) by (nonlinear_arith)
                    requires
                        0 <= wf < pow10((sub.len() - p - 1) as nat),
                        scale == pow10((6 - (sub.len() - p - 1)) as nat),
                        scale >= 1,
                        pow10((sub.len() - p - 1) as nat) * pow10(
                            (6 - (sub.len() - p - 1)) as nat,
                        ) == 1_000_000,
                ;
                assert(wf * scale >= 0) by (nonlinear_arith)
                    requires
                        wf >= 0,
                        scale >= 1,
                ;
                assert(wi * UNIT <= 1_000_000_000_000) by (nonlinear_arith)
                    requires
                        0 <= wi <= 1_000_000,
                ;
                assert(wi * UNIT >= 0) by (nonlinear_arith)
                    requires
                        wi >= 0,
                ;
            }
            let v = wi * UNIT + wf * scale;
            proof {
                let pc = choose|pc: int| frac_split_ok(sub, pc);
                lemma_frac_split_unique(sub, pc, p);
                assert(spec_number(sub) == Some(
                    digits_val(sub.take(p)) * UNIT + digits_val(sub.skip(p + 1)) * pow10(
                        (6 - (sub.len() - p - 1)) as nat,
                    ),
                ));
            }
            if v <= VAL_LIMIT {
                Some(v)
            } else {
                None
            }
        },
    }
}

/// Two dots leave no valid fraction split.
proof fn lemma_no_split_two_dots(sub: Seq<u8>, d1: int, d2: int)
    requires
        0 <= d1 < d2 < sub.len(),
        sub[d1] == 46,
        sub[d2] == 46,
    ensures
        forall|p: int| !frac_split_ok(sub, p),
{
    assert forall|p: int| !frac_split_ok(sub, p) by {
        if frac_split_ok(sub, p) {
            if d1 < p {
                assert(sub.take(p)[d1] == sub[d1]);
                assert(is_digit(sub[d1]));
            } else if d1 > p {
                assert(sub.skip(p + 1)[d1 - p - 1] == sub[d1]);
                assert(is_digit(sub[d1]));
            } else {
                assert(sub.skip(p + 1)[d2 - p - 1] == sub[d2]);
                assert(is_digit(sub[d2]));
            }
        }
    }
}

/// A byte that is neither digit nor dot leaves no valid fraction split.
proof fn lemma_no_split_bad_char(sub: Seq<u8>, b: int)
    requires
        0 <= b < sub.len(),
        !is_digit(sub[b]),
        sub[b] != 46,
    ensures
        forall|p: int| !frac_split_ok(sub, p),
{
    assert forall|p: int| !frac_split_ok(sub, p) by {
        if frac_split_ok(sub, p) {
            if b < p {
                assert(sub.take(p)[b] == sub[b]);
            } else if b > p {
                assert(sub.skip(p + 1)[b - p - 1] == sub[b]);
            } else {
                assert(sub[p] == 46);
            }
        }
    }
}

/// Up to six digits stay under one million.
proof fn lemma_pow10_le6(k: nat)
    requires
        k <= 6,
    ensures
        pow10(k) <= 1_000_000,
{
    reveal_with_fuel(pow10, 8);
    if k == 0 {
    } else if k == 1 {
    } else if k == 2 {
    } else if k == 3 {
    } else if k == 4 {
    } else if k == 5 {
    } else {
        assert(k == 6);
    }
}

/// An oversized integer part makes the whole value oversized.
proof fn lemma_value_over(sub: Seq<u8>, p: int)
    requires
        frac_split_ok(sub, p),
        digits_val(sub.take(p)) > 1_000_000,
    ensures
        spec_number(sub) matches Some(v) ==> v > VAL_LIMIT,
{
    assert(!all_digits(sub)) by {
        assert(sub[p] == 46);
    }
    let pc = choose|pc: int| frac_split_ok(sub, pc);
    lemma_frac_split_unique(sub, pc, p);
    lemma_digits_val_bounds(sub.skip(p + 1));
    lemma_pow10_pos((6 - (sub.len() - p - 1)) as nat);
    assert(digits_val(sub.take(p)) * UNIT > VAL_LIMIT) by (nonlinear_arith)
        requires
            digits_val(sub.take(p)) > 1_000_000,
            UNIT == 1_000_000,
            VAL_LIMIT == 1_000_000_000_000,
    ;
    assert(digits_val(sub.skip(p + 1)) * pow10((6 - (sub.len() - p - 1)) as nat) >= 0)
        by (nonlinear_arith)
        requires
            digits_val(sub.skip(p + 1)) >= 0,
            pow10((6 - (sub.len() - p - 1)) as nat) >= 1,
    ;
}

/// An ingestion failure: a malformed resource, an unreadable source, or
/// retry exhaustion preserving the last underlying error.
#[derive(Debug, PartialEq, Eq)]
pub enum IngestionError {
    /// The text has no line at all: not even a header.
    EmptyInput,
    /// Two header fields share a name; `col` is the first repeated one.
    DuplicateColumn { col: usize },
    /// Data line `row` has a field count different from the header's.
    ArityMismatch { row: usize },
    /// The cell at data line `row`, field `col`, is not a number.
    BadCell { row: usize, col: usize },
    /// A read attempt could not produce any text.
    SourceUnavailable,
    /// Every allowed attempt failed; `last` is the final attempt's error,
    /// or `None` when zero attempts were allowed.
    RetriesExhausted { attempts: usize, last: Option<Box<IngestionError>> },
}

/// The lines of a text: split at newlines, one trailing empty line
/// dropped, one trailing carriage return dropped per line.
pub open spec fn csv_lines(text: Seq<u8>) -> Seq<Seq<u8>> {
    let raw = split_at_sep(text, 10);
    let kept = if raw.len() > 0 && raw.last().len() == 0 {
        raw.drop_last()
    } else {
        raw
    };
    kept.map_values(|l: Seq<u8>| trim_cr(l))
}

/// The fields of a line: split at commas.
pub open spec fn fields_of(line: Seq<u8>) -> Seq<Seq<u8>> {
    split_at_sep(line, 44)
}

/// The header: the fields of the first line.
pub open spec fn header_of(text: Seq<u8>) -> Seq<Seq<u8>> {
    fields_of(csv_lines(text)[0])
}

/// All header names distinct.
pub open spec fn header_unique(h: Seq<Seq<u8>>) -> bool {
    forall|a: int, b: int| 0 <= a < b < h.len() ==> h[a] != h[b]
}

/// Line `r` has as many fields as the header.
pub open spec fn row_arity_ok(text: Seq<u8>, r: int) -> bool {
    fields_of(csv_lines(text)[r]).len() == header_of(text).len()
}

/// The cell text at line `r`, field `c`.
pub open spec fn cell_text(text: Seq<u8>, r: int, c: int) -> Seq<u8> {
    fields_of(csv_lines(text)[r])[c]
}

/// All cells of line `r` before field `c`, and all cells of earlier data
/// lines, parse; those earlier lines also have the right arity.
pub open spec fn prefix_ok(text: Seq<u8>, r: int, c: int) -> bool {
    &&& forall|r2: int| 1 <= r2 < r ==> row_arity_ok(text, r2)
    &&& forall|r2: int, c2: int|
        1 <= r2 < r && 0 <= c2 < header_of(text).len() ==> spec_cell_value(
            #[trigger] cell_text(text, r2, c2),
        ) is Some
    &&& forall|c2: int| 0 <= c2 < c ==> spec_cell_value(
        #[trigger] cell_text(text, r, c2),
    ) is Some
}

/// A well-formed CSV text: at least a header line, unique header names,
/// every data line of header arity, every cell parseable.
pub open spec fn csv_ok(text: Seq<u8>) -> bool {
    let lines = csv_lines(text);
    &&& lines.len() >= 1
    &&& header_unique(header_of(text))
    &&& forall|r: int| 1 <= r < lines.len() ==> row_arity_ok(text, r)
    &&& forall|r: int, c: int|
        1 <= r < lines.len() && 0 <= c < header_of(text).len() ==> spec_cell_value(
            #[trigger] cell_text(text, r, c),
        ) is Some
}

/// The store a well-formed CSV text denotes: one column per header field,
/// named by it and constrained non-negative, one row per data line, each
/// cell the parsed value.
pub open spec fn ingest_model(text: Seq<u8>) -> StoreModel {
    let lines = csv_lines(text);
    let h = header_of(text);
    StoreModel {
        rows: (lines.len() - 1) as nat,
        cols: Seq::new(
            h.len(),
            |j: int| crate::store::ColModel {
                name: h[j],
                nonneg: true,
                cells: Seq::new(
                    (lines.len() - 1) as nat,
                    |i: int| spec_cell_value(cell_text(text, i + 1, j))->0,
                ),
            },
        ),
    }
}

/// Exactly which malformed inputs produce which error, in scan order:
/// header first, then each data line's arity, then its cells left to
/// right.
pub open spec fn ingest_err_ok(text: Seq<u8>, e: IngestionError) -> bool {
    let lines = csv_lines(text);
    let h = header_of(text);
    match e {
        IngestionError::EmptyInput => lines.len() == 0,
        IngestionError::DuplicateColumn { col } => {
            &&& lines.len() >= 1
            &&& col < h.len()
            &&& exists|a: int| 0 <= a < col && h[a] == h[col as int]
            &&& forall|a: int, b: int| 0 <= a < b < col ==> h[a] != h[b]
        },
        IngestionError::ArityMismatch { row } => {
            &&& lines.len() >= 1
            &&& header_unique(h)
            &&& 1 <= row < lines.len()
            &&& !row_arity_ok(text, row as int)
            &&& prefix_ok(text, row as int, 0)
        },
        IngestionError::BadCell { row, col } => {
            &&& lines.len() >= 1
            &&& header_unique(h)
            &&& 1 <= row < lines.len()
            &&& row_arity_ok(text, row as int)
            &&& col < h.len()
            &&& spec_cell_value(cell_text(text, row as int, col as int)) is None
            &&& prefix_ok(text, row as int, col as int)
        },
        _ => false,
    }
}

/// Splits a text into its lines.
fn lines_of(text: &[u8]) -> (r: Vec<Vec<u8>>)
    ensures
        r@.len() == csv_lines(text@).len(),
        forall|k: int| 0 <= k < r@.len() ==> (#[trigger] r@[k])@ == csv_lines(text@)[k],
{
    let raw = split_bytes(text, 10);
    let mut raw = raw;
    proof {
        lemma_split_nonempty(text@, 10);
    }
    if raw.len() > 0 && raw[raw.len() - 1].len() == 0 {
        let _ = raw.pop();
    }
    let mut out: Vec<Vec<u8>> = Vec::new();
    let mut i: usize = 0;
    while i < raw.len()
        invariant
            0 <= i <= raw@.len(),
            out@.len() == i,
            raw@.len() == csv_lines(text@).len(),
            forall|k: int| 0 <= k < raw@.len() ==> trim_cr((#[trigger] raw@[k])@) == csv_lines(
                text@,
            )[k],
            forall|k: int| 0 <= k < i ==> (#[trigger] out@[k])@ == csv_lines(text@)[k],
        decreases raw@.len() - i,
    {
        let line = trim_cr_vec(raw[i].clone());
        out.push(line);
        i = i + 1;
    }
    out
}

/// Reads CSV text into a tabular store.  The first line is the header and
/// names the columns; every further line is one data row of cells, each a
/// decimal number or empty (null).  Succeeds exactly on well-formed text
/// (`csv_ok`), returning the store the text denotes; fails with the error
/// of the first problem in scan order.
pub fn ingest_csv(text: &[u8]) -> (r: Result<TabularStore, IngestionError>)
    ensures
        r is Ok <==> csv_ok(text@),
        r matches Ok(t) ==> t@ == ingest_model(text@) && t.wf(),
        r matches Err(e) ==> ingest_err_ok(text@, e),
{
    let lines = lines_of(text);
    let ghost lm = csv_lines(text@);
    if lines.len() == 0 {
        return Err(IngestionError::EmptyInput);
    }
    let header = split_bytes(lines[0].as_slice(), 44);
    let ghost h = header_of(text@);
    proof {
        assert(lines@[0]@ == lm[0]);
        assert(header@.len() == h.len());
        assert(forall|k: int| 0 <= k < header@.len() ==> (#[trigger] header@[k])@ == h[k]);
    }
    let w = header.len();
    let mut j1: usize = 0;
    while j1 < w
        invariant
            w == header@.len(),
            header@.len() == h.len(),
            h == header_of(text@),
            csv_lines(text@).len() >= 1,
            forall|k: int| 0 <= k < header@.len() ==> (#[trigger] header@[k])@ == h[k],
            0 <= j1 <= w,
            forall|a: int, b: int| 0 <= a < b < j1 ==> h[a] != h[b],
        decreases w - j1,
    {
        let mut j2: usize = 0;
        while j2 < j1
            invariant
                w == header@.len(),
                header@.len() == h.len(),
                h == header_of(text@),
                csv_lines(text@).len() >= 1,
                forall|k: int| 0 <= k < header@.len() ==> (#[trigger] header@[k])@ == h[k],
                0 <= j2 <= j1 < w,
                forall|a: int, b: int| 0 <= a < b < j1 ==> h[a] != h[b],
                forall|a: int| 0 <= a < j2 ==> h[a] != h[j1 as int],
            decreases j1 - j2,
        {
            if crate::store::bytes_eq(header[j2].as_slice(), header[j1].as_slice()) {
                proof {
                    assert(0 <= j2 < j1 && h[j2 as int] == h[j1 as int]);
                    assert(exists|a: int| 0 <= a < j1 && h[a] == h[j1 as int]);
                    assert(!header_unique(h));
                    assert(csv_lines(text@).len() >= 1);
                    assert(j1 < header_of(text@).len());
                    assert(exists|a: int| 0 <= a < j1 && header_of(text@)[a] == header_of(
                        text@,
                    )[j1 as int]);
                    assert(forall|a: int, b: int|
                        0 <= a < b < j1 ==> header_of(text@)[a] != header_of(text@)[b]);
                    assert(ingest_err_ok(text@, IngestionError::DuplicateColumn { col: j1 }));
                    assert(!csv_ok(text@));
                }
                return Err(IngestionError::DuplicateColumn { col: j1 });
            }
            j2 = j2 + 1;
        }
        j1 = j1 + 1;
    }
    let mut rows_vals: Vec<Vec<Option<i64>>> = Vec::new();
    let mut r: usize = 1;
    while r < lines.len()
        invariant
            w == header@.len(),
            header@.len() == h.len(),
            h == header_of(text@),
            lm == csv_lines(text@),
            header_unique(h),
            lines@.len() == lm.len(),
            forall|k: int| 0 <= k < lines@.len() ==> (#[trigger] lines@[k])@ == lm[k],
            1 <= r <= lines@.len(),
            rows_vals@.len() == r - 1,
            forall|r2: int| 1 <= r2 < r ==> row_arity_ok(text@, r2),
            forall|r2: int, c2: int|
                1 <= r2 < r && 0 <= c2 < h.len() ==> spec_cell_value(
                    #[trigger] cell_text(text@, r2, c2),
                ) is Some,
            forall|r2: int, c2: int|
                1 <= r2 < r && 0 <= c2 < h.len() ==> rows_vals@[r2 - 1]@[c2]
                    == spec_cell_value(#[trigger] cell_text(text@, r2, c2))->0,
            forall|r2: int| 0 <= r2 < r - 1 ==> (#[trigger] rows_vals@[r2])@.len() == h.len(),
        decreases lines@.len() - r,
    {
        let fs = split_bytes(lines[r].as_slice(), 44);
        proof {
            assert(lines@[r as int]@ == lm[r as int]);
            assert(fs@.len() == fields_of(lm[r as int]).len());
            assert(forall|k: int| 0 <= k < fs@.len() ==> (#[trigger] fs@[k])@ == fields_of(
                lm[r as int],
            )[k]);
        }
        if fs.len() != w {
            proof {
                assert(!row_arity_ok(text@, r as int));
                assert(!csv_ok(text@)) by {
                    if csv_ok(text@) {
                        assert(row_arity_ok(text@, r as int));
                    }
                }
                assert(prefix_ok(text@, r as int, 0));
            }
            return Err(IngestionError::ArityMismatch { row: r });
        }
        let mut row_vals: Vec<Option<i64>> = Vec::new();
        let mut c: usize = 0;
        while c < w
            invariant
                w == header@.len(),
                header@.len() == h.len(),
                h == header_of(text@),
                lm == csv_lines(text@),
                1 <= r < lm.len(),
                header_unique(h),
                fs@.len() == w,
                fields_of(csv_lines(text@)[r as int]).len() == w,
                forall|r2: int| 1 <= r2 < r ==> row_arity_ok(text@, r2),
                forall|r2: int, c2: int|
                    1 <= r2 < r && 0 <= c2 < h.len() ==> spec_cell_value(
                        #[trigger] cell_text(text@, r2, c2),
                    ) is Some,
                forall|k: int| 0 <= k < fs@.len() ==> (#[trigger] fs@[k])@ == cell_text(
                    text@,
                    r as int,
                    k,
                ),
                0 <= c <= w,
                row_vals@.len() == c,
                forall|c2: int| 0 <= c2 < c ==> spec_cell_value(
                    #[trigger] cell_text(text@, r as int, c2),
                ) is Some,
                forall|c2: int| 0 <= c2 < c ==> row_vals@[c2] == spec_cell_value(
                    cell_text(text@, r as int, c2),
                )->0,
            decreases w - c,
        {
            match parse_cell(fs[c].as_slice()) {
                Some(v) => row_vals.push(v),
                None => {
                    proof {
                        assert(spec_cell_value(cell_text(text@, r as int, c as int)) is None);
                        assert(row_arity_ok(text@, r as int));
                        assert(!csv_ok(text@)) by {
                            if csv_ok(text@) {
                                assert(spec_cell_value(cell_text(text@, r as int, c as int))
                                    is Some);
                            }
                        }
                        assert(prefix_ok(text@, r as int, c as int));
                        assert(ingest_err_ok(
                            text@,
                            IngestionError::BadCell { row: r, col: c },
                        ));
                    }
                    return Err(IngestionError::BadCell { row: r, col: c });
                },
            }
            c = c + 1;
        }
        rows_vals.push(row_vals);
        r = r + 1;
    }
    let mut cols: Vec<Column> = Vec::new();
    let mut j: usize = 0;
    let nrows = lines.len() - 1;
    while j < w
        invariant
            w == header@.len(),
            header@.len() == h.len(),
            h == header_of(text@),
            lm == csv_lines(text@),
            header_unique(h),
            forall|k: int| 0 <= k < header@.len() ==> (#[trigger] header@[k])@ == h[k],
            nrows == lm.len() - 1,
            rows_vals@.len() == nrows,
            forall|r2: int, c2: int|
                1 <= r2 < lm.len() && 0 <= c2 < h.len() ==> rows_vals@[r2 - 1]@[c2]
                    == spec_cell_value(#[trigger] cell_text(text@, r2, c2))->0,
            forall|r2: int| 0 <= r2 < nrows ==> (#[trigger] rows_vals@[r2])@.len() == h.len(),
            forall|r2: int, c2: int|
                1 <= r2 < lm.len() && 0 <= c2 < h.len() ==> spec_cell_value(
                    #[trigger] cell_text(text@, r2, c2),
                ) is Some,
            0 <= j <= w,
            cols@.len() == j,
            forall|k: int| 0 <= k < j ==> (#[trigger] cols@[k])@ == ingest_model(text@).cols[k],
        decreases w - j,
    {
        let mut cells: Vec<Option<i64>> = Vec::new();
        let mut i: usize = 0;
        while i < nrows
            invariant
                w == header@.len(),
                h == header_of(text@),
                lm == csv_lines(text@),
                nrows == lm.len() - 1,
                rows_vals@.len() == nrows,
                j < w,
                h.len() == w,
                forall|r2: int, c2: int|
                    1 <= r2 < lm.len() && 0 <= c2 < h.len() ==> rows_vals@[r2 - 1]@[c2]
                        == spec_cell_value(#[trigger] cell_text(text@, r2, c2))->0,
                forall|r2: int| 0 <= r2 < nrows ==> (#[trigger] rows_vals@[r2])@.len() == h.len(),
                0 <= i <= nrows,
                cells@.len() == i,
                forall|i2: int| 0 <= i2 < i ==> cells@[i2] == spec_cell_value(
                    #[trigger] cell_text(text@, i2 + 1, j as int),
                )->0,
            decreases nrows - i,
        {
            cells.push(rows_vals[i][j]);
            i = i + 1;
        }
        let col = Column { name: header[j].clone(), nonneg: true, cells };
        proof {
            assert(col@.cells =~= ingest_model(text@).cols[j as int].cells);
            assert(col@ == ingest_model(text@).cols[j as int]);
        }
        cols.push(col);
        j = j + 1;
    }
    let t = TabularStore { rows: nrows, cols };
    proof {
        assert(t@.cols =~= ingest_model(text@).cols);
        assert(t@ == ingest_model(text@));
        assert forall|k: int| 0 <= k < t@.cols.len() implies crate::store::col_ok(
            #[trigger] t@.cols[k],
            t@.rows,
        ) by {
            assert forall|i: int| 0 <= i < t@.cols[k].cells.len() implies crate::store::cell_ok(
                #[trigger] t@.cols[k].cells[i],
            ) by {
                lemma_cell_value_bounded(cell_text(text@, i + 1, k));
                assert(spec_cell_value(cell_text(text@, i + 1, k)) is Some);
                assert(t@.cols[k].cells[i] == spec_cell_value(cell_text(text@, i + 1, k))->0);
            }
        }
        assert forall|a: int, b: int| 0 <= a < b < t@.cols.len() implies t@.cols[a].name
            != t@.cols[b].name by {
            assert(t@.cols[a].name == h[a] && t@.cols[b].name == h[b]);
        }
        assert(crate::store::store_ok(t@));
    }
    Ok(t)
}

/// Attempt `k` of a sequence of read outcomes succeeds: text was read and
/// it is well-formed CSV.  A missing outcome is a failed read.
pub open spec fn attempt_succeeds(reads: Seq<Option<Vec<u8>>>, k: int) -> bool {
    0 <= k < reads.len() && (reads[k] matches Some(t) && csv_ok(t@))
}

/// The least successful attempt index below `n`, if any.
pub open spec fn first_success_upto(reads: Seq<Option<Vec<u8>>>, n: int) -> Option<int>
    decreases n,
{
    if n <= 0 {
        None
    } else {
        match first_success_upto(reads, n - 1) {
            Some(k) => Some(k),
            None => if attempt_succeeds(reads, n - 1) {
                Some(n - 1)
            } else {
                None
            },
        }
    }
}

/// `first_success_upto` is exactly the least success below `n`.
pub proof fn lemma_first_success_upto(reads: Seq<Option<Vec<u8>>>, n: int)
    requires
        n >= 0,
    ensures
        match first_success_upto(reads, n) {
            Some(k) => 0 <= k < n && attempt_succeeds(reads, k) && forall|q: int|
                0 <= q < k ==> !attempt_succeeds(reads, q),
            None => forall|q: int| 0 <= q < n ==> !attempt_succeeds(reads, q),
        },
    decreases n,
{
    if n > 0 {
        lemma_first_success_upto(reads, n - 1);
    }
}

/// The error attempt `k` fails with: the read failure itself, or the
/// parse error of the text it produced.
pub open spec fn attempt_err_ok(reads: Seq<Option<Vec<u8>>>, k: int, e: IngestionError) -> bool {
    if 0 <= k < reads.len() && reads[k] is Some {
        ingest_err_ok(reads[k]->0@, e)
    } else {
        e == IngestionError::SourceUnavailable
    }
}

/// What the retry loop decides after a failed attempt (1-based count):
/// retry after the fixed delay, or give up.
#[derive(Clone, Copy, Debug, PartialEq, Eq, Structural)]
pub enum RetryDecision {
    RetryAfterDelay,
    GiveUp,
}

/// One step of the retry policy: after `attempts_made` failed attempts,
/// retry exactly while attempts remain.
pub fn retry_step(attempts_made: usize, max_attempts: usize) -> (r: RetryDecision)
    ensures
        r == RetryDecision::GiveUp <==> attempts_made >= max_attempts,
{
    if attempts_made >= max_attempts {
        RetryDecision::GiveUp
    } else {
        RetryDecision::RetryAfterDelay
    }
}

/// Ingests with up to `max_attempts` attempts over the given sequence of
/// per-attempt read outcomes (`None`: the read failed).  Returns the first
/// successful parse, consuming no further attempts; after the final failed
/// attempt, or immediately when `max_attempts` is zero, fails with the
/// retry-exhaustion error wrapping the last underlying error.
pub fn retry_ingest(reads: &Vec<Option<Vec<u8>>>, max_attempts: usize) -> (r: Result<
    TabularStore,
    IngestionError,
>)
    ensures
        r is Ok <==> first_success_upto(reads@, max_attempts as int) is Some,
        r matches Ok(t) ==> {
            let k = first_success_upto(reads@, max_attempts as int)->0;
            t@ == ingest_model(reads@[k]->0@) && t.wf()
        },
        r matches Err(e) ==> e matches IngestionError::RetriesExhausted { attempts, last }
            && attempts == max_attempts && (if max_attempts == 0 {
            last is None
        } else {
            last matches Some(b) && attempt_err_ok(reads@, max_attempts - 1, *b)
        }),
{
    let mut last_err: Option<IngestionError> = None;
    let mut k: usize = 0;
    while k < max_attempts
        invariant
            0 <= k <= max_attempts,
            first_success_upto(reads@, k as int) is None,
            k == 0 ==> last_err is None,
            k > 0 ==> (last_err matches Some(e) && attempt_err_ok(reads@, k - 1, e)),
        decreases max_attempts - k,
    {
        proof {
            lemma_first_success_upto(reads@, k as int);
        }
        let attempt_err: IngestionError;
        if k < reads.len() {
            match &reads[k] {
                Some(bytes) => {
                    match ingest_csv(bytes.as_slice()) {
                        Ok(t) => {
                            proof {
                                assert(attempt_succeeds(reads@, k as int));
                                lemma_first_success_upto(reads@, k + 1);
                                assert(first_success_upto(reads@, k + 1) == Some(k as int));
                                lemma_first_success_monotone(reads@, k + 1, max_attempts as int);
                            }
                            return Ok(t);
                        },
                        Err(e) => {
                            attempt_err = e;
                        },
                    }
                },
                None => {
                    attempt_err = IngestionError::SourceUnavailable;
                },
            }
        } else {
            attempt_err = IngestionError::SourceUnavailable;
        }
        proof {
            assert(!attempt_succeeds(reads@, k as int));
        }
        last_err = Some(attempt_err);
        k = k + 1;
    }
    let boxed = match last_err {
        Some(e) => Some(Box::new(e)),
        None => None,
    };
    Err(IngestionError::RetriesExhausted { attempts: max_attempts, last: boxed })
}

/// A success below `n` stays the first success below any larger bound.
pub proof fn lemma_first_success_monotone(reads: Seq<Option<Vec<u8>>>, n: int, m: int)
    requires
        0 <= n <= m,
        first_success_upto(reads, n) is Some,
    ensures
        first_success_upto(reads, m) == first_success_upto(reads, n),
    decreases m - n,
{
    if n < m {
        lemma_first_success_monotone(reads, n + 1, m);
    }
}

} // verus!
