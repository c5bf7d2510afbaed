//! Decimal text for the numeric cell types.
//!
//! An integer cell is written as an optional `-` followed by decimal digits.
//! A decimal (fixed-point) cell may also carry a fractional part of one or
//! two digits after a `.`; its abstract value is a whole count of hundredths.

use vstd::prelude::*;

verus! {

/// ASCII decimal digit.
pub open spec fn is_digit(b: u8) -> bool {
    48 <= b <= 57
}

/// Every byte is a decimal digit.
pub open spec fn all_digits(s: Seq<u8>) -> bool {
    forall|i: int| 0 <= i < s.len() ==> is_digit(#[trigger] s[i])
}

/// Numeric value of a digit string (most significant digit first).
pub open spec fn digits_val(s: Seq<u8>) -> int
    decreases s.len(),
{
    if s.len() == 0 {
        0
    } else {
        digits_val(s.drop_last()) * 10 + (s.last() - 48)
    }
}

/// A digit string has a non-negative value.
pub proof fn lemma_digits_val_nonneg(s: Seq<u8>)
    requires
        all_digits(s),
    ensures
        digits_val(s) >= 0,
    decreases s.len(),
{
    if s.len() > 0 {
        assert(all_digits(s.drop_last()));
        lemma_digits_val_nonneg(s.drop_last());
    }
}

/// Extending a digit string to the right can only increase its value.
pub proof fn lemma_digits_prefix_le(s: Seq<u8>, k: int)
    requires
        all_digits(s),
        0 <= k <= s.len(),
    ensures
        digits_val(s.take(k)) <= digits_val(s),
    decreases s.len() - k,
{
    if k < s.len() {
        lemma_digits_prefix_le(s, k + 1);
        assert(s.take(k + 1).drop_last() =~= s.take(k));
        assert(s.take(k + 1).last() == s[k]);
        assert(all_digits(s.take(k)));
        lemma_digits_val_nonneg(s.take(k));
    } else {
        assert(s.take(k) =~= s);
    }
}

/// Parse the digit run `s[start..end]`.
///
/// Returns its value exactly when the range is non-empty, all digits, and the
/// value fits in a `u64`.
pub fn parse_digits(s: &Vec<u8>, start: usize, end: usize) -> (r: Option<u64>)
    requires
        start <= end <= s@.len(),
    ensures
        ({
            let t = s@.subrange(start as int, end as int);
            match r {
                Some(v) => t.len() >= 1 && all_digits(t) && digits_val(t) == v,
                None => !(t.len() >= 1 && all_digits(t) && digits_val(t) <= u64::MAX),
            }
        }),
{
    let ghost t = s@.subrange(start as int, end as int);
    if start == end {
        return None;
    }
    let mut acc: u64 = 0;
    let mut i: usize = start;
    while i < end
        invariant
            start <= i <= end <= s@.len(),
            t == s@.subrange(start as int, end as int),
            all_digits(t.take(i - start)),
            digits_val(t.take(i - start)) == acc,
        decreases end - i,
    {
        let b = s[i];
        proof {
            assert(t[i - start] == s@[i as int]);
        }
        if b < 48 || b > 57 {
            proof {
                assert(!is_digit(t[i - start]));
                assert(!all_digits(t));
            }
            return None;
        }
        let d = (b - 48) as u64;
        proof {
            assert(t.take(i - start + 1).drop_last() =~= t.take(i - start));
            assert(t.take(i - start + 1).last() == t[i - start]);
            assert(all_digits(t.take(i - start + 1)));
        }
        if acc > (u64::MAX - d) / 10 {
            proof {
                assert(acc * 10 + d > u64::MAX) by (nonlinear_arith)
                    requires
                        acc > (u64::MAX - d) / 10,
                        d <= 9,
                        acc >= 0,
                ;
                assert(digits_val(t.take(i - start + 1)) > u64::MAX);
                if all_digits(t) {
                    lemma_digits_prefix_le(t, i - start + 1);
                }
                assert(!(all_digits(t) && digits_val(t) <= u64::MAX));
            }
            return None;
        }
        proof {
            assert(acc * 10 + d <= u64::MAX) by (nonlinear_arith)
                requires
                    acc <= (u64::MAX - d) / 10,
                    d <= 9,
                    acc >= 0,
            ;
        }
        acc = acc * 10 + d;
        i = i + 1;
    }
    proof {
        assert(t.take(end - start) =~= t);
    }
    Some(acc)
}

/// Signed integer text: optional `-`, then digits; the value must fit in
/// `-i64::MAX ..= i64::MAX`.
pub open spec fn parse_int_spec(s: Seq<u8>) -> Option<int> {
    if s.len() >= 1 && s[0] == 45 {
        let t = s.skip(1);
        if t.len() >= 1 && all_digits(t) && digits_val(t) <= i64::MAX {
            Some(-digits_val(t))
        } else {
            None
        }
    } else {
        if s.len() >= 1 && all_digits(s) && digits_val(s) <= i64::MAX {
            Some(digits_val(s))
        } else {
            None
        }
    }
}

/// Parse a signed integer cell.
pub fn parse_int(s: &Vec<u8>) -> (r: Option<i64>)
    ensures
        match r {
            Some(v) => parse_int_spec(s@) == Some(v as int),
            None => parse_int_spec(s@) is None,
        },
{
    let n = s.len();
    if n == 0 {
        return None;
    }
    let neg = s[0] == 45;
    let start: usize = if neg { 1 } else { 0 };
    let ghost t = if neg { s@.skip(1) } else { s@ };
    proof {
        assert(t =~= s@.subrange(start as int, n as int));
    }
    match parse_digits(s, start, n) {
        Some(m) => {
            if m > i64::MAX as u64 {
                return None;
            }
            if neg {
                Some(0i64 - (m as i64))
            } else {
                Some(m as i64)
            }
        },
        None => None,
    }
}

/// Index of the first `.` in `s`, if any.
pub open spec fn find_dot(s: Seq<u8>, i: int) -> Option<int>
    decreases s.len() - i,
{
    if i < 0 || i >= s.len() {
        None
    } else if s[i] == 46 {
        Some(i)
    } else {
        find_dot(s, i + 1)
    }
}

/// Unsigned fixed-point text, valued in hundredths: digits, optionally
/// followed by `.` and one or two fractional digits.
pub open spec fn parse_udec_spec(s: Seq<u8>) -> Option<int> {
    match find_dot(s, 0) {
        None => if s.len() >= 1 && all_digits(s) {
            Some(digits_val(s) * 100)
        } else {
            None
        },
        Some(d) => {
            let ip = s.take(d);
            let fp = s.skip(d + 1);
            if ip.len() >= 1 && all_digits(ip) && 1 <= fp.len() <= 2 && all_digits(fp) {
                Some(digits_val(ip) * 100 + digits_val(fp) * (if fp.len() == 1 { 10int } else { 1int }))
            } else {
                None
            }
        },
    }
}

/// Signed fixed-point text; the scaled value must fit in
/// `-i64::MAX ..= i64::MAX`.
pub open spec fn parse_dec_spec(s: Seq<u8>) -> Option<int> {
    if s.len() >= 1 && s[0] == 45 {
        match parse_udec_spec(s.skip(1)) {
            Some(v) => if v <= i64::MAX {
                Some(-v)
            } else {
                None
            },
            None => None,
        }
    } else {
        match parse_udec_spec(s) {
            Some(v) => if v <= i64::MAX {
                Some(v)
            } else {
                None
            },
            None => None,
        }
    }
}

/// Proof that a found dot index lies inside the string.
pub proof fn lemma_find_dot_in_range(s: Seq<u8>, i: int)
    requires
        0 <= i,
    ensures
        match find_dot(s, i) {
            Some(j) => i <= j < s.len() && s[j] == 46 && forall|k: int| i <= k < j ==> s[k] != 46,
            None => forall|j: int| i <= j < s.len() ==> s[j] != 46,
        },
    decreases s.len() - i,
{
    if 0 <= i < s.len() {
        if s[i] == 46 {
        } else {
            lemma_find_dot_in_range(s, i + 1);
        }
    }
}

/// A run of at most two digits is worth at most 99; a single digit at most 9.
pub proof fn lemma_two_digits_max(s: Seq<u8>)
    requires
        all_digits(s),
        1 <= s.len() <= 2,
    ensures
        0 <= digits_val(s) <= 99,
        s.len() == 1 ==> digits_val(s) <= 9,
{
    if s.len() == 1 {
        assert(s.drop_last() =~= Seq::<u8>::empty());
        assert(digits_val(s.drop_last()) == 0);
    } else {
        assert(s.drop_last().drop_last() =~= Seq::<u8>::empty());
        assert(digits_val(s.drop_last().drop_last()) == 0);
        assert(digits_val(s.drop_last()) == s.drop_last().last() - 48);
        assert(s.drop_last().last() == s[0]);
    }
}

/// Find the first `.` in a cell.
fn scan_dot(s: &Vec<u8>, start: usize) -> (r: Option<usize>)
    requires
        start <= s@.len(),
    ensures
        match r {
            Some(j) => find_dot(s@, start as int) == Some(j as int) && start <= j < s@.len(),
            None => find_dot(s@, start as int) is None,
        },
{
    let mut i: usize = start;
    while i < s.len()
        invariant
            start <= i <= s@.len(),
            find_dot(s@, start as int) == find_dot(s@, i as int),
        decreases s.len() - i,
    {
        if s[i] == 46 {
            return Some(i);
        }
        i = i + 1;
    }
    None
}

/// Parse the unsigned fixed-point run `s[start..]`, valued in hundredths.
fn parse_udec_from(s: &Vec<u8>, start: usize) -> (r: Option<u64>)
    requires
        start <= s@.len(),
    ensures
        ({
            let t = s@.skip(start as int);
            match r {
                Some(v) => parse_udec_spec(t) == Some(v as int),
                None => match parse_udec_spec(t) {
                    Some(v) => v > u64::MAX,
                    None => true,
                },
            }
        }),
{
    let ghost t = s@.skip(start as int);
    let n = s.len();
    match scan_dot(s, start) {
        None => {
            proof {
                lemma_find_dot_in_range(s@, start as int);
                assert(forall|j: int| 0 <= j < t.len() ==> t[j] == s@[start + j]);
                assert(find_dot(t, 0) is None) by {
                    lemma_find_dot_in_range(t, 0);
                    if find_dot(t, 0) is Some {
                        let j = find_dot(t, 0)->0;
                        assert(t[j] == 46);
                    }
                }
            }
            match parse_digits(s, start, n) {
                Some(m) => {
                    proof {
                        assert(t =~= s@.subrange(start as int, n as int));
                    }
                    if m > u64::MAX / 100 {
                        proof {
                            assert(m * 100 > u64::MAX) by (nonlinear_arith)
                                requires
                                    m > u64::MAX / 100,
                                    m >= 0,
                            ;
                        }
                        return None;
                    }
                    proof {
                        assert(m * 100 <= u64::MAX) by (nonlinear_arith)
                            requires
                                m <= u64::MAX / 100,
                                m >= 0,
                        ;
                    }
                    Some(m * 100)
                },
                None => {
                    proof {
                        assert(t =~= s@.subrange(start as int, n as int));
                        if t.len() >= 1 && all_digits(t) {
                            lemma_digits_val_nonneg(t);
                            if digits_val(t) <= u64::MAX {
                                assert(false);
                            } else {
                                assert(digits_val(t) * 100 > u64::MAX) by (nonlinear_arith)
                                    requires
                                        digits_val(t) > u64::MAX,
                                ;
                            }
                        }
                    }
                    None
                },
            }
        },
        Some(d) => {
            proof {
                lemma_find_dot_in_range(s@, start as int);
                assert(forall|j: int| 0 <= j < t.len() ==> t[j] == s@[start + j]);
                assert(find_dot(t, 0) == Some(d - start)) by {
                    lemma_find_dot_in_range(t, 0);
                    assert(t[d - start] == 46);
                    if find_dot(t, 0) is None {
                        assert(false);
                    } else {
                        let j = find_dot(t, 0)->0;
                        assert(t[j] == 46);
                        assert(s@[start + j] == 46);
                        if j < d - start {
                            assert(false);
                        }
                        if j > d - start {
                            assert(false);
                        }
                    }
                }
                assert(t.take(d - start) =~= s@.subrange(start as int, d as int));
                assert(t.skip(d - start + 1) =~= s@.subrange(d + 1 as int, n as int));
            }
            let fplen = n - d - 1;
            if fplen < 1 || fplen > 2 {
                return None;
            }
            let ip = parse_digits(s, start, d);
            let fp = parse_digits(s, d + 1, n);
            match (ip, fp) {
                (Some(iv), Some(fv)) => {
                    proof {
                        lemma_two_digits_max(t.skip(d - start + 1));
                    }
                    let fs: u64 = if fplen == 1 {
                        fv * 10
                    } else {
                        fv
                    };
                    proof {
                        assert(fs <= 99);
                        assert(fs == digits_val(t.skip(d - start + 1)) * (
                        if t.skip(d - start + 1).len() == 1 {
                            10int
                        } else {
                            1int
                        }));
                    }
                    if iv > (u64::MAX - fs) / 100 {
                        proof {
                            assert(iv * 100 + fs > u64::MAX) by (nonlinear_arith)
                                requires
                                    iv > (u64::MAX - fs) / 100,
                                    iv >= 0,
                                    fs <= 99,
                            ;
                        }
                        return None;
                    }
                    proof {
                        assert(iv * 100 + fs <= u64::MAX) by (nonlinear_arith)
                            requires
                                iv <= (u64::MAX - fs) / 100,
                                iv >= 0,
                                fs <= u64::MAX,
                        ;
                    }
                    Some(iv * 100 + fs)
                },
                _ => {
                    proof {
                        if parse_udec_spec(t) is Some {
                            lemma_digits_val_nonneg(t.take(d - start));
                            lemma_digits_val_nonneg(t.skip(d - start + 1));
                            lemma_two_digits_max(t.skip(d - start + 1));
                        }
                    }
                    None
                },
            }
        },
    }
}

/// Parse a signed fixed-point cell, valued in hundredths.
pub fn parse_dec(s: &Vec<u8>) -> (r: Option<i64>)
    ensures
        match r {
            Some(v) => parse_dec_spec(s@) == Some(v as int),
            None => parse_dec_spec(s@) is None,
        },
{
    let n = s.len();
    if n == 0 {
        return None;
    }
    let neg = s[0] == 45;
    let start: usize = if neg { 1 } else { 0 };
    proof {
        if !neg {
            assert(s@.skip(0) =~= s@);
        }
    }
    match parse_udec_from(s, start) {
        Some(m) => {
            if m > i64::MAX as u64 {
                return None;
            }
            if neg {
                Some(0i64 - (m as i64))
            } else {
                Some(m as i64)
            }
        },
        None => None,
    }
}

/// Decimal digits of an unsigned number, most significant first.
pub open spec fn u64_digits(n: int) -> Seq<u8>
    decreases n,
{
    if n < 10 {
        seq![(48 + if n >= 0 { n } else { 0 }) as u8]
    } else {
        u64_digits(n / 10).push((48 + n % 10) as u8)
    }
}

/// Render an unsigned number in decimal.
pub fn fmt_u64(n: u64) -> (r: Vec<u8>)
    ensures
        r@ == u64_digits(n as int),
    decreases n,
{
    if n < 10 {
        let mut r: Vec<u8> = Vec::new();
        r.push((48 + n as u8));
        proof {
            assert(r@ =~= u64_digits(n as int));
        }
        r
    } else {
        let mut r = fmt_u64(n / 10);
        r.push(48 + (n % 10) as u8);
        r
    }
}

/// Signed integer rendering: `-` for negative values, then digits.
pub open spec fn int_text(v: int) -> Seq<u8> {
    if v < 0 {
        seq![45u8] + u64_digits(-v)
    } else {
        u64_digits(v)
    }
}

/// Render a signed integer in decimal.
pub fn fmt_int(v: i64) -> (r: Vec<u8>)
    ensures
        r@ == int_text(v as int),
{
    if v < 0 {
        let m: u64 = (0i128 - (v as i128)) as u64;
        let digits = fmt_u64(m);
        let mut r: Vec<u8> = Vec::new();
        r.push(45);
        let mut i: usize = 0;
        while i < digits.len()
            invariant
                i <= digits@.len(),
                r@ == seq![45u8] + digits@.take(i as int),
            decreases digits.len() - i,
        {
            r.push(digits[i]);
            proof {
                assert(seq![45u8] + digits@.take(i + 1 as int) =~= (seq![45u8] + digits@.take(
                    i as int,
                )).push(digits@[i as int]));
            }
            i = i + 1;
        }
        proof {
            assert(digits@.take(digits@.len() as int) =~= digits@);
        }
        r
    } else {
        fmt_u64(v as u64)
    }
}

/// Fixed-point rendering: the whole part, a `.`, and exactly two fractional
/// digits; negative amounts lead with `-`.
pub open spec fn dec_text(v: int) -> Seq<u8> {
    let m = if v < 0 {
        -v
    } else {
        v
    };
    let sign: Seq<u8> = if v < 0 {
        seq![45u8]
    } else {
        Seq::empty()
    };
    sign + u64_digits(m / 100) + seq![46u8, (48 + (m % 100) / 10) as u8, (48 + m % 10) as u8]
}

/// Render a fixed-point amount (a count of hundredths).
pub fn fmt_dec(v: i64) -> (r: Vec<u8>)
    ensures
        r@ == dec_text(v as int),
{
    let m: u64 = if v < 0 {
        (0i128 - (v as i128)) as u64
    } else {
        v as u64
    };
    let whole = fmt_u64(m / 100);
    let mut r: Vec<u8> = Vec::new();
    if v < 0 {
        r.push(45);
    }
    let mut i: usize = 0;
    let ghost sign: Seq<u8> = if v < 0 {
        seq![45u8]
    } else {
        Seq::<u8>::empty()
    };
    proof {
        assert(r@ =~= sign);
    }
    while i < whole.len()
        invariant
            i <= whole@.len(),
            r@ == sign + whole@.take(i as int),
        decreases whole.len() - i,
    {
        r.push(whole[i]);
        proof {
            assert(sign + whole@.take(i + 1 as int) =~= (sign + whole@.take(i as int)).push(
                whole@[i as int],
            ));
        }
        i = i + 1;
    }
    proof {
        assert(whole@.take(whole@.len() as int) =~= whole@);
    }
    r.push(46);
    r.push(48 + ((m % 100) / 10) as u8);
    r.push(48 + (m % 10) as u8);
    proof {
        assert(r@ =~= dec_text(v as int));
    }
    r
}

} // verus!
