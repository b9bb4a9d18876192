//! Whitespace tokens and the numbers written in them.
use vstd::prelude::*;
use crate::fixed::{abs, FRAC_DIGITS, MAX_LENGTH, SCALE};

verus! {

/// Largest magnitude accepted for an integer field.
pub const MAX_INTEGER: i64 = 1_000_000_000_000_000_000;

/// The UTF-8 bytes of a line.
pub open spec fn line_bytes(s: Seq<char>) -> Seq<u8> {
    vstd::utf8::encode_utf8(s)
}

/// ASCII whitespace separates tokens.
pub open spec fn is_space(b: u8) -> bool {
    b == 32 || b == 9 || b == 10 || b == 11 || b == 12 || b == 13
}

pub open spec fn is_digit(b: u8) -> bool {
    48 <= b <= 57
}

pub open spec fn all_digits(s: Seq<u8>) -> bool {
    forall|i: int| 0 <= i < s.len() ==> is_digit(#[trigger] s[i])
}

/// Value of a run of decimal digits.
pub open spec fn digits_val(s: Seq<u8>) -> int
    decreases s.len(),
{
    if s.len() == 0 {
        0
    } else {
        digits_val(s.drop_last()) * 10 + (s.last() - 48)
    }
}

/// Reading `s` left to right: the tokens completed so far, and the one still open.
pub open spec fn split_state(s: Seq<u8>) -> (Seq<Seq<u8>>, Seq<u8>)
    decreases s.len(),
{
    if s.len() == 0 {
        (Seq::empty(), Seq::empty())
    } else {
        let (done, open) = split_state(s.drop_last());
        let c = s.last();
        if !is_space(c) {
            (done, open.push(c))
        } else if open.len() > 0 {
            (done.push(open), Seq::empty())
        } else {
            (done, Seq::empty())
        }
    }
}

/// The maximal runs of non-whitespace bytes of `s`, in order.
pub open spec fn tokens(s: Seq<u8>) -> Seq<Seq<u8>> {
    let (done, open) = split_state(s);
    if open.len() > 0 {
        done.push(open)
    } else {
        done
    }
}

/// Length of the leading sign, `-` or `+`, if any.
pub open spec fn sign_len(s: Seq<u8>) -> int {
    if s.len() > 0 && (s[0] == 45 || s[0] == 43) {
        1
    } else {
        0
    }
}

pub open spec fn is_negative(s: Seq<u8>) -> bool {
    s.len() > 0 && s[0] == 45
}

/// What follows the sign.
pub open spec fn unsigned_part(s: Seq<u8>) -> Seq<u8> {
    s.subrange(sign_len(s), s.len() as int)
}

pub open spec fn signed(neg: bool, v: int) -> int {
    if neg {
        -v
    } else {
        v
    }
}

/// An optional sign and one or more decimal digits.
pub open spec fn int_value(s: Seq<u8>) -> Option<int> {
    let body = unsigned_part(s);
    if body.len() > 0 && all_digits(body) {
        Some(signed(is_negative(s), digits_val(body)))
    } else {
        None
    }
}

/// Index of the first `.`, or the length if there is none.
pub open spec fn dot_pos(s: Seq<u8>) -> int
    decreases s.len(),
{
    if s.len() == 0 {
        0
    } else {
        let q = dot_pos(s.drop_last());
        if q < s.len() - 1 {
            q
        } else if s.last() == 46 {
            s.len() - 1
        } else {
            s.len() as int
        }
    }
}

/// Index of the first `e` or `E`, or the length if there is none.
pub open spec fn exp_pos(s: Seq<u8>) -> int
    decreases s.len(),
{
    if s.len() == 0 {
        0
    } else {
        let q = exp_pos(s.drop_last());
        if q < s.len() - 1 {
            q
        } else if s.last() == 101 || s.last() == 69 {
            s.len() - 1
        } else {
            s.len() as int
        }
    }
}

/// The mantissa without its first `.`.
pub open spec fn mantissa_digits(m: Seq<u8>) -> Seq<u8> {
    let p = dot_pos(m);
    if p < m.len() {
        m.take(p) + m.skip(p + 1)
    } else {
        m
    }
}

/// Number of mantissa digits after the `.`.
pub open spec fn frac_len(m: Seq<u8>) -> int {
    let p = dot_pos(m);
    if p < m.len() {
        m.len() - p - 1
    } else {
        0
    }
}

/// The decimal exponent: 0 without `e`, else the integer field after it.
pub open spec fn exponent_of(body: Seq<u8>) -> Option<int> {
    let q = exp_pos(body);
    if q == body.len() {
        Some(0)
    } else {
        int_field(body.skip(q + 1))
    }
}

/// `digits * 10^k`, truncated toward zero when `k` is negative.
pub open spec fn shifted(ds: Seq<u8>, k: int) -> int {
    if k >= 0 {
        digits_val(ds) * pow10(k as nat)
    } else if ds.len() + k <= 0 {
        0
    } else {
        digits_val(ds.take(ds.len() + k))
    }
}

/// Fixed-point value of an unsigned real: a mantissa of digits with at most
/// one `.` and at least one digit, then optionally `e` or `E` and a signed
/// integer exponent. Digits below `1 / SCALE` are dropped.
pub open spec fn unsigned_fixed(body: Seq<u8>) -> Option<int> {
    let m = body.take(exp_pos(body));
    let ds = mantissa_digits(m);
    match exponent_of(body) {
        Some(e) => if ds.len() > 0 && all_digits(ds) {
            Some(shifted(ds, FRAC_DIGITS - frac_len(m) + e))
        } else {
            None
        },
        None => None,
    }
}

/// Fixed-point value of an optionally signed decimal.
pub open spec fn fixed_value(s: Seq<u8>) -> Option<int> {
    match unsigned_fixed(unsigned_part(s)) {
        Some(v) => Some(signed(is_negative(s), v)),
        None => None,
    }
}

/// An integer field: within `MAX_INTEGER` in magnitude.
pub open spec fn int_field(s: Seq<u8>) -> Option<int> {
    match int_value(s) {
        Some(v) => if abs(v) <= MAX_INTEGER { Some(v) } else { None },
        None => None,
    }
}

/// A length field: within `MAX_LENGTH` in magnitude.
pub open spec fn length_field(s: Seq<u8>) -> Option<int> {
    match fixed_value(s) {
        Some(v) => if abs(v) <= MAX_LENGTH { Some(v) } else { None },
        None => None,
    }
}

pub open spec fn min(a: int, b: int) -> int {
    if a <= b {
        a
    } else {
        b
    }
}

/// `10^n`.
pub open spec fn pow10(n: nat) -> int
    decreases n,
{
    if n == 0 {
        1
    } else {
        10 * pow10((n - 1) as nat)
    }
}

/// Whether `t[from..to]` is all digits, and if so its value, capped at `cap`.
fn scan_digits(t: &Vec<u8>, from: usize, to: usize, cap: u64) -> (r: Option<u64>)
    requires
        from <= to <= t@.len(),
        1 <= cap <= MAX_INTEGER + 1,
    ensures
        r is Some <==> all_digits(t@.subrange(from as int, to as int)),
        r is Some ==> r->0 == min(digits_val(t@.subrange(from as int, to as int)), cap as int),
{
    let mut acc: u64 = 0;
    let mut k: usize = from;
    while k < to
        invariant
            from <= k <= to <= t@.len(),
            1 <= cap <= MAX_INTEGER + 1,
            all_digits(t@.subrange(from as int, k as int)),
            acc == min(digits_val(t@.subrange(from as int, k as int)), cap as int),
        decreases to - k,
    {
        let c = t[k];
        let ghost pre = t@.subrange(from as int, k as int);
        let ghost next = t@.subrange(from as int, (k + 1) as int);
        proof {
            assert(next.drop_last() =~= pre);
            assert(next.last() == c);
        }
        if c < 48 || c > 57 {
            proof {
                assert(t@.subrange(from as int, to as int)[k - from] == c);
            }
            return None;
        }
        let v: u64 = acc * 10 + (c - 48) as u64;
        acc = if v > cap { cap } else { v };
        proof {
            assert(all_digits(next)) by {
                assert forall|i: int| 0 <= i < next.len() implies is_digit(#[trigger] next[i]) by {
                    if i < pre.len() {
                        assert(next[i] == pre[i]);
                    }
                }
            }
        }
        k = k + 1;
    }
    Some(acc)
}

/// The integer field `t[from..to]`.
fn int_in(t: &Vec<u8>, from: usize, to: usize) -> (r: Option<i64>)
    requires
        from <= to <= t@.len(),
    ensures
        r is Some <==> int_field(t@.subrange(from as int, to as int)) is Some,
        r is Some ==> r->0 == int_field(t@.subrange(from as int, to as int))->0,
{
    let ghost s = t@.subrange(from as int, to as int);
    let start: usize = if from < to && (t[from] == 45 || t[from] == 43) { from + 1 } else { from };
    let neg = from < to && t[from] == 45;
    proof {
        assert(unsigned_part(s) =~= t@.subrange(start as int, to as int));
    }
    if start == to {
        return None;
    }
    match scan_digits(t, start, to, (MAX_INTEGER + 1) as u64) {
        None => None,
        Some(v) => {
            if v > MAX_INTEGER as u64 {
                None
            } else if neg {
                Some(-(v as i64))
            } else {
                Some(v as i64)
            }
        },
    }
}

/// Reads an integer field.
pub fn parse_int(tok: &Vec<u8>) -> (r: Option<i64>)
    ensures
        r is Some <==> int_field(tok@) is Some,
        r is Some ==> r->0 == int_field(tok@)->0,
{
    proof {
        assert(tok@.subrange(0, tok@.len() as int) =~= tok@);
    }
    int_in(tok, 0, tok.len())
}

proof fn lemma_pow10_large(k: nat)
    requires
        k >= 16,
    ensures
        pow10(k) >= 10_000_000_000_000_000,
    decreases k,
{
    if k == 16 {
        reveal_with_fuel(pow10, 17);
    } else {
        lemma_pow10_large((k - 1) as nat);
    }
}

proof fn lemma_pow10_pos(k: nat)
    ensures
        pow10(k) >= 1,
    decreases k,
{
    if k > 0 {
        lemma_pow10_pos((k - 1) as nat);
    }
}

/// Index of the first `.` of `t[from..to]` (with `exp`, of the first `e` or
/// `E`), or `to` if there is none.
fn find_mark(t: &Vec<u8>, from: usize, to: usize, exp: bool) -> (r: usize)
    requires
        from <= to <= t@.len(),
    ensures
        from <= r <= to,
        !exp ==> r - from == dot_pos(t@.subrange(from as int, to as int)),
        exp ==> r - from == exp_pos(t@.subrange(from as int, to as int)),
{
    let mut p: usize = from;
    let mut k: usize = from;
    proof {
        assert(t@.subrange(from as int, from as int) =~= Seq::<u8>::empty());
    }
    while k < to
        invariant
            from <= p <= k <= to <= t@.len(),
            !exp ==> p - from == dot_pos(t@.subrange(from as int, k as int)),
            exp ==> p - from == exp_pos(t@.subrange(from as int, k as int)),
        decreases to - k,
    {
        proof {
            assert(t@.subrange(from as int, k + 1).drop_last() =~= t@.subrange(from as int, k as int));
        }
        let c = t[k];
        let hit = if exp { c == 101 || c == 69 } else { c == 46 };
        if p < k {
        } else if hit {
            p = k;
        } else {
            p = k + 1;
        }
        k = k + 1;
    }
    p
}

/// The digits of the mantissa `tok[start..q]` without its first `.`, and how
/// many of them follow the `.`.
fn mantissa(tok: &Vec<u8>, start: usize, q: usize) -> (r: (Vec<u8>, usize))
    requires
        start <= q <= tok@.len(),
    ensures
        r.0@ == mantissa_digits(tok@.subrange(start as int, q as int)),
        r.1 == frac_len(tok@.subrange(start as int, q as int)),
{
    let n = tok.len();
    let ghost m = tok@.subrange(start as int, q as int);
    let p = find_mark(tok, start, q, false);
    let mut ds: Vec<u8> = Vec::new();
    let mut i: usize = start;
    while i < p
        invariant
            start <= i <= p <= q <= n == tok@.len(),
            ds@ == tok@.subrange(start as int, i as int),
        decreases p - i,
    {
        ds.push(tok[i]);
        proof {
            assert(ds@ =~= tok@.subrange(start as int, i + 1));
        }
        i = i + 1;
    }
    let ghost ip = ds@;
    let mut f: usize = 0;
    if p < q {
        let mut j: usize = p + 1;
        while j < q
            invariant
                p < q <= n == tok@.len(),
                p + 1 <= j <= q,
                ds@ == ip + tok@.subrange(p + 1, j as int),
            decreases q - j,
        {
            ds.push(tok[j]);
            proof {
                assert(ds@ =~= ip + tok@.subrange(p + 1, j + 1));
            }
            j = j + 1;
        }
        f = q - p - 1;
    }
    proof {
        if p < q {
            assert(m.take(p - start) =~= ip);
            assert(m.skip(p - start + 1) =~= tok@.subrange(p + 1, q as int));
        } else {
            assert(m =~= ip);
        }
        assert(ds@ == mantissa_digits(m));
        assert(f == frac_len(m));
    }
    (ds, f)
}

proof fn lemma_digits_nonneg(s: Seq<u8>)
    requires
        all_digits(s),
    ensures
        digits_val(s) >= 0,
    decreases s.len(),
{
    if s.len() > 0 {
        assert(is_digit(s[s.len() - 1]));
        assert(all_digits(s.drop_last())) by {
            assert forall|i: int| 0 <= i < s.drop_last().len() implies is_digit(
                #[trigger] s.drop_last()[i],
            ) by {
                assert(s.drop_last()[i] == s[i]);
            }
        }
        lemma_digits_nonneg(s.drop_last());
    }
}

/// `shifted(ds, k)`, if it is within `MAX_LENGTH`.
fn shift_digits(ds: &Vec<u8>, k: i128) -> (r: Option<u64>)
    requires
        all_digits(ds@),
    ensures
        shifted(ds@, k as int) >= 0,
        r is Some <==> shifted(ds@, k as int) <= MAX_LENGTH,
        r is Some ==> r->0 == shifted(ds@, k as int),
{
    let len = ds.len();
    proof {
        lemma_digits_nonneg(ds@);
        assert(ds@.subrange(0, len as int) =~= ds@);
        lemma_pow10_pos(k as nat);
        if k >= 0 {
            assert(digits_val(ds@) * pow10(k as nat) >= 0) by (nonlinear_arith)
                requires
                    digits_val(ds@) >= 0,
                    pow10(k as nat) >= 1,
            ;
        } else if len + k > 0 {
            assert(all_digits(ds@.take(len + k))) by {
                assert forall|i: int| 0 <= i < len + k implies is_digit(
                    #[trigger] ds@.take(len + k)[i],
                ) by {
                    assert(ds@.take(len + k)[i] == ds@[i]);
                }
            }
            lemma_digits_nonneg(ds@.take(len + k));
        }
    }
    let cap: u64 = (MAX_LENGTH + 1) as u64;
    let v: u64 = if k >= 0 {
        let d = match scan_digits(ds, 0, len, cap) {
            Some(d) => d,
            None => return None,
        };
        if d == 0 {
            proof {
                assert(digits_val(ds@) == 0);
                assert(digits_val(ds@) * pow10(k as nat) == 0) by (nonlinear_arith)
                    requires
                        digits_val(ds@) == 0,
                ;
            }
            0
        } else if k > 15 {
            proof {
                lemma_pow10_large(k as nat);
                assert(digits_val(ds@) * pow10(k as nat) >= pow10(k as nat)) by (nonlinear_arith)
                    requires
                        digits_val(ds@) >= 1,
                        pow10(k as nat) >= 1,
                ;
            }
            return None;
        } else {
            let mut acc: u64 = d;
            let mut i: i128 = 0;
            proof {
                assert(pow10(0) == 1);
            }
            while i < k
                invariant
                    0 <= i <= k <= 15,
                    cap == MAX_LENGTH + 1,
                    digits_val(ds@) >= 0,
                    acc == min(digits_val(ds@) * pow10(i as nat), cap as int),
                decreases k - i,
            {
                let ghost x = digits_val(ds@) * pow10(i as nat);
                proof {
                    lemma_pow10_pos(i as nat);
                    assert(digits_val(ds@) * pow10((i + 1) as nat) == 10 * x) by (nonlinear_arith)
                        requires
                            x == digits_val(ds@) * pow10(i as nat),
                            pow10((i + 1) as nat) == 10 * pow10(i as nat),
                    ;
                    assert(x >= 0) by (nonlinear_arith)
                        requires
                            x == digits_val(ds@) * pow10(i as nat),
                            digits_val(ds@) >= 0,
                            pow10(i as nat) >= 1,
                    ;
                }
                acc = if acc * 10 > cap { cap } else { acc * 10 };
                i = i + 1;
            }
            acc
        }
    } else {
        let keep: i128 = len as i128 + k;
        if keep <= 0 {
            0
        } else {
            proof {
                assert(ds@.subrange(0, keep as int) =~= ds@.take(keep as int));
            }
            match scan_digits(ds, 0, keep as usize, cap) {
                Some(d) => d,
                None => return None,
            }
        }
    };
    if v > MAX_LENGTH as u64 {
        None
    } else {
        Some(v)
    }
}

/// Reads a length field as a fixed-point value.
pub fn parse_fixed(tok: &Vec<u8>) -> (r: Option<i64>)
    ensures
        r is Some <==> length_field(tok@) is Some,
        r is Some ==> r->0 == length_field(tok@)->0,
{
    let n = tok.len();
    let start: usize = if n > 0 && (tok[0] == 45 || tok[0] == 43) { 1 } else { 0 };
    let neg = n > 0 && tok[0] == 45;
    let ghost body = tok@.subrange(start as int, n as int);
    proof {
        assert(unsigned_part(tok@) =~= body);
    }
    let q = find_mark(tok, start, n, true);
    let e: i64 = if q == n {
        0
    } else {
        proof {
            assert(body.skip(q - start + 1) =~= tok@.subrange(q + 1, n as int));
        }
        match int_in(tok, q + 1, n) {
            Some(v) => v,
            None => return None,
        }
    };
    let ghost m = body.take(q - start);
    proof {
        assert(m =~= tok@.subrange(start as int, q as int));
    }
    let (ds, f) = mantissa(tok, start, q);
    let len = ds.len();
    if len == 0 || scan_digits(&ds, 0, len, 1).is_none() {
        proof {
            assert(ds@.subrange(0, len as int) =~= ds@);
        }
        return None;
    }
    proof {
        assert(ds@.subrange(0, len as int) =~= ds@);
    }
    let k: i128 = FRAC_DIGITS as i128 - f as i128 + e as i128;
    let v = match shift_digits(&ds, k) {
        Some(v) => v,
        None => return None,
    };
    if neg {
        Some(-(v as i64))
    } else {
        Some(v as i64)
    }
}

/// Splits `line` into its whitespace-separated tokens.
pub fn tokenize(line: &str) -> (r: Vec<Vec<u8>>)
    ensures
        r@.len() == tokens(line_bytes(line@)).len(),
        forall|i: int| 0 <= i < r@.len() ==> r@[i]@ == tokens(line_bytes(line@))[i],
{
    let b = line.as_bytes();
    let ghost s = b@;
    assert(s == line_bytes(line@));
    let mut done: Vec<Vec<u8>> = Vec::new();
    let mut open: Vec<u8> = Vec::new();
    let mut i: usize = 0;
    while i < b.len()
        invariant
            s == b@,
            i <= s.len(),
            done@.len() == split_state(s.take(i as int)).0.len(),
            forall|j: int| 0 <= j < done@.len() ==> done@[j]@ == split_state(s.take(i as int)).0[j],
            open@ == split_state(s.take(i as int)).1,
        decreases s.len() - i,
    {
        let c = b[i];
        proof {
            assert(s.take(i + 1).drop_last() =~= s.take(i as int));
        }
        let sp = c == 32 || c == 9 || c == 10 || c == 11 || c == 12 || c == 13;
        if !sp {
            open.push(c);
        } else if open.len() > 0 {
            done.push(open);
            open = Vec::new();
        }
        i = i + 1;
    }
    proof {
        assert(s.take(s.len() as int) =~= s);
    }
    if open.len() > 0 {
        done.push(open);
    }
    done
}

} // verus!
