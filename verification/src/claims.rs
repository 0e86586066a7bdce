//! The claims payload of a token: the JSON object
//! `{"sub":"<subject>","iat":<seconds>,"exp":<seconds>}` as bytes.
//!
//! `payload_bytes` serializes claims, `parse_payload` reads them back, both
//! proved against the spec functions `payload_json` and `spec_parse_payload`,
//! and `lemma_parse_of_payload` shows that parsing inverts serialization.

use vstd::prelude::*;
use vstd::arithmetic::div_mod::lemma_fundamental_div_mod;

verus! {

/// Whether a byte is an ASCII decimal digit.
pub open spec fn is_digit_byte(c: u8) -> bool {
    48 <= c <= 57
}

/// Whether every byte of a string is a decimal digit.
pub open spec fn all_digit_bytes(s: Seq<u8>) -> bool {
    forall|i: int| 0 <= i < s.len() ==> is_digit_byte(#[trigger] s[i])
}

/// The decimal digits of a non-negative number, most significant first.
pub open spec fn dec_digits(n: nat) -> Seq<u8>
    decreases n,
{
    if n < 10 {
        seq![(48 + n) as u8]
    } else {
        dec_digits(n / 10) + seq![(48 + n % 10) as u8]
    }
}

/// The value of a string of decimal digits.
pub open spec fn dec_val(s: Seq<u8>) -> int
    decreases s.len(),
{
    if s.len() == 0 {
        0
    } else {
        dec_val(s.drop_last()) * 10 + (s.last() - 48)
    }
}

/// `dec_digits` writes digits whose value `dec_val` reads back.
pub proof fn lemma_dec_digits(n: nat)
    ensures
        dec_digits(n).len() >= 1,
        all_digit_bytes(dec_digits(n)),
        dec_val(dec_digits(n)) == n,
    decreases n,
{
    if n < 10 {
        let d = dec_digits(n);
        assert(d.drop_last() =~= Seq::<u8>::empty());
        assert(d.last() == (48 + n) as u8);
        assert((48 + n) as u8 == 48 + n);
        assert(dec_val(Seq::<u8>::empty()) == 0);
        assert(dec_val(d) == 0 * 10 + ((48 + n) - 48));
    } else {
        lemma_dec_digits(n / 10);
        lemma_fundamental_div_mod(n as int, 10);
        assert(0 <= n % 10 < 10) by (nonlinear_arith);
        let d = dec_digits(n);
        assert(d.drop_last() =~= dec_digits(n / 10));
        assert(d.last() == (48 + n % 10) as u8);
        assert((48 + n % 10) as u8 - 48 == n % 10);
        assert(dec_val(d) == dec_val(dec_digits(n / 10)) * 10 + (n % 10));
        assert forall|i: int| 0 <= i < d.len() implies is_digit_byte(#[trigger] d[i]) by {
            if i < d.len() - 1 {
                assert(d[i] == dec_digits(n / 10)[i]);
            }
        }
    }
}

/// The index of the first occurrence of `c` in `s`, or `s.len()`.
pub open spec fn first_occ(s: Seq<u8>, c: u8) -> int
    decreases s.len(),
{
    if s.len() == 0 {
        0
    } else if s[0] == c {
        0
    } else {
        1 + first_occ(s.skip(1), c)
    }
}

/// What `first_occ` returns: the first index holding `c`, or the length.
pub proof fn lemma_first_occ(s: Seq<u8>, c: u8)
    ensures
        0 <= first_occ(s, c) <= s.len(),
        first_occ(s, c) < s.len() ==> s[first_occ(s, c)] == c,
        forall|i: int| 0 <= i < first_occ(s, c) ==> s[i] != c,
    decreases s.len(),
{
    if s.len() == 0 {
    } else if s[0] == c {
    } else {
        lemma_first_occ(s.skip(1), c);
        let k = first_occ(s.skip(1), c);
        assert forall|i: int| 0 <= i < 1 + k implies s[i] != c by {
            if i > 0 {
                assert(s.skip(1)[i - 1] != c);
            }
        }
    }
}

/// The length of the longest digit prefix of `s`.
pub open spec fn digit_run(s: Seq<u8>) -> int
    decreases s.len(),
{
    if s.len() == 0 {
        0
    } else if !is_digit_byte(s[0]) {
        0
    } else {
        1 + digit_run(s.skip(1))
    }
}

/// What `digit_run` returns: digits up to it, a non-digit or the end at it.
pub proof fn lemma_digit_run(s: Seq<u8>)
    ensures
        0 <= digit_run(s) <= s.len(),
        digit_run(s) < s.len() ==> !is_digit_byte(s[digit_run(s)]),
        forall|i: int| 0 <= i < digit_run(s) ==> is_digit_byte(#[trigger] s[i]),
    decreases s.len(),
{
    if s.len() == 0 {
    } else if !is_digit_byte(s[0]) {
    } else {
        lemma_digit_run(s.skip(1));
        let k = digit_run(s.skip(1));
        assert forall|i: int| 0 <= i < 1 + k implies is_digit_byte(#[trigger] s[i]) by {
            if i > 0 {
                assert(is_digit_byte(s.skip(1)[i - 1]));
            }
        }
    }
}

/// On an all-digit string, a longer prefix reads at least as large a value.
pub proof fn lemma_dec_val_prefix_le(s: Seq<u8>, i: int, j: int)
    requires
        all_digit_bytes(s),
        0 <= i <= j <= s.len(),
    ensures
        0 <= dec_val(s.take(i)) <= dec_val(s.take(j)),
    decreases j - i,
{
    if i == j {
        lemma_dec_val_nonneg(s.take(i));
    } else {
        lemma_dec_val_prefix_le(s, i, j - 1);
        let t = s.take(j);
        assert(t.drop_last() =~= s.take(j - 1));
        assert(is_digit_byte(s[j - 1]));
        assert(dec_val(t) == dec_val(s.take(j - 1)) * 10 + (s[j - 1] - 48));
    }
}

/// A digit string reads a non-negative value.
pub proof fn lemma_dec_val_nonneg(s: Seq<u8>)
    requires
        all_digit_bytes(s),
    ensures
        dec_val(s) >= 0,
    decreases s.len(),
{
    if s.len() > 0 {
        assert(all_digit_bytes(s.drop_last())) by {
            assert(forall|i: int| 0 <= i < s.len() - 1 ==> is_digit_byte(#[trigger] s[i]));
            assert(forall|i: int| 0 <= i < s.len() - 1
                ==> s.drop_last()[i] == #[trigger] s[i]);
        }
        lemma_dec_val_nonneg(s.drop_last());
        assert(is_digit_byte(s.last()));
    }
}

/// The bytes `{"sub":"`.
pub open spec fn tag_sub() -> Seq<u8> {
    seq![123u8, 34u8, 115u8, 117u8, 98u8, 34u8, 58u8, 34u8]
}

/// The bytes `","iat":`.
pub open spec fn tag_iat() -> Seq<u8> {
    seq![34u8, 44u8, 34u8, 105u8, 97u8, 116u8, 34u8, 58u8]
}

/// The bytes `,"exp":`.
pub open spec fn tag_exp() -> Seq<u8> {
    seq![44u8, 34u8, 101u8, 120u8, 112u8, 34u8, 58u8]
}

/// The serialized claims object, `{"sub":"<sub>","iat":<iat>,"exp":<exp>}`.
pub open spec fn payload_json(sub: Seq<u8>, iat: int, exp: int) -> Seq<u8>
    recommends
        0 <= iat,
        0 <= exp,
{
    tag_sub() + sub + tag_iat() + dec_digits(iat as nat) + tag_exp() + dec_digits(exp as nat)
        + seq![125u8]
}

/// Strict parse of a serialized claims object: the subject runs to the first
/// quote after `{"sub":"`, the two timestamps are digit runs that must fit in
/// an `i64`, and nothing may follow the closing brace.
pub open spec fn spec_parse_payload(p: Seq<u8>) -> Option<(Seq<u8>, int, int)> {
    if p.len() < 8 || p.subrange(0, 8) != tag_sub() {
        None
    } else {
        let j = 8 + first_occ(p.skip(8), 34);
        if j >= p.len() {
            None
        } else {
            let sub = p.subrange(8, j);
            if j + 8 > p.len() || p.subrange(j, j + 8) != tag_iat() {
                None
            } else {
                let m = digit_run(p.skip(j + 8));
                let iat_v = dec_val(p.subrange(j + 8, j + 8 + m));
                if m == 0 || iat_v > i64::MAX {
                    None
                } else {
                    let q = j + 8 + m;
                    if q + 7 > p.len() || p.subrange(q, q + 7) != tag_exp() {
                        None
                    } else {
                        let m2 = digit_run(p.skip(q + 7));
                        let exp_v = dec_val(p.subrange(q + 7, q + 7 + m2));
                        if m2 == 0 || exp_v > i64::MAX {
                            None
                        } else if q + 7 + m2 + 1 == p.len() && p[p.len() - 1] == 125 {
                            Some((sub, iat_v, exp_v))
                        } else {
                            None
                        }
                    }
                }
            }
        }
    }
}

/// Parsing inverts serialization: a serialized claims object with a
/// quote-free subject and timestamps that fit in an `i64` parses back to
/// exactly its parts.
pub proof fn lemma_parse_of_payload(sub: Seq<u8>, iat: int, exp: int)
    requires
        forall|i: int| 0 <= i < sub.len() ==> sub[i] != 34,
        0 <= iat <= i64::MAX,
        0 <= exp <= i64::MAX,
    ensures
        spec_parse_payload(payload_json(sub, iat, exp)) == Some((sub, iat, exp)),
{
    lemma_dec_digits(iat as nat);
    lemma_dec_digits(exp as nat);
    let d1 = dec_digits(iat as nat);
    let d2 = dec_digits(exp as nat);
    let p = payload_json(sub, iat, exp);
    let sl = sub.len() as int;
    let a = d1.len() as int;
    let b = d2.len() as int;
    assert(p.len() == 8 + sl + 8 + a + 7 + b + 1);
    assert forall|i: int| 0 <= i < 8 implies p[i] == tag_sub()[i] by {}
    assert forall|i: int| 0 <= i < sl implies p[8 + i] == sub[i] by {}
    assert forall|i: int| 0 <= i < 8 implies p[8 + sl + i] == tag_iat()[i] by {}
    assert forall|i: int| 0 <= i < a implies p[16 + sl + i] == d1[i] by {}
    assert forall|i: int| 0 <= i < 7 implies p[16 + sl + a + i] == tag_exp()[i] by {}
    assert forall|i: int| 0 <= i < b implies p[23 + sl + a + i] == d2[i] by {}
    assert(p[23 + sl + a + b] == 125);

    assert(p.subrange(0, 8) =~= tag_sub());

    let t = p.skip(8);
    lemma_first_occ(t, 34);
    let k = first_occ(t, 34);
    assert(forall|i: int| 0 <= i < t.len() ==> t[i] == p[8 + i]);
    assert(t[sl] == tag_iat()[0]);
    assert(k >= sl) by {
        if k < sl {
            assert(t[k] == 34);
            assert(t[k] == sub[k]);
        }
    }
    assert(k <= sl) by {
        if k > sl {
            assert(t[sl] != 34);
        }
    }
    let j = 8 + sl;
    assert(j < p.len());
    assert(p.subrange(8, j) =~= sub);
    assert(p.subrange(j, j + 8) =~= tag_iat());

    let u = p.skip(j + 8);
    lemma_digit_run(u);
    let m = digit_run(u);
    assert(forall|i: int| 0 <= i < u.len() ==> u[i] == p[j + 8 + i]);
    assert(u[a] == tag_exp()[0]);
    assert(!is_digit_byte(44));
    assert(m >= a) by {
        if m < a {
            assert(!is_digit_byte(u[m]));
            assert(u[m] == d1[m]);
        }
    }
    assert(m <= a) by {
        if m > a {
            assert(is_digit_byte(u[a]));
        }
    }
    assert(p.subrange(j + 8, j + 8 + a) =~= d1);
    assert(dec_val(p.subrange(j + 8, j + 8 + m)) == iat);

    let q = j + 8 + a;
    assert(p.subrange(q, q + 7) =~= tag_exp());

    let w = p.skip(q + 7);
    lemma_digit_run(w);
    let m2 = digit_run(w);
    assert(forall|i: int| 0 <= i < w.len() ==> w[i] == p[q + 7 + i]);
    assert(w[b] == 125);
    assert(!is_digit_byte(125));
    assert(m2 >= b) by {
        if m2 < b {
            assert(!is_digit_byte(w[m2]));
            assert(w[m2] == d2[m2]);
        }
    }
    assert(m2 <= b) by {
        if m2 > b {
            assert(is_digit_byte(w[b]));
        }
    }
    assert(p.subrange(q + 7, q + 7 + b) =~= d2);
    assert(dec_val(p.subrange(q + 7, q + 7 + m2)) == exp);

    assert(q + 7 + m2 + 1 == p.len());
    assert(p[p.len() - 1] == 125);
}

/// Appends the decimal digits of `n` to `out`.
fn push_dec(n: i64, out: &mut Vec<u8>)
    requires
        0 <= n,
    ensures
        final(out)@ == old(out)@ + dec_digits(n as nat),
    decreases n,
{
    if n >= 10 {
        let ghost pre = out@;
        push_dec(n / 10, out);
        let d: u8 = (n % 10) as u8;
        assert(0 <= n % 10 < 10) by (nonlinear_arith)
            requires
                n >= 10,
        ;
        out.push(48 + d);
        proof {
            assert((n / 10) as nat == (n as nat) / 10) by (nonlinear_arith)
                requires
                    n >= 10,
            ;
            assert(out@ =~= pre + dec_digits(n as nat));
        }
    } else {
        out.push(48 + (n as u8));
        proof {
            assert(out@ =~= old(out)@ + dec_digits(n as nat));
        }
    }
}

/// Serializes claims as `{"sub":"<sub>","iat":<iat>,"exp":<exp>}`.
pub fn payload_bytes(sub: &Vec<u8>, iat: i64, exp: i64) -> (r: Vec<u8>)
    requires
        0 <= iat,
        0 <= exp,
    ensures
        r@ == payload_json(sub@, iat as int, exp as int),
{
    let mut r: Vec<u8> = Vec::new();
    r.push(123);
    r.push(34);
    r.push(115);
    r.push(117);
    r.push(98);
    r.push(34);
    r.push(58);
    r.push(34);
    proof {
        assert(r@ =~= tag_sub());
    }
    r.extend_from_slice(sub.as_slice());
    r.push(34);
    r.push(44);
    r.push(34);
    r.push(105);
    r.push(97);
    r.push(116);
    r.push(34);
    r.push(58);
    proof {
        assert(r@ =~= tag_sub() + sub@ + tag_iat());
    }
    push_dec(iat, &mut r);
    r.push(44);
    r.push(34);
    r.push(101);
    r.push(120);
    r.push(112);
    r.push(34);
    r.push(58);
    proof {
        assert(r@ =~= tag_sub() + sub@ + tag_iat() + dec_digits(iat as nat) + tag_exp());
    }
    push_dec(exp, &mut r);
    r.push(125);
    proof {
        assert(r@ =~= payload_json(sub@, iat as int, exp as int));
    }
    r
}

/// Reads the digit run starting at `start`; `None` where it is empty or its
/// value does not fit in an `i64`.
fn scan_digits(p: &[u8], start: usize) -> (r: Option<(usize, i64)>)
    requires
        start <= p.len(),
    ensures
        ({
            let m = digit_run(p@.skip(start as int));
            match r {
                Some((end, v)) => start <= end <= p.len() && end == start + m && m > 0 && v == dec_val(
                    p@.subrange(start as int, start as int + m),
                ) && 0 <= v,
                None => m == 0 || dec_val(p@.subrange(start as int, start as int + m))
                    > i64::MAX,
            }
        }),
{
    proof {
        lemma_digit_run(p@.skip(start as int));
    }
    let ghost m = digit_run(p@.skip(start as int));
    let ghost run = p@.subrange(start as int, start as int + m);
    proof {
        assert(forall|i: int| 0 <= i < p@.skip(start as int).len()
            ==> p@.skip(start as int)[i] == p@[start + i]);
        assert forall|i: int| 0 <= i < m implies is_digit_byte(#[trigger] p@[start + i]) by {
            assert(is_digit_byte(p@.skip(start as int)[i]));
        }
        if m < p.len() - start {
            assert(!is_digit_byte(p@[start + m])) by {
                assert(!is_digit_byte(p@.skip(start as int)[m]));
            }
        }
        assert(all_digit_bytes(run));
    }
    let mut idx: usize = start;
    let mut acc: i64 = 0;
    proof {
        assert(p@.subrange(start as int, start as int) =~= run.take(0));
        assert(dec_val(run.take(0)) == 0);
    }
    while idx < p.len() && 48 <= p[idx] && p[idx] <= 57
        invariant
            start <= idx <= p.len(),
            idx - start <= m,
            m == digit_run(p@.skip(start as int)),
            run == p@.subrange(start as int, start as int + m),
            all_digit_bytes(run),
            0 <= m <= p.len() - start,
            m < p.len() - start ==> !is_digit_byte(p@[start + m]),
            forall|i: int| 0 <= i < m ==> is_digit_byte(#[trigger] p@[start + i]),
            0 <= acc <= i64::MAX,
            acc == dec_val(run.take(idx - start)),
        decreases p.len() - idx,
    {
        let d: u8 = p[idx] - 48;
        proof {
            // the run extends past every digit the loop has seen
            if idx - start == m {
                assert(is_digit_byte(p@[start + m]));
            }
            assert(idx - start < m);
        }
        let ghost t1 = run.take(idx - start + 1);
        proof {
            assert(t1.drop_last() =~= run.take(idx - start));
            assert(t1.last() == p@[idx as int]);
            assert(dec_val(t1) == acc * 10 + d);
        }
        if acc > i64::MAX / 10 || (acc == i64::MAX / 10 && d > 7) {
            proof {
                assert(i64::MAX == (i64::MAX / 10) * 10 + 7);
                assert(acc * 10 + d > i64::MAX);
                lemma_dec_val_prefix_le(run, idx - start + 1, m);
                assert(run.take(m as int) =~= run);
                assert(dec_val(run) > i64::MAX);
            }
            return None;
        }
        proof {
            assert(i64::MAX == (i64::MAX / 10) * 10 + 7);
            assert(acc * 10 + d <= i64::MAX);
        }
        acc = acc * 10 + (d as i64);
        idx = idx + 1;
    }
    proof {
        // the loop left off exactly at the end of the run
        if idx - start < m {
            assert(is_digit_byte(p@[start + (idx - start)]));
            assert(48 <= p@[idx as int] <= 57);
        }
        assert(idx - start == m);
        assert(run.take(m as int) =~= run);
    }
    if idx == start {
        None
    } else {
        Some((idx, acc))
    }
}

/// Strict parse of a serialized claims object, against `spec_parse_payload`.
pub fn parse_payload(p: &[u8]) -> (r: Option<(Vec<u8>, i64, i64)>)
    ensures
        match r {
            Some(c) => spec_parse_payload(p@) == Some((c.0@, c.1 as int, c.2 as int)),
            None => spec_parse_payload(p@) is None,
        },
{
    if p.len() < 8 {
        return None;
    }
    if !(p[0] == 123 && p[1] == 34 && p[2] == 115 && p[3] == 117 && p[4] == 98 && p[5] == 34
        && p[6] == 58 && p[7] == 34) {
        proof {
            assert(p@.subrange(0, 8) != tag_sub()) by {
                if p@.subrange(0, 8) == tag_sub() {
                    assert(forall|i: int| 0 <= i < 8 ==> p@[i] == #[trigger] tag_sub()[i]) by {
                        assert(forall|i: int| 0 <= i < 8
                            ==> p@.subrange(0, 8)[i] == #[trigger] p@[i]);
                    }
                }
            }
        }
        return None;
    }
    proof {
        assert(p@.subrange(0, 8) =~= tag_sub());
    }
    // scan for the quote that closes the subject
    let mut j: usize = 8;
    while j < p.len() && p[j] != 34
        invariant
            8 <= j <= p@.len(),
            forall|i: int| 8 <= i < j ==> p@[i] != 34,
        decreases p.len() - j,
    {
        j = j + 1;
    }
    let ghost t = p@.skip(8);
    proof {
        lemma_first_occ(t, 34);
        assert(forall|i: int| 0 <= i < t.len() ==> t[i] == p@[8 + i]);
    }
    let ghost k = first_occ(t, 34);
    if j == p.len() {
        proof {
            assert(k >= t.len()) by {
                if k < t.len() {
                    assert(t[k] == 34);
                    assert(p@[8 + k] != 34);
                }
            }
        }
        return None;
    }
    proof {
        assert(p@[j as int] == 34);
        assert(k >= j - 8) by {
            if k < j - 8 {
                assert(t[k] == 34);
                assert(p@[8 + k] != 34);
            }
        }
        assert(k <= j - 8) by {
            if k > j - 8 {
                assert(t[j - 8] != 34);
            }
        }
    }
    let sub: Vec<u8> = vstd::slice::slice_to_vec(vstd::slice::slice_subrange(p, 8, j));
    // the `","iat":` separator
    if p.len() - j < 8 {
        return None;
    }
    if !(p[j + 1] == 44 && p[j + 2] == 34 && p[j + 3] == 105 && p[j + 4] == 97 && p[j + 5] == 116
        && p[j + 6] == 34 && p[j + 7] == 58) {
        proof {
            assert(p@.subrange(j as int, j + 8) != tag_iat()) by {
                if p@.subrange(j as int, j + 8) == tag_iat() {
                    assert(forall|i: int| 0 <= i < 8
                        ==> p@[j + i] == #[trigger] tag_iat()[i]) by {
                        assert(forall|i: int| 0 <= i < 8
                            ==> p@.subrange(j as int, j + 8)[i] == #[trigger] p@[j + i]);
                    }
                }
            }
        }
        return None;
    }
    proof {
        assert(p@.subrange(j as int, j + 8) =~= tag_iat());
    }
    let iat_scan = scan_digits(p, j + 8);
    let (q, iat) = match iat_scan {
        Some(pair) => pair,
        None => {
            return None;
        },
    };
    // the `,"exp":` separator
    if p.len() - q < 7 {
        return None;
    }
    if !(p[q] == 44 && p[q + 1] == 34 && p[q + 2] == 101 && p[q + 3] == 120 && p[q + 4] == 112
        && p[q + 5] == 34 && p[q + 6] == 58) {
        proof {
            assert(p@.subrange(q as int, q + 7) != tag_exp()) by {
                if p@.subrange(q as int, q + 7) == tag_exp() {
                    assert(forall|i: int| 0 <= i < 7
                        ==> p@[q + i] == #[trigger] tag_exp()[i]) by {
                        assert(forall|i: int| 0 <= i < 7
                            ==> p@.subrange(q as int, q + 7)[i] == #[trigger] p@[q + i]);
                    }
                }
            }
        }
        return None;
    }
    proof {
        assert(p@.subrange(q as int, q + 7) =~= tag_exp());
    }
    let exp_scan = scan_digits(p, q + 7);
    let (q2, exp) = match exp_scan {
        Some(pair) => pair,
        None => {
            return None;
        },
    };
    // the closing brace must end the input
    if p.len() - q2 == 1 && p[q2] == 125 {
        Some((sub, iat, exp))
    } else {
        None
    }
}

} // verus!
