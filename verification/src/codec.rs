//! The JSON bodies of the wire protocol: a response is the UTF-8 text
//! `{"face_count":N,"detect_time_ms":M}` with both numbers in plain decimal,
//! and a request carries one base64 string under the key `image`.

use vstd::prelude::*;

verus! {

/// An ASCII decimal digit.
pub open spec fn is_digit(b: u8) -> bool {
    48 <= b <= 57
}

/// The shortest decimal rendering of a number, as ASCII bytes.
pub open spec fn dec_bytes(n: nat) -> Seq<u8>
    decreases n,
{
    if n < 10 {
        seq![(48 + n) as u8]
    } else {
        dec_bytes(n / 10).push((48 + n % 10) as u8)
    }
}

/// The number that a run of ASCII digits denotes.
pub open spec fn dec_val(s: Seq<u8>) -> nat
    decreases s.len(),
{
    if s.len() == 0 {
        0
    } else {
        dec_val(s.drop_last()) * 10 + (if is_digit(s.last()) {
            (s.last() - 48) as nat
        } else {
            0
        })
    }
}

/// True when every byte is an ASCII digit.
pub open spec fn all_digits(s: Seq<u8>) -> bool {
    forall|i: int| 0 <= i < s.len() ==> is_digit(#[trigger] s[i])
}

/// A decimal rendering is non-empty and consists of digits.
pub proof fn lemma_dec_bytes_digits(n: nat)
    ensures
        dec_bytes(n).len() >= 1,
        all_digits(dec_bytes(n)),
    decreases n,
{
    if n >= 10 {
        lemma_dec_bytes_digits(n / 10);
    }
}

/// Reading a decimal rendering back gives the number it was made from.
pub proof fn lemma_dec_roundtrip(n: nat)
    ensures
        dec_val(dec_bytes(n)) == n,
    decreases n,
{
    if n < 10 {
        let s = dec_bytes(n);
        assert(s.len() == 1);
        assert(s.drop_last() =~= Seq::<u8>::empty());
        assert(dec_val(s.drop_last()) == 0);
        assert(s.last() == (48 + n) as u8);
        assert(48 + n <= 57);
        assert(s.last() == 48 + n);
        assert(dec_val(s) == n);
    } else {
        lemma_dec_roundtrip(n / 10);
        let s = dec_bytes(n);
        assert(s.drop_last() =~= dec_bytes(n / 10));
        assert(s.last() == (48 + n % 10) as u8);
        assert(48 + n % 10 <= 57);
        assert(s.last() == 48 + n % 10);
        assert(dec_val(s) == dec_val(dec_bytes(n / 10)) * 10 + n % 10);
        assert(n / 10 * 10 + n % 10 == n);
    }
}

/// Powers of ten, for bounding digit counts.
pub open spec fn pow10(k: nat) -> nat
    decreases k,
{
    if k == 0 {
        1
    } else {
        10 * pow10((k - 1) as nat)
    }
}

/// A number below `10^k` renders in at most `k` digits.
pub proof fn lemma_dec_bytes_len(n: nat, k: nat)
    requires
        1 <= k,
        n < pow10(k),
    ensures
        dec_bytes(n).len() <= k,
    decreases n,
{
    if n >= 10 {
        assert(pow10(k) == 10 * pow10((k - 1) as nat));
        lemma_dec_bytes_len(n / 10, (k - 1) as nat);
    }
}

/// A byte string denotes at least as much as any of its prefixes: each
/// further byte scales the value up before adding to it.
pub proof fn lemma_dec_val_prefix(t: Seq<u8>, k: int)
    requires
        0 <= k <= t.len(),
    ensures
        dec_val(t) >= dec_val(t.take(k)),
    decreases t.len(),
{
    if t.len() > k {
        lemma_dec_val_prefix(t.drop_last(), k);
        assert(t.drop_last().take(k) =~= t.take(k));
    } else {
        assert(t.take(k) =~= t);
    }
}

/// The length of the maximal run of digits at the head of a byte string.
pub open spec fn digits_len(s: Seq<u8>) -> nat
    decreases s.len(),
{
    if s.len() == 0 || !is_digit(s[0]) {
        0
    } else {
        1 + digits_len(s.skip(1))
    }
}

/// A digit prefix is never longer than its string.
pub proof fn lemma_digits_len_at_most(s: Seq<u8>)
    ensures
        digits_len(s) <= s.len(),
    decreases s.len(),
{
    if s.len() > 0 && is_digit(s[0]) {
        lemma_digits_len_at_most(s.skip(1));
    }
}

/// A byte string whose first `m` bytes are digits has a digit prefix at
/// least that long.
pub proof fn lemma_digits_len_at_least(s: Seq<u8>, m: int)
    requires
        0 <= m <= s.len(),
        forall|j: int| 0 <= j < m ==> is_digit(#[trigger] s[j]),
    ensures
        digits_len(s) >= m,
    decreases m,
{
    if m > 0 {
        assert(forall|j: int| 0 <= j < m - 1 ==> is_digit(#[trigger] s.skip(1)[j]));
        lemma_digits_len_at_least(s.skip(1), m - 1);
    }
}

/// A scan that stops at the first non-digit finds exactly the maximal
/// digit prefix.
pub proof fn lemma_digits_len_exact(s: Seq<u8>, m: int)
    requires
        0 <= m <= s.len(),
        forall|j: int| 0 <= j < m ==> is_digit(#[trigger] s[j]),
        m < s.len() ==> !is_digit(s[m]),
    ensures
        digits_len(s) == m,
    decreases m,
{
    if m == 0 {
    } else {
        assert(forall|j: int| 0 <= j < m - 1 ==> is_digit(#[trigger] s.skip(1)[j]));
        assert(m - 1 < s.skip(1).len() ==> !is_digit(s.skip(1)[m - 1]));
        lemma_digits_len_exact(s.skip(1), m - 1);
    }
}

/// A run of digits followed by a non-digit has exactly that run as its
/// maximal digit prefix.
pub proof fn lemma_digits_len_concat(s: Seq<u8>, t: Seq<u8>)
    requires
        all_digits(s),
        t.len() > 0,
        !is_digit(t[0]),
    ensures
        digits_len(s + t) == s.len(),
    decreases s.len(),
{
    if s.len() == 0 {
        assert(s + t =~= t);
    } else {
        assert((s + t).skip(1) =~= s.skip(1) + t);
        lemma_digits_len_concat(s.skip(1), t);
    }
}

/// Two decimal renderings followed by non-digit tails agree only when both
/// the numbers and the tails agree.
pub proof fn lemma_dec_unique(a: nat, b: nat, r1: Seq<u8>, r2: Seq<u8>)
    requires
        dec_bytes(a) + r1 == dec_bytes(b) + r2,
        r1.len() > 0,
        !is_digit(r1[0]),
        r2.len() > 0,
        !is_digit(r2[0]),
    ensures
        a == b,
        r1 == r2,
{
    let s = dec_bytes(a) + r1;
    lemma_dec_bytes_digits(a);
    lemma_dec_bytes_digits(b);
    lemma_digits_len_concat(dec_bytes(a), r1);
    lemma_digits_len_concat(dec_bytes(b), r2);
    let k = dec_bytes(a).len();
    assert(dec_bytes(b).len() == k);
    assert(dec_bytes(a) =~= s.take(k as int));
    assert(dec_bytes(b) =~= s.take(k as int));
    lemma_dec_roundtrip(a);
    lemma_dec_roundtrip(b);
    assert(r1 =~= s.skip(k as int));
    assert(r2 =~= s.skip(k as int));
}

/// The bytes of `{"face_count":`.
pub open spec fn resp_head() -> Seq<u8> {
    seq![
        123u8, 34u8, 102u8, 97u8, 99u8, 101u8, 95u8, 99u8, 111u8, 117u8, 110u8, 116u8, 34u8, 58u8,
    ]
}

/// The bytes of `,"detect_time_ms":`.
pub open spec fn resp_mid() -> Seq<u8> {
    seq![
        44u8, 34u8, 100u8, 101u8, 116u8, 101u8, 99u8, 116u8, 95u8, 116u8, 105u8, 109u8, 101u8, 95u8,
        109u8, 115u8, 34u8, 58u8,
    ]
}

/// The whole response body for a face count and a detection time.
pub open spec fn response_bytes(face_count: nat, detect_time_ms: nat) -> Seq<u8> {
    resp_head() + dec_bytes(face_count) + resp_mid() + dec_bytes(detect_time_ms) + seq![125u8]
}

/// A response body determines the face count and the detection time that
/// produced it: no two distinct results serialize alike.
pub proof fn lemma_response_injective(fc1: nat, ms1: nat, fc2: nat, ms2: nat)
    requires
        response_bytes(fc1, ms1) == response_bytes(fc2, ms2),
    ensures
        fc1 == fc2,
        ms1 == ms2,
{
    let s1 = response_bytes(fc1, ms1);
    let s2 = response_bytes(fc2, ms2);
    let t1 = resp_mid() + dec_bytes(ms1) + seq![125u8];
    let t2 = resp_mid() + dec_bytes(ms2) + seq![125u8];
    assert(s1 =~= resp_head() + (dec_bytes(fc1) + t1));
    assert(s2 =~= resp_head() + (dec_bytes(fc2) + t2));
    assert(dec_bytes(fc1) + t1 =~= s1.skip(14));
    assert(dec_bytes(fc2) + t2 =~= s2.skip(14));
    assert(!is_digit(t1[0]));
    lemma_dec_unique(fc1, fc2, t1, t2);
    let u1 = dec_bytes(ms1) + seq![125u8];
    let u2 = dec_bytes(ms2) + seq![125u8];
    assert(u1 =~= t1.skip(18));
    assert(u2 =~= t2.skip(18));
    lemma_dec_unique(ms1, ms2, seq![125u8], seq![125u8]);
}

/// Renders a number in decimal ASCII.
pub fn u64_to_dec(n: u64) -> (r: Vec<u8>)
    ensures
        r@ == dec_bytes(n as nat),
    decreases n,
{
    if n < 10 {
        let mut r: Vec<u8> = Vec::new();
        r.push(48 + n as u8);
        assert(r@ =~= dec_bytes(n as nat));
        r
    } else {
        let mut r = u64_to_dec(n / 10);
        r.push(48 + (n % 10) as u8);
        assert(r@ =~= dec_bytes(n as nat));
        r
    }
}

/// Appends one byte string to another.
pub(crate) fn push_all(dst: &mut Vec<u8>, src: &Vec<u8>)
    ensures
        final(dst)@ == old(dst)@ + src@,
{
    let mut i: usize = 0;
    while i < src.len()
        invariant
            i <= src@.len(),
            dst@ =~= old(dst)@ + src@.subrange(0, i as int),
        decreases src@.len() - i,
    {
        dst.push(src[i]);
        i += 1;
        assert(dst@ =~= old(dst)@ + src@.subrange(0, i as int));
    }
    assert(src@.subrange(0, src@.len() as int) =~= src@);
}

/// Builds the response body sent back for one request: the face count the
/// detector reported and the wall-clock milliseconds the detection took.
///
/// The result is short enough to be framed.
pub fn build_response(face_count: usize, detect_time_ms: u64) -> (r: Vec<u8>)
    ensures
        r@ == response_bytes(face_count as nat, detect_time_ms as nat),
        r@.len() <= 73,
{
    let mut r: Vec<u8> = Vec::new();
    r.push(123u8);
    r.push(34u8);
    r.push(102u8);
    r.push(97u8);
    r.push(99u8);
    r.push(101u8);
    r.push(95u8);
    r.push(99u8);
    r.push(111u8);
    r.push(117u8);
    r.push(110u8);
    r.push(116u8);
    r.push(34u8);
    r.push(58u8);
    assert(r@ =~= resp_head());
    let fc = u64_to_dec(face_count as u64);
    push_all(&mut r, &fc);
    r.push(44u8);
    r.push(34u8);
    r.push(100u8);
    r.push(101u8);
    r.push(116u8);
    r.push(101u8);
    r.push(99u8);
    r.push(116u8);
    r.push(95u8);
    r.push(116u8);
    r.push(105u8);
    r.push(109u8);
    r.push(101u8);
    r.push(95u8);
    r.push(109u8);
    r.push(115u8);
    r.push(34u8);
    r.push(58u8);
    let ms = u64_to_dec(detect_time_ms);
    push_all(&mut r, &ms);
    r.push(125u8);
    proof {
        assert(r@ =~= response_bytes(face_count as nat, detect_time_ms as nat));
        reveal_with_fuel(pow10, 21);
        assert(u64::MAX < pow10(20));
        lemma_dec_bytes_len(face_count as nat, 20);
        lemma_dec_bytes_len(detect_time_ms as nat, 20);
    }
    r
}

/// Reads the digit run standing at `from`: its value and where it ends.
/// `None` when no digit stands there, or the run's value does not fit.
fn scan_digits(bytes: &Vec<u8>, from: usize) -> (r: Option<(u64, usize)>)
    requires
        from <= bytes@.len(),
    ensures
        r matches Some(p) ==> ({
            &&& from < p.1 <= bytes@.len()
            &&& p.1 - from == digits_len(bytes@.skip(from as int))
            &&& p.0 == dec_val(bytes@.subrange(from as int, p.1 as int))
        }),
        ({
            let k = digits_len(bytes@.skip(from as int)) as int;
            k > 0 && dec_val(bytes@.subrange(from as int, from as int + k)) <= u64::MAX
        }) ==> r is Some,
{
    let ghost whole = bytes@.skip(from as int);
    let ghost k = digits_len(whole) as int;
    let mut acc: u64 = 0;
    let mut i: usize = from;
    loop
        invariant
            from <= i <= bytes@.len(),
            whole == bytes@.skip(from as int),
            k == digits_len(whole) as int,
            forall|j: int| from <= j < i ==> is_digit(#[trigger] bytes@[j]),
            acc == dec_val(bytes@.subrange(from as int, i as int)),
        decreases bytes@.len() - i,
    {
        if i == bytes.len() || bytes[i] < 48 || bytes[i] > 57 {
            proof {
                assert(forall|j: int|
                    0 <= j < i - from ==> is_digit(#[trigger] whole[j]));
                assert(i - from < whole.len() ==> !is_digit(whole[i - from]));
                lemma_digits_len_exact(whole, i - from);
            }
            if i == from {
                return None;
            }
            return Some((acc, i));
        }
        let d = (bytes[i] - 48) as u64;
        let ghost prefix = bytes@.subrange(from as int, i as int);
        let ghost extended = bytes@.subrange(from as int, i as int + 1);
        proof {
            assert(extended.drop_last() =~= prefix);
            assert(extended.last() == bytes@[i as int]);
        }
        if acc > u64::MAX / 10 || (acc == u64::MAX / 10 && d > u64::MAX % 10) {
            proof {
                assert(u64::MAX == u64::MAX / 10 * 10 + u64::MAX % 10);
                assert(dec_val(extended) > u64::MAX);
                assert(forall|j: int|
                    0 <= j < i as int + 1 - from ==> is_digit(#[trigger] whole[j]));
                lemma_digits_len_at_least(whole, i as int + 1 - from);
                lemma_digits_len_at_most(whole);
                if k > 0 {
                    let run = bytes@.subrange(from as int, from as int + k);
                    assert(run.take(i as int + 1 - from) =~= extended);
                    lemma_dec_val_prefix(run, i as int + 1 - from);
                }
            }
            return None;
        }
        proof {
            assert(u64::MAX == u64::MAX / 10 * 10 + u64::MAX % 10);
            assert(acc * 10 + d <= u64::MAX);
        }
        acc = acc * 10 + d;
        i += 1;
        proof {
            assert(bytes@.subrange(from as int, i as int) =~= extended);
        }
    }
}

/// True exactly when two byte strings are equal.
fn bytes_eq(a: &Vec<u8>, b: &Vec<u8>) -> (r: bool)
    ensures
        r <==> a@ == b@,
{
    if a.len() != b.len() {
        return false;
    }
    let mut i: usize = 0;
    while i < a.len()
        invariant
            i <= a@.len(),
            a@.len() == b@.len(),
            forall|j: int| 0 <= j < i ==> a@[j] == #[trigger] b@[j],
        decreases a@.len() - i,
    {
        if a[i] != b[i] {
            return false;
        }
        i += 1;
    }
    assert(a@ =~= b@);
    true
}

/// Reads a response body back: the face count and the detection time it
/// was built from, or `None` for bytes that are no response body.  This is
/// the client's half of the codec, and the exact inverse of
/// `build_response`.
pub fn parse_response(bytes: &Vec<u8>) -> (r: Option<(u64, u64)>)
    ensures
        r matches Some(p) ==> bytes@ == response_bytes(p.0 as nat, p.1 as nat),
        forall|fc: nat, ms: nat|
            fc <= usize::MAX && ms <= u64::MAX && bytes@ == response_bytes(fc, ms) ==> r
                == Some(((fc as u64), (ms as u64))),
{
    proof {
        lemma_response_shape();
    }
    if bytes.len() < 14 {
        return None;
    }
    let first = scan_digits(bytes, 14);
    let (fc64, p1) = match first {
        Some(x) => x,
        None => {
            proof {
                assert forall|fc: nat, ms: nat|
                    fc <= usize::MAX && ms <= u64::MAX && bytes@ == response_bytes(fc, ms)
                        implies false by {
                    lemma_parse_response_runs(bytes@, fc, ms);
                }
            }
            return None;
        },
    };
    if bytes.len() - p1 < 18 {
        proof {
            assert forall|fc: nat, ms: nat|
                fc <= usize::MAX && ms <= u64::MAX && bytes@ == response_bytes(fc, ms)
                    implies false by {
                lemma_parse_response_runs(bytes@, fc, ms);
            }
        }
        return None;
    }
    let mid_end = p1 + 18;
    let second = scan_digits(bytes, mid_end);
    let (ms64, _end) = match second {
        Some(x) => x,
        None => {
            proof {
                assert forall|fc: nat, ms: nat|
                    fc <= usize::MAX && ms <= u64::MAX && bytes@ == response_bytes(fc, ms)
                        implies false by {
                    lemma_parse_response_runs(bytes@, fc, ms);
                }
            }
            return None;
        },
    };
    if fc64 > usize::MAX as u64 {
        proof {
            assert forall|fc: nat, ms: nat|
                fc <= usize::MAX && ms <= u64::MAX && bytes@ == response_bytes(fc, ms)
                    implies false by {
                lemma_parse_response_runs(bytes@, fc, ms);
            }
        }
        return None;
    }
    let rebuilt = build_response(fc64 as usize, ms64);
    if bytes_eq(bytes, &rebuilt) {
        proof {
            assert forall|fc: nat, ms: nat|
                fc <= usize::MAX && ms <= u64::MAX && bytes@ == response_bytes(fc, ms)
                    implies Some((fc64, ms64)) == Some(((fc as u64), (ms as u64))) by {
                lemma_response_injective(fc64 as nat, ms64 as nat, fc, ms);
            }
        }
        Some((fc64, ms64))
    } else {
        proof {
            assert forall|fc: nat, ms: nat|
                fc <= usize::MAX && ms <= u64::MAX && bytes@ == response_bytes(fc, ms)
                    implies false by {
                lemma_parse_response_runs(bytes@, fc, ms);
            }
        }
        None
    }
}

/// The head of a response is no digit where the scans start, so the runs a
/// scanner finds in a response body are exactly its two numbers.
proof fn lemma_parse_response_runs(s: Seq<u8>, fc: nat, ms: nat)
    requires
        s == response_bytes(fc, ms),
    ensures
        s.len() == 14 + dec_bytes(fc).len() + 18 + dec_bytes(ms).len() + 1,
        digits_len(s.skip(14)) == dec_bytes(fc).len(),
        s.subrange(14, 14 + dec_bytes(fc).len() as int) == dec_bytes(fc),
        dec_val(s.subrange(14, 14 + dec_bytes(fc).len() as int)) == fc,
        digits_len(s.skip(14 + dec_bytes(fc).len() as int + 18)) == dec_bytes(ms).len(),
        s.subrange(
            14 + dec_bytes(fc).len() as int + 18,
            14 + dec_bytes(fc).len() as int + 18 + dec_bytes(ms).len() as int,
        ) == dec_bytes(ms),
        dec_val(
            s.subrange(
                14 + dec_bytes(fc).len() as int + 18,
                14 + dec_bytes(fc).len() as int + 18 + dec_bytes(ms).len() as int,
            ),
        ) == ms,
{
    lemma_dec_bytes_digits(fc);
    lemma_dec_bytes_digits(ms);
    lemma_dec_roundtrip(fc);
    lemma_dec_roundtrip(ms);
    let kf = dec_bytes(fc).len() as int;
    let km = dec_bytes(ms).len() as int;
    let rest1 = resp_mid() + dec_bytes(ms) + seq![125u8];
    assert(s.skip(14) =~= dec_bytes(fc) + rest1);
    assert(!is_digit(rest1[0]));
    lemma_digits_len_concat(dec_bytes(fc), rest1);
    lemma_digits_len_exact(s.skip(14), kf);
    assert(s.subrange(14, 14 + kf) =~= dec_bytes(fc));
    assert(s.skip(14 + kf + 18) =~= dec_bytes(ms) + seq![125u8]);
    lemma_digits_len_concat(dec_bytes(ms), seq![125u8]);
    assert(s.subrange(14 + kf + 18, 14 + kf + 18 + km) =~= dec_bytes(ms));
}

/// A response body is at least as long as its shortest instance.
proof fn lemma_response_shape()
    ensures
        forall|fc: nat, ms: nat| #[trigger] response_bytes(fc, ms).len() >= 35,
{
    assert forall|fc: nat, ms: nat| #[trigger] response_bytes(fc, ms).len() >= 35 by {
        lemma_dec_bytes_digits(fc);
        lemma_dec_bytes_digits(ms);
    }
}

} // verus!
