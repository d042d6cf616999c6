//! The feed cursor codec: a position `(timestamp, chapter_id)` is written as
//! the decimal pair `"{timestamp}#{id}"` and carried base64-encoded, so the
//! token is opaque on the wire yet a pure, restart-stable function of the two
//! key fields.
use vstd::prelude::*;

use crate::db::{find_first, lemma_find_first};
use crate::error::Error;
use vstd::arithmetic::div_mod::lemma_fundamental_div_mod;

verus! {

/// The base64 text that `base64::encode` produces for `b` (standard
/// alphabet, padded). Named only; the codec relies on it round-tripping.
pub uninterp spec fn b64_of(b: Seq<u8>) -> Seq<char>;

/// Relies on `base64::encode`: the standard-alphabet, padded encoding, a
/// pure function of the input bytes.
#[verifier::external_body]
fn b64_encode(b: &Vec<u8>) -> (r: String)
    ensures
        r@ == b64_of(b@),
{
    base64::encode(b)
}

/// Relies on `base64::decode`: decoding inverts `base64::encode`, so on the
/// encoding of any byte sequence it succeeds and returns exactly those bytes.
#[verifier::external_body]
fn b64_decode(s: &str) -> (r: Option<Vec<u8>>)
    ensures
        match r {
            Some(v) => forall|b: Seq<u8>| s@ == b64_of(b) ==> v@ == b,
            None => forall|b: Seq<u8>| s@ != b64_of(b),
        },
{
    base64::decode(s).ok()
}

/// The decimal digits of `n`, most significant first.
pub open spec fn dec_digits(n: nat) -> Seq<u8>
    decreases n,
{
    if n < 10 {
        seq![(48 + n) as u8]
    } else {
        dec_digits(n / 10).push((48 + n % 10) as u8)
    }
}

/// The decimal writing of `n`: a `-` sign when negative, then digits.
pub open spec fn int_bytes(n: int) -> Seq<u8> {
    if n < 0 {
        seq![45u8] + dec_digits((-n) as nat)
    } else {
        dec_digits(n as nat)
    }
}

/// The plain bytes a cursor carries for `(timestamp, id)`.
pub open spec fn cursor_bytes(timestamp: i64, id: i64) -> Seq<u8> {
    int_bytes(timestamp as int) + seq![35u8] + int_bytes(id as int)
}

/// A nonempty run of ASCII digits.
pub open spec fn is_digit_seq(s: Seq<u8>) -> bool {
    s.len() > 0 && forall|i: int| 0 <= i < s.len() ==> 48 <= #[trigger] s[i] <= 57
}

/// The value of a digit run, most significant first.
pub open spec fn digits_val(s: Seq<u8>) -> nat
    decreases s.len(),
{
    if s.len() == 0 {
        0
    } else {
        digits_val(s.drop_last()) * 10 + (s.last() - 48) as nat
    }
}

/// The magnitude bound of a negative `i64`.
pub open spec fn neg_limit() -> nat {
    0x8000000000000000
}

/// Parses an optionally signed decimal `i64`; `None` on an empty run, a
/// non-digit, or a value out of range.
pub open spec fn parse_int_bytes(s: Seq<u8>) -> Option<i64> {
    if s.len() >= 1 && s[0] == 45 {
        let d = s.subrange(1, s.len() as int);
        if is_digit_seq(d) && digits_val(d) <= neg_limit() {
            Some((-(digits_val(d) as int)) as i64)
        } else {
            None
        }
    } else if is_digit_seq(s) && digits_val(s) <= i64::MAX as nat {
        Some(digits_val(s) as i64)
    } else {
        None
    }
}

/// Matches the `#` separator.
pub open spec fn hash_byte_pred() -> spec_fn(u8) -> bool {
    |x: u8| x == 35
}

/// Parses cursor bytes: the part before the first `#` and the part after it
/// must each be a decimal `i64`.
pub open spec fn parse_cursor_bytes(b: Seq<u8>) -> Option<(i64, i64)> {
    let h = find_first(b, hash_byte_pred());
    if h < 0 {
        None
    } else {
        match (parse_int_bytes(b.subrange(0, h)), parse_int_bytes(
            b.subrange(h + 1, b.len() as int),
        )) {
            (Some(l), Some(r)) => Some((l, r)),
            _ => None,
        }
    }
}

/// Decimal digits are digit bytes.
pub proof fn lemma_dec_digits_digits(n: nat)
    ensures
        is_digit_seq(dec_digits(n)),
        dec_digits(n).len() >= 1,
    decreases n,
{
    if n >= 10 {
        lemma_dec_digits_digits(n / 10);
        let d = dec_digits(n / 10);
        let r = d.push((48 + n % 10) as u8);
        assert(forall|i: int| 0 <= i < d.len() ==> r[i] == d[i]);
        assert(r[r.len() - 1] == (48 + n % 10) as u8);
    }
}

/// Reading the digits of `n` gives back `n`.
pub proof fn lemma_digits_val_of_dec(n: nat)
    ensures
        digits_val(dec_digits(n)) == n,
    decreases n,
{
    if n < 10 {
        let s = seq![(48 + n) as u8];
        assert(s.drop_last() =~= Seq::<u8>::empty());
        assert(digits_val(Seq::<u8>::empty()) == 0);
        assert(digits_val(s) == 0 * 10 + (s.last() - 48) as nat);
    } else {
        lemma_digits_val_of_dec(n / 10);
        let d = dec_digits(n / 10);
        let r = d.push((48 + n % 10) as u8);
        assert(r.drop_last() =~= d);
        assert(digits_val(r) == digits_val(d) * 10 + (r.last() - 48) as nat);
        lemma_fundamental_div_mod(n as int, 10);
    }
}

/// A digit-run prefix never values above the whole run.
pub proof fn lemma_digits_val_monotone(s: Seq<u8>, k: int)
    requires
        0 <= k <= s.len(),
        forall|i: int| 0 <= i < s.len() ==> 48 <= #[trigger] s[i] <= 57,
    ensures
        digits_val(s) >= digits_val(s.subrange(0, k)),
    decreases s.len() - k,
{
    if k == s.len() {
        assert(s.subrange(0, k) =~= s);
    } else {
        lemma_digits_val_monotone(s, k + 1);
        let a = s.subrange(0, k);
        let b = s.subrange(0, k + 1);
        assert(b.drop_last() =~= a);
        assert(digits_val(b) == digits_val(a) * 10 + (b.last() - 48) as nat);
    }
}

/// The decimal writing of any `i64` parses back to it.
pub proof fn lemma_parse_int_bytes_round(n: i64)
    ensures
        parse_int_bytes(int_bytes(n as int)) == Some(n),
{
    if n >= 0 {
        let s = int_bytes(n as int);
        lemma_dec_digits_digits(n as nat);
        lemma_digits_val_of_dec(n as nat);
        assert(s == dec_digits(n as nat));
        assert(s[0] != 45);
        assert(digits_val(s) == n as nat);
    } else {
        let m = (-(n as int)) as nat;
        let s = int_bytes(n as int);
        lemma_dec_digits_digits(m);
        lemma_digits_val_of_dec(m);
        assert(s == seq![45u8] + dec_digits(m));
        assert(s[0] == 45);
        let d = s.subrange(1, s.len() as int);
        assert(d =~= dec_digits(m));
        assert(m <= neg_limit());
        assert(parse_int_bytes(s) == Some((-(m as int)) as i64));
        assert((-(m as int)) as i64 == n);
    }
}

/// Cursor round-trip: the plain bytes written for any `(timestamp, id)`
/// parse back to exactly `(timestamp, id)`. Together with the contracts of
/// `encode_cursor` and `decode_cursor`, this says
/// `decode_cursor(encode_cursor(t, i)) == Ok((t, i))` for every pair.
pub proof fn lemma_cursor_round_trip(timestamp: i64, id: i64)
    ensures
        parse_cursor_bytes(cursor_bytes(timestamp, id)) == Some((timestamp, id)),
{
    let lb = int_bytes(timestamp as int);
    let rb = int_bytes(id as int);
    let cb = cursor_bytes(timestamp, id);
    let hp = hash_byte_pred();
    assert(forall|x: u8| #[trigger] hp(x) <==> x == 35);
    lemma_int_bytes_no_hash(timestamp as int);
    lemma_int_bytes_no_hash(id as int);
    assert(cb.len() == lb.len() + 1 + rb.len());
    assert(cb[lb.len() as int] == 35);
    assert(forall|j: int| 0 <= j < lb.len() ==> cb[j] == lb[j]);
    assert(forall|j: int| 0 <= j < rb.len() ==> cb[lb.len() + 1 + j] == rb[j]);
    lemma_find_first(cb, hp);
    let h = find_first(cb, hp);
    assert(hp(cb[lb.len() as int]));
    assert(h != -1);
    assert(h <= lb.len());
    if h < lb.len() {
        assert(!hp(cb[h]));
        assert(false);
    }
    assert(h == lb.len());
    assert(cb.subrange(0, h) =~= lb);
    assert(cb.subrange(h + 1, cb.len() as int) =~= rb);
    lemma_parse_int_bytes_round(timestamp);
    lemma_parse_int_bytes_round(id);
}

/// The decimal writing of an integer never contains the `#` byte.
proof fn lemma_int_bytes_no_hash(n: int)
    ensures
        forall|j: int| 0 <= j < int_bytes(n).len() ==> #[trigger] int_bytes(n)[j] != 35,
{
    let s = int_bytes(n);
    if n < 0 {
        lemma_dec_digits_digits((-n) as nat);
        assert forall|j: int| 0 <= j < s.len() implies #[trigger] s[j] != 35 by {
            if j > 0 {
                assert(s[j] == dec_digits((-n) as nat)[j - 1]);
            }
        }
    } else {
        lemma_dec_digits_digits(n as nat);
    }
}

/// Appends the decimal digits of `n`.
fn push_dec(out: &mut Vec<u8>, n: u64)
    ensures
        final(out)@ == old(out)@ + dec_digits(n as nat),
    decreases n,
{
    if n >= 10 {
        push_dec(out, n / 10);
    }
    let d: u8 = (n % 10) as u8;
    out.push(48 + d);
    proof {
        if n < 10 {
            assert(final(out)@ =~= old(out)@ + dec_digits(n as nat));
        } else {
            assert(final(out)@ =~= old(out)@ + dec_digits((n / 10) as nat).push(
                (48 + n as nat % 10) as u8,
            ));
            assert(dec_digits(n as nat) == dec_digits((n as nat) / 10).push(
                (48 + (n as nat) % 10) as u8,
            ));
        }
    }
}

/// Appends the decimal writing of `n`, sign included.
fn push_int_bytes(out: &mut Vec<u8>, n: i64)
    ensures
        final(out)@ == old(out)@ + int_bytes(n as int),
{
    if n < 0 {
        out.push(45);
        let mag: u64 = if n == i64::MIN {
            0x8000000000000000
        } else {
            (-n) as u64
        };
        proof {
            assert(mag as nat == (-(n as int)) as nat);
        }
        push_dec(out, mag);
        proof {
            assert(final(out)@ =~= old(out)@ + (seq![45u8] + dec_digits((-(n as int)) as nat)));
        }
    } else {
        push_dec(out, n as u64);
    }
}

/// The plain (pre-base64) bytes of the cursor for `(timestamp, id)`.
fn cursor_plain_bytes(timestamp: i64, id: i64) -> (v: Vec<u8>)
    ensures
        v@ == cursor_bytes(timestamp, id),
{
    let mut v: Vec<u8> = Vec::new();
    push_int_bytes(&mut v, timestamp);
    v.push(35);
    push_int_bytes(&mut v, id);
    proof {
        assert(v@ =~= cursor_bytes(timestamp, id));
    }
    v
}

/// Encodes a feed position as an opaque token: the decimal pair
/// `"{timestamp}#{id}"`, base64-encoded. A pure function of the two fields,
/// stable across restarts.
pub fn encode_cursor(timestamp: i64, id: i64) -> (r: String)
    ensures
        r@ == b64_of(cursor_bytes(timestamp, id)),
{
    let v = cursor_plain_bytes(timestamp, id);
    b64_encode(&v)
}

/// Parses a decimal `i64` out of `v[start..end]`.
#[verifier::loop_isolation(false)]
fn parse_int_range(v: &Vec<u8>, start: usize, end: usize) -> (r: Option<i64>)
    requires
        start <= end <= v@.len(),
    ensures
        r == parse_int_bytes(v@.subrange(start as int, end as int)),
{
    let ghost s = v@.subrange(start as int, end as int);
    if start == end {
        return None;
    }
    let neg = v[start] == 45;
    let dstart = if neg {
        start + 1
    } else {
        start
    };
    let ghost d = v@.subrange(dstart as int, end as int);
    proof {
        if neg {
            assert(d =~= s.subrange(1, s.len() as int));
        } else {
            assert(d =~= s);
        }
    }
    if dstart == end {
        return None;
    }
    let limit: u64 = if neg {
        0x8000000000000000
    } else {
        0x7fffffffffffffff
    };
    proof {
        assert(limit as nat == if neg {
            neg_limit()
        } else {
            i64::MAX as nat
        });
    }
    let mut acc: u64 = 0;
    let mut i: usize = dstart;
    while i < end
        invariant
            dstart <= i <= end,
            acc as nat == digits_val(v@.subrange(dstart as int, i as int)),
            acc <= limit,
            forall|j: int| dstart <= j < i ==> 48 <= #[trigger] v@[j] <= 57,
        decreases end - i,
    {
        let c = v[i];
        if c < 48 || c > 57 {
            proof {
                assert(d[i - dstart] == c);
                assert(!is_digit_seq(d));
            }
            return None;
        }
        let dg: u64 = (c - 48) as u64;
        if acc > (limit - dg) / 10 {
            proof {
                // the value read so far already exceeds the limit
                lemma_fundamental_div_mod((limit - dg) as int, 10);
                assert(acc * 10 + dg > limit) by (nonlinear_arith)
                    requires
                        acc > (limit - dg) / 10,
                        limit - dg == 10 * ((limit - dg) / 10) + (limit - dg) % 10,
                        0 <= (limit - dg) % 10 < 10,
                        dg <= limit,
                ;
                let pre = v@.subrange(dstart as int, i + 1 as int);
                assert(pre.drop_last() =~= v@.subrange(dstart as int, i as int));
                assert(digits_val(pre) == acc * 10 + (c - 48) as nat);
                if is_digit_seq(d) {
                    assert(forall|j: int| 0 <= j < d.len() ==> 48 <= #[trigger] d[j] <= 57);
                    lemma_digits_val_monotone(d, i + 1 - dstart);
                    assert(d.subrange(0, i + 1 - dstart) =~= pre);
                    assert(digits_val(d) > limit as nat);
                }
            }
            return None;
        }
        proof {
            let pre = v@.subrange(dstart as int, i + 1 as int);
            assert(pre.drop_last() =~= v@.subrange(dstart as int, i as int));
            assert(pre.last() == c);
            lemma_fundamental_div_mod((limit - dg) as int, 10);
            assert(acc * 10 + dg <= limit) by (nonlinear_arith)
                requires
                    acc <= (limit - dg) / 10,
                    limit - dg == 10 * ((limit - dg) / 10) + (limit - dg) % 10,
                    0 <= (limit - dg) % 10 < 10,
                    dg <= limit,
            ;
        }
        acc = acc * 10 + dg;
        i += 1;
    }
    proof {
        assert(d =~= v@.subrange(dstart as int, end as int));
        assert(is_digit_seq(d));
        assert(digits_val(d) == acc as nat);
    }
    if neg {
        if acc == 0x8000000000000000 {
            Some(i64::MIN)
        } else {
            Some(-(acc as i64))
        }
    } else {
        Some(acc as i64)
    }
}

/// Parses the plain bytes of a cursor.
#[verifier::loop_isolation(false)]
fn parse_cursor_vec(v: &Vec<u8>) -> (r: Option<(i64, i64)>)
    ensures
        r == parse_cursor_bytes(v@),
{
    let ghost hp = hash_byte_pred();
    proof {
        assert(forall|x: u8| #[trigger] hp(x) <==> x == 35);
    }
    let mut i: usize = 0;
    while i < v.len() && v[i] != 35
        invariant
            i <= v@.len(),
            forall|k: int| 0 <= k < i ==> !hp(#[trigger] v@[k]),
        decreases v@.len() - i,
    {
        i += 1;
    }
    if i == v.len() {
        proof {
            lemma_find_first(v@, hp);
        }
        return None;
    }
    proof {
        lemma_find_first(v@, hp);
    }
    let left = parse_int_range(v, 0, i);
    let right = parse_int_range(v, i + 1, v.len());
    match (left, right) {
        (Some(l), Some(r2)) => Some((l, r2)),
        _ => None,
    }
}

/// Decodes an opaque cursor back to its `(timestamp, id)` position; an
/// undecodable token is a `MalformedCursor` error, which feed queries
/// recover from by substituting the default bound.
pub fn decode_cursor(cursor: &str) -> (r: Result<(i64, i64), Error>)
    ensures
        forall|b: Seq<u8>|
            cursor@ == b64_of(b) ==> r == (match parse_cursor_bytes(b) {
                Some(p) => Ok::<(i64, i64), Error>(p),
                None => Err::<(i64, i64), Error>(Error::MalformedCursor),
            }),
{
    match b64_decode(cursor) {
        Some(bytes) => {
            match parse_cursor_vec(&bytes) {
                Some(p) => Ok(p),
                None => Err(Error::MalformedCursor),
            }
        },
        None => Err(Error::MalformedCursor),
    }
}

} // verus!
