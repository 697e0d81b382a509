//! Small byte/string helpers: turning verified byte buffers back into
//! strings, ASCII reasoning, and decimal rendering.

use vstd::prelude::*;
use vstd::string::StringSliceAdditionalSpecFns;
use vstd::utf8::*;

verus! {

broadcast use vstd::slice::axiom_spec_len;

/// Relies on `String::from_utf8`: bytes that are valid UTF-8 convert to the
/// string they encode.
#[verifier::external_body]
pub fn string_from_utf8(v: Vec<u8>) -> (r: String)
    requires
        valid_utf8(v@),
    ensures
        r@ == decode_utf8(v@),
        encode_utf8(r@) == v@,
{
    match String::from_utf8(v) {
        Ok(s) => s,
        Err(_) => String::new(),
    }
}

/// A sequence of ASCII bytes is valid UTF-8.
pub proof fn lemma_ascii_valid(b: Seq<u8>)
    requires
        forall|i: int| 0 <= i < b.len() ==> b[i] < 128,
    ensures
        valid_utf8(b),
    decreases b.len(),
{
    if b.len() > 0 {
        assert(is_leading_byte_width_1(b[0]));
        assert(pop_first_scalar(b) =~= b.drop_first());
        lemma_ascii_valid(b.drop_first());
    }
}

/// Decimal digits of `n`, most significant first, as ASCII bytes.
pub open spec fn dec_bytes(n: nat) -> Seq<u8>
    decreases n,
{
    if n < 10 {
        seq![(48 + n) as u8]
    } else {
        dec_bytes(n / 10) + seq![(48 + n % 10) as u8]
    }
}

pub proof fn lemma_dec_bytes_ascii(n: nat)
    ensures
        forall|i: int| 0 <= i < dec_bytes(n).len() ==> dec_bytes(n)[i] < 128,
    decreases n,
{
    if n >= 10 {
        lemma_dec_bytes_ascii(n / 10);
        let head = dec_bytes(n / 10);
        assert forall|i: int| 0 <= i < dec_bytes(n).len() implies dec_bytes(n)[i] < 128 by {
            if i < head.len() {
                assert(dec_bytes(n)[i] == head[i]);
            } else {
                assert(dec_bytes(n)[i] == (48 + n % 10) as u8);
            }
        }
    }
}

/// Append the decimal digits of `n` to `out`.
pub fn push_dec(out: &mut Vec<u8>, n: u64)
    ensures
        final(out)@ == old(out)@ + dec_bytes(n as nat),
    decreases n,
{
    if n < 10 {
        out.push(48 + n as u8);
        proof {
            assert(old(out)@.push((48 + n) as u8) =~= old(out)@ + dec_bytes(n as nat));
        }
    } else {
        push_dec(out, n / 10);
        out.push(48 + (n % 10) as u8);
        proof {
            assert((old(out)@ + dec_bytes((n / 10) as nat)).push((48 + n % 10) as u8) =~= old(
                out,
            )@ + dec_bytes(n as nat));
        }
    }
}

/// The largest position strictly below `end` where byte `x` stands, or -1.
pub open spec fn last_pos(b: Seq<u8>, x: u8, end: int) -> int
    decreases end,
{
    if end <= 0 {
        -1
    } else if 0 <= end - 1 < b.len() && b[end - 1] == x {
        end - 1
    } else {
        last_pos(b, x, end - 1)
    }
}

pub proof fn lemma_last_pos(b: Seq<u8>, x: u8, end: int)
    requires
        0 <= end <= b.len(),
    ensures
        last_pos(b, x, end) == -1 ==> forall|j: int| 0 <= j < end ==> b[j] != x,
        last_pos(b, x, end) >= 0 ==> {
            &&& last_pos(b, x, end) < end
            &&& b[last_pos(b, x, end)] == x
            &&& forall|j: int| last_pos(b, x, end) < j < end ==> b[j] != x
        },
    decreases end,
{
    if end > 0 && b[end - 1] != x {
        lemma_last_pos(b, x, end - 1);
    }
}

pub proof fn lemma_last_pos_exact(b: Seq<u8>, x: u8, end: int, q: int)
    requires
        0 <= q < end <= b.len(),
        b[q] == x,
        forall|j: int| q < j < end ==> b[j] != x,
    ensures
        last_pos(b, x, end) == q,
    decreases end,
{
    if end - 1 != q {
        lemma_last_pos_exact(b, x, end - 1, q);
    }
}

pub proof fn lemma_last_pos_none(b: Seq<u8>, x: u8, end: int)
    requires
        0 <= end <= b.len(),
        forall|j: int| 0 <= j < end ==> b[j] != x,
    ensures
        last_pos(b, x, end) == -1,
    decreases end,
{
    if end > 0 {
        lemma_last_pos_none(b, x, end - 1);
    }
}

/// Last position of byte `x` in `v`, or -1, found by a backward scan.
pub fn find_last_byte(v: &Vec<u8>, x: u8) -> (r: Option<usize>)
    ensures
        r is Some ==> r.unwrap() as int == last_pos(v@, x, v@.len() as int),
        r is None ==> last_pos(v@, x, v@.len() as int) == -1,
{
    let n = v.len();
    let mut j: usize = n;
    while j > 0
        invariant
            0 <= j <= n,
            n == v@.len(),
            forall|k: int| j <= k < n ==> v@[k] != x,
        decreases j,
    {
        j = j - 1;
        if v[j] == x {
            proof {
                lemma_last_pos_exact(v@, x, n as int, j as int);
            }
            return Some(j);
        }
    }
    proof {
        lemma_last_pos_none(v@, x, n as int);
    }
    None
}

/// Compare two byte vectors for equality.
pub fn bytes_eq(a: &Vec<u8>, b: &Vec<u8>) -> (r: bool)
    ensures
        r == (a@ == b@),
{
    if a.len() != b.len() {
        proof {
            assert(a@.len() != b@.len());
        }
        return false;
    }
    let mut i: usize = 0;
    while i < a.len()
        invariant
            0 <= i <= a@.len(),
            a@.len() == b@.len(),
            forall|k: int| 0 <= k < i ==> a@[k] == b@[k],
        decreases a@.len() - i,
    {
        if a[i] != b[i] {
            return false;
        }
        i = i + 1;
    }
    proof {
        assert(a@ =~= b@);
    }
    true
}

/// Copy a byte range of `v` into a fresh vector.
pub fn sub_bytes(v: &Vec<u8>, from: usize, to: usize) -> (r: Vec<u8>)
    requires
        from <= to <= v@.len(),
    ensures
        r@ == v@.subrange(from as int, to as int),
{
    let mut r: Vec<u8> = Vec::new();
    let mut i: usize = from;
    while i < to
        invariant
            from <= i <= to <= v@.len(),
            r@ == v@.subrange(from as int, i as int),
        decreases to - i,
    {
        r.push(v[i]);
        proof {
            assert(v@.subrange(from as int, i as int).push(v@[i as int]) =~= v@.subrange(
                from as int,
                i + 1,
            ));
        }
        i = i + 1;
    }
    r
}

/// Compare two string slices for equality, byte by byte.
pub fn str_eq(a: &str, b: &str) -> (r: bool)
    ensures
        r == (a@ == b@),
{
    let ab = a.as_bytes();
    let bb = b.as_bytes();
    if ab.len() != bb.len() {
        proof {
            if a@ == b@ {
                assert(a.spec_bytes() == b.spec_bytes());
            }
        }
        return false;
    }
    let n = ab.len();
    let mut i: usize = 0;
    while i < n
        invariant
            0 <= i <= n,
            ab@ == a.spec_bytes(),
            bb@ == b.spec_bytes(),
            n == ab@.len() == bb@.len(),
            forall|k: int| 0 <= k < i ==> ab@[k] == bb@[k],
        decreases n - i,
    {
        if ab[i] != bb[i] {
            proof {
                if a@ == b@ {
                    assert(a.spec_bytes() == b.spec_bytes());
                }
            }
            return false;
        }
        i = i + 1;
    }
    proof {
        assert(a.spec_bytes() =~= b.spec_bytes());
        encode_utf8_decode_utf8(a@);
        encode_utf8_decode_utf8(b@);
    }
    true
}

/// Every filtered element is drawn from the original sequence.
pub proof fn lemma_filter_membership<T>(s: Seq<T>, pred: spec_fn(T) -> bool)
    ensures
        forall|k: int|
            0 <= k < s.filter(pred).len() ==> exists|w: int|
                0 <= w < s.len() && s[w] == #[trigger] s.filter(pred)[k],
    decreases s.len(),
{
    reveal_with_fuel(Seq::filter, 2);
    if s.len() > 0 {
        let head = s.drop_last();
        lemma_filter_membership(head, pred);
        assert forall|k: int|
            0 <= k < s.filter(pred).len() implies exists|w: int|
            0 <= w < s.len() && s[w] == #[trigger] s.filter(pred)[k] by {
            if pred(s.last()) && k == s.filter(pred).len() - 1 {
                assert(s[s.len() - 1] == s.filter(pred)[k]);
            } else {
                assert(s.filter(pred)[k] == head.filter(pred)[k]);
                let w = choose|w: int| 0 <= w < head.len() && head[w] == head.filter(pred)[k];
                assert(s[w] == s.filter(pred)[k]);
            }
        }
    }
}

/// The decimal rendering of a number.
pub fn dec_string(n: u64) -> (r: String)
    ensures
        encode_utf8(r@) == dec_bytes(n as nat),
{
    let mut out: Vec<u8> = Vec::new();
    push_dec(&mut out, n);
    proof {
        assert(out@ =~= dec_bytes(n as nat));
        lemma_dec_bytes_ascii(n as nat);
        lemma_ascii_valid(out@);
    }
    string_from_utf8(out)
}

/// ASCII lowercase folding of one byte.
pub open spec fn lower_byte(b: u8) -> u8 {
    if 65 <= b <= 90 {
        (b + 32) as u8
    } else {
        b
    }
}

/// ASCII lowercase folding of a byte sequence.
pub open spec fn lower_bytes(s: Seq<u8>) -> Seq<u8> {
    s.map_values(|b: u8| lower_byte(b))
}

/// ASCII lowercase folding, byte for byte.
pub fn lower_bytes_exec(s: &Vec<u8>) -> (r: Vec<u8>)
    ensures
        r@ == lower_bytes(s@),
{
    let mut r: Vec<u8> = Vec::new();
    let mut i: usize = 0;
    while i < s.len()
        invariant
            0 <= i <= s@.len(),
            r@ == lower_bytes(s@).subrange(0, i as int),
        decreases s@.len() - i,
    {
        let b = s[i];
        if 65u8 <= b && b <= 90u8 {
            r.push(b + 32);
        } else {
            r.push(b);
        }
        proof {
            assert(r@ =~= lower_bytes(s@).subrange(0, i + 1));
        }
        i = i + 1;
    }
    proof {
        assert(r@ =~= lower_bytes(s@));
    }
    r
}

} // verus!
