//! Verified UTF-8 decoding, specified against the model in `vstd::utf8`.
//!
//! Both input readers decode their byte source through the functions here.
//! [`decode_to_chars`] decodes a whole buffer at once and reports the byte
//! offset at which decoding fails; [`decode_char_at`] decodes the single
//! scalar whose encoding starts at a given offset, which lets the
//! bounded-window reader refill its character window one scalar at a time.

use vstd::prelude::*;
use vstd::utf8::*;

verus! {

/// Relies on `char::from_u32` from core: it returns `Some` exactly when the
/// argument is a Unicode scalar value (not a surrogate and at most
/// `0x10FFFF`), and the returned `char` has the argument as its value.
#[verifier::external_body]
fn char_from_u32(v: u32) -> (r: Option<char>)
    ensures
        r is Some <==> is_scalar(v),
        r matches Some(c) ==> c as u32 == v,
{
    char::from_u32(v)
}

/// Decodes the scalar whose UTF-8 encoding starts at byte offset `i`.
///
/// Returns the decoded character together with the byte length of its
/// encoding, or `None` exactly when no well-formed scalar encoding starts
/// at `i`.
pub fn decode_char_at(bytes: &Vec<u8>, i: usize) -> (r: Option<(char, usize)>)
    requires
        i < bytes.len(),
    ensures
        r is Some <==> valid_first_scalar(bytes@.skip(i as int)),
        r matches Some(p) ==> ({
            let tail = bytes@.skip(i as int);
            &&& p.0 as u32 == decode_first_scalar(tail)
            &&& p.1 == length_of_first_scalar(tail)
            &&& 1 <= p.1 <= 4
            &&& i + p.1 <= bytes.len()
        }),
{
    let ghost tail = bytes@.skip(i as int);
    let n = bytes.len();
    let avail = n - i;
    let b0 = bytes[i];
    proof {
        assert(tail.len() == n - i);
        assert(tail[0] == b0);
    }
    if b0 < 0x80 {
        let v = b0 as u32;
        proof {
            assert(b0 & 0x7f == b0) by (bit_vector)
                requires
                    b0 < 0x80,
            ;
            assert(codepoint_width_1(b0) == v);
        }
        match char_from_u32(v) {
            Some(c) => Some((c, 1)),
            None => {
                proof {
                    assert(false);
                }
                None
            },
        }
    } else if b0 < 0xc0 {
        None
    } else if b0 < 0xe0 {
        if avail < 2 {
            return None;
        }
        let b1 = bytes[i + 1];
        proof {
            assert(tail[1] == b1);
        }
        if !(0x80 <= b1 && b1 < 0xc0) {
            return None;
        }
        let v = (((b0 & 0x1f) as u32) << 6) | ((b1 & 0x3f) as u32);
        proof {
            assert(codepoint_width_2(b0, b1) == v);
        }
        if v < 0x80 {
            return None;
        }
        proof {
            assert(v <= 0x7ff) by (bit_vector)
                requires
                    v == (((b0 & 0x1f) as u32) << 6) | ((b1 & 0x3f) as u32),
            ;
        }
        match char_from_u32(v) {
            Some(c) => Some((c, 2)),
            None => {
                proof {
                    assert(false);
                }
                None
            },
        }
    } else if b0 < 0xf0 {
        if avail < 3 {
            return None;
        }
        let b1 = bytes[i + 1];
        let b2 = bytes[i + 2];
        proof {
            assert(tail[1] == b1);
            assert(tail[2] == b2);
        }
        if !(0x80 <= b1 && b1 < 0xc0) || !(0x80 <= b2 && b2 < 0xc0) {
            return None;
        }
        let v = (((b0 & 0x0f) as u32) << 12) | (((b1 & 0x3f) as u32) << 6) | ((b2 & 0x3f) as u32);
        proof {
            assert(codepoint_width_3(b0, b1, b2) == v);
        }
        if v < 0x800 {
            return None;
        }
        if 0xd800 <= v && v <= 0xdfff {
            return None;
        }
        proof {
            assert(v <= 0xffff) by (bit_vector)
                requires
                    v == (((b0 & 0x0f) as u32) << 12) | (((b1 & 0x3f) as u32) << 6) | ((b2
                        & 0x3f) as u32),
            ;
        }
        match char_from_u32(v) {
            Some(c) => Some((c, 3)),
            None => {
                proof {
                    assert(false);
                }
                None
            },
        }
    } else if b0 < 0xf8 {
        if avail < 4 {
            return None;
        }
        let b1 = bytes[i + 1];
        let b2 = bytes[i + 2];
        let b3 = bytes[i + 3];
        proof {
            assert(tail[1] == b1);
            assert(tail[2] == b2);
            assert(tail[3] == b3);
        }
        if !(0x80 <= b1 && b1 < 0xc0) || !(0x80 <= b2 && b2 < 0xc0) || !(0x80 <= b3 && b3
            < 0xc0) {
            return None;
        }
        let v = (((b0 & 0x07) as u32) << 18) | (((b1 & 0x3f) as u32) << 12) | (((b2
            & 0x3f) as u32) << 6) | ((b3 & 0x3f) as u32);
        proof {
            assert(codepoint_width_4(b0, b1, b2, b3) == v);
        }
        if v < 0x10000 || v > 0x10ffff {
            return None;
        }
        match char_from_u32(v) {
            Some(c) => Some((c, 4)),
            None => {
                proof {
                    assert(false);
                }
                None
            },
        }
    } else {
        None
    }
}

/// A well-formed nonempty byte sequence decodes to its first scalar followed
/// by the decoding of the rest.
pub proof fn lemma_decode_unfold(t: Seq<u8>)
    requires
        valid_utf8(t),
        t.len() > 0,
    ensures
        ({
            let l = length_of_first_scalar(t);
            &&& 1 <= l <= t.len()
            &&& l <= 4
            &&& decode_utf8(t) == seq![decode_first_scalar(t) as char] + decode_utf8(t.skip(l))
        }),
{
    let l = length_of_first_scalar(t);
    assert(valid_first_scalar(t));
    assert(1 <= l <= t.len() && l <= 4);
    assert(pop_first_scalar(t) =~= t.skip(l));
}

/// After the first scalar of the remaining input, the byte cursor again sits
/// on a character boundary.
pub proof fn lemma_boundary_step(bytes: Seq<u8>, i: int)
    requires
        valid_utf8(bytes),
        is_char_boundary(bytes, i),
        0 <= i < bytes.len(),
    ensures
        ({
            let l = length_of_first_scalar(bytes.skip(i));
            &&& valid_utf8(bytes.skip(i))
            &&& bytes.skip(i).len() > 0
            &&& i + l <= bytes.len()
            &&& is_char_boundary(bytes, i + l)
        }),
{
    valid_utf8_split(bytes, i);
    assert(bytes.skip(i) =~= bytes.subrange(i, bytes.len() as int));
    let t = bytes.skip(i);
    assert(valid_utf8(t));
    assert(t.len() > 0);
    let l = length_of_first_scalar(t);
    lemma_decode_unfold(t);
    if i + l == bytes.len() {
        is_char_boundary_start_end_of_seq(bytes);
    } else {
        let rest = pop_first_scalar(t);
        assert(rest =~= t.skip(l));
        assert(valid_utf8(rest));
        assert(rest.len() > 0);
        assert(valid_first_scalar(rest));
        assert(rest[0] == bytes[i + l]);
        assert(!is_continuation_byte(bytes[i + l]));
        is_char_boundary_iff_not_is_continuation_byte(bytes, i + l);
    }
}

/// Appending the first scalar of the unread input to an already decoded
/// prefix keeps the prefix well formed and extends its decoding by exactly
/// that character.
proof fn lemma_decode_step(bytes: Seq<u8>, i: int)
    requires
        0 <= i < bytes.len(),
        partial_valid_utf8(bytes, i),
        valid_first_scalar(bytes.skip(i)),
    ensures
        ({
            let l = length_of_first_scalar(bytes.skip(i));
            &&& 1 <= l <= 4
            &&& i + l <= bytes.len()
            &&& partial_valid_utf8(bytes, i + l)
            &&& decode_utf8(bytes.take(i + l)) == decode_utf8(bytes.take(i)) + seq![
                decode_first_scalar(bytes.skip(i)) as char,
            ]
        }),
{
    let t = bytes.skip(i);
    let l = length_of_first_scalar(t);
    assert(t =~= bytes.subrange(i, bytes.len() as int));
    assert(1 <= l <= t.len() && l <= 4);
    partial_valid_utf8_extend(bytes, i);
    let u = bytes.take(i + l);
    assert(u =~= bytes.subrange(0, i + l));
    assert(valid_utf8(u));
    // The byte at i is a leading byte, so i is a character boundary of u.
    assert(u[i] == t[0]);
    assert(!is_continuation_byte(u[i]));
    is_char_boundary_iff_not_is_continuation_byte(u, i);
    decode_utf8_split(u, i);
    assert(u.subrange(0, i) =~= bytes.take(i));
    let s = u.subrange(i, u.len() as int);
    assert(s =~= bytes.subrange(i, i + l));
    // s agrees with t on the first l bytes, so it holds exactly one scalar.
    assert(s.len() == l);
    assert(forall|j: int| 0 <= j < l ==> s[j] == t[j]);
    assert(valid_first_scalar(s) && decode_first_scalar(s) == decode_first_scalar(t)
        && length_of_first_scalar(s) == l);
    valid_utf8_split(u, i);
    assert(valid_utf8(s));
    lemma_decode_unfold(s);
    assert(s.skip(l) =~= Seq::<u8>::empty());
    assert(decode_utf8(s) =~= seq![decode_first_scalar(t) as char]);
    assert(decode_utf8(u) =~= decode_utf8(bytes.take(i)) + seq![
        decode_first_scalar(bytes.skip(i)) as char,
    ]);
}

/// Checks that a whole byte buffer is valid UTF-8 without decoding it into
/// characters, or reports the byte offset of the first malformed scalar
/// encoding.
pub fn validate_utf8(bytes: &Vec<u8>) -> (r: Result<(), usize>)
    ensures
        r is Ok <==> valid_utf8(bytes@),
        r matches Err(j) ==> {
            &&& j < bytes.len()
            &&& partial_valid_utf8(bytes@, j as int)
            &&& !valid_first_scalar(bytes@.skip(j as int))
            &&& !valid_utf8(bytes@)
        },
{
    let n = bytes.len();
    let mut i: usize = 0;
    proof {
        assert(bytes@.take(0) =~= Seq::<u8>::empty());
    }
    while i < n
        invariant
            n == bytes.len(),
            i <= n,
            partial_valid_utf8(bytes@, i as int),
        decreases n - i,
    {
        match decode_char_at(bytes, i) {
            Some((c, l)) => {
                proof {
                    lemma_decode_step(bytes@, i as int);
                }
                i = i + l;
            },
            None => {
                proof {
                    let t = bytes@.skip(i as int);
                    assert(t =~= bytes@.subrange(i as int, bytes@.len() as int));
                    assert(!valid_utf8(t));
                    partial_valid_partial_invalid_utf8(bytes@, i as int);
                }
                return Err(i);
            },
        }
    }
    proof {
        assert(bytes@.take(n as int) =~= bytes@);
    }
    Ok(())
}

/// Decodes a whole byte buffer, or reports the byte offset of the first
/// malformed scalar encoding.
pub fn decode_to_chars(bytes: &Vec<u8>) -> (r: Result<Vec<char>, usize>)
    ensures
        r is Ok <==> valid_utf8(bytes@),
        r matches Ok(cs) ==> cs@ == decode_utf8(bytes@),
        r matches Err(j) ==> {
            &&& j < bytes.len()
            &&& partial_valid_utf8(bytes@, j as int)
            &&& !valid_first_scalar(bytes@.skip(j as int))
            &&& !valid_utf8(bytes@)
        },
{
    let n = bytes.len();
    let mut out: Vec<char> = Vec::new();
    let mut i: usize = 0;
    proof {
        assert(bytes@.take(0) =~= Seq::<u8>::empty());
    }
    while i < n
        invariant
            n == bytes.len(),
            i <= n,
            partial_valid_utf8(bytes@, i as int),
            out@ == decode_utf8(bytes@.take(i as int)),
        decreases n - i,
    {
        match decode_char_at(bytes, i) {
            Some((c, l)) => {
                proof {
                    lemma_decode_step(bytes@, i as int);
                    vstd::utf8::char_u32_cast(c, decode_first_scalar(bytes@.skip(i as int)));
                }
                out.push(c);
                i = i + l;
            },
            None => {
                proof {
                    let t = bytes@.skip(i as int);
                    assert(t =~= bytes@.subrange(i as int, bytes@.len() as int));
                    assert(!valid_utf8(t));
                    partial_valid_partial_invalid_utf8(bytes@, i as int);
                }
                return Err(i);
            },
        }
    }
    proof {
        assert(bytes@.take(n as int) =~= bytes@);
    }
    Ok(out)
}

} // verus!
