use vstd::prelude::*;
use crate::text::ascii_to_string;

verus! {

/// Relies on `rand::thread_rng` and `rand::RngCore::fill_bytes`: fills the
/// buffer from the process-wide generator; nothing is promised of the drawn
/// values, only that the buffer keeps its length.
#[verifier::external_body]
pub(crate) fn fill_random_buf(buf: &mut Vec<u8>)
    ensures
        final(buf)@.len() == old(buf)@.len(),
{
    rand::RngCore::fill_bytes(&mut rand::thread_rng(), buf.as_mut_slice());
}

/// The restricted 36-symbol mode is chosen by the string "alpha36".
pub open spec fn restricted_mode(mode: Option<&str>) -> bool {
    match mode {
        Some(m) => m@ == "alpha36"@,
        None => false,
    }
}

/// A character of the random-string alphabet: digits and uppercase letters,
/// and in the unrestricted mode lowercase letters too.
pub open spec fn alpha_char_ok(c: char, restricted: bool) -> bool {
    ('0' <= c && c <= '9') || ('A' <= c && c <= 'Z') || (!restricted && 'a' <= c && c <= 'z')
}

/// Draw a random string over the 62-symbol alphabet `0-9A-Za-z`, or over
/// its first 36 symbols when the mode is "alpha36", by rejection sampling
/// over random bytes.
pub fn random_alpha(length: usize, mode: Option<&str>) -> (r: String)
    requires
        length <= usize::MAX / 2,
    ensures
        r@.len() == length,
        forall|i: int| 0 <= i < r@.len() ==> alpha_char_ok(#[trigger] r@[i], restricted_mode(mode)),
{
    let restricted = match mode {
        Some(m) => crate::text::str_eq(m, "alpha36"),
        None => false,
    };
    let base: u8 = if restricted {
        36
    } else {
        62
    };
    let limit: u8 = if restricted {
        252
    } else {
        248
    };
    let blen: usize = if length == 0 {
        1
    } else {
        length * 2
    };
    let mut bytes: Vec<u8> = vec![0u8; blen];
    fill_random_buf(&mut bytes);
    let mut used: usize = 0;
    let mut out: Vec<u8> = Vec::new();
    let mut c: usize = 0;
    while c < length
        invariant
            c <= length,
            out@.len() == c,
            bytes@.len() == blen,
            blen >= 1,
            used <= blen,
            base == if restricted { 36u8 } else { 62u8 },
            limit == if restricted { 252u8 } else { 248u8 },
            forall|i: int|
                0 <= i < out@.len() ==> alpha_char_ok((#[trigger] out@[i]) as char, restricted)
                    && out@[i] < 128,
        decreases length - c,
    {
        if used >= bytes.len() {
            fill_random_buf(&mut bytes);
            used = 0;
        }
        let mut byte: u8 = bytes[used];
        used = used + 1;
        let mut tries: u32 = 0;
        while byte >= limit && tries < 10000
            invariant
                bytes@.len() == blen,
                blen >= 1,
                used <= blen,
                limit == if restricted { 252u8 } else { 248u8 },
            decreases 10000 - tries,
        {
            if used >= bytes.len() {
                fill_random_buf(&mut bytes);
                used = 0;
            }
            byte = bytes[used];
            used = used + 1;
            tries = tries + 1;
        }
        let idx: u8 = byte % base;
        let ch: u8 = if idx < 10 {
            48 + idx
        } else if idx < 36 {
            55 + idx
        } else {
            61 + idx
        };
        proof {
            assert(alpha_char_ok(ch as char, restricted));
        }
        out.push(ch);
        c = c + 1;
    }
    let s = ascii_to_string(out);
    proof {
        assert(restricted == restricted_mode(mode));
        assert(s@.len() == length);
    }
    s
}

} // verus!
