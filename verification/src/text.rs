use vstd::prelude::*;
use crate::digits::{min_chars, render_value, u64_to_digits};

verus! {

/// Relies on `String::from_utf8`: a buffer of ASCII bytes is valid UTF-8 and
/// decodes to exactly those characters, one per byte.
#[verifier::external_body]
pub fn ascii_to_string(v: Vec<u8>) -> (r: String)
    requires
        forall|i: int| 0 <= i < v@.len() ==> v@[i] < 128,
    ensures
        r@ == v@.map_values(|b: u8| b as char),
{
    String::from_utf8(v).unwrap()
}


/// Character-for-character string equality.
pub fn str_eq(a: &str, b: &str) -> (r: bool)
    ensures
        r == (a@ == b@),
{
    let n = a.unicode_len();
    let m = b.unicode_len();
    if n != m {
        proof {
            assert(a@.len() != b@.len());
        }
        return false;
    }
    let mut i: usize = 0;
    while i < n
        invariant
            i <= n,
            n == a@.len(),
            n == b@.len(),
            forall|j: int| 0 <= j < i ==> a@[j] == b@[j],
        decreases n - i,
    {
        let ca = a.get_char(i);
        let cb = b.get_char(i);
        if ca != cb {
            proof {
                assert(a@[i as int] != b@[i as int]);
            }
            return false;
        }
        i = i + 1;
    }
    proof {
        assert(a@ =~= b@);
    }
    true
}


/// Render an integer as its decimal digit string.
pub fn dec_string(v: u64) -> (r: String)
    ensures
        r@ == min_chars(v as nat, 10),
{
    let mut nibs = u64_to_digits(v);
    let ascii = render_value(&mut nibs, 10);
    ascii_to_string(ascii)
}

} // verus!
