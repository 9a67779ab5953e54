use vstd::prelude::*;
use crate::digits::min_chars;
use crate::text::dec_string;
use crate::util::fill_random_buf;
use vstd::string::StringExecFns;

verus! {

/// A character's low byte, masked with the obfuscation key.
pub open spec fn xor_byte(c: char, k: u8) -> u8 {
    (((c as u32) % 256) as u8) ^ k
}

/// The decimal renderings of the masked characters, joined by ", ".
pub open spec fn joined_codes(s: Seq<char>, k: u8) -> Seq<char>
    decreases s.len(),
{
    if s.len() == 0 {
        Seq::empty()
    } else if s.len() == 1 {
        min_chars(xor_byte(s[0], k) as nat, 10)
    } else {
        joined_codes(s.drop_last(), k) + ", "@ + min_chars(xor_byte(s.last(), k) as nat, 10)
    }
}

/// The emitted self-decoding expression for a plaintext and a key.
pub open spec fn code_chars(s: Seq<char>, k: u8) -> Seq<char> {
    "((k => String.fromCharCode(...["@ + joined_codes(s, k) + "].map(x => x ^ k)))("@ + min_chars(
        k as nat,
        10,
    ) + ")"@
}

/// Emit a self-decoding source expression that masks each character of the
/// plaintext with a key drawn at random from 1..=255; the empty plaintext
/// yields an empty string literal.
pub fn generate_code(plaintext: &str) -> (r: String)
    ensures
        plaintext@.len() == 0 ==> r@ == "\"\""@,
        plaintext@.len() > 0 ==> (exists|k: u8| 1 <= k && r@ == code_chars(plaintext@, k)),
{
    let n = plaintext.unicode_len();
    if n == 0 {
        return "\"\"".to_owned();
    }
    let mut kb: Vec<u8> = vec![0u8; 1];
    fill_random_buf(&mut kb);
    let key: u8 = (kb[0] % 255) + 1;
    let mut m = "((k => String.fromCharCode(...[".to_owned();
    let mut i: usize = 0;
    while i < n
        invariant
            i <= n,
            n == plaintext@.len(),
            m@ == "((k => String.fromCharCode(...["@ + joined_codes(
                plaintext@.subrange(0, i as int),
                key,
            ),
        decreases n - i,
    {
        let c = plaintext.get_char(i);
        let code: u32 = c as u32;
        let b: u8 = ((code % 256) as u8) ^ key;
        if i > 0 {
            m.append(", ");
        }
        let d = dec_string(b as u64);
        m.append(d.as_str());
        proof {
            let pre = plaintext@.subrange(0, i as int);
            let cur = plaintext@.subrange(0, i as int + 1);
            assert(cur.drop_last() =~= pre);
            assert(cur.last() == plaintext@[i as int]);
            assert(b == xor_byte(plaintext@[i as int], key));
            if i == 0 {
                assert(cur.len() == 1);
                assert(cur[0] == plaintext@[0]);
                assert(joined_codes(cur, key) == min_chars(xor_byte(cur[0], key) as nat, 10));
                assert(m@ =~= "((k => String.fromCharCode(...["@ + joined_codes(cur, key));
            } else {
                assert(joined_codes(cur, key) == joined_codes(pre, key) + ", "@ + min_chars(
                    xor_byte(cur.last(), key) as nat,
                    10,
                ));
                assert(m@ =~= "((k => String.fromCharCode(...["@ + joined_codes(cur, key));
            }
        }
        i = i + 1;
    }
    m.append("].map(x => x ^ k)))(");
    let kd = dec_string(key as u64);
    m.append(kd.as_str());
    m.append(")");
    proof {
        assert(plaintext@.subrange(0, n as int) =~= plaintext@);
        assert(m@ =~= code_chars(plaintext@, key));
        assert(1 <= key);
    }
    m
}

} // verus!
