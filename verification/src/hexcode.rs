use vstd::prelude::*;
use crate::CodecError;
use crate::codec::{fold_hex, hex_seq_ok};
use crate::digits::{
    char_digit, digit_char, digit_to_ascii, eval_digits, lemma_digit_char_roundtrip, seq_value,
};
use crate::text::ascii_to_string;

verus! {

/// The lowercase hexadecimal rendering of a byte string: two digits for
/// each byte, most significant first.
pub open spec fn hex_of_bytes(s: Seq<u8>) -> Seq<char>
    decreases s.len(),
{
    if s.len() == 0 {
        Seq::empty()
    } else {
        hex_of_bytes(s.drop_last()) + seq![
            digit_char((s.last() / 16) as u8),
            digit_char((s.last() % 16) as u8),
        ]
    }
}

/// The bytes read from a hexadecimal string of even length, one byte from
/// each pair of digits.
pub open spec fn hex_pair_bytes(s: Seq<char>) -> Seq<u8> {
    Seq::new(
        (s.len() / 2) as nat,
        |i: int|
            (16 * char_digit(fold_hex(s[2 * i])) + char_digit(fold_hex(s[2 * i + 1]))) as u8,
    )
}

/// A hexadecimal string reads back as the byte value it renders: the
/// two digit characters of each byte evaluate to that byte, so the whole
/// string evaluates to the byte string's base-256 value.
pub proof fn lemma_hex_of_bytes_value(s: Seq<u8>)
    ensures
        hex_of_bytes(s).len() == 2 * s.len(),
        seq_value(hex_of_bytes(s), 16) == eval_digits(s, 256),
    decreases s.len(),
{
    if s.len() > 0 {
        lemma_hex_of_bytes_value(s.drop_last());
        let h = hex_of_bytes(s);
        let hp = hex_of_bytes(s.drop_last());
        let b = s.last();
        let c1 = digit_char((b / 16) as u8);
        let c2 = digit_char((b % 16) as u8);
        lemma_digit_char_roundtrip((b / 16) as u8);
        lemma_digit_char_roundtrip((b % 16) as u8);
        assert(h == hp + seq![c1, c2]);
        assert(h.drop_last() =~= hp.push(c1));
        assert(h.last() == c2);
        assert(hp.push(c1).drop_last() =~= hp);
        assert(hp.push(c1).last() == c1);
        assert(seq_value(hp.push(c1), 16) == seq_value(hp, 16) * 16 + char_digit(c1));
        assert(seq_value(h, 16) == seq_value(hp.push(c1), 16) * 16 + char_digit(c2));
        assert(seq_value(h, 16) == (seq_value(hp, 16) * 16 + (b / 16)) * 16 + (b % 16));
        assert((seq_value(hp, 16) * 16 + (b / 16)) * 16 + (b % 16) == seq_value(hp, 16) * 256 + (
        16 * (b / 16) + b % 16)) by (nonlinear_arith);
        assert(16 * (b as int / 16) + b as int % 16 == b as int);
    }
}

/// Every character rendered by `hex_of_bytes` is a hexadecimal digit, and
/// folding changes none of them.
pub proof fn lemma_hex_of_bytes_ok(s: Seq<u8>)
    ensures
        hex_seq_ok(hex_of_bytes(s)),
        forall|i: int|
            0 <= i < hex_of_bytes(s).len() ==> fold_hex(#[trigger] hex_of_bytes(s)[i])
                == hex_of_bytes(s)[i] && 0 <= char_digit(hex_of_bytes(s)[i]) < 16,
    decreases s.len(),
{
    if s.len() > 0 {
        lemma_hex_of_bytes_ok(s.drop_last());
        let h = hex_of_bytes(s);
        let hp = hex_of_bytes(s.drop_last());
        lemma_digit_char_roundtrip((s.last() / 16) as u8);
        lemma_digit_char_roundtrip((s.last() % 16) as u8);
        assert forall|i: int| 0 <= i < h.len() implies fold_hex(#[trigger] h[i]) == h[i] && 0
            <= char_digit(h[i]) < 16 by {
            if i < hp.len() {
                assert(h[i] == hp[i]);
            }
        }
        assert forall|i: int| 0 <= i < h.len() implies 0 <= char_digit(#[trigger] fold_hex(h[i]))
            < 16 by {
            assert(fold_hex(h[i]) == h[i]);
        }
    }
}

/// Exec lookup of a character's hexadecimal digit value, upper or lower.
fn hex_digit_of(c: char) -> (r: Option<u8>)
    ensures
        match r {
            Some(d) => char_digit(fold_hex(c)) == d as int && d < 16,
            None => !(0 <= char_digit(fold_hex(c)) < 16),
        },
{
    if '0' <= c && c <= '9' {
        Some((c as u8) - 48)
    } else if 'a' <= c && c <= 'f' {
        Some((c as u8) - 87)
    } else if 'A' <= c && c <= 'F' {
        Some((c as u8) - 55)
    } else {
        None
    }
}

/// Hex-encode a byte buffer, two lowercase digits per byte.
pub fn bin2hex(buffer: &[u8]) -> (r: String)
    ensures
        r@ == hex_of_bytes(buffer@),
{
    let n = buffer.len();
    let mut out: Vec<u8> = Vec::new();
    let mut i: usize = 0;
    proof {
        assert(buffer@.subrange(0, 0) =~= Seq::<u8>::empty());
    }
    while i < n
        invariant
            i <= n,
            n == buffer@.len(),
            out@.len() == 2 * i,
            out@.map_values(|x: u8| x as char) == hex_of_bytes(buffer@.subrange(0, i as int)),
            forall|j: int| 0 <= j < out@.len() ==> (#[trigger] out@[j]) < 128,
        decreases n - i,
    {
        let b = buffer[i];
        let ghost before = out@;
        let hi = digit_to_ascii(b / 16);
        let lo = digit_to_ascii(b % 16);
        out.push(hi);
        out.push(lo);
        proof {
            let pre = buffer@.subrange(0, i as int);
            let cur = buffer@.subrange(0, i as int + 1);
            assert(cur.drop_last() =~= pre);
            assert(cur.last() == b);
            assert(hex_of_bytes(cur) == hex_of_bytes(pre) + seq![
                digit_char((b / 16) as u8),
                digit_char((b % 16) as u8),
            ]);
            assert(out@.map_values(|x: u8| x as char) =~= hex_of_bytes(cur));
        }
        i = i + 1;
    }
    proof {
        assert(buffer@.subrange(0, n as int) =~= buffer@);
    }
    ascii_to_string(out)
}

/// Hex-decode a string into bytes; the length must be even and every
/// character a hexadecimal digit, upper or lower case.
pub fn hex2bin(hex_str: &str) -> (r: Result<Vec<u8>, CodecError>)
    ensures
        (r matches Ok(v)) <==> (hex_str@.len() % 2 == 0 && hex_seq_ok(hex_str@)),
        r matches Ok(v) ==> v@ == hex_pair_bytes(hex_str@),
        r matches Err(e) ==> e == CodecError::DecodeError,
{
    let n = hex_str.unicode_len();
    if n % 2 != 0 {
        return Err(CodecError::DecodeError);
    }
    let half = n / 2;
    let mut out: Vec<u8> = Vec::new();
    let mut j: usize = 0;
    while j < half
        invariant
            j <= half,
            half == hex_str@.len() / 2,
            n == hex_str@.len(),
            n % 2 == 0,
            out@.len() == j,
            forall|t: int| 0 <= t < j ==> out@[t] == hex_pair_bytes(hex_str@)[t],
            forall|t: int|
                0 <= 2 * t && 2 * t < 2 * j ==> 0 <= char_digit(
                    #[trigger] fold_hex(hex_str@[2 * t]),
                ) < 16 && 0 <= char_digit(fold_hex(hex_str@[2 * t + 1])) < 16,
        decreases half - j,
    {
        let c1 = hex_str.get_char(2 * j);
        let c2 = hex_str.get_char(2 * j + 1);
        let d1: u8 = match hex_digit_of(c1) {
            Some(d) => d,
            None => {
                proof {
                    assert(!(0 <= char_digit(fold_hex(hex_str@[2 * (j as int)])) < 16));
                    assert(!hex_seq_ok(hex_str@));
                }
                return Err(CodecError::DecodeError);
            },
        };
        let d2: u8 = match hex_digit_of(c2) {
            Some(d) => d,
            None => {
                proof {
                    assert(!(0 <= char_digit(fold_hex(hex_str@[2 * (j as int) + 1])) < 16));
                    assert(!hex_seq_ok(hex_str@));
                }
                return Err(CodecError::DecodeError);
            },
        };
        out.push(16 * d1 + d2);
        proof {
            assert(out@.last() == hex_pair_bytes(hex_str@)[j as int]);
        }
        j = j + 1;
    }
    proof {
        assert(out@ =~= hex_pair_bytes(hex_str@));
        assert forall|i: int| 0 <= i < hex_str@.len() implies 0 <= char_digit(
            #[trigger] fold_hex(hex_str@[i]),
        ) < 16 by {
            let t = i / 2;
            vstd::arithmetic::div_mod::lemma_fundamental_div_mod(i, 2);
            assert(i % 2 == 0 || i % 2 == 1);
            assert(i == 2 * t || i == 2 * t + 1);
            vstd::arithmetic::div_mod::lemma_fundamental_div_mod(n as int, 2);
            assert(n as int == 2 * (half as int));
            assert(0 <= 2 * t && 2 * t < 2 * (half as int));
            assert(0 <= char_digit(fold_hex(hex_str@[2 * t])) < 16);
            assert(0 <= char_digit(fold_hex(hex_str@[2 * t + 1])) < 16);
        }
        assert(hex_seq_ok(hex_str@));
    }
    Ok(out)
}


/// Each byte's two digit characters stand at its doubled index.
pub proof fn lemma_hex_of_bytes_index(s: Seq<u8>)
    ensures
        hex_of_bytes(s).len() == 2 * s.len(),
        forall|i: int|
            0 <= i < s.len() ==> #[trigger] hex_of_bytes(s)[2 * i] == digit_char(
                (s[i] / 16) as u8,
            ) && hex_of_bytes(s)[2 * i + 1] == digit_char((s[i] % 16) as u8),
    decreases s.len(),
{
    lemma_hex_of_bytes_value(s);
    if s.len() > 0 {
        lemma_hex_of_bytes_index(s.drop_last());
        lemma_hex_of_bytes_value(s.drop_last());
        let h = hex_of_bytes(s);
        let hp = hex_of_bytes(s.drop_last());
        assert forall|i: int| 0 <= i < s.len() implies #[trigger] h[2 * i] == digit_char(
            (s[i] / 16) as u8,
        ) && h[2 * i + 1] == digit_char((s[i] % 16) as u8) by {
            if i < s.len() - 1 {
                assert(h[2 * i] == hp[2 * i] && h[2 * i + 1] == hp[2 * i + 1]);
                assert(s.drop_last()[i] == s[i]);
            } else {
                assert(h[2 * i] == digit_char((s.last() / 16) as u8));
                assert(h[2 * i + 1] == digit_char((s.last() % 16) as u8));
            }
        }
    }
}

} // verus!
