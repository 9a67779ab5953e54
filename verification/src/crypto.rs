use vstd::prelude::*;
use hmac::Mac;
use crate::CodecError;
use crate::codec::BaseFlow;
use crate::digits::{
    char_digits_of, eval_digits, lemma_char_digits_of, lemma_eval_nonneg,
    lemma_min_digits_unique, min_chars, min_digits, seq_value, valid_digits,
};
use crate::codec::lemma_min_chars_valid;
use crate::hexcode::{
    bin2hex, hex2bin, hex_of_bytes, hex_pair_bytes, lemma_hex_of_bytes_index,
    lemma_hex_of_bytes_ok, lemma_hex_of_bytes_value,
};
use crate::text::str_eq;
use vstd::string::StringExecFns;

verus! {

/// The HMAC-SHA256 tag of a message under a key: a function of the two
/// byte strings alone, computed by the outside crates `hmac` and `sha2`.
pub uninterp spec fn hmac_sha256_of(key: Seq<u8>, msg: Seq<u8>) -> Seq<u8>;

/// Relies on `hmac::Hmac` over `sha2::Sha256`: the tag depends on the key
/// and the message alone and is 32 bytes long; `new_from_slice` accepts a
/// key of any length.
#[verifier::external_body]
fn hmac_sha256(key: &[u8], msg: &[u8]) -> (r: Vec<u8>)
    ensures
        r@ == hmac_sha256_of(key@, msg@),
        r@.len() == 32,
{
    let mut mac = <hmac::Hmac<sha2::Sha256> as Mac>::new_from_slice(key).unwrap();
    mac.update(msg);
    mac.finalize().into_bytes().to_vec()
}

/// The 32 zero bytes used as the extraction salt of key derivation.
pub open spec fn zero_key() -> Seq<u8> {
    Seq::new(32, |i: int| 0u8)
}

/// The packed (base-62) form of a raw key: the rendering of its big-endian
/// byte value.
pub open spec fn packed_of(key: Seq<u8>) -> Seq<char> {
    min_chars(eval_digits(key, 256) as nat, 62)
}

/// A packed string unpacks when it is a non-empty base-62 digit string
/// whose value has a canonical hexadecimal form of even length.
pub open spec fn unpack_accepts(packed: Seq<char>) -> bool {
    packed.len() > 0 && valid_digits(packed, 62) && min_chars(
        seq_value(packed, 62) as nat,
        16,
    ).len() % 2 == 0
}

/// The bytes a packed string unpacks to.
pub open spec fn unpacked_of(packed: Seq<char>) -> Seq<u8> {
    hex_pair_bytes(min_chars(seq_value(packed, 62) as nat, 16))
}

/// The error an unaccepted packed string is reported with: empty input,
/// then a digit outside base 62, then an odd canonical hexadecimal length.
pub open spec fn unpack_err(packed: Seq<char>) -> CodecError {
    if packed.len() == 0 {
        CodecError::EmptyInput
    } else if !valid_digits(packed, 62) {
        CodecError::InvalidCharacter
    } else {
        CodecError::DecodeError
    }
}

/// The derived key material of a master key and a context string: a
/// single-block extract-and-expand pair of keyed hashes.
pub open spec fn derived_okm(master: Seq<u8>, info: Seq<u8>) -> Seq<u8> {
    hmac_sha256_of(hmac_sha256_of(zero_key(), master), info.push(1u8))
}

/// The canonical message of a signature: params, challenge and the decimal
/// time window, separated by `|`.
pub open spec fn message_chars(params: Seq<char>, challenge: Seq<char>, window: u64) -> Seq<char> {
    params + seq!['|'] + challenge + seq!['|'] + min_chars(window as nat, 10)
}

/// The expected signature string: the lowercase hexadecimal tag of the
/// canonical message under the derived key.
pub open spec fn signature_chars(
    key: Seq<u8>,
    params: Seq<char>,
    challenge: Seq<char>,
    window: u64,
) -> Seq<char> {
    hex_of_bytes(
        hmac_sha256_of(key, vstd::utf8::encode_utf8(message_chars(params, challenge, window))),
    )
}

/// What `verify` reports: the signature matches the current window, or,
/// with drift allowed and a preceding window in existence, that one.
pub open spec fn verify_outcome(
    key: Seq<u8>,
    params: Seq<char>,
    challenge: Seq<char>,
    signature: Seq<char>,
    now_window: u64,
    drift: bool,
) -> bool {
    signature == signature_chars(key, params, challenge, now_window) || (drift && now_window > 0
        && signature == signature_chars(key, params, challenge, (now_window - 1) as u64))
}

/// Build the canonical `params|challenge|window` message.
fn build_message(params: &str, challenge: &str, window: u64) -> (r: String)
    ensures
        r@ == message_chars(params@, challenge@, window),
{
    let mut m = params.to_owned();
    m.append("|");
    m.append(challenge);
    m.append("|");
    let w = crate::text::dec_string(window);
    m.append(w.as_str());
    proof {
        reveal_strlit("|");
        assert("|"@ =~= seq!['|']);
        assert(m@ =~= message_chars(params@, challenge@, window));
    }
    m
}

/// Key packing, derivation, signing and verification over the codec.
pub struct CryptoManager;

impl CryptoManager {
    /// Pack raw key bytes into their compact base-62 textual form; an
    /// empty buffer is rejected as empty input.
    pub fn pack_key(key: &[u8]) -> (r: Result<String, CodecError>)
        ensures
            (r matches Ok(s)) <==> key@.len() > 0,
            r matches Ok(s) ==> s@ == packed_of(key@) && s@.len() > 0 && valid_digits(s@, 62),
            key@.len() == 0 ==> r == Err::<String, CodecError>(CodecError::EmptyInput),
    {
        let hex = bin2hex(key);
        proof {
            lemma_hex_of_bytes_ok(key@);
            lemma_hex_of_bytes_value(key@);
            let h = hex@;
            assert(crate::codec::strip_0x(h) == h) by {
                if h.len() >= 2 {
                    assert(0 <= crate::digits::char_digit(crate::codec::fold_hex(h[1])) < 16);
                    assert(h[1] != 'x');
                }
            }
            assert(h.map_values(|c: char| crate::codec::fold_hex(c)) =~= h);
        }
        let bf = match BaseFlow::new(hex.as_str(), 16) {
            Ok(bf) => bf,
            Err(e) => {
                proof {
                    assert(key@.len() == 0 && e == CodecError::EmptyInput);
                }
                return Err(e);
            },
        };
        proof {
            assert(bf.value() == eval_digits(key@, 256));
            lemma_eval_nonneg(key@, 256);
            lemma_min_chars_valid(eval_digits(key@, 256) as nat, 62);
        }
        match bf.to(62) {
            Ok(s) => Ok(s),
            Err(_) => {
                proof {
                    assert(false);
                }
                Err(CodecError::DecodeError)
            },
        }
    }

    /// Unpack a base-62 key string back into raw bytes.
    pub fn unpack_key(packed: &str) -> (r: Result<Vec<u8>, CodecError>)
        ensures
            (r matches Ok(v)) <==> unpack_accepts(packed@),
            r matches Ok(v) ==> v@ == unpacked_of(packed@),
            !unpack_accepts(packed@) ==> r == Err::<Vec<u8>, CodecError>(unpack_err(packed@)),
    {
        let bf = match BaseFlow::new(packed, 62) {
            Ok(bf) => bf,
            Err(e) => {
                return Err(e);
            },
        };
        let hex = match bf.to(16) {
            Ok(h) => h,
            Err(_) => {
                proof {
                    assert(false);
                }
                return Err(CodecError::DecodeError);
            },
        };
        proof {
            let v = seq_value(packed@, 62) as nat;
            assert(hex@ == min_chars(v, 16));
            lemma_min_chars_valid(v, 16);
            assert forall|i: int| 0 <= i < hex@.len() implies 0 <= crate::digits::char_digit(
                #[trigger] crate::codec::fold_hex(hex@[i]),
            ) < 16 by {
                assert(0 <= crate::digits::char_digit(hex@[i]) < 16);
                assert(crate::codec::fold_hex(hex@[i]) == hex@[i]);
            }
        }
        hex2bin(hex.as_str())
    }

    /// Draw a fresh 32-byte master key whose first byte is at least 0x10,
    /// and return it packed.
    pub fn generate_master_key() -> (r: Result<String, CodecError>)
        ensures
            r matches Ok(s) && (exists|k: Seq<u8>|
                k.len() == 32 && k[0] >= 0x10 && s@ == packed_of(k)),
    {
        let mut key: Vec<u8> = vec![0u8; 32];
        crate::util::fill_random_buf(&mut key);
        let mut tries: u32 = 0;
        while key[0] < 0x10 && tries < 100000
            invariant
                key@.len() == 32,
            decreases 100000 - tries,
        {
            crate::util::fill_random_buf(&mut key);
            tries = tries + 1;
        }
        if key[0] < 0x10 {
            // the rejection loop gave up; force the leading nibble high so
            // that the packed form always unpacks to the same 32 bytes
            let k0 = key[0];
            key[0] = k0 | 0x10;
            proof {
                assert(k0 | 0x10 >= 0x10) by (bit_vector);
            }
        }
        let packed = Self::pack_key(key.as_slice())?;
        proof {
            assert(key@.len() == 32 && key@[0] >= 0x10);
        }
        Ok(packed)
    }

    /// Derive a context-bound 32-byte subkey from a packed master key and
    /// return it packed: extract with a zero salt, then one expand block
    /// over the context bytes and a trailing 0x01.
    pub fn derive_key(master_key_packed: &str, info: Option<&str>) -> (r: Result<
        String,
        CodecError,
    >)
        ensures
            (r matches Ok(s)) <==> unpack_accepts(master_key_packed@),
            !unpack_accepts(master_key_packed@) ==> r == Err::<String, CodecError>(
                unpack_err(master_key_packed@),
            ),
            r matches Ok(s) ==> s@.len() > 0 && valid_digits(s@, 62),
            r matches Ok(s) ==> s@ == packed_of(
                derived_okm(
                    unpacked_of(master_key_packed@),
                    match info {
                        Some(i) => vstd::utf8::encode_utf8(i@),
                        None => Seq::<u8>::empty(),
                    },
                ),
            ),
    {
        let master_raw = Self::unpack_key(master_key_packed)?;
        let salt: Vec<u8> = vec![0u8; 32];
        proof {
            assert(salt@ =~= zero_key());
        }
        let prk = hmac_sha256(salt.as_slice(), master_raw.as_slice());
        let mut msg: Vec<u8> = match info {
            Some(i) => i.as_bytes_vec(),
            None => Vec::new(),
        };
        let ghost info_seq = msg@;
        msg.push(1u8);
        let okm = hmac_sha256(prk.as_slice(), msg.as_slice());
        proof {
            assert(msg@ == info_seq.push(1u8));
            assert(okm@ == derived_okm(master_raw@, info_seq));
        }
        Self::pack_key(okm.as_slice())
    }

    /// Sign a challenge and parameter string for a given time window: the
    /// hexadecimal keyed hash of the canonical message.
    pub fn sign(derived_key_packed: &str, challenge: &str, params: &str, timestamp_window: u64)
        -> (r: Result<String, CodecError>)
        ensures
            (r matches Ok(s)) <==> unpack_accepts(derived_key_packed@),
            !unpack_accepts(derived_key_packed@) ==> r == Err::<String, CodecError>(
                unpack_err(derived_key_packed@),
            ),
            r matches Ok(s) ==> s@ == signature_chars(
                unpacked_of(derived_key_packed@),
                params@,
                challenge@,
                timestamp_window,
            ),
            r matches Ok(s) ==> s@.len() == 64 && valid_digits(s@, 16),
    {
        let key = Self::unpack_key(derived_key_packed)?;
        let msg = build_message(params, challenge, timestamp_window);
        let tag = hmac_sha256(key.as_slice(), msg.as_str().as_bytes());
        let sig = bin2hex(tag.as_slice());
        proof {
            lemma_hex_of_bytes_value(tag@);
            lemma_hex_of_bytes_ok(tag@);
            assert(valid_digits(sig@, 16)) by {
                assert forall|i: int| 0 <= i < sig@.len() implies 0 <= #[trigger] crate::digits::char_digit(
                    sig@[i],
                ) < 16 by {}
            }
        }
        Ok(sig)
    }

    /// Check a signature against the expected value for the current window
    /// and, if drift is allowed (the default), for the window before it.
    /// A mismatch is reported as `Ok(false)`; only a malformed key is an
    /// error.
    pub fn verify(
        derived_key_packed: &str,
        challenge: &str,
        params: &str,
        signature: &str,
        now_window: u64,
        allowed_window_drift: Option<bool>,
    ) -> (r: Result<bool, CodecError>)
        ensures
            (r matches Ok(b)) <==> unpack_accepts(derived_key_packed@),
            !unpack_accepts(derived_key_packed@) ==> r == Err::<bool, CodecError>(
                unpack_err(derived_key_packed@),
            ),
            r matches Ok(b) ==> b == verify_outcome(
                unpacked_of(derived_key_packed@),
                params@,
                challenge@,
                signature@,
                now_window,
                match allowed_window_drift {
                    Some(d) => d,
                    None => true,
                },
            ),
    {
        let key = Self::unpack_key(derived_key_packed)?;
        let drift = match allowed_window_drift {
            Some(d) => d,
            None => true,
        };
        let msg = build_message(params, challenge, now_window);
        let tag = hmac_sha256(key.as_slice(), msg.as_str().as_bytes());
        let expected = bin2hex(tag.as_slice());
        if str_eq(expected.as_str(), signature) {
            return Ok(true);
        }
        if drift && now_window > 0 {
            let prev = now_window - 1;
            let msg2 = build_message(params, challenge, prev);
            let tag2 = hmac_sha256(key.as_slice(), msg2.as_str().as_bytes());
            let expected2 = bin2hex(tag2.as_slice());
            if str_eq(expected2.as_str(), signature) {
                return Ok(true);
            }
        }
        Ok(false)
    }
}

/// Packing any non-empty key whose first byte is at least 0x10 and
/// unpacking the result gives the key back, byte for byte.
pub proof fn lemma_pack_unpack_roundtrip(k: Seq<u8>)
    requires
        k.len() > 0,
        k[0] >= 0x10,
    ensures
        unpack_accepts(packed_of(k)),
        unpacked_of(packed_of(k)) == k,
{
    let v = eval_digits(k, 256) as nat;
    lemma_eval_nonneg(k, 256);
    lemma_min_chars_valid(v, 62);
    lemma_hex_of_bytes_value(k);
    lemma_hex_of_bytes_ok(k);
    lemma_hex_of_bytes_index(k);
    let h = hex_of_bytes(k);
    let dv = char_digits_of(h);
    assert(valid_digits(h, 16)) by {
        assert forall|i: int| 0 <= i < h.len() implies 0 <= #[trigger] crate::digits::char_digit(
            h[i],
        ) < 16 by {}
    }
    lemma_char_digits_of(h, 16);
    assert(eval_digits(dv, 16) == v);
    assert(hex_of_bytes(k)[2 * 0int] == crate::digits::digit_char((k[0] / 16) as u8));
    assert(h[0] == crate::digits::digit_char((k[0] / 16) as u8));
    assert(k[0] / 16 >= 1);
    crate::digits::lemma_digit_char_roundtrip((k[0] / 16) as u8);
    assert(dv[0] == crate::digits::char_digit(h[0]) as u8);
    assert(dv[0] != 0);
    lemma_min_digits_unique(dv, 16);
    assert(min_digits(v, 16) == dv);
    assert(v > 0) by {
        crate::digits::lemma_eval_pos(dv, 16);
    }
    assert(min_chars(v, 16) == dv.map_values(|d: u8| crate::digits::digit_char(d)));
    assert(min_chars(v, 16) == h);
    // the packed string parses back to the same value
    assert(seq_value(packed_of(k), 62) == v);
    assert(h.len() % 2 == 0);
    assert(unpack_accepts(packed_of(k)));
    // pairing the hexadecimal digits restores the bytes
    assert(unpacked_of(packed_of(k)) =~= k) by {
        assert forall|i: int| 0 <= i < k.len() implies hex_pair_bytes(h)[i] == k[i] by {
            assert(h[2 * i] == crate::digits::digit_char((k[i] / 16) as u8));
            assert(h[2 * i + 1] == crate::digits::digit_char((k[i] % 16) as u8));
            crate::digits::lemma_digit_char_roundtrip((k[i] / 16) as u8);
            crate::digits::lemma_digit_char_roundtrip((k[i] % 16) as u8);
            assert(crate::codec::fold_hex(h[2 * i]) == h[2 * i]);
            assert(crate::codec::fold_hex(h[2 * i + 1]) == h[2 * i + 1]);
            assert(hex_pair_bytes(h)[i] == (16 * (k[i] / 16) + k[i] % 16) as u8);
        }
        assert(hex_pair_bytes(h).len() == k.len());
    }
}

/// Every freshly generated master key's packed form unpacks, and the first
/// byte of what it unpacks to is at least 0x10.
pub proof fn lemma_master_key_leading_byte(k: Seq<u8>)
    requires
        k.len() == 32,
        k[0] >= 0x10,
    ensures
        unpack_accepts(packed_of(k)),
        unpacked_of(packed_of(k))[0] >= 0x10,
        unpacked_of(packed_of(k)).len() == 32,
{
    lemma_pack_unpack_roundtrip(k);
}

/// A signature made for a window verifies at that same window, and, with
/// drift allowed, still verifies one window later.
pub proof fn lemma_sign_verify_roundtrip(
    key: Seq<u8>,
    params: Seq<char>,
    challenge: Seq<char>,
    w: u64,
)
    ensures
        verify_outcome(key, params, challenge, signature_chars(key, params, challenge, w), w, true),
        verify_outcome(
            key,
            params,
            challenge,
            signature_chars(key, params, challenge, w),
            w,
            false,
        ),
        w < u64::MAX ==> verify_outcome(
            key,
            params,
            challenge,
            signature_chars(key, params, challenge, w),
            (w + 1) as u64,
            true,
        ),
{
}

/// A signature that matches neither the current window's expected value
/// nor, where drift applies, the previous window's, is rejected.
pub proof fn lemma_verify_rejects_other(
    key: Seq<u8>,
    params: Seq<char>,
    challenge: Seq<char>,
    signature: Seq<char>,
    now_window: u64,
    drift: bool,
)
    requires
        signature != signature_chars(key, params, challenge, now_window),
        drift && now_window > 0 ==> signature != signature_chars(
            key,
            params,
            challenge,
            (now_window - 1) as u64,
        ),
    ensures
        !verify_outcome(key, params, challenge, signature, now_window, drift),
{
}

} // verus!
