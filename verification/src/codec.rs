use vstd::prelude::*;
use crate::CodecError;
use crate::digits::{
    char_digit, digit_char, digit_of_char, digit_to_ascii, digits16, digits_mul_add,
    digits_rebase, eval_digits, lemma_digit_char_roundtrip, lemma_eval_min_digits,
    lemma_eval_nonneg, lemma_min_digits_bounds, lemma_min_digits_unique, min_chars, min_digits,
    no_leading_zero, render_value, seq_value, valid_digits,
};
use crate::text::ascii_to_string;

verus! {

/// The remaining string once every leading `0x` has been removed.
pub open spec fn strip_0x(s: Seq<char>) -> Seq<char>
    decreases s.len(),
{
    if s.len() >= 2 && s[0] == '0' && s[1] == 'x' {
        strip_0x(s.skip(2))
    } else {
        s
    }
}

/// Uppercase hexadecimal letters folded to lowercase; anything else as is.
pub open spec fn fold_hex(c: char) -> char {
    if 'A' <= c && c <= 'F' {
        ((c as u8) + 32) as char
    } else {
        c
    }
}

/// Every character is a hexadecimal digit once case-folded.
pub open spec fn hex_seq_ok(s: Seq<char>) -> bool {
    forall|i: int| 0 <= i < s.len() ==> 0 <= char_digit(#[trigger] fold_hex(s[i])) < 16
}

/// Value of an alphabetic character `a`..=`z` as a base-26 digit, or -1.
pub open spec fn alpha_digit(c: char) -> int {
    if 'a' <= c && c <= 'z' {
        c as int - 97
    } else {
        -1
    }
}

/// Every character lies in `a`..=`z`.
pub open spec fn alpha_ok(s: Seq<char>) -> bool {
    forall|i: int| 0 <= i < s.len() ==> 0 <= #[trigger] alpha_digit(s[i])
}

/// Value of an alphabetic string read as base-26 digits, `a` standing for 0.
pub open spec fn alpha_value(s: Seq<char>) -> int
    decreases s.len(),
{
    if s.len() == 0 {
        0
    } else {
        alpha_value(s.drop_last()) * 26 + alpha_digit(s.last())
    }
}

/// The alphabetic rendering of value `v`: minimal base-26 digits, digit `d`
/// written as the letter `a` + `d`; zero renders as "a".
pub open spec fn alpha_chars(v: nat) -> Seq<char> {
    if v == 0 {
        seq!['a']
    } else {
        min_digits(v, 26).map_values(|d: u8| ((d + 97) as u8) as char)
    }
}

/// The characters of a rendered digit string are digits of its base.
pub proof fn lemma_min_chars_valid(v: nat, b: nat)
    requires
        2 <= b <= 62,
    ensures
        valid_digits(min_chars(v, b), b as int),
        min_chars(v, b).len() > 0,
        seq_value(min_chars(v, b), b as int) == v,
{
    lemma_min_digits_bounds(v, b);
    lemma_eval_min_digits(v, b);
    if v == 0 {
        assert(min_chars(v, b) =~= seq!['0']);
        assert(char_digit('0') == 0);
        assert(seq!['0'].last() == '0');
        assert(seq!['0'].drop_last() =~= Seq::<char>::empty());
        assert(seq_value(seq!['0'], b as int) == seq_value(Seq::<char>::empty(), b as int) * b
            + char_digit('0'));
        assert(seq_value(min_chars(v, b), b as int) == 0);
    } else {
        let md = min_digits(v, b);
        let mc = min_chars(v, b);
        assert forall|i: int| 0 <= i < mc.len() implies 0 <= #[trigger] char_digit(mc[i])
            < b as int by {
            assert(mc[i] == digit_char(md[i]));
            lemma_digit_char_roundtrip(md[i]);
        }
        crate::digits::lemma_seq_value_map(md, b as int);
    }
}

/// A number expressed in bases 2 through 62, held as its canonical
/// lowercase hexadecimal digit string.
pub struct BaseFlow {
    hex: Vec<u8>,
}

impl BaseFlow {
    /// The stored hexadecimal digit string, as characters.
    pub closed spec fn hex_chars(&self) -> Seq<char> {
        self.hex@.map_values(|b: u8| b as char)
    }

    /// Every stored character is a lowercase hexadecimal digit.
    pub open spec fn wf(&self) -> bool {
        valid_digits(self.hex_chars(), 16)
    }

    /// The numeric value of the stored hexadecimal string.
    pub open spec fn value(&self) -> int {
        seq_value(self.hex_chars(), 16)
    }

    proof fn lemma_wf_ascii(&self)
        requires
            self.wf(),
        ensures
            forall|i: int| 0 <= i < self.hex@.len() ==> (#[trigger] self.hex@[i]) < 128,
    {
        assert forall|i: int| 0 <= i < self.hex@.len() implies (#[trigger] self.hex@[i])
            < 128 by {
            assert(self.hex_chars()[i] == self.hex@[i] as char);
            assert(0 <= char_digit(self.hex_chars()[i]) < 16);
        }
    }
}

/// Build a `BaseFlow` holding exactly the digit values read from `chars`,
/// where each byte of `nibbles` is a base-16 digit value.
fn nibbles_to_flow(nibbles: &mut Vec<u8>) -> (r: BaseFlow)
    requires
        digits16(old(nibbles)@),
    ensures
        r.wf(),
        r.hex_chars() == min_chars(eval_digits(old(nibbles)@, 16) as nat, 16),
        r.value() == eval_digits(old(nibbles)@, 16),
{
    proof {
        lemma_eval_nonneg(old(nibbles)@, 16);
    }
    let ghost v = eval_digits(nibbles@, 16) as nat;
    let hex = render_value(nibbles, 16);
    let r = BaseFlow { hex };
    proof {
        lemma_min_chars_valid(v, 16);
        assert(r.hex_chars() == min_chars(v, 16));
    }
    r
}

/// Read the stored hexadecimal string back as base-16 digit values.
fn flow_nibbles(flow: &BaseFlow) -> (r: Vec<u8>)
    requires
        flow.wf(),
    ensures
        digits16(r@),
        eval_digits(r@, 16) == flow.value(),
{
    let n = flow.hex.len();
    let mut r: Vec<u8> = Vec::new();
    let mut i: usize = 0;
    proof {
        assert(flow.hex_chars().subrange(0, 0) =~= Seq::<char>::empty());
    }
    while i < n
        invariant
            i <= n,
            n == flow.hex@.len(),
            flow.wf(),
            r@.len() == i,
            digits16(r@),
            eval_digits(r@, 16) == seq_value(flow.hex_chars().subrange(0, i as int), 16),
        decreases n - i,
    {
        let b = flow.hex[i];
        let ghost c = flow.hex_chars()[i as int];
        proof {
            assert(c == b as char);
            assert(0 <= char_digit(c) < 16);
        }
        let d: u8 = match digit_of_char(b as char) {
            Some(d) => d,
            None => {
                proof {
                    assert(false);
                }
                0
            },
        };
        let ghost before = r@;
        r.push(d);
        proof {
            assert(r@.drop_last() =~= before);
            assert(flow.hex_chars().subrange(0, i as int + 1).drop_last() =~= flow.hex_chars()
                .subrange(0, i as int));
            assert(flow.hex_chars().subrange(0, i as int + 1).last() == c);
            assert(r@.last() == d);
        }
        i = i + 1;
    }
    proof {
        assert(flow.hex_chars().subrange(0, n as int) =~= flow.hex_chars());
    }
    r
}

impl BaseFlow {
    /// Construct from a digit string in the given base. Base 16 accepts any
    /// (possibly `0x`-prefixed) hexadecimal string as is, case-folded, with
    /// no bound on its width; every other base in 2..=62 parses the digits
    /// into the canonical hexadecimal form.
    pub fn new(value: &str, base: u32) -> (r: Result<BaseFlow, CodecError>)
        ensures
            r matches Ok(bf) ==> bf.wf(),
            base == 16 ==> (((r matches Ok(bf) && bf.hex_chars() == strip_0x(value@).map_values(
                |c: char| fold_hex(c),
            )) <==> (strip_0x(value@).len() > 0 && hex_seq_ok(strip_0x(value@))))),
            base == 16 && strip_0x(value@).len() == 0 ==> r == Err::<BaseFlow, CodecError>(
                CodecError::EmptyInput,
            ),
            base == 16 && strip_0x(value@).len() > 0 && !hex_seq_ok(strip_0x(value@)) ==> r
                == Err::<BaseFlow, CodecError>(CodecError::InvalidCharacter),
            2 <= base <= 62 && base != 16 ==> (((r matches Ok(bf) && bf.hex_chars() == min_chars(
                seq_value(value@, base as int) as nat,
                16,
            )) <==> (value@.len() > 0 && valid_digits(value@, base as int)))),
            2 <= base <= 62 && base != 16 && value@.len() == 0 ==> r == Err::<
                BaseFlow,
                CodecError,
            >(CodecError::EmptyInput),
            2 <= base <= 62 && base != 16 && value@.len() > 0 && !valid_digits(
                value@,
                base as int,
            ) ==> r == Err::<BaseFlow, CodecError>(CodecError::InvalidCharacter),
            !(2 <= base <= 62) ==> r == Err::<BaseFlow, CodecError>(CodecError::InvalidBase),
    {
        if base == 16 {
            Self::new_hex(value)
        } else if 2 <= base && base <= 62 {
            let n = value.unicode_len();
            if n == 0 {
                return Err(CodecError::EmptyInput);
            }
            let mut num: Vec<u8> = Vec::new();
            let mut i: usize = 0;
            proof {
                assert(value@.subrange(0, 0) =~= Seq::<char>::empty());
            }
            while i < n
                invariant
                    i <= n,
                    n == value@.len(),
                    2 <= base <= 62,
                    base != 16,
                    digits16(num@),
                    no_leading_zero(num@),
                    valid_digits(value@.subrange(0, i as int), base as int),
                    eval_digits(num@, 16) == seq_value(value@.subrange(0, i as int), base as int),
                decreases n - i,
            {
                let c = value.get_char(i);
                let d: u8 = match digit_of_char(c) {
                    Some(d) => d,
                    None => {
                        proof {
                            assert(char_digit(value@[i as int]) == -1);
                            assert(!valid_digits(value@, base as int));
                        }
                        return Err(CodecError::InvalidCharacter);
                    },
                };
                if d as u32 >= base {
                    proof {
                        assert(!(0 <= char_digit(value@[i as int]) < base as int));
                        assert(!valid_digits(value@, base as int));
                    }
                    return Err(CodecError::InvalidCharacter);
                }
                digits_mul_add(&mut num, base as u16, d as u16);
                proof {
                    assert(value@.subrange(0, i as int + 1).drop_last() =~= value@.subrange(
                        0,
                        i as int,
                    ));
                    assert(value@.subrange(0, i as int + 1).last() == value@[i as int]);
                    assert(char_digit(value@[i as int]) == d as int);
                }
                i = i + 1;
            }
            proof {
                assert(value@.subrange(0, n as int) =~= value@);
            }
            let bf = nibbles_to_flow(&mut num);
            Ok(bf)
        } else {
            Err(CodecError::InvalidBase)
        }
    }

    fn new_hex(value: &str) -> (r: Result<BaseFlow, CodecError>)
        ensures
            r matches Ok(bf) ==> bf.wf(),
            (r matches Ok(bf) && bf.hex_chars() == strip_0x(value@).map_values(
                |c: char| fold_hex(c),
            )) <==> (strip_0x(value@).len() > 0 && hex_seq_ok(strip_0x(value@))),
            strip_0x(value@).len() == 0 ==> r == Err::<BaseFlow, CodecError>(
                CodecError::EmptyInput,
            ),
            strip_0x(value@).len() > 0 && !hex_seq_ok(strip_0x(value@)) ==> r == Err::<
                BaseFlow,
                CodecError,
            >(CodecError::InvalidCharacter),
    {
        let n = value.unicode_len();
        let mut k: usize = 0;
        proof {
            assert(value@.skip(0) =~= value@);
        }
        while n - k >= 2
            invariant
                k <= n,
                n == value@.len(),
                strip_0x(value@) == strip_0x(value@.skip(k as int)),
            ensures
                k <= n,
                n == value@.len(),
                strip_0x(value@) == strip_0x(value@.skip(k as int)),
                !(value@.skip(k as int).len() >= 2 && value@.skip(k as int)[0] == '0'
                    && value@.skip(k as int)[1] == 'x'),
            decreases n - k,
        {
            let a = value.get_char(k);
            let b = value.get_char(k + 1);
            if !(a == '0' && b == 'x') {
                proof {
                    let t = value@.skip(k as int);
                    assert(t.len() >= 2 ==> (t[0] == value@[k as int] && t[1] == value@[k as int
                        + 1]));
                }
                break;
            }
            proof {
                let t = value@.skip(k as int);
                assert(t.len() >= 2);
                assert(t[0] == value@[k as int] && t[1] == value@[k as int + 1]);
                assert(strip_0x(t) == strip_0x(t.skip(2)));
                assert(t.skip(2) =~= value@.skip(k as int + 2));
            }
            k = k + 2;
        }
        proof {
            let t = value@.skip(k as int);
            assert(strip_0x(t) == t);
        }
        let ghost stripped = strip_0x(value@);
        if k == n {
            proof {
                assert(stripped.len() == 0);
            }
            return Err(CodecError::EmptyInput);
        }
        let mut hex: Vec<u8> = Vec::new();
        let mut i: usize = k;
        while i < n
            invariant
                k <= i <= n,
                n == value@.len(),
                stripped == value@.skip(k as int),
                stripped == strip_0x(value@),
                hex@.len() == i - k,
                forall|j: int|
                    0 <= j < hex@.len() ==> (#[trigger] hex@[j]) as char == fold_hex(
                        stripped[j],
                    ) && 0 <= char_digit(hex@[j] as char) < 16 && hex@[j] < 128,
            decreases n - i,
        {
            let c = value.get_char(i);
            proof {
                assert(stripped[i - k] == value@[i as int]);
            }
            let b: u8;
            if ('0' <= c && c <= '9') || ('a' <= c && c <= 'f') {
                b = c as u8;
                proof {
                    assert(fold_hex(c) == c);
                    assert(b as char == c);
                }
            } else if 'A' <= c && c <= 'F' {
                b = (c as u8) + 32;
                proof {
                    assert(fold_hex(c) == ((c as u8) + 32) as char);
                }
            } else {
                proof {
                    assert(fold_hex(stripped[i - k]) == c);
                    assert(!(0 <= char_digit(c) < 16));
                    assert(!hex_seq_ok(stripped));
                }
                return Err(CodecError::InvalidCharacter);
            }
            hex.push(b);
            i = i + 1;
        }
        let bf = BaseFlow { hex };
        proof {
            assert(stripped.len() == n - k);
            assert(bf.hex_chars() =~= stripped.map_values(|c: char| fold_hex(c)));
            assert forall|j: int| 0 <= j < stripped.len() implies 0 <= char_digit(
                #[trigger] fold_hex(stripped[j]),
            ) < 16 by {
                assert(bf.hex_chars()[j] == fold_hex(stripped[j]));
            }
            assert(hex_seq_ok(stripped));
            assert(bf.wf()) by {
                assert forall|j: int| 0 <= j < bf.hex_chars().len() implies 0 <= #[trigger]
                char_digit(bf.hex_chars()[j]) < 16 by {
                    assert(bf.hex_chars()[j] == fold_hex(stripped[j]));
                }
            }
        }
        Ok(bf)
    }
}


impl BaseFlow {
    /// Render the held value in the given base. Base 16 returns the stored
    /// hexadecimal string unchanged; every other base in 2..=62 renders the
    /// minimal digit string, with zero rendered as "0".
    pub fn to(&self, base: u32) -> (r: Result<String, CodecError>)
        requires
            self.wf(),
        ensures
            base == 16 ==> (r matches Ok(s) && s@ == self.hex_chars()),
            2 <= base <= 62 && base != 16 ==> (r matches Ok(s) && s@ == min_chars(
                self.value() as nat,
                base as nat,
            )),
            !(2 <= base <= 62) ==> r == Err::<String, CodecError>(CodecError::InvalidBase),
    {
        if base == 16 {
            proof {
                self.lemma_wf_ascii();
            }
            let bytes = self.hex.clone();
            let s = crate::text::ascii_to_string(bytes);
            proof {
                assert(s@ =~= self.hex_chars());
            }
            Ok(s)
        } else if 2 <= base && base <= 62 {
            let mut nibs = flow_nibbles(self);
            proof {
                lemma_eval_nonneg(nibs@, 16);
            }
            let ascii = render_value(&mut nibs, base as u16);
            let s = crate::text::ascii_to_string(ascii);
            Ok(s)
        } else {
            Err(CodecError::InvalidBase)
        }
    }

    /// Construct from a string of letters `a`..=`z`, each read as a base-26
    /// digit with `a` standing for zero.
    pub fn from_alpha(alpha: &str) -> (r: Result<BaseFlow, CodecError>)
        ensures
            r matches Ok(bf) ==> bf.wf() && bf.hex_chars() == min_chars(
                alpha_value(alpha@) as nat,
                16,
            ) && bf.value() == alpha_value(alpha@),
            (r matches Ok(bf)) <==> (alpha@.len() > 0 && alpha_ok(alpha@)),
            alpha@.len() == 0 ==> r == Err::<BaseFlow, CodecError>(CodecError::EmptyInput),
            alpha@.len() > 0 && !alpha_ok(alpha@) ==> r == Err::<BaseFlow, CodecError>(
                CodecError::InvalidCharacter,
            ),
    {
        let n = alpha.unicode_len();
        if n == 0 {
            return Err(CodecError::EmptyInput);
        }
        let mut num: Vec<u8> = Vec::new();
        let mut i: usize = 0;
        proof {
            assert(alpha@.subrange(0, 0) =~= Seq::<char>::empty());
        }
        while i < n
            invariant
                i <= n,
                n == alpha@.len(),
                digits16(num@),
                no_leading_zero(num@),
                alpha_ok(alpha@.subrange(0, i as int)),
                eval_digits(num@, 16) == alpha_value(alpha@.subrange(0, i as int)),
            decreases n - i,
        {
            let c = alpha.get_char(i);
            if !('a' <= c && c <= 'z') {
                proof {
                    assert(alpha_digit(alpha@[i as int]) == -1);
                    assert(!alpha_ok(alpha@));
                }
                return Err(CodecError::InvalidCharacter);
            }
            let d: u8 = (c as u8) - 97;
            proof {
                assert(alpha_digit(c) == d as int);
                assert(d < 26);
            }
            digits_mul_add(&mut num, 26, d as u16);
            proof {
                assert(alpha@.subrange(0, i as int + 1).drop_last() =~= alpha@.subrange(
                    0,
                    i as int,
                ));
                assert(alpha@.subrange(0, i as int + 1).last() == alpha@[i as int]);
            }
            i = i + 1;
        }
        proof {
            assert(alpha@.subrange(0, n as int) =~= alpha@);
            lemma_eval_nonneg(num@, 16);
        }
        let bf = nibbles_to_flow(&mut num);
        Ok(bf)
    }

    /// Render the held value as letters `a`..=`z`, the inverse digit map of
    /// `from_alpha`; leading zero digits are lost, so this is not a full
    /// inverse on strings.
    pub fn to_alpha(&self) -> (r: Result<String, CodecError>)
        requires
            self.wf(),
        ensures
            r matches Ok(s) && s@ == alpha_chars(self.value() as nat),
    {
        let mut nibs = flow_nibbles(self);
        proof {
            lemma_eval_nonneg(nibs@, 16);
        }
        let ghost v = eval_digits(nibs@, 16) as nat;
        let vals = digits_rebase(&mut nibs, 26);
        proof {
            lemma_min_digits_bounds(v, 26);
        }
        let n = vals.len();
        let mut out: Vec<u8> = Vec::new();
        if n == 0 {
            out.push(97);
            proof {
                if v > 0 {
                    assert(min_digits(v, 26).len() > 0);
                }
                assert(v == 0);
                assert((97u8) as char == 'a');
                assert(out@.map_values(|x: u8| x as char) =~= alpha_chars(v));
            }
            let s = crate::text::ascii_to_string(out);
            return Ok(s);
        }
        let mut i: usize = 0;
        while i < n
            invariant
                i <= n,
                n == vals@.len(),
                out@.len() == i,
                vals@ == min_digits(v, 26),
                forall|j: int| 0 <= j < vals@.len() ==> (#[trigger] vals@[j]) < 26,
                forall|j: int|
                    0 <= j < i ==> (#[trigger] out@[j]) == (vals@[j] + 97) as u8 && out@[j] < 128,
            decreases n - i,
        {
            let d = vals[i];
            out.push(d + 97);
            i = i + 1;
        }
        proof {
            assert(v > 0) by {
                if v == 0 {
                    assert(min_digits(v, 26).len() == 0);
                }
            }
            assert(out@.map_values(|x: u8| x as char) =~= alpha_chars(v));
        }
        let s = crate::text::ascii_to_string(out);
        Ok(s)
    }
}

/// Round trip of the codec: the digit string that `to` renders in any base
/// `b` of 2..=62 is non-empty, uses only digits of that base, and parses
/// back (as `new` does) to the very value it was rendered from; the
/// canonical hexadecimal form renders that value likewise.
pub proof fn lemma_codec_round_trip(v: nat, b: nat)
    requires
        2 <= b <= 62,
    ensures
        valid_digits(min_chars(v, b), b as int),
        min_chars(v, b).len() > 0,
        seq_value(min_chars(v, b), b as int) == v,
        seq_value(min_chars(v, 16), 16) == v,
{
    lemma_min_chars_valid(v, b);
    lemma_min_chars_valid(v, 16);
}

} // verus!
