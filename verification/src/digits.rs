use vstd::prelude::*;
use vstd::arithmetic::div_mod::{
    lemma_div_decreases, lemma_fundamental_div_mod, lemma_fundamental_div_mod_converse,
};
use vstd::arithmetic::power::{lemma_pow_positive, pow};

verus! {

/// Digit value of a character in the 62-symbol alphabet
/// `0-9a-zA-Z`, or -1 when the character is no digit of it.
pub open spec fn char_digit(c: char) -> int {
    if '0' <= c && c <= '9' {
        c as int - 48
    } else if 'a' <= c && c <= 'z' {
        c as int - 87
    } else if 'A' <= c && c <= 'Z' {
        c as int - 29
    } else {
        -1
    }
}

/// Character that stands for digit value `d` in the alphabet.
pub open spec fn digit_char(d: u8) -> char {
    if d < 10 {
        ((d + 48) as u8) as char
    } else if d < 36 {
        ((d + 87) as u8) as char
    } else {
        ((d + 29) as u8) as char
    }
}

/// Value of a big-endian sequence of digit values in base `b` (Horner form).
pub open spec fn eval_digits(s: Seq<u8>, b: int) -> int
    decreases s.len(),
{
    if s.len() == 0 {
        0
    } else {
        eval_digits(s.drop_last(), b) * b + s.last()
    }
}

/// Value of a big-endian digit string in base `b`, reading each character
/// through the alphabet.
pub open spec fn seq_value(s: Seq<char>, b: int) -> int
    decreases s.len(),
{
    if s.len() == 0 {
        0
    } else {
        seq_value(s.drop_last(), b) * b + char_digit(s.last())
    }
}

/// Every character of `s` is a digit of the first `b` alphabet symbols.
pub open spec fn valid_digits(s: Seq<char>, b: int) -> bool {
    forall|i: int| 0 <= i < s.len() ==> 0 <= #[trigger] char_digit(s[i]) < b
}

/// The unique minimal (no leading zero) big-endian digit sequence of value
/// `v` in base `b`; zero is the empty sequence.
pub open spec fn min_digits(v: nat, b: nat) -> Seq<u8>
    recommends
        2 <= b <= 256,
    decreases v, when 2 <= b via min_digits_decreases
{
    if v == 0 {
        Seq::empty()
    } else {
        min_digits((v / b) as nat, b).push((v % b) as u8)
    }
}

#[via_fn]
proof fn min_digits_decreases(v: nat, b: nat) {
    if v > 0 {
        lemma_div_decreases(v as int, b as int);
    }
}

/// The rendered digit string of value `v` in base `b`: minimal digits mapped
/// through the alphabet, except that zero renders as "0".
pub open spec fn min_chars(v: nat, b: nat) -> Seq<char>
    recommends
        2 <= b <= 62,
{
    if v == 0 {
        seq!['0']
    } else {
        min_digits(v, b).map_values(|d: u8| digit_char(d))
    }
}

pub proof fn lemma_digit_char_roundtrip(d: u8)
    requires
        d < 62,
    ensures
        char_digit(digit_char(d)) == d as int,
{
}

/// Prepending a digit raises it to the position's power of the base.
pub proof fn lemma_eval_prepend(x: u8, s: Seq<u8>, b: int)
    ensures
        eval_digits(seq![x] + s, b) == x * pow(b, s.len()) + eval_digits(s, b),
    decreases s.len(),
{
    reveal(pow);
    if s.len() == 0 {
        assert(seq![x] + s =~= seq![x]);
        assert(seq![x].last() == x);
        assert(seq![x].drop_last() =~= Seq::<u8>::empty());
        assert(eval_digits(seq![x], b) == eval_digits(Seq::<u8>::empty(), b) * b + x);
        assert(pow(b, 0) == 1);
        assert(eval_digits(s, b) == 0);
        assert(eval_digits(seq![x] + s, b) == eval_digits(seq![x], b));
        assert(eval_digits(seq![x] + s, b) == x * pow(b, s.len()) + eval_digits(s, b));
    } else {
        assert((seq![x] + s).drop_last() =~= seq![x] + s.drop_last());
        lemma_eval_prepend(x, s.drop_last(), b);
        assert(pow(b, s.len()) == b * pow(b, (s.len() - 1) as nat));
        assert((seq![x] + s).last() == s.last());
        assert(eval_digits(seq![x] + s, b) == (x * pow(b, (s.len() - 1) as nat) + eval_digits(
            s.drop_last(),
            b,
        )) * b + s.last());
        assert((x * pow(b, (s.len() - 1) as nat) + eval_digits(s.drop_last(), b)) * b == x * (pow(
            b,
            (s.len() - 1) as nat,
        ) * b) + eval_digits(s.drop_last(), b) * b) by (nonlinear_arith);
        assert(x * (pow(b, (s.len() - 1) as nat) * b) == x * pow(b, s.len())) by (nonlinear_arith)
            requires
                pow(b, s.len()) == b * pow(b, (s.len() - 1) as nat),
        ;
        assert(eval_digits(s, b) == eval_digits(s.drop_last(), b) * b + s.last());
        assert(eval_digits(seq![x] + s, b) == x * pow(b, s.len()) + eval_digits(s, b));
    }
}

pub proof fn lemma_eval_nonneg(s: Seq<u8>, b: int)
    requires
        b >= 2,
    ensures
        eval_digits(s, b) >= 0,
    decreases s.len(),
{
    if s.len() > 0 {
        lemma_eval_nonneg(s.drop_last(), b);
        assert(eval_digits(s.drop_last(), b) * b >= 0) by (nonlinear_arith)
            requires
                eval_digits(s.drop_last(), b) >= 0,
                b >= 2,
        ;
    }
}

/// Rendering a value and evaluating the digits gives the value back.
pub proof fn lemma_eval_min_digits(v: nat, b: nat)
    requires
        2 <= b <= 256,
    ensures
        eval_digits(min_digits(v, b), b as int) == v,
    decreases v,
{
    if v > 0 {
        lemma_div_decreases(v as int, b as int);
        lemma_eval_min_digits((v / b) as nat, b);
        lemma_fundamental_div_mod(v as int, b as int);
        let s = min_digits(v, b);
        assert(s == min_digits((v / b) as nat, b).push((v % b) as u8));
        assert(s.drop_last() =~= min_digits((v / b) as nat, b));
        assert(s.last() == (v % b) as u8);
        assert(eval_digits(s, b as int) == eval_digits(s.drop_last(), b as int) * (b as int)
            + s.last());
        assert(eval_digits(s.drop_last(), b as int) * (b as int) == (v / b) * (b as int));
    }
}

/// The minimal digits of a value are in range and carry no leading zero.
pub proof fn lemma_min_digits_bounds(v: nat, b: nat)
    requires
        2 <= b <= 256,
    ensures
        forall|i: int| 0 <= i < min_digits(v, b).len() ==> (#[trigger] min_digits(v, b)[i]) < b,
        v > 0 ==> min_digits(v, b).len() > 0 && min_digits(v, b)[0] != 0,
    decreases v,
{
    if v > 0 {
        lemma_div_decreases(v as int, b as int);
        lemma_min_digits_bounds((v / b) as nat, b);
        lemma_fundamental_div_mod(v as int, b as int);
        let s = min_digits(v, b);
        let s0 = min_digits((v / b) as nat, b);
        assert(s == s0.push((v % b) as u8));
        if v / b == 0 {
            assert(v % b == v);
            assert(s[0] == (v % b) as u8);
        } else {
            assert(s[0] == s0[0]);
        }
        assert(forall|i: int| 0 <= i < s.len() ==> (#[trigger] s[i]) < b);
    }
}

/// A nonempty digit sequence without a leading zero has a positive value.
pub proof fn lemma_eval_pos(s: Seq<u8>, b: int)
    requires
        b >= 2,
        s.len() > 0,
        s[0] != 0,
    ensures
        eval_digits(s, b) > 0,
    decreases s.len(),
{
    if s.len() == 1 {
        assert(eval_digits(s.drop_last(), b) == 0);
        assert(s.last() == s[0]);
    } else {
        assert(s.drop_last()[0] == s[0]);
        lemma_eval_pos(s.drop_last(), b);
        lemma_eval_nonneg(s, b);
        assert(eval_digits(s.drop_last(), b) * b >= b) by (nonlinear_arith)
            requires
                eval_digits(s.drop_last(), b) >= 1,
                b >= 2,
        ;
    }
}

/// Minimal digit sequences are unique: any in-range sequence without a
/// leading zero is the minimal rendering of its own value.
pub proof fn lemma_min_digits_unique(s: Seq<u8>, b: nat)
    requires
        2 <= b <= 256,
        forall|i: int| 0 <= i < s.len() ==> (#[trigger] s[i]) < b,
        s.len() > 0 ==> s[0] != 0,
    ensures
        min_digits(eval_digits(s, b as int) as nat, b) == s,
    decreases s.len(),
{
    if s.len() == 0 {
        assert(min_digits(0, b) =~= s);
    } else {
        let v = eval_digits(s, b as int);
        lemma_eval_pos(s, b as int);
        let q = eval_digits(s.drop_last(), b as int);
        lemma_eval_nonneg(s.drop_last(), b as int);
        lemma_fundamental_div_mod_converse(v, b as int, q, s.last() as int);
        assert(v / b as int == q && v % b as int == s.last() as int);
        if s.len() == 1 {
            assert(q == 0);
            assert(min_digits((v / b as int) as nat, b) =~= Seq::<u8>::empty());
        } else {
            assert(s.drop_last()[0] == s[0]);
            lemma_min_digits_unique(s.drop_last(), b);
        }
        assert(min_digits(v as nat, b) =~= min_digits((v / b as int) as nat, b).push(
            (v as nat % b) as u8,
        ));
        assert(min_digits(v as nat, b) =~= s);
    }
}

/// Evaluating digit values through the alphabet agrees with evaluating the
/// digit values themselves.
pub proof fn lemma_seq_value_map(s: Seq<u8>, b: int)
    requires
        forall|i: int| 0 <= i < s.len() ==> (#[trigger] s[i]) < 62,
    ensures
        seq_value(s.map_values(|d: u8| digit_char(d)), b) == eval_digits(s, b),
    decreases s.len(),
{
    if s.len() > 0 {
        assert(s.drop_last()[s.len() - 2] == s[s.len() - 2] || s.len() == 1);
        lemma_seq_value_map(s.drop_last(), b);
        lemma_digit_char_roundtrip(s.last());
        let m = s.map_values(|d: u8| digit_char(d));
        assert(m.drop_last() =~= s.drop_last().map_values(|d: u8| digit_char(d)));
        assert(m.last() == digit_char(s.last()));
    }
}


/// Every digit value of `s` is a base-16 digit.
pub open spec fn digits16(s: Seq<u8>) -> bool {
    forall|i: int| 0 <= i < s.len() ==> (#[trigger] s[i]) < 16
}

/// `s` carries no leading zero digit (the empty sequence stands for zero).
pub open spec fn no_leading_zero(s: Seq<u8>) -> bool {
    s.len() > 0 ==> s[0] != 0
}

proof fn lemma_mul_add_step(p: Seq<u8>, d: u8, sfx: Seq<u8>, m: int, c: int, t: int, target: int)
    requires
        t == d * m + c,
        t >= 0,
        eval_digits(p.push(d), 16) * m * pow(16, sfx.len()) + c * pow(16, sfx.len())
            + eval_digits(sfx, 16) == target,
    ensures
        eval_digits(p, 16) * m * pow(16, (sfx.len() + 1) as nat) + (t / 16) * pow(
            16,
            (sfx.len() + 1) as nat,
        ) + eval_digits(seq![(t % 16) as u8] + sfx, 16) == target,
{
    let w = pow(16, sfx.len());
    lemma_eval_prepend((t % 16) as u8, sfx, 16);
    assert(pow(16, (sfx.len() + 1) as nat) == 16 * w) by {
        reveal(pow);
    }
    lemma_fundamental_div_mod(t, 16);
    let ep = eval_digits(p, 16);
    assert(p.push(d).drop_last() =~= p);
    assert(p.push(d).last() == d);
    assert(eval_digits(p.push(d), 16) == ep * 16 + d);
    assert(ep * m * (16 * w) + (t / 16) * (16 * w) + ((t % 16) * w + eval_digits(sfx, 16)) == (ep
        * 16 + d) * m * w + c * w + eval_digits(sfx, 16)) by (nonlinear_arith)
        requires
            t == d * m + c,
            t == 16 * (t / 16) + t % 16,
    ;
}

/// Multiply the number held in `num` (base-16 digits, big endian) by `m` and
/// add `a`, in place.
#[verifier::rlimit(100)]
pub fn digits_mul_add(num: &mut Vec<u8>, m: u16, a: u16)
    requires
        digits16(old(num)@),
        no_leading_zero(old(num)@),
        2 <= m <= 62,
        a < 62,
    ensures
        digits16(final(num)@),
        no_leading_zero(final(num)@),
        eval_digits(final(num)@, 16) == eval_digits(old(num)@, 16) * m + a,
{
    let ghost orig = num@;
    let ghost target = eval_digits(orig, 16) * (m as int) + a;
    let n = num.len();
    let mut carry: u16 = a;
    let mut i: usize = n;
    proof {
        assert(num@.subrange(0, n as int) =~= orig);
        assert(num@.subrange(n as int, n as int) =~= Seq::<u8>::empty());
        assert(pow(16, 0) == 1) by {
            reveal(pow);
        }
        assert((n - i) as nat == 0);
        assert(eval_digits(num@.subrange(i as int, n as int), 16) == 0);
        assert(eval_digits(num@.subrange(0, i as int), 16) == eval_digits(orig, 16));
        assert(eval_digits(orig, 16) * m * 1 + carry * 1 + 0 == target);
        assert(eval_digits(num@.subrange(0, i as int), 16) * m * pow(16, (n - i) as nat) + carry
            * pow(16, (n - i) as nat) + eval_digits(num@.subrange(i as int, n as int), 16)
            == target);
    }
    while i > 0
        invariant
            num@.len() == n,
            orig.len() == n,
            i <= n,
            digits16(orig),
            no_leading_zero(orig),
            2 <= m <= 62,
            forall|j: int| 0 <= j < i ==> num@[j] == orig[j],
            forall|j: int| i <= j < n ==> (#[trigger] num@[j]) < 16,
            carry <= 61,
            eval_digits(num@.subrange(0, i as int), 16) * m * pow(16, (n - i) as nat) + carry * pow(
                16,
                (n - i) as nat,
            ) + eval_digits(num@.subrange(i as int, n as int), 16) == target,
            (i == 0 && carry == 0 && n > 0) ==> num@[0] != 0,
        decreases i,
    {
        i = i - 1;
        let ghost before = num@;
        let d: u8 = num[i];
        proof {
            assert(d == orig[i as int]);
            assert(d < 16);
            assert(d as int * m as int + carry <= 15 * 62 + 61) by (nonlinear_arith)
                requires
                    d < 16,
                    m <= 62,
                    carry <= 61,
            ;
        }
        let t: u16 = (d as u16) * m + carry;
        num[i] = (t % 16) as u8;
        proof {
            assert(num@.subrange(0, i as int) =~= before.subrange(0, i as int));
            assert(num@.subrange(i as int, n as int) =~= seq![(t % 16) as u8] + before.subrange(
                i as int + 1,
                n as int,
            ));
            assert(before.subrange(0, i as int + 1).drop_last() =~= before.subrange(0, i as int));
            assert(before.subrange(0, i as int).push(before[i as int]) =~= before.subrange(
                0,
                i as int + 1,
            ));
            lemma_mul_add_step(
                before.subrange(0, i as int),
                d,
                before.subrange(i as int + 1, n as int),
                m as int,
                carry as int,
                t as int,
                target,
            );
            assert(t / 16 <= 61);
            if i == 0 && n > 0 && t / 16 == 0 && t % 16 == 0 {
                assert(t == 0);
                assert(d as int * m as int == 0 && carry == 0);
                assert(d == 0) by (nonlinear_arith)
                    requires
                        d as int * m as int == 0,
                        m >= 2,
                ;
                assert(false);
            }
        }
        carry = t / 16;
    }
    proof {
        assert(i == 0);
        assert(num@.subrange(0, i as int) =~= Seq::<u8>::empty());
        assert(num@.subrange(i as int, n as int) =~= num@);
        assert(eval_digits(num@.subrange(0, i as int), 16) == 0);
        assert(eval_digits(num@.subrange(0, i as int), 16) * m * pow(16, (n - i) as nat) + carry
            * pow(16, (n - i) as nat) + eval_digits(num@.subrange(i as int, n as int), 16)
            == target);
        assert(eval_digits(num@.subrange(0, i as int), 16) * m * pow(16, (n - i) as nat) == 0)
            by (nonlinear_arith)
            requires
                eval_digits(num@.subrange(0, i as int), 16) == 0,
        ;
        assert(pow(16, num@.len()) == pow(16, (n - i) as nat));
        assert(carry * pow(16, num@.len()) + eval_digits(num@, 16) == target);
    }
    while carry > 0
        invariant
            digits16(num@),
            carry * pow(16, num@.len()) + eval_digits(num@, 16) == target,
            (carry == 0 && num@.len() > 0) ==> num@[0] != 0,
        decreases carry,
    {
        let ghost before = num@;
        let d2: u8 = (carry % 16) as u8;
        num.insert(0, d2);
        proof {
            assert(num@ =~= seq![d2] + before);
            lemma_eval_prepend(d2, before, 16);
            assert(pow(16, num@.len()) == 16 * pow(16, before.len())) by {
                reveal(pow);
            }
            lemma_fundamental_div_mod(carry as int, 16);
            assert((carry as int / 16) * (16 * pow(16, before.len())) + ((carry as int % 16) * pow(
                16,
                before.len(),
            ) + eval_digits(before, 16)) == carry as int * pow(16, before.len()) + eval_digits(
                before,
                16,
            )) by (nonlinear_arith)
                requires
                    carry as int == 16 * (carry as int / 16) + carry as int % 16,
            ;
        }
        carry = carry / 16;
    }
    proof {
        assert(pow(16, num@.len()) >= 0) by {
            lemma_pow_positive(16, num@.len());
        }
    }
}

/// Remove leading zero digits; the value is unchanged.
pub fn digits_trim(num: &mut Vec<u8>)
    requires
        digits16(old(num)@),
    ensures
        digits16(final(num)@),
        no_leading_zero(final(num)@),
        eval_digits(final(num)@, 16) == eval_digits(old(num)@, 16),
{
    while num.len() > 0 && num[0] == 0
        invariant
            digits16(num@),
            eval_digits(num@, 16) == eval_digits(old(num)@, 16),
        decreases num@.len(),
    {
        let ghost before = num@;
        num.remove(0);
        proof {
            assert(before =~= seq![0u8] + num@);
            lemma_eval_prepend(0, num@, 16);
        }
    }
}

proof fn lemma_divmod_step(op: Seq<u8>, np: Seq<u8>, d: u8, b: int, r: int, t: int)
    requires
        2 <= b,
        0 <= r < b,
        d < 16,
        t == r * 16 + d,
        eval_digits(np, 16) * b + r == eval_digits(op, 16),
    ensures
        eval_digits(np.push((t / b) as u8), 16) * b + t % b == eval_digits(op.push(d), 16),
        0 <= t % b < b,
        0 <= t / b < 16,
{
    lemma_fundamental_div_mod(t, b);
    assert(0 <= t % b < b);
    assert(t < 16 * b) by (nonlinear_arith)
        requires
            r <= b - 1,
            t == r * 16 + d,
            0 <= d < 16,
    ;
    assert(t / b < 16) by (nonlinear_arith)
        requires
            t < 16 * b,
            0 <= t,
            b >= 2,
            t == b * (t / b) + t % b,
            0 <= t % b < b,
    ;
    assert(t / b >= 0) by (nonlinear_arith)
        requires
            t >= 0,
            b >= 2,
            t == b * (t / b) + t % b,
            0 <= t % b < b,
    ;
    assert(op.push(d).drop_last() =~= op);
    assert(np.push((t / b) as u8).drop_last() =~= np);
    assert((eval_digits(np, 16) * 16 + t / b) * b + t % b == eval_digits(np, 16) * b * 16 + (b * (t
        / b) + t % b)) by (nonlinear_arith);
    assert(eval_digits(np, 16) * b * 16 + t == (eval_digits(np, 16) * b + r) * 16 + d)
        by (nonlinear_arith)
        requires
            t == r * 16 + d,
    ;
}

/// Divide the number held in `num` by `b`, in place; the remainder is
/// returned and the quotient is left trimmed of leading zeros.
#[verifier::rlimit(100)]
pub fn digits_divmod(num: &mut Vec<u8>, b: u16) -> (r: u16)
    requires
        digits16(old(num)@),
        2 <= b <= 62,
    ensures
        digits16(final(num)@),
        no_leading_zero(final(num)@),
        r < b,
        eval_digits(final(num)@, 16) * b + r == eval_digits(old(num)@, 16),
{
    let ghost orig = num@;
    let n = num.len();
    let mut r: u16 = 0;
    let mut i: usize = 0;
    proof {
        assert(num@.subrange(0, 0) =~= Seq::<u8>::empty());
        assert(orig.subrange(0, 0) =~= Seq::<u8>::empty());
    }
    while i < n
        invariant
            num@.len() == n,
            orig.len() == n,
            i <= n,
            digits16(orig),
            2 <= b <= 62,
            forall|j: int| i <= j < n ==> num@[j] == orig[j],
            forall|j: int| 0 <= j < i ==> (#[trigger] num@[j]) < 16,
            r < b,
            eval_digits(num@.subrange(0, i as int), 16) * b + r == eval_digits(
                orig.subrange(0, i as int),
                16,
            ),
        decreases n - i,
    {
        let ghost before = num@;
        let d: u8 = num[i];
        proof {
            assert(d == orig[i as int]);
            assert(d < 16);
            assert(r as int * 16 + d < 62 * 16 + 16) by (nonlinear_arith)
                requires
                    r < 62,
                    d < 16,
            ;
        }
        let t: u16 = r * 16 + (d as u16);
        proof {
            lemma_divmod_step(
                orig.subrange(0, i as int),
                before.subrange(0, i as int),
                d,
                b as int,
                r as int,
                t as int,
            );
        }
        num[i] = (t / b) as u8;
        proof {
            assert(num@.subrange(0, i as int + 1) =~= before.subrange(0, i as int).push(
                (t as int / b as int) as u8,
            ));
            assert(num@.subrange(0, i as int) =~= before.subrange(0, i as int));
            assert(orig.subrange(0, i as int + 1) =~= orig.subrange(0, i as int).push(
                orig[i as int],
            ));
        }
        r = t % b;
        i = i + 1;
    }
    proof {
        assert(num@.subrange(0, n as int) =~= num@);
        assert(orig.subrange(0, n as int) =~= orig);
    }
    let ghost mid = num@;
    digits_trim(num);
    r
}



/// Re-express the number held in `num` (base-16 digits) as minimal digits of
/// base `base`.
pub fn digits_rebase(num: &mut Vec<u8>, base: u16) -> (r: Vec<u8>)
    requires
        digits16(old(num)@),
        2 <= base <= 62,
    ensures
        r@ == min_digits(eval_digits(old(num)@, 16) as nat, base as nat),
{
    proof {
        lemma_eval_nonneg(old(num)@, 16);
    }
    let ghost v0 = eval_digits(num@, 16) as nat;
    digits_trim(num);
    let mut out: Vec<u8> = Vec::new();
    proof {
        assert(min_digits(v0, base as nat) + Seq::<u8>::empty() =~= min_digits(v0, base as nat));
    }
    while num.len() > 0
        invariant
            digits16(num@),
            no_leading_zero(num@),
            2 <= base <= 62,
            eval_digits(num@, 16) >= 0,
            min_digits(v0, base as nat) == min_digits(eval_digits(num@, 16) as nat, base as nat)
                + out@,
        decreases eval_digits(num@, 16), num@.len(),
    {
        let ghost before = num@;
        let ghost vb = eval_digits(before, 16);
        let r = digits_divmod(num, base);
        out.insert(0, r as u8);
        proof {
            let vn = eval_digits(num@, 16);
            lemma_eval_nonneg(num@, 16);
            lemma_eval_pos(before, 16);
            lemma_fundamental_div_mod_converse(vb, base as int, vn, r as int);
            assert(vb / base as int == vn && vb % base as int == r as int);
            assert(min_digits(vb as nat, base as nat) == min_digits(vn as nat, base as nat).push(
                r as u8,
            ));
            assert(min_digits(vn as nat, base as nat).push(r as u8) + out@.drop_first()
                =~= min_digits(vn as nat, base as nat) + out@);
            assert(out@ =~= seq![r as u8] + out@.drop_first());
            assert(min_digits(v0, base as nat) == min_digits(vn as nat, base as nat) + out@);
            assert(vn < vb) by (nonlinear_arith)
                requires
                    vn * base + r == vb,
                    vn >= 0,
                    r >= 0,
                    vb > 0,
                    base >= 2,
            ;
        }
    }
    proof {
        assert(eval_digits(num@, 16) == 0);
        assert(min_digits(0, base as nat) =~= Seq::<u8>::empty());
        assert(Seq::<u8>::empty() + out@ =~= out@);
    }
    out
}

/// Exec mirror of `digit_char`.
pub fn digit_to_ascii(d: u8) -> (r: u8)
    requires
        d < 62,
    ensures
        r as char == digit_char(d),
        r < 128,
{
    if d < 10 {
        d + 48
    } else if d < 36 {
        d + 87
    } else {
        d + 29
    }
}

/// Render the number held in `num` (base-16 digits) as the ASCII digit
/// string of base `base`; zero renders as "0".
pub fn render_value(num: &mut Vec<u8>, base: u16) -> (r: Vec<u8>)
    requires
        digits16(old(num)@),
        2 <= base <= 62,
    ensures
        r@.map_values(|x: u8| x as char) == min_chars(eval_digits(old(num)@, 16) as nat, base as nat),
        forall|i: int| 0 <= i < r@.len() ==> (#[trigger] r@[i]) < 128,
{
    let ghost v0 = eval_digits(num@, 16) as nat;
    proof {
        lemma_eval_nonneg(num@, 16);
        lemma_min_digits_bounds(v0, base as nat);
    }
    let vals = digits_rebase(num, base);
    let n = vals.len();
    let mut r: Vec<u8> = Vec::new();
    if n == 0 {
        r.push(48);
        proof {
            assert(min_digits(v0, base as nat).len() == 0);
            if v0 > 0 {
                assert(false);
            }
            assert(v0 == 0);
            assert((48u8) as char == '0');
            assert(r@.map_values(|x: u8| x as char) =~= min_chars(v0, base as nat));
        }
        return r;
    }
    let mut i: usize = 0;
    while i < n
        invariant
            i <= n,
            n == vals@.len(),
            r@.len() == i,
            2 <= base <= 62,
            vals@ == min_digits(v0, base as nat),
            forall|j: int| 0 <= j < vals@.len() ==> (#[trigger] vals@[j]) < base,
            forall|j: int| 0 <= j < i ==> (#[trigger] r@[j]) as char == digit_char(vals@[j]),
            forall|j: int| 0 <= j < i ==> (#[trigger] r@[j]) < 128,
        decreases n - i,
    {
        let a = digit_to_ascii(vals[i]);
        r.push(a);
        i = i + 1;
    }
    proof {
        assert(v0 > 0) by {
            if v0 == 0 {
                assert(min_digits(v0, base as nat).len() == 0);
            }
        }
        assert(r@.map_values(|x: u8| x as char) =~= min_chars(v0, base as nat));
    }
    r
}

/// Express `v` as minimal base-16 digits.
pub fn u64_to_digits(v: u64) -> (r: Vec<u8>)
    ensures
        r@ == min_digits(v as nat, 16),
        digits16(r@),
        eval_digits(r@, 16) == v,
{
    let mut num: Vec<u8> = Vec::new();
    let mut x: u64 = v;
    proof {
        assert(min_digits(x as nat, 16) + Seq::<u8>::empty() =~= min_digits(x as nat, 16));
    }
    while x > 0
        invariant
            min_digits(v as nat, 16) == min_digits(x as nat, 16) + num@,
        decreases x,
    {
        let ghost before = num@;
        num.insert(0, (x % 16) as u8);
        proof {
            assert(min_digits(x as nat, 16) == min_digits((x as nat / 16) as nat, 16).push(
                (x as nat % 16) as u8,
            ));
            assert(num@ =~= seq![(x as nat % 16) as u8] + before);
            assert(min_digits((x as nat / 16) as nat, 16).push((x as nat % 16) as u8) + before
                =~= min_digits((x as nat / 16) as nat, 16) + num@);
            assert((x / 16) as nat == (x as nat / 16) as nat);
        }
        x = x / 16;
    }
    proof {
        assert(min_digits(x as nat, 16) =~= Seq::<u8>::empty());
        assert(Seq::<u8>::empty() + num@ =~= num@);
        assert(num@ == min_digits(v as nat, 16));
        lemma_min_digits_bounds(v as nat, 16);
        lemma_eval_min_digits(v as nat, 16);
    }
    num
}


/// Exec mirror of `char_digit`.
pub fn digit_of_char(c: char) -> (r: Option<u8>)
    ensures
        match r {
            Some(d) => char_digit(c) == d as int && d < 62,
            None => char_digit(c) == -1,
        },
{
    if '0' <= c && c <= '9' {
        Some((c as u8) - 48)
    } else if 'a' <= c && c <= 'z' {
        Some((c as u8) - 87)
    } else if 'A' <= c && c <= 'Z' {
        Some((c as u8) - 29)
    } else {
        None
    }
}


/// The digit values of a character string, read through the alphabet.
pub open spec fn char_digits_of(s: Seq<char>) -> Seq<u8> {
    Seq::new(s.len(), |i: int| char_digit(s[i]) as u8)
}

/// A digit character maps back to itself through its digit value.
pub proof fn lemma_char_digit_char(c: char)
    requires
        0 <= char_digit(c) < 62,
    ensures
        digit_char(char_digit(c) as u8) == c,
{
}

/// Reading a valid digit string's values and evaluating them agrees with
/// evaluating the string, and the values map back to the same string.
pub proof fn lemma_char_digits_of(s: Seq<char>, b: int)
    requires
        2 <= b <= 62,
        valid_digits(s, b),
    ensures
        eval_digits(char_digits_of(s), b) == seq_value(s, b),
        char_digits_of(s).map_values(|d: u8| digit_char(d)) == s,
        forall|i: int| 0 <= i < s.len() ==> (#[trigger] char_digits_of(s)[i]) < b,
    decreases s.len(),
{
    let dv = char_digits_of(s);
    assert forall|i: int| 0 <= i < s.len() implies (#[trigger] dv[i]) < b by {
        assert(0 <= char_digit(s[i]) < b);
    }
    if s.len() == 0 {
        assert(dv =~= Seq::<u8>::empty());
        assert(dv.map_values(|d: u8| digit_char(d)) =~= s);
    } else {
        lemma_char_digits_of(s.drop_last(), b);
        assert(char_digits_of(s.drop_last()) =~= dv.drop_last());
        assert(dv.last() == char_digit(s.last()) as u8);
        lemma_char_digit_char(s.last());
        assert(eval_digits(dv, b) == eval_digits(dv.drop_last(), b) * b + dv.last());
        assert(dv.map_values(|d: u8| digit_char(d)) =~= s) by {
            assert forall|i: int| 0 <= i < s.len() implies dv.map_values(|d: u8| digit_char(d))[i]
                == s[i] by {
                assert(0 <= char_digit(s[i]) < 62);
                lemma_char_digit_char(s[i]);
            }
        }
    }
}

} // verus!

