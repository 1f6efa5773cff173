//! Affine cipher: each letter offset `x` is mapped to `a*x + b` mod 26.
//!
//! The multiplicative key `a` must be coprime with 26, so that a modular
//! inverse `a_inv` exists and decryption can map `x` back to
//! `a_inv * (x - b)` mod 26.
use vstd::prelude::*;

use crate::Cipher;
use crate::text::{
    chars_to_string, is_letter, is_lower_letter, is_upper_letter, lemma_letter_from_case, letter,
    letter_base, letter_from, letter_offset, rem26, str_to_chars, upper_letter,
};
use vstd::arithmetic::div_mod::{
    lemma_fundamental_div_mod, lemma_mod_bound, lemma_mod_mod, lemma_mod_multiples_basic,
    lemma_mul_mod_noop_left, lemma_mul_mod_noop_right, lemma_small_mod, lemma_sub_mod_noop,
    lemma_sub_mod_noop_right,
};

verus! {

/// The greatest common divisor, by Euclid's rule.
pub open spec fn spec_gcd(a: nat, b: nat) -> nat
    decreases b,
{
    if b == 0 {
        a
    } else {
        spec_gcd(b, a % b)
    }
}

/// The modular multiplicative inverse of `a` modulo `m`: the least
/// nonnegative `x` with `(a * x) % m == 1`, if any exists.
///
/// The bound on `m` keeps the products taken during the search within `i32`.
pub fn mod_inverse(a: i32, m: i32) -> (r: Option<i32>)
    requires
        1 <= m <= 46340,
    ensures
        match r {
            Some(inv) => 0 <= inv < m && (((a as int) % (m as int)) * inv) % (m as int) == 1,
            None => forall|x: int|
                0 <= x < m ==> #[trigger] ((((a as int) % (m as int)) * x) % (m as int)) != 1,
        },
{
    let an = rem_euclid_i32(a, m);
    let mut x: i32 = 0;
    while x < m
        invariant
            0 <= x <= m,
            1 <= m <= 46340,
            0 <= an < m,
            an as int == (a as int) % (m as int),
            forall|t: int| 0 <= t < x ==> #[trigger] (((an as int) * t) % (m as int)) != 1,
        decreases m - x,
    {
        proof {
            assert(0 <= (an as int) * (x as int) <= 46339 * 46339) by (nonlinear_arith)
                requires
                    0 <= an <= 46339,
                    0 <= x <= 46339,
            ;
        }
        if (an * x) % m == 1 {
            return Some(x);
        }
        x += 1;
    }
    None
}

/// The remainder of `x` modulo `m`, always in [0, m).
fn rem_euclid_i32(x: i32, m: i32) -> (r: i32)
    requires
        1 <= m <= 46340,
    ensures
        r as int == (x as int) % (m as int),
        0 <= r < m,
{
    proof {
        lemma_mod_bound(x as int, m as int);
    }
    if x >= 0 {
        x % m
    } else {
        let y: i64 = -(x as i64);
        let md = (y % (m as i64)) as i32;
        proof {
            crate::text::lemma_neg_mod(y as int, m as int);
            assert((x as int) == -(y as int));
        }
        if md == 0 {
            proof {
                vstd::arithmetic::div_mod::lemma_mod_self_0(m as int);
            }
            0
        } else {
            proof {
                lemma_small_mod((m - md) as nat, m as nat);
            }
            m - md
        }
    }
}

/// An even multiplicative key has no inverse modulo 26: every product stays
/// even after reduction, and so never equals 1.
proof fn lemma_even_no_inverse(r: int)
    requires
        0 <= r < 26,
        r % 2 == 0,
    ensures
        forall|x: int| 0 <= x < 26 ==> #[trigger] ((r * x) % 26) != 1,
{
    assert forall|x: int| 0 <= x < 26 implies #[trigger] ((r * x) % 26) != 1 by {
        lemma_fundamental_div_mod(r, 2);
        assert(r * x == ((r / 2) * x) * 2) by (nonlinear_arith)
            requires
                r == 2 * (r / 2),
        ;
        lemma_mod_multiples_basic((r / 2) * x, 2);
        lemma_mod_mod(r * x, 2, 13);
        assert(((r * x) % 26) % 2 == 0);
    }
}

/// The key 13 has no inverse modulo 26: every product reduces to 0 or 13.
proof fn lemma_thirteen_no_inverse()
    ensures
        forall|x: int| 0 <= x < 26 ==> #[trigger] ((13 * x) % 26) != 1,
{
    assert forall|x: int| 0 <= x < 26 implies #[trigger] ((13 * x) % 26) != 1 by {
        assert(13 * x == x * 13);
        lemma_mod_multiples_basic(x, 13);
        lemma_mod_mod(13 * x, 13, 2);
        assert(((13 * x) % 26) % 13 == 0);
    }
}

/// A multiplicative key has an inverse modulo 26 exactly when it is coprime
/// with 26, which holds exactly for the twelve odd residues other than 13.
pub proof fn lemma_affine_key_valid_iff(a: int)
    ensures
        (exists|x: int| 0 <= x < 26 && #[trigger] (((a % 26) * x) % 26) == 1) <==> spec_gcd(
            (a % 26) as nat,
            26,
        ) == 1,
        spec_gcd((a % 26) as nat, 26) == 1 <==> (a % 26 == 1 || a % 26 == 3 || a % 26 == 5 || a
            % 26 == 7 || a % 26 == 9 || a % 26 == 11 || a % 26 == 15 || a % 26 == 17 || a % 26
            == 19 || a % 26 == 21 || a % 26 == 23 || a % 26 == 25),
{
    lemma_mod_bound(a, 26);
    let r = a % 26;
    reveal_with_fuel(spec_gcd, 10);
    if r == 1 {
        assert(((1 * 1) % 26 == 1) && spec_gcd(1nat, 26) == 1);
    } else if r == 3 {
        assert(((3 * 9) % 26 == 1) && spec_gcd(3nat, 26) == 1);
    } else if r == 5 {
        assert(((5 * 21) % 26 == 1) && spec_gcd(5nat, 26) == 1);
    } else if r == 7 {
        assert(((7 * 15) % 26 == 1) && spec_gcd(7nat, 26) == 1);
    } else if r == 9 {
        assert(((9 * 3) % 26 == 1) && spec_gcd(9nat, 26) == 1);
    } else if r == 11 {
        assert(((11 * 19) % 26 == 1) && spec_gcd(11nat, 26) == 1);
    } else if r == 15 {
        assert(((15 * 7) % 26 == 1) && spec_gcd(15nat, 26) == 1);
    } else if r == 17 {
        assert(((17 * 23) % 26 == 1) && spec_gcd(17nat, 26) == 1);
    } else if r == 19 {
        assert(((19 * 11) % 26 == 1) && spec_gcd(19nat, 26) == 1);
    } else if r == 21 {
        assert(((21 * 5) % 26 == 1) && spec_gcd(21nat, 26) == 1);
    } else if r == 23 {
        assert(((23 * 17) % 26 == 1) && spec_gcd(23nat, 26) == 1);
    } else if r == 25 {
        assert(((25 * 25) % 26 == 1) && spec_gcd(25nat, 26) == 1);
    } else if r == 13 {
        lemma_thirteen_no_inverse();
        assert(spec_gcd(13nat, 26) == 13);
    } else {
        assert(r % 2 == 0) by {
            lemma_fundamental_div_mod(r, 2);
            lemma_mod_bound(r, 2);
        };
        lemma_even_no_inverse(r);
        assert(spec_gcd(r as nat, 26) != 1) by {
            if r == 0 {
                assert(spec_gcd(0nat, 26) == 26);
            } else if r == 2 {
                assert(spec_gcd(2nat, 26) == 2);
            } else if r == 4 {
                assert(spec_gcd(4nat, 26) == 2);
            } else if r == 6 {
                assert(spec_gcd(6nat, 26) == 2);
            } else if r == 8 {
                assert(spec_gcd(8nat, 26) == 2);
            } else if r == 10 {
                assert(spec_gcd(10nat, 26) == 2);
            } else if r == 12 {
                assert(spec_gcd(12nat, 26) == 2);
            } else if r == 14 {
                assert(spec_gcd(14nat, 26) == 2);
            } else if r == 16 {
                assert(spec_gcd(16nat, 26) == 2);
            } else if r == 18 {
                assert(spec_gcd(18nat, 26) == 2);
            } else if r == 20 {
                assert(spec_gcd(20nat, 26) == 2);
            } else if r == 22 {
                assert(spec_gcd(22nat, 26) == 2);
            } else {
                assert(r == 24);
                assert(spec_gcd(24nat, 26) == 2);
            }
        };
    }
}

/// A letter encrypted with keys `a` and `b`; other characters are unchanged.
pub open spec fn affine_enc_letter(a: int, b: int, c: char) -> char {
    if is_letter(c) {
        letter_from(letter_base(c), (a * letter_offset(c) + b) % 26)
    } else {
        c
    }
}

/// A letter decrypted with the inverse key `a_inv` and additive key `b`.
pub open spec fn affine_dec_letter(a_inv: int, b: int, c: char) -> char {
    if is_letter(c) {
        letter_from(letter_base(c), (a_inv * (letter_offset(c) - b)) % 26)
    } else {
        c
    }
}

/// Every character of `s` encrypted with keys `a` and `b`.
pub open spec fn affine_enc_spec(a: int, b: int, s: Seq<char>) -> Seq<char> {
    Seq::new(s.len(), |i: int| affine_enc_letter(a, b, s[i]))
}

/// Every character of `s` decrypted with keys `a_inv` and `b`.
pub open spec fn affine_dec_spec(a_inv: int, b: int, s: Seq<char>) -> Seq<char> {
    Seq::new(s.len(), |i: int| affine_dec_letter(a_inv, b, s[i]))
}

/// Decrypting an encrypted letter restores it, whenever `a_inv` inverts `a`
/// modulo 26.
pub proof fn lemma_affine_letter_inverse(a: int, a_inv: int, b: int, c: char)
    requires
        (a * a_inv) % 26 == 1,
    ensures
        affine_dec_letter(a_inv, b, affine_enc_letter(a, b, c)) == c,
{
    if is_letter(c) {
        let off = letter_offset(c);
        let m = (a * off + b) % 26;
        lemma_mod_bound(a * off + b, 26);
        lemma_letter_from_case(c, m);
        let c2 = affine_enc_letter(a, b, c);
        assert(letter_offset(c2) == m);
        // (m - b) % 26 == (a * off) % 26
        lemma_sub_mod_noop(a * off + b, b, 26);
        lemma_sub_mod_noop_right(m, b, 26);
        assert((m - b) % 26 == (a * off) % 26);
        // a_inv * (m - b) reduces to off
        lemma_mul_mod_noop_right(a_inv, m - b, 26);
        lemma_mul_mod_noop_right(a_inv, a * off, 26);
        assert((a_inv * (m - b)) % 26 == (a_inv * (a * off)) % 26);
        assert(a_inv * (a * off) == (a * a_inv) * off) by (nonlinear_arith);
        lemma_mul_mod_noop_left(a * a_inv, off, 26);
        lemma_small_mod(off as nat, 26);
        assert(((a * a_inv) * off) % 26 == off);
        assert(affine_dec_letter(a_inv, b, c2) as int == letter_base(c) + off);
        assert(c as int == letter_base(c) + off);
        assert(affine_dec_letter(a_inv, b, c2) == c);
    }
}

/// Affine cipher: multiplicative key `a`, its inverse, and additive key `b`,
/// all stored reduced modulo 26.
pub struct Affine {
    a: i32,
    a_inv: i32,
    b: i32,
}

impl Affine {
    #[verifier::type_invariant]
    spec fn bounded(self) -> bool {
        0 <= self.a < 26 && 0 <= self.a_inv < 26 && 0 <= self.b < 26
    }

    /// The stored multiplicative key, in [0, 26).
    pub closed spec fn spec_a(self) -> int {
        self.a as int
    }

    /// The stored inverse of the multiplicative key, in [0, 26).
    pub closed spec fn spec_a_inv(self) -> int {
        self.a_inv as int
    }

    /// The stored additive key, in [0, 26).
    pub closed spec fn spec_b(self) -> int {
        self.b as int
    }

    /// The keys are reduced and the multiplicative key is invertible.
    pub open spec fn wf(self) -> bool {
        &&& 0 <= self.spec_a() < 26
        &&& 0 <= self.spec_a_inv() < 26
        &&& 0 <= self.spec_b() < 26
        &&& (self.spec_a() * self.spec_a_inv()) % 26 == 1
    }

    /// Builds the cipher from the two keys, reduced modulo 26. Fails exactly
    /// when `a` has no inverse modulo 26, that is when `gcd(a, 26) != 1`.
    pub fn new(a: i32, b: i32) -> (r: Option<Self>)
        ensures
            match r {
                Some(c) => {
                    &&& c.wf()
                    &&& c.spec_a() == (a as int) % 26
                    &&& c.spec_b() == (b as int) % 26
                    &&& spec_gcd(((a as int) % 26) as nat, 26) == 1
                },
                None => spec_gcd(((a as int) % 26) as nat, 26) != 1,
            },
    {
        proof {
            lemma_affine_key_valid_iff(a as int);
        }
        match mod_inverse(a, 26) {
            None => None,
            Some(inv) => {
                let an = rem_euclid_i32(a, 26);
                let bn = rem_euclid_i32(b, 26);
                Some(Affine { a: an, a_inv: inv, b: bn })
            },
        }
    }

    /// A Caesar cipher is the affine special case with `a == 1`.
    pub fn caesar(shift: i32) -> (r: Self)
        ensures
            r.wf(),
            r.spec_a() == 1,
            r.spec_a_inv() == 1,
            r.spec_b() == (shift as int) % 26,
    {
        let bn = rem_euclid_i32(shift, 26);
        Affine { a: 1, a_inv: 1, b: bn }
    }

    /// ROT13 is the affine special case with `a == 1` and `b == 13`.
    pub fn rot13() -> (r: Self)
        ensures
            r.wf(),
            r.spec_a() == 1,
            r.spec_a_inv() == 1,
            r.spec_b() == 13,
    {
        Self::caesar(13)
    }

    /// One character transformed; `enc` chooses the direction.
    fn transform_char(&self, c: char, enc: bool) -> (r: char)
        ensures
            enc ==> r == affine_enc_letter(self.spec_a(), self.spec_b(), c),
            !enc ==> r == affine_dec_letter(self.spec_a_inv(), self.spec_b(), c),
    {
        proof {
            use_type_invariant(&*self);
        }
        if letter(c) {
            let base: u32 = if upper_letter(c) {
                65
            } else {
                97
            };
            let off = ((c as u32) - base) as i32;
            proof {
                assert(0 <= (self.a as int) * (off as int) <= 650) by (nonlinear_arith)
                    requires
                        0 <= self.a < 26,
                        0 <= off <= 25,
                ;
                assert(-676 <= (self.a_inv as int) * ((off - self.b) as int) <= 676)
                    by (nonlinear_arith)
                    requires
                        0 <= self.a_inv < 26,
                        -26 <= off - self.b <= 25,
                ;
            }
            let v: i32 = if enc {
                self.a * off + self.b
            } else {
                self.a_inv * (off - self.b)
            };
            let m = rem26(v);
            ((base + m as u32) as u8) as char
        } else {
            c
        }
    }

    /// The whole text transformed; `enc` chooses the direction.
    fn transform_text(&self, input: &str, enc: bool) -> (r: String)
        ensures
            enc ==> r@ == affine_enc_spec(self.spec_a(), self.spec_b(), input@),
            !enc ==> r@ == affine_dec_spec(self.spec_a_inv(), self.spec_b(), input@),
    {
        let ghost goal: Seq<char> = if enc {
            affine_enc_spec(self.spec_a(), self.spec_b(), input@)
        } else {
            affine_dec_spec(self.spec_a_inv(), self.spec_b(), input@)
        };
        let chars = str_to_chars(input);
        let mut out: Vec<char> = Vec::new();
        let mut i: usize = 0;
        while i < chars.len()
            invariant
                i <= chars@.len(),
                chars@ == input@,
                goal == if enc {
                    affine_enc_spec(self.spec_a(), self.spec_b(), input@)
                } else {
                    affine_dec_spec(self.spec_a_inv(), self.spec_b(), input@)
                },
                goal.len() == input@.len(),
                out@ == goal.take(i as int),
            decreases chars@.len() - i,
        {
            out.push(self.transform_char(chars[i], enc));
            i += 1;
            proof {
                assert(out@ =~= goal.take(i as int));
            }
        }
        proof {
            assert(goal.take(input@.len() as int) =~= goal);
        }
        chars_to_string(&out)
    }
}

/// Decrypting an encryption returns the original text, for every
/// well-formed affine cipher.
pub proof fn lemma_affine_round_trip(c: Affine, s: Seq<char>)
    requires
        c.wf(),
    ensures
        c.dec_spec(c.enc_spec(s)) == s,
{
    let enc = c.enc_spec(s);
    assert forall|i: int| 0 <= i < s.len() implies c.dec_spec(enc)[i] == s[i] by {
        lemma_affine_letter_inverse(c.spec_a(), c.spec_a_inv(), c.spec_b(), s[i]);
    }
    assert(c.dec_spec(enc) =~= s);
}

/// Encryption keeps each character's case and leaves non-letters unchanged,
/// position for position.
pub proof fn lemma_affine_case_preserved(a: int, b: int, s: Seq<char>)
    ensures
        affine_enc_spec(a, b, s).len() == s.len(),
        forall|i: int|
            0 <= i < s.len() && is_upper_letter(s[i]) ==> is_upper_letter(
                affine_enc_spec(a, b, s)[i],
            ),
        forall|i: int|
            0 <= i < s.len() && is_lower_letter(s[i]) ==> is_lower_letter(
                affine_enc_spec(a, b, s)[i],
            ),
        forall|i: int| 0 <= i < s.len() && !is_letter(s[i]) ==> affine_enc_spec(a, b, s)[i] == s[i],
{
    assert forall|i: int| 0 <= i < s.len() && is_letter(s[i]) implies is_upper_letter(s[i])
        == is_upper_letter(affine_enc_spec(a, b, s)[i]) && is_lower_letter(s[i])
        == is_lower_letter(affine_enc_spec(a, b, s)[i]) by {
        lemma_mod_bound(a * letter_offset(s[i]) + b, 26);
        lemma_letter_from_case(s[i], (a * letter_offset(s[i]) + b) % 26);
    }
}

impl Cipher for Affine {
    open spec fn enc_spec(&self, s: Seq<char>) -> Seq<char> {
        affine_enc_spec(self.spec_a(), self.spec_b(), s)
    }

    open spec fn dec_spec(&self, s: Seq<char>) -> Seq<char> {
        affine_dec_spec(self.spec_a_inv(), self.spec_b(), s)
    }

    fn encrypt(&self, input: &str) -> (r: String) {
        self.transform_text(input, true)
    }

    fn decrypt(&self, input: &str) -> (r: String) {
        self.transform_text(input, false)
    }
}

} // verus!
