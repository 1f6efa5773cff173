//! Caesar cipher: each letter is shifted by a fixed amount, mod 26.
use vstd::prelude::*;

use crate::Cipher;
use crate::text::{
    chars_to_string, is_letter, is_lower_letter, is_upper_letter, lemma_letter_from_case, letter,
    letter_base, letter_from, letter_offset, rem26, str_to_chars, upper_letter,
};

verus! {

/// A letter shifted `k` places forward within its own case's alphabet,
/// wrapping around; any other character is unchanged.
pub open spec fn shift_letter(c: char, k: int) -> char {
    if is_letter(c) {
        letter_from(letter_base(c), (letter_offset(c) + k) % 26)
    } else {
        c
    }
}

/// Every character of `s` shifted by `k`.
pub open spec fn caesar_spec(k: int, s: Seq<char>) -> Seq<char> {
    Seq::new(s.len(), |i: int| shift_letter(s[i], k))
}

/// Shifting depends only on the shift's remainder modulo 26.
pub proof fn lemma_shift_letter_mod(c: char, k: int)
    ensures
        shift_letter(c, k % 26) == shift_letter(c, k),
{
    if is_letter(c) {
        vstd::arithmetic::div_mod::lemma_add_mod_noop_right(letter_offset(c), k, 26);
    }
}

/// Shifting back by the same amount restores each character.
pub proof fn lemma_shift_letter_inverse(c: char, k: int)
    ensures
        shift_letter(shift_letter(c, k), -k) == c,
{
    if is_letter(c) {
        let m = (letter_offset(c) + k) % 26;
        vstd::arithmetic::div_mod::lemma_mod_bound(letter_offset(c) + k, 26);
        lemma_letter_from_case(c, m);
        let c2 = shift_letter(c, k);
        assert(letter_offset(c2) == m);
        vstd::arithmetic::div_mod::lemma_add_mod_noop(letter_offset(c) + k, -k, 26);
        vstd::arithmetic::div_mod::lemma_add_mod_noop_right(m, -k, 26);
        vstd::arithmetic::div_mod::lemma_small_mod(letter_offset(c) as nat, 26);
        assert((m + -k) % 26 == letter_offset(c));
        assert(shift_letter(c2, -k) as int == letter_base(c) + letter_offset(c));
        assert(c as int == letter_base(c) + letter_offset(c));
        assert(shift_letter(c2, -k) as int == c as int);
        assert(shift_letter(c2, -k) == c);
    }
}

/// Decrypting an encryption returns the original text, for every shift.
pub proof fn lemma_caesar_round_trip(k: int, s: Seq<char>)
    ensures
        caesar_spec(-k, caesar_spec(k, s)) == s,
{
    let enc = caesar_spec(k, s);
    assert forall|i: int| 0 <= i < s.len() implies caesar_spec(-k, enc)[i] == s[i] by {
        lemma_shift_letter_inverse(s[i], k);
    }
    assert(caesar_spec(-k, enc) =~= s);
}

/// Decrypting an encryption returns the original text, for every Caesar
/// cipher value.
pub proof fn lemma_caesar_cipher_round_trip(c: Caesar, s: Seq<char>)
    ensures
        c.dec_spec(c.enc_spec(s)) == s,
{
    lemma_caesar_round_trip(c.spec_shift(), s);
}

/// Encryption keeps each character's case and leaves non-letters unchanged,
/// position for position.
pub proof fn lemma_caesar_case_preserved(k: int, s: Seq<char>)
    ensures
        caesar_spec(k, s).len() == s.len(),
        forall|i: int|
            0 <= i < s.len() && is_upper_letter(s[i]) ==> is_upper_letter(caesar_spec(k, s)[i]),
        forall|i: int|
            0 <= i < s.len() && is_lower_letter(s[i]) ==> is_lower_letter(caesar_spec(k, s)[i]),
        forall|i: int| 0 <= i < s.len() && !is_letter(s[i]) ==> caesar_spec(k, s)[i] == s[i],
{
    assert forall|i: int| 0 <= i < s.len() && is_letter(s[i]) implies is_upper_letter(s[i])
        == is_upper_letter(caesar_spec(k, s)[i]) && is_lower_letter(s[i]) == is_lower_letter(
        caesar_spec(k, s)[i],
    ) by {
        vstd::arithmetic::div_mod::lemma_mod_bound(letter_offset(s[i]) + k, 26);
        lemma_letter_from_case(s[i], (letter_offset(s[i]) + k) % 26);
    }
}

/// Caesar cipher: a fixed shift chosen at construction.
pub struct Caesar {
    shift: i32,
}

/// One character shifted forward by `norm` places.
pub(crate) fn shift_char(c: char, norm: u8) -> (r: char)
    requires
        norm < 26,
    ensures
        r == shift_letter(c, norm as int),
{
    if letter(c) {
        let base: u32 = if upper_letter(c) {
            65
        } else {
            97
        };
        let off = (c as u32) - base;
        let m = (off + norm as u32) % 26;
        ((base + m) as u8) as char
    } else {
        c
    }
}

/// The whole text shifted forward by `norm` places.
fn shift_text(input: &str, norm: u8) -> (r: String)
    requires
        norm < 26,
    ensures
        r@ == caesar_spec(norm as int, input@),
{
    let chars = str_to_chars(input);
    let mut out: Vec<char> = Vec::new();
    let mut i: usize = 0;
    while i < chars.len()
        invariant
            i <= chars@.len(),
            chars@ == input@,
            norm < 26,
            out@ == caesar_spec(norm as int, input@).take(i as int),
        decreases chars@.len() - i,
    {
        out.push(shift_char(chars[i], norm));
        i += 1;
        proof {
            assert(out@ =~= caesar_spec(norm as int, input@).take(i as int));
        }
    }
    proof {
        assert(caesar_spec(norm as int, input@).take(input@.len() as int) =~= caesar_spec(
            norm as int,
            input@,
        ));
    }
    chars_to_string(&out)
}

impl Caesar {
    /// The shift this cipher was built with.
    pub closed spec fn spec_shift(self) -> int {
        self.shift as int
    }

    pub fn new(shift: i32) -> (r: Self)
        ensures
            r.spec_shift() == shift,
    {
        Caesar { shift }
    }

    /// ROT13 is Caesar with shift 13.
    pub fn rot13() -> (r: Self)
        ensures
            r.spec_shift() == 13,
    {
        Self::new(13)
    }
}

impl Cipher for Caesar {
    open spec fn enc_spec(&self, s: Seq<char>) -> Seq<char> {
        caesar_spec(self.spec_shift(), s)
    }

    open spec fn dec_spec(&self, s: Seq<char>) -> Seq<char> {
        caesar_spec(-self.spec_shift(), s)
    }

    fn encrypt(&self, input: &str) -> (r: String) {
        let norm = rem26(self.shift);
        proof {
            vstd::arithmetic::div_mod::lemma_mod_bound(self.shift as int, 26);
            assert forall|i: int| 0 <= i < input@.len() implies shift_letter(input@[i], norm as int)
                == shift_letter(input@[i], self.spec_shift()) by {
                lemma_shift_letter_mod(input@[i], self.spec_shift());
            }
            assert(caesar_spec(norm as int, input@) =~= caesar_spec(self.spec_shift(), input@));
        }
        shift_text(input, norm)
    }

    fn decrypt(&self, input: &str) -> (r: String) {
        let fwd = rem26(self.shift);
        let norm: u8 = (26 - fwd) % 26;
        proof {
            vstd::arithmetic::div_mod::lemma_mod_bound(self.shift as int, 26);
            crate::text::lemma_neg_mod(self.shift as int, 26);
            assert(norm as int == (-self.spec_shift()) % 26);
            assert forall|i: int| 0 <= i < input@.len() implies shift_letter(input@[i], norm as int)
                == shift_letter(input@[i], -self.spec_shift()) by {
                lemma_shift_letter_mod(input@[i], -self.spec_shift());
            }
            assert(caesar_spec(norm as int, input@) =~= caesar_spec(-self.spec_shift(), input@));
        }
        shift_text(input, norm)
    }
}

} // verus!
