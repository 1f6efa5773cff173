//! Atbash cipher: the alphabet reversed, so A maps to Z, B to Y, and so on.
use vstd::prelude::*;

use crate::Cipher;
use crate::text::{
    chars_to_string, is_letter, is_lower_letter, is_upper_letter, lemma_letter_from_case, letter,
    letter_base, letter_from, letter_offset, str_to_chars, upper_letter,
};

verus! {

/// A letter reflected within its own case's alphabet; any other character is
/// unchanged.
pub open spec fn atbash_letter(c: char) -> char {
    if is_letter(c) {
        letter_from(letter_base(c), 25 - letter_offset(c))
    } else {
        c
    }
}

/// Every character of `s` reflected.
pub open spec fn atbash_spec(s: Seq<char>) -> Seq<char> {
    Seq::new(s.len(), |i: int| atbash_letter(s[i]))
}

/// Reflecting twice restores each character, so the transform is its own
/// inverse: encrypting and decrypting are the same function, and applying it
/// twice returns the original text.
pub proof fn lemma_atbash_self_inverse(s: Seq<char>)
    ensures
        atbash_spec(atbash_spec(s)) == s,
{
    assert forall|i: int| 0 <= i < s.len() implies atbash_spec(atbash_spec(s))[i] == s[i] by {
        let c = s[i];
        if is_letter(c) {
            lemma_letter_from_case(c, 25 - letter_offset(c));
            assert(atbash_letter(atbash_letter(c)) as int == letter_base(c) + letter_offset(c));
            assert(c as int == letter_base(c) + letter_offset(c));
        }
    }
    assert(atbash_spec(atbash_spec(s)) =~= s);
}

/// The cipher's two operations are the same function, and decrypting an
/// encryption returns the original text.
pub proof fn lemma_atbash_cipher_self_inverse(a: Atbash, s: Seq<char>)
    ensures
        a.enc_spec(s) == a.dec_spec(s),
        a.dec_spec(a.enc_spec(s)) == s,
{
    lemma_atbash_self_inverse(s);
}

/// The transform keeps each character's case and leaves non-letters
/// unchanged, position for position.
pub proof fn lemma_atbash_case_preserved(s: Seq<char>)
    ensures
        atbash_spec(s).len() == s.len(),
        forall|i: int| 0 <= i < s.len() && is_upper_letter(s[i]) ==> is_upper_letter(atbash_spec(s)[i]),
        forall|i: int| 0 <= i < s.len() && is_lower_letter(s[i]) ==> is_lower_letter(atbash_spec(s)[i]),
        forall|i: int| 0 <= i < s.len() && !is_letter(s[i]) ==> atbash_spec(s)[i] == s[i],
{
    assert forall|i: int| 0 <= i < s.len() && is_letter(s[i]) implies is_upper_letter(s[i])
        == is_upper_letter(atbash_spec(s)[i]) && is_lower_letter(s[i]) == is_lower_letter(
        atbash_spec(s)[i],
    ) by {
        lemma_letter_from_case(s[i], 25 - letter_offset(s[i]));
    }
}

/// Atbash cipher: stateless, self-inverse.
pub struct Atbash {}

/// One character reflected within its case's alphabet.
fn transform_char(c: char) -> (r: char)
    ensures
        r == atbash_letter(c),
{
    if letter(c) {
        let base: u32 = if upper_letter(c) {
            65
        } else {
            97
        };
        let off = (c as u32) - base;
        ((base + (25 - off)) as u8) as char
    } else {
        c
    }
}

/// The whole text reflected.
fn transform_text(input: &str) -> (r: String)
    ensures
        r@ == atbash_spec(input@),
{
    let chars = str_to_chars(input);
    let mut out: Vec<char> = Vec::new();
    let mut i: usize = 0;
    while i < chars.len()
        invariant
            i <= chars@.len(),
            chars@ == input@,
            out@ == atbash_spec(input@).take(i as int),
        decreases chars@.len() - i,
    {
        out.push(transform_char(chars[i]));
        i += 1;
        proof {
            assert(out@ =~= atbash_spec(input@).take(i as int));
        }
    }
    proof {
        assert(atbash_spec(input@).take(input@.len() as int) =~= atbash_spec(input@));
    }
    chars_to_string(&out)
}

impl Atbash {
    pub fn new() -> (r: Self)
    {
        Atbash {  }
    }
}

impl Cipher for Atbash {
    open spec fn enc_spec(&self, s: Seq<char>) -> Seq<char> {
        atbash_spec(s)
    }

    open spec fn dec_spec(&self, s: Seq<char>) -> Seq<char> {
        atbash_spec(s)
    }

    fn encrypt(&self, input: &str) -> (r: String) {
        transform_text(input)
    }

    fn decrypt(&self, input: &str) -> (r: String) {
        transform_text(input)
    }
}

} // verus!
