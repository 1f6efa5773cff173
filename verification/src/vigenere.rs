//! Vigenère cipher: a repeating key of letter offsets shifts each letter.
//!
//! The key cursor advances only over letters of the input; every other
//! character passes through without consuming a key position.
use vstd::prelude::*;

use crate::Cipher;
use crate::caesar::{lemma_shift_letter_inverse, lemma_shift_letter_mod, shift_letter};
use crate::text::{
    chars_to_string, is_letter, is_lower_letter, is_upper_letter, lemma_letter_from_case, letter,
    letter_offset, str_to_chars, to_upper, upper_char,
};

verus! {

/// The key offsets derived from a key text: its letters, uppercased, each as
/// a 0-based alphabet position; everything else is discarded.
pub open spec fn vig_key_spec(s: Seq<char>) -> Seq<u8>
    decreases s.len(),
{
    if s.len() == 0 {
        Seq::empty()
    } else {
        vig_key_spec(s.drop_last()) + if is_letter(s.last()) {
            seq![letter_offset(to_upper(s.last())) as u8]
        } else {
            Seq::empty()
        }
    }
}

/// The Vigenère transform of `s`, with the key cursor starting at `j`.
/// An empty key leaves the text unchanged; `dec` shifts backwards.
pub open spec fn vig_transform_spec(key: Seq<u8>, s: Seq<char>, j: int, dec: bool) -> Seq<char>
    decreases s.len(),
{
    if key.len() == 0 {
        s
    } else if s.len() == 0 {
        Seq::empty()
    } else {
        let c = s[0];
        if is_letter(c) {
            let k = key[j % (key.len() as int)] as int;
            seq![shift_letter(c, if dec { -k } else { k })] + vig_transform_spec(
                key,
                s.drop_first(),
                j + 1,
                dec,
            )
        } else {
            seq![c] + vig_transform_spec(key, s.drop_first(), j, dec)
        }
    }
}

/// Decrypting an encryption returns the original text, from any cursor
/// position and for every key.
pub proof fn lemma_vig_transform_inverse(key: Seq<u8>, s: Seq<char>, j: int)
    ensures
        vig_transform_spec(key, vig_transform_spec(key, s, j, false), j, true) == s,
    decreases s.len(),
{
    if key.len() == 0 {
    } else if s.len() == 0 {
        assert(vig_transform_spec(key, s, j, false) =~= Seq::<char>::empty());
    } else {
        let c = s[0];
        let enc = vig_transform_spec(key, s, j, false);
        if is_letter(c) {
            let k = key[j % (key.len() as int)] as int;
            let c2 = shift_letter(c, k);
            assert(enc[0] == c2 && enc.drop_first() =~= vig_transform_spec(
                key,
                s.drop_first(),
                j + 1,
                false,
            ));
            vstd::arithmetic::div_mod::lemma_mod_bound(letter_offset(c) + k, 26);
            lemma_letter_from_case(c, (letter_offset(c) + k) % 26);
            assert(is_letter(c2));
            lemma_shift_letter_inverse(c, k);
            lemma_vig_transform_inverse(key, s.drop_first(), j + 1);
            assert(vig_transform_spec(key, enc, j, true) =~= s);
        } else {
            assert(enc[0] == c && enc.drop_first() =~= vig_transform_spec(
                key,
                s.drop_first(),
                j,
                false,
            ));
            lemma_vig_transform_inverse(key, s.drop_first(), j);
            assert(vig_transform_spec(key, enc, j, true) =~= s);
        }
    }
}

/// The transform keeps the text's length and each character's case, and
/// leaves non-letters unchanged, position for position.
pub proof fn lemma_vig_case_preserved(key: Seq<u8>, s: Seq<char>, j: int, dec: bool)
    ensures
        vig_transform_spec(key, s, j, dec).len() == s.len(),
        forall|i: int|
            0 <= i < s.len() && is_upper_letter(s[i]) ==> is_upper_letter(
                vig_transform_spec(key, s, j, dec)[i],
            ),
        forall|i: int|
            0 <= i < s.len() && is_lower_letter(s[i]) ==> is_lower_letter(
                vig_transform_spec(key, s, j, dec)[i],
            ),
        forall|i: int|
            0 <= i < s.len() && !is_letter(s[i]) ==> vig_transform_spec(key, s, j, dec)[i] == s[i],
    decreases s.len(),
{
    if key.len() == 0 || s.len() == 0 {
    } else {
        let c = s[0];
        let res = vig_transform_spec(key, s, j, dec);
        let j2 = if is_letter(c) {
            j + 1
        } else {
            j
        };
        let tail = vig_transform_spec(key, s.drop_first(), j2, dec);
        lemma_vig_case_preserved(key, s.drop_first(), j2, dec);
        if is_letter(c) {
            let k = key[j % (key.len() as int)] as int;
            let kk = if dec {
                -k
            } else {
                k
            };
            vstd::arithmetic::div_mod::lemma_mod_bound(letter_offset(c) + kk, 26);
            lemma_letter_from_case(c, (letter_offset(c) + kk) % 26);
        }
        assert forall|i: int| 0 <= i < s.len() implies (is_upper_letter(s[i]) ==> is_upper_letter(
            res[i],
        )) && (is_lower_letter(s[i]) ==> is_lower_letter(res[i])) && (!is_letter(s[i]) ==> res[i]
            == s[i]) by {
            if i > 0 {
                assert(res[i] == tail[i - 1] && s[i] == s.drop_first()[i - 1]);
            }
        }
    }
}

/// Vigenère cipher: the derived key offsets, each in [0, 26).
pub struct Vigenere {
    key: Vec<u8>,
}

impl Vigenere {
    #[verifier::type_invariant]
    spec fn bounded(self) -> bool {
        forall|i: int| 0 <= i < self.key@.len() ==> self.key@[i] < 26
    }

    /// The key offsets this cipher was built with.
    pub closed spec fn spec_key(self) -> Seq<u8> {
        self.key@
    }

    /// Derives the key offsets from `key`'s letters; an empty derived key
    /// makes both transforms the identity.
    pub fn new(key: &str) -> (r: Self)
        ensures
            r.spec_key() == vig_key_spec(key@),
    {
        let chars = str_to_chars(key);
        let mut offs: Vec<u8> = Vec::new();
        let mut i: usize = 0;
        while i < chars.len()
            invariant
                i <= chars@.len(),
                chars@ == key@,
                offs@ == vig_key_spec(key@.take(i as int)),
                forall|t: int| 0 <= t < offs@.len() ==> offs@[t] < 26,
            decreases chars@.len() - i,
        {
            let c = chars[i];
            proof {
                assert(key@.take(i + 1).drop_last() =~= key@.take(i as int));
                assert(key@.take(i + 1).last() == key@[i as int]);
            }
            if letter(c) {
                let u = upper_char(c);
                offs.push((u as u32 - 65) as u8);
                proof {
                    assert(offs@ =~= vig_key_spec(key@.take(i + 1)));
                }
            } else {
                proof {
                    assert(offs@ =~= vig_key_spec(key@.take(i + 1)));
                }
            }
            i += 1;
        }
        proof {
            assert(key@.take(key@.len() as int) =~= key@);
        }
        Vigenere { key: offs }
    }

    /// The whole text transformed; `dec` chooses the direction.
    fn transform(&self, input: &str, dec: bool) -> (r: String)
        ensures
            r@ == vig_transform_spec(self.spec_key(), input@, 0, dec),
    {
        proof {
            use_type_invariant(&*self);
        }
        let chars = str_to_chars(input);
        if self.key.len() == 0 {
            let r = String::from_str(input);
            return r;
        }
        let mut out: Vec<char> = Vec::new();
        let mut i: usize = 0;
        let mut key_index: usize = 0;
        let ghost total = vig_transform_spec(self.spec_key(), input@, 0, dec);
        proof {
            assert(input@.skip(0) =~= input@);
        }
        while i < chars.len()
            invariant
                i <= chars@.len(),
                key_index <= i,
                chars@ == input@,
                self.key@.len() > 0,
                forall|t: int| 0 <= t < self.key@.len() ==> self.key@[t] < 26,
                total == vig_transform_spec(self.spec_key(), input@, 0, dec),
                total == out@ + vig_transform_spec(
                    self.spec_key(),
                    input@.skip(i as int),
                    key_index as int,
                    dec,
                ),
            decreases chars@.len() - i,
        {
            let c = chars[i];
            let ghost rest = input@.skip(i as int);
            proof {
                assert(rest[0] == input@[i as int]);
                assert(rest.drop_first() =~= input@.skip(i + 1));
            }
            if letter(c) {
                let k = self.key[key_index % self.key.len()];
                proof {
                    assert(key_index as int % self.key@.len() as int == (key_index as int) % (
                    self.key@.len() as int));
                }
                let norm: u8 = if dec {
                    (26 - k) % 26
                } else {
                    k
                };
                proof {
                    if dec {
                        crate::text::lemma_neg_mod(k as int, 26);
                        vstd::arithmetic::div_mod::lemma_small_mod(k as nat, 26);
                        assert(norm as int == (-(k as int)) % 26);
                        lemma_shift_letter_mod(c, -(k as int));
                    }
                }
                out.push(crate::caesar::shift_char(c, norm));
                key_index += 1;
            } else {
                out.push(c);
            }
            i += 1;
            proof {
                assert(total =~= out@ + vig_transform_spec(
                    self.spec_key(),
                    input@.skip(i as int),
                    key_index as int,
                    dec,
                ));
            }
        }
        proof {
            assert(input@.skip(input@.len() as int) =~= Seq::<char>::empty());
            assert(total =~= out@);
        }
        chars_to_string(&out)
    }
}

/// Decrypting an encryption returns the original text, for every key.
pub proof fn lemma_vigenere_round_trip(v: Vigenere, s: Seq<char>)
    ensures
        v.dec_spec(v.enc_spec(s)) == s,
{
    lemma_vig_transform_inverse(v.spec_key(), s, 0);
}

impl Cipher for Vigenere {
    open spec fn enc_spec(&self, s: Seq<char>) -> Seq<char> {
        vig_transform_spec(self.spec_key(), s, 0, false)
    }

    open spec fn dec_spec(&self, s: Seq<char>) -> Seq<char> {
        vig_transform_spec(self.spec_key(), s, 0, true)
    }

    fn encrypt(&self, input: &str) -> (r: String) {
        self.transform(input, false)
    }

    fn decrypt(&self, input: &str) -> (r: String) {
        self.transform(input, true)
    }
}

} // verus!
