//! XOR cipher: each byte of the input is combined with a repeating key byte.
//!
//! The byte form is the faithful one: XOR is applied to raw bytes and is its
//! own inverse. The text form works on the UTF-8 bytes of the input and
//! reads each resulting byte back as one character; it only round-trips when
//! every such byte stays within the ASCII range.
use vstd::prelude::*;

use crate::Cipher;
use crate::text::chars_to_string;
use vstd::string::StringSliceAdditionalSpecFns;
use vstd::utf8::{encode_utf8, is_ascii_chars, is_ascii_chars_encode_utf8};

verus! {

/// Every byte combined with the key byte at its position, the key repeating;
/// an empty key leaves the bytes unchanged.
pub open spec fn xor_bytes_spec(key: Seq<u8>, bytes: Seq<u8>) -> Seq<u8> {
    if key.len() == 0 {
        bytes
    } else {
        Seq::new(bytes.len(), |i: int| bytes[i] ^ key[i % (key.len() as int)])
    }
}

/// The text transform: the UTF-8 bytes of `s` each combined with the
/// repeating key, every resulting byte read back as one character; an empty
/// key leaves the text unchanged.
pub open spec fn xor_text_spec(key: Seq<u8>, s: Seq<char>) -> Seq<char> {
    if key.len() == 0 {
        s
    } else {
        let bytes = encode_utf8(s);
        Seq::new(bytes.len(), |i: int| (bytes[i] ^ key[i % (key.len() as int)]) as char)
    }
}

/// Combining with the key twice restores the bytes: the byte transform is
/// its own inverse, for every key.
pub proof fn lemma_xor_bytes_self_inverse(key: Seq<u8>, bytes: Seq<u8>)
    ensures
        xor_bytes_spec(key, xor_bytes_spec(key, bytes)) == bytes,
{
    if key.len() > 0 {
        assert(forall|x: u8, k: u8| #[trigger] ((x ^ k) ^ k) == x) by (bit_vector);
        assert(xor_bytes_spec(key, xor_bytes_spec(key, bytes)) =~= bytes);
    }
}

/// The text transform applied twice restores the text, provided the text is
/// ASCII and every key byte stays below 128, so that each combined byte is
/// again a single ASCII character.
pub proof fn lemma_xor_text_round_trip(key: Seq<u8>, s: Seq<char>)
    requires
        is_ascii_chars(s),
        forall|i: int| 0 <= i < key.len() ==> key[i] < 128,
    ensures
        xor_text_spec(key, xor_text_spec(key, s)) == s,
{
    if key.len() > 0 {
        let bytes = encode_utf8(s);
        is_ascii_chars_encode_utf8(s);
        let enc = xor_text_spec(key, s);
        assert(forall|x: u8, k: u8| x < 128 && k < 128 ==> #[trigger] (x ^ k) < 128)
            by (bit_vector);
        assert(forall|x: u8, k: u8| #[trigger] ((x ^ k) ^ k) == x) by (bit_vector);
        assert forall|i: int| 0 <= i < enc.len() implies '\0' <= #[trigger] enc[i] <= '\u{7f}' by {
            assert(bytes[i] == s[i] as u8);
            assert(bytes[i] < 128);
        }
        assert(is_ascii_chars(enc));
        is_ascii_chars_encode_utf8(enc);
        let bytes2 = encode_utf8(enc);
        assert forall|i: int| 0 <= i < bytes2.len() implies #[trigger] bytes2[i] == bytes[i] ^ key[i
            % (key.len() as int)] by {
            assert(bytes2[i] == enc[i] as u8);
        }
        assert forall|i: int| 0 <= i < s.len() implies #[trigger] xor_text_spec(key, enc)[i]
            == s[i] by {
            let k = key[i % (key.len() as int)];
            assert(bytes2[i] == bytes[i] ^ k);
            assert((bytes[i] ^ k) ^ k == bytes[i]);
            assert(bytes[i] == s[i] as u8);
            assert(xor_text_spec(key, enc)[i] == (bytes[i] as char));
            assert(bytes[i] as char == s[i]);
        }
        assert(xor_text_spec(key, enc) =~= s);
    }
}

/// The cipher's two text operations are the same function, for every key
/// and every input.
pub proof fn lemma_xor_cipher_symmetric(x: Xor, s: Seq<char>)
    ensures
        x.enc_spec(s) == x.dec_spec(s),
{
}

/// XOR cipher: an arbitrary byte key; an empty key makes both transforms
/// the identity.
pub struct Xor {
    key: Vec<u8>,
}

impl Xor {
    /// The key bytes this cipher was built with.
    pub closed spec fn spec_key(self) -> Seq<u8> {
        self.key@
    }

    pub fn new(key: &[u8]) -> (r: Self)
        ensures
            r.spec_key() == key@,
    {
        Xor { key: vstd::slice::slice_to_vec(key) }
    }

    /// Builds the cipher from a textual key's UTF-8 bytes.
    pub fn with_str_key(key: &str) -> (r: Self)
        ensures
            r.spec_key() == encode_utf8(key@),
    {
        Self::new(key.as_bytes())
    }

    /// The byte form of the transform: combines raw bytes with the key.
    pub fn transform_bytes(&self, input: &[u8]) -> (r: Vec<u8>)
        ensures
            r@ == xor_bytes_spec(self.spec_key(), input@),
    {
        if self.key.len() == 0 {
            return vstd::slice::slice_to_vec(input);
        }
        let mut out: Vec<u8> = Vec::new();
        let mut i: usize = 0;
        while i < input.len()
            invariant
                i <= input@.len(),
                self.key@.len() > 0,
                out@ == xor_bytes_spec(self.spec_key(), input@).take(i as int),
            decreases input@.len() - i,
        {
            let b = input[i];
            let k = self.key[i % self.key.len()];
            out.push(b ^ k);
            i += 1;
            proof {
                assert(out@ =~= xor_bytes_spec(self.spec_key(), input@).take(i as int));
            }
        }
        proof {
            assert(xor_bytes_spec(self.spec_key(), input@).take(input@.len() as int)
                =~= xor_bytes_spec(self.spec_key(), input@));
        }
        out
    }

    /// The text form of the transform, over the input's UTF-8 bytes.
    fn transform(&self, input: &str) -> (r: String)
        ensures
            r@ == xor_text_spec(self.spec_key(), input@),
    {
        if self.key.len() == 0 {
            let r = String::from_str(input);
            return r;
        }
        let bytes = input.as_bytes();
        let mut out: Vec<char> = Vec::new();
        let mut i: usize = 0;
        while i < bytes.len()
            invariant
                i <= bytes@.len(),
                bytes@ == encode_utf8(input@),
                self.key@.len() > 0,
                out@ == xor_text_spec(self.spec_key(), input@).take(i as int),
        decreases bytes@.len() - i,
        {
            let b = *vstd::slice::slice_index_get(bytes, i);
            let k = self.key[i % self.key.len()];
            out.push((b ^ k) as char);
            i += 1;
            proof {
                assert(out@ =~= xor_text_spec(self.spec_key(), input@).take(i as int));
            }
        }
        proof {
            assert(xor_text_spec(self.spec_key(), input@).take(encode_utf8(input@).len() as int)
                =~= xor_text_spec(self.spec_key(), input@));
        }
        chars_to_string(&out)
    }
}

impl Cipher for Xor {
    open spec fn enc_spec(&self, s: Seq<char>) -> Seq<char> {
        xor_text_spec(self.spec_key(), s)
    }

    open spec fn dec_spec(&self, s: Seq<char>) -> Seq<char> {
        xor_text_spec(self.spec_key(), s)
    }

    fn encrypt(&self, input: &str) -> (r: String) {
        self.transform(input)
    }

    fn decrypt(&self, input: &str) -> (r: String) {
        self.transform(input)
    }
}

} // verus!
