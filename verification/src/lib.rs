//! Classical text ciphers, each with a verified encrypt/decrypt contract.
//!
//! Every cipher is an immutable value object: it is constructed once from its
//! parameters and then used read-only. The shared [`Cipher`] trait gives each
//! variant a pair of total transforms over text, and each implementation pins
//! the result down with a specification function over sequences of characters.
use vstd::prelude::*;

pub mod affine;
pub mod atbash;
pub mod caesar;
pub mod magic_square;
pub mod polybius;
pub mod text;
pub mod vigenere;
pub mod xor;

pub use affine::Affine;
pub use affine::mod_inverse;
pub use atbash::Atbash;
pub use caesar::Caesar;
pub use magic_square::MagicSquare;
pub use magic_square::Planet;
pub use polybius::Polybius;
pub use vigenere::Vigenere;
pub use xor::Xor;

verus! {

/// The common contract of every cipher: two total, deterministic transforms
/// over text. Each implementation fixes what they return through its
/// `enc_spec` and `dec_spec` specification functions.
pub trait Cipher {
    /// What `encrypt` returns, as a function over character sequences.
    spec fn enc_spec(&self, s: Seq<char>) -> Seq<char>;

    /// What `decrypt` returns, as a function over character sequences.
    spec fn dec_spec(&self, s: Seq<char>) -> Seq<char>;

    fn encrypt(&self, input: &str) -> (r: String)
        ensures
            r@ == self.enc_spec(input@),
    ;

    fn decrypt(&self, input: &str) -> (r: String)
        ensures
            r@ == self.dec_spec(input@),
    ;
}

} // verus!
