//! Polybius square cipher: a 5x5 grid of 25 letters (I and J merged) turns
//! each letter into a two-digit row/column coordinate, 1-based.
//!
//! Decryption pairs up the digits of the whole input in order: each digit
//! character consumes the next full pair while one remains, separators are
//! recognised and dropped, and anything else passes through.
use vstd::prelude::*;

use crate::Cipher;
use crate::text::{
    chars_to_string, digit_char, digit_char_of, digit_of, digit_value, distinct_seq, first_index,
    is_digit_char, is_letter, lemma_first_index, letter, str_to_chars, to_upper, upper_char,
};

verus! {

/// The grid letter a character is looked up as: uppercased, with J read as I.
pub open spec fn poly_target(c: char) -> char {
    let u = to_upper(c);
    if u == 'J' {
        'I'
    } else {
        u
    }
}

/// The standard 25-letter alphabet, row-major: A through Z with J left out.
pub open spec fn standard_grid_spec() -> Seq<char> {
    seq![
        'A', 'B', 'C', 'D', 'E', 'F', 'G', 'H', 'I', 'K', 'L', 'M', 'N', 'O', 'P', 'Q', 'R', 'S',
        'T', 'U', 'V', 'W', 'X', 'Y', 'Z',
    ]
}

/// The 26 letters A through Z, in order.
pub open spec fn alphabet26() -> Seq<char> {
    Seq::new(26, |i: int| (65 + i) as char)
}

/// The token list of a text: a letter found in the grid becomes its
/// two-digit coordinate, a letter absent from the grid disappears, and any
/// other character stands as itself.
pub open spec fn poly_tokens(grid: Seq<char>, s: Seq<char>) -> Seq<Seq<char>>
    decreases s.len(),
{
    if s.len() == 0 {
        Seq::empty()
    } else {
        let rest = poly_tokens(grid, s.drop_first());
        let c = s[0];
        if is_letter(c) {
            let i = first_index(grid, poly_target(c));
            if i >= 0 {
                seq![seq![digit_char_of(i / 5 + 1), digit_char_of(i % 5 + 1)]] + rest
            } else {
                rest
            }
        } else {
            seq![seq![c]] + rest
        }
    }
}

/// Tokens written out in order; the separator stands only between two
/// consecutive coordinate tokens. `prev` says whether a coordinate token
/// came just before.
pub open spec fn poly_join(tokens: Seq<Seq<char>>, prev: bool, sep: Seq<char>) -> Seq<char>
    decreases tokens.len(),
{
    if tokens.len() == 0 {
        Seq::empty()
    } else {
        (if prev && tokens[0].len() == 2 {
            sep
        } else {
            Seq::empty()
        }) + tokens[0] + poly_join(tokens.drop_first(), tokens[0].len() == 2, sep)
    }
}

/// What encryption returns for a given grid and separator.
pub open spec fn poly_encrypt_spec(grid: Seq<char>, sep: Seq<char>, s: Seq<char>) -> Seq<char> {
    poly_join(poly_tokens(grid, s), false, sep)
}

/// The values of all digit characters of `s`, in order.
pub open spec fn digit_values(s: Seq<char>) -> Seq<u8>
    decreases s.len(),
{
    if s.len() == 0 {
        Seq::empty()
    } else {
        digit_values(s.drop_last()) + if is_digit_char(s.last()) {
            seq![digit_value(s.last()) as u8]
        } else {
            Seq::empty()
        }
    }
}

/// How many leading characters of `s` agree with `pat`, stopping at the
/// first difference or at `pat`'s end.
pub open spec fn match_len(s: Seq<char>, pat: Seq<char>) -> nat
    decreases pat.len(),
{
    if pat.len() == 0 || s.len() == 0 {
        0
    } else if s[0] == pat[0] {
        1 + match_len(s.drop_first(), pat.drop_first())
    } else {
        0
    }
}

/// One decryption step per character: a digit character consumes the next
/// full pair of `digits` while one remains, and yields a grid letter when
/// both digits lie in 1..5; a run matching the whole separator is dropped,
/// a partial match is copied; anything else is copied.
pub open spec fn poly_decrypt_rec(
    grid: Seq<char>,
    sep: Seq<char>,
    s: Seq<char>,
    digits: Seq<u8>,
    di: int,
) -> Seq<char>
    decreases s.len(),
{
    if s.len() == 0 {
        Seq::empty()
    } else {
        let c = s[0];
        if is_digit_char(c) {
            if 0 <= di && di + 1 < digits.len() {
                let row = digits[di] as int;
                let col = digits[di + 1] as int;
                let emit: Seq<char> = if 1 <= row <= 5 && 1 <= col <= 5 && (row - 1) * 5 + (col
                    - 1) < grid.len() {
                    seq![grid[(row - 1) * 5 + (col - 1)]]
                } else {
                    Seq::empty()
                };
                emit + poly_decrypt_rec(grid, sep, s.drop_first(), digits, di + 2)
            } else {
                poly_decrypt_rec(grid, sep, s.drop_first(), digits, di)
            }
        } else if sep.len() > 0 && c == sep[0] {
            let l = if match_len(s, sep) <= s.len() {
                match_len(s, sep) as int
            } else {
                s.len() as int
            };
            if l == sep.len() {
                poly_decrypt_rec(grid, sep, s.skip(l), digits, di)
            } else {
                s.take(l) + poly_decrypt_rec(grid, sep, s.skip(l), digits, di)
            }
        } else {
            seq![c] + poly_decrypt_rec(grid, sep, s.drop_first(), digits, di)
        }
    }
}

/// What decryption returns for a given grid and separator.
pub open spec fn poly_decrypt_spec(grid: Seq<char>, sep: Seq<char>, s: Seq<char>) -> Seq<char> {
    poly_decrypt_rec(grid, sep, s, digit_values(s), 0)
}

/// The keyed alphabet: the normalized letters of the text, first seen
/// first kept, each letter at most once; `seen` holds the letters already
/// taken.
pub open spec fn dedup_normalized(s: Seq<char>, seen: Set<char>) -> Seq<char>
    decreases s.len(),
{
    if s.len() == 0 {
        Seq::empty()
    } else {
        let c = s[0];
        if is_letter(c) {
            let n = poly_target(c);
            if seen.contains(n) {
                dedup_normalized(s.drop_first(), seen)
            } else {
                seq![n] + dedup_normalized(s.drop_first(), seen.insert(n))
            }
        } else {
            dedup_normalized(s.drop_first(), seen)
        }
    }
}

/// The alphabet a key produces: the key's letters, then the rest of the
/// alphabet, deduplicated with J read as I throughout.
pub open spec fn keyed_alphabet(key: Seq<char>) -> Seq<char> {
    dedup_normalized(key + alphabet26(), Set::empty())
}

/// Polybius square cipher: a 25-letter grid and the separator written
/// between coordinate tokens.
pub struct Polybius {
    grid: Vec<char>,
    separator: Vec<char>,
}

/// True when `v` holds no character twice.
fn all_distinct(v: &Vec<char>) -> (r: bool)
    ensures
        r == distinct_seq(v@),
{
    let mut i: usize = 0;
    while i < v.len()
        invariant
            i <= v@.len(),
            forall|p: int, q: int| 0 <= p < q < i ==> v@[p] != v@[q],
        decreases v@.len() - i,
    {
        let mut j: usize = 0;
        while j < i
            invariant
                j <= i < v@.len(),
                forall|q: int| 0 <= q < j ==> v@[q] != v@[i as int],
            decreases i - j,
        {
            if v[j] == v[i] {
                return false;
            }
            j += 1;
        }
        i += 1;
    }
    true
}

impl Polybius {
    #[verifier::type_invariant]
    spec fn wf(self) -> bool {
        self.grid@.len() == 25
    }

    /// The grid letters, row-major.
    pub closed spec fn spec_grid(self) -> Seq<char> {
        self.grid@
    }

    /// The separator written between coordinate tokens.
    pub closed spec fn spec_sep(self) -> Seq<char> {
        self.separator@
    }

    /// The standard grid as a vector.
    fn standard_grid() -> (g: Vec<char>)
        ensures
            g@ == standard_grid_spec(),
    {
        let g: Vec<char> = vec![
            'A', 'B', 'C', 'D', 'E', 'F', 'G', 'H', 'I', 'K', 'L', 'M', 'N', 'O', 'P', 'Q', 'R',
            'S', 'T', 'U', 'V', 'W', 'X', 'Y', 'Z',
        ];
        proof {
            assert(g@ =~= standard_grid_spec());
        }
        g
    }

    /// The square with the standard alphabet and no separator.
    pub fn new() -> (r: Self)
        ensures
            r.spec_grid() == standard_grid_spec(),
            r.spec_sep() == Seq::<char>::empty(),
    {
        Polybius { grid: Self::standard_grid(), separator: Vec::new() }
    }

    /// Lays 25 distinct characters into the grid row-major; anything else
    /// falls back to the standard grid.
    fn from_alphabet_chars(chars: Vec<char>) -> (r: Self)
        ensures
            r.spec_sep() == Seq::<char>::empty(),
            r.spec_grid() == if chars@.len() == 25 && distinct_seq(chars@) {
                chars@
            } else {
                standard_grid_spec()
            },
    {
        if chars.len() == 25 && all_distinct(&chars) {
            Polybius { grid: chars, separator: Vec::new() }
        } else {
            Polybius { grid: Self::standard_grid(), separator: Vec::new() }
        }
    }

    /// The square with a custom 25-character alphabet. An alphabet that
    /// does not hold exactly 25 distinct characters is ignored and the
    /// standard grid is used instead.
    pub fn with_alphabet(alphabet: &str) -> (r: Self)
        ensures
            r.spec_sep() == Seq::<char>::empty(),
            r.spec_grid() == if alphabet@.len() == 25 && distinct_seq(alphabet@) {
                alphabet@
            } else {
                standard_grid_spec()
            },
    {
        Self::from_alphabet_chars(str_to_chars(alphabet))
    }

    /// The square with a keyed alphabet: the key's letters first, then the
    /// remaining letters, deduplicated with J read as I.
    pub fn with_key(key: &str) -> (r: Self)
        ensures
            r.spec_sep() == Seq::<char>::empty(),
            r.spec_grid() == if keyed_alphabet(key@).len() == 25 && distinct_seq(
                keyed_alphabet(key@),
            ) {
                keyed_alphabet(key@)
            } else {
                standard_grid_spec()
            },
    {
        let key_chars = str_to_chars(key);
        let mut all = key_chars;
        let ghost key_view = key@;
        let mut b: u8 = 65;
        proof {
            assert(all@ =~= key_view + alphabet26().take(0));
        }
        while b < 91
            invariant
                65 <= b <= 91,
            all@ == key_view + alphabet26().take(b - 65),
            decreases 91 - b,
        {
            all.push(b as char);
            b += 1;
            proof {
                assert(all@ =~= key_view + alphabet26().take(b - 65));
            }
        }
        proof {
            assert(alphabet26().take(26) =~= alphabet26());
            assert(all@ == key_view + alphabet26());
        }
        // first-seen deduplication, J normalized to I
        let mut seen: Vec<bool> = Vec::new();
        let mut t: usize = 0;
        while t < 26
            invariant
                t <= 26,
                seen@.len() == t,
                forall|q: int| 0 <= q < t ==> seen@[q] == false,
            decreases 26 - t,
        {
            seen.push(false);
            t += 1;
        }
        let ghost total = dedup_normalized(all@, Set::empty());
        let mut out: Vec<char> = Vec::new();
        let mut i: usize = 0;
        let ghost mut seen_set = Set::<char>::empty();
        proof {
            assert(all@.skip(0) =~= all@);
        }
        while i < all.len()
            invariant
                i <= all@.len(),
                seen@.len() == 26,
                forall|ch: char|
                    #![trigger seen_set.contains(ch)]
                    is_letter(ch) && ch == poly_target(ch) ==> (seen_set.contains(ch) <==> seen@[ch
                        as int - 65]),
                forall|ch: char| seen_set.contains(ch) ==> is_letter(ch) && ch == poly_target(ch),
                total == out@ + dedup_normalized(all@.skip(i as int), seen_set),
            decreases all@.len() - i,
        {
            let c = all[i];
            let ghost rest = all@.skip(i as int);
            proof {
                assert(rest[0] == all@[i as int]);
                assert(rest.drop_first() =~= all@.skip(i + 1));
            }
            if letter(c) {
                let u = upper_char(c);
                let n: char = if u == 'J' {
                    'I'
                } else {
                    u
                };
                proof {
                    assert(n == poly_target(c));
                    assert(is_letter(n) && n == poly_target(n));
                }
                let idx = (n as u32 - 65) as usize;
                if !seen[idx] {
                    out.push(n);
                    seen.set(idx, true);
                    proof {
                        seen_set = seen_set.insert(n);
                    }
                }
            }
            i += 1;
            proof {
                assert(total =~= out@ + dedup_normalized(all@.skip(i as int), seen_set));
            }
        }
        proof {
            assert(all@.skip(all@.len() as int) =~= Seq::<char>::empty());
            assert(out@ == keyed_alphabet(key_view));
        }
        Self::from_alphabet_chars(out)
    }

    /// The same square with `sep` written between coordinate tokens.
    pub fn with_separator(self, sep: &str) -> (r: Self)
        ensures
            r.spec_grid() == self.spec_grid(),
            r.spec_sep() == sep@,
    {
        proof {
            use_type_invariant(&self);
        }
        Polybius { grid: self.grid, separator: str_to_chars(sep) }
    }

    /// The 0-based position of a character's grid letter, if it is in the
    /// grid.
    fn find_position(&self, c: char) -> (r: Option<usize>)
        ensures
            match r {
                Some(i) => i < 25 && i == first_index(self.spec_grid(), poly_target(c)),
                None => first_index(self.spec_grid(), poly_target(c)) == -1,
            },
    {
        proof {
            use_type_invariant(&*self);
            lemma_first_index(self.spec_grid(), poly_target(c));
        }
        let u = upper_char(c);
        let target: char = if u == 'J' {
            'I'
        } else {
            u
        };
        let mut i: usize = 0;
        while i < self.grid.len()
            invariant
                i <= self.grid@.len(),
                self.grid@.len() == 25,
                target == poly_target(c),
                forall|j: int| 0 <= j < i ==> self.grid@[j] != target,
                -1 <= first_index(self.spec_grid(), target) < 25,
                first_index(self.spec_grid(), target) >= 0 ==> self.spec_grid()[first_index(
                    self.spec_grid(),
                    target,
                )] == target && forall|j: int|
                    0 <= j < first_index(self.spec_grid(), target) ==> self.spec_grid()[j]
                        != target,
                first_index(self.spec_grid(), target) == -1 ==> forall|j: int|
                    0 <= j < 25 ==> self.spec_grid()[j] != target,
            decreases self.grid@.len() - i,
        {
            if self.grid[i] == target {
                proof {
                    let f = first_index(self.spec_grid(), target);
                    assert(f >= 0);
                    if f < i {
                        assert(self.spec_grid()[f] != target);
                    }
                    if f > i {
                        assert(self.spec_grid()[i as int] != target);
                    }
                }
                return Some(i);
            }
            i += 1;
        }
        None
    }
}

impl Default for Polybius {
    /// The standard square, as `new` builds it.
    fn default() -> (r: Self)
        ensures
            r.spec_grid() == standard_grid_spec(),
            r.spec_sep() == Seq::<char>::empty(),
    {
        Polybius::new()
    }
}

impl Cipher for Polybius {
    open spec fn enc_spec(&self, s: Seq<char>) -> Seq<char> {
        poly_encrypt_spec(self.spec_grid(), self.spec_sep(), s)
    }

    open spec fn dec_spec(&self, s: Seq<char>) -> Seq<char> {
        poly_decrypt_spec(self.spec_grid(), self.spec_sep(), s)
    }

    fn encrypt(&self, input: &str) -> (r: String) {
        proof {
            use_type_invariant(&*self);
        }
        let chars = str_to_chars(input);
        let mut out: Vec<char> = Vec::new();
        let mut prev: bool = false;
        let mut i: usize = 0;
        let ghost total = poly_encrypt_spec(self.spec_grid(), self.spec_sep(), input@);
        proof {
            assert(input@.skip(0) =~= input@);
        }
        while i < chars.len()
            invariant
                i <= chars@.len(),
                chars@ == input@,
                self.grid@.len() == 25,
                total == poly_encrypt_spec(self.spec_grid(), self.spec_sep(), input@),
                total == out@ + poly_join(
                    poly_tokens(self.spec_grid(), input@.skip(i as int)),
                    prev,
                    self.spec_sep(),
                ),
            decreases chars@.len() - i,
        {
            let c = chars[i];
            let ghost rest = input@.skip(i as int);
            proof {
                assert(rest[0] == input@[i as int]);
                assert(rest.drop_first() =~= input@.skip(i + 1));
            }
            if letter(c) {
                match self.find_position(c) {
                    Some(p) => {
                        let ghost toks = poly_tokens(self.spec_grid(), rest);
                        proof {
                            assert(toks[0] =~= seq![
                                digit_char_of(p as int / 5 + 1),
                                digit_char_of(p as int % 5 + 1),
                            ]);
                            assert(toks.drop_first() =~= poly_tokens(
                                self.spec_grid(),
                                input@.skip(i + 1),
                            ));
                        }
                        if prev {
                            let mut t: usize = 0;
                            let ghost base = out@;
                            while t < self.separator.len()
                                invariant
                                    t <= self.separator@.len(),
                                    out@ == base + self.separator@.take(t as int),
                                decreases self.separator@.len() - t,
                            {
                                out.push(self.separator[t]);
                                t += 1;
                                proof {
                                    assert(out@ =~= base + self.separator@.take(t as int));
                                }
                            }
                            proof {
                                assert(self.separator@.take(self.separator@.len() as int)
                                    =~= self.separator@);
                            }
                        }
                        let row = (p / 5 + 1) as u8;
                        let col = (p % 5 + 1) as u8;
                        out.push(digit_of(row));
                        out.push(digit_of(col));
                        prev = true;
                    },
                    None => {
                        proof {
                            assert(poly_tokens(self.spec_grid(), rest) =~= poly_tokens(
                                self.spec_grid(),
                                input@.skip(i + 1),
                            ));
                        }
                    },
                }
            } else {
                proof {
                    let toks = poly_tokens(self.spec_grid(), rest);
                    assert(toks[0] =~= seq![input@[i as int]]);
                    assert(toks.drop_first() =~= poly_tokens(self.spec_grid(), input@.skip(i + 1)));
                }
                out.push(c);
                prev = false;
            }
            i += 1;
            proof {
                assert(total =~= out@ + poly_join(
                    poly_tokens(self.spec_grid(), input@.skip(i as int)),
                    prev,
                    self.spec_sep(),
                ));
            }
        }
        proof {
            assert(input@.skip(input@.len() as int) =~= Seq::<char>::empty());
            assert(total =~= out@);
        }
        chars_to_string(&out)
    }

    fn decrypt(&self, input: &str) -> (r: String) {
        proof {
            use_type_invariant(&*self);
        }
        let chars = str_to_chars(input);
        // the values of every digit character, in order
        let mut digits: Vec<u8> = Vec::new();
        let mut i: usize = 0;
        while i < chars.len()
            invariant
                i <= chars@.len(),
                chars@ == input@,
                digits@ == digit_values(input@.take(i as int)),
            decreases chars@.len() - i,
        {
            let c = chars[i];
            proof {
                assert(input@.take(i + 1).drop_last() =~= input@.take(i as int));
                assert(input@.take(i + 1).last() == input@[i as int]);
            }
            if digit_char(c) {
                digits.push((c as u32 - 48) as u8);
            }
            i += 1;
            proof {
                assert(digits@ =~= digit_values(input@.take(i as int)));
            }
        }
        proof {
            assert(input@.take(input@.len() as int) =~= input@);
        }
        let ghost total = poly_decrypt_spec(self.spec_grid(), self.spec_sep(), input@);
        let mut out: Vec<char> = Vec::new();
        let mut di: usize = 0;
        let mut i: usize = 0;
        proof {
            assert(input@.skip(0) =~= input@);
        }
        while i < chars.len()
            invariant
                i <= chars@.len(),
                di <= digits@.len(),
                chars@ == input@,
                self.grid@.len() == 25,
                digits@ == digit_values(input@),
                total == poly_decrypt_spec(self.spec_grid(), self.spec_sep(), input@),
                total == out@ + poly_decrypt_rec(
                    self.spec_grid(),
                    self.spec_sep(),
                    input@.skip(i as int),
                    digits@,
                    di as int,
                ),
            decreases chars@.len() - i,
        {
            let c = chars[i];
            let ghost rest = input@.skip(i as int);
            proof {
                assert(rest[0] == input@[i as int]);
                assert(rest.drop_first() =~= input@.skip(i + 1));
            }
            if digit_char(c) {
                if digits.len() > 0 && di < digits.len() - 1 {
                    let row = digits[di];
                    let col = digits[di + 1];
                    if 1 <= row && row <= 5 && 1 <= col && col <= 5 {
                        let idx = ((row - 1) * 5 + (col - 1)) as usize;
                        out.push(self.grid[idx]);
                    }
                    di += 2;
                }
                i += 1;
            } else if self.separator.len() > 0 && c == self.separator[0] {
                // length of the run matching the separator's front
                let mut j: usize = 0;
                proof {
                    assert(self.spec_sep().skip(0) =~= self.spec_sep());
                }
                while i + j < chars.len() && j < self.separator.len() && chars[i + j]
                    == self.separator[j]
                    invariant
                        j <= self.separator@.len(),
                        i + j <= chars@.len(),
                        chars@.len() <= usize::MAX,
                        chars@ == input@,
                        match_len(input@.skip(i as int), self.spec_sep()) == j + match_len(
                            input@.skip(i + j),
                            self.spec_sep().skip(j as int),
                        ),
                    decreases self.separator@.len() - j,
                {
                    proof {
                        let s1 = input@.skip(i + j);
                        let p1 = self.spec_sep().skip(j as int);
                        assert(s1[0] == input@[i + j] && p1[0] == self.spec_sep()[j as int]);
                        assert(s1.drop_first() =~= input@.skip(i + j + 1));
                        assert(p1.drop_first() =~= self.spec_sep().skip(j + 1));
                    }
                    j += 1;
                }
                proof {
                    // the scan stopped: nothing more of the separator matches here
                    if j < self.separator@.len() {
                        let s1 = input@.skip(i + j);
                        let p1 = self.spec_sep().skip(j as int);
                        if i + j < chars@.len() {
                            assert(s1[0] == input@[i + j] && p1[0] == self.spec_sep()[j as int]);
                            assert(match_len(s1, p1) == 0);
                        } else {
                            assert(s1.len() == 0);
                        }
                    } else {
                        assert(self.spec_sep().skip(j as int).len() == 0);
                    }
                    assert(match_len(input@.skip(i as int), self.spec_sep()) == j);
                    assert(j >= 1);
                }
                if j == self.separator.len() {
                    proof {
                        assert(input@.skip(i as int).skip(j as int) =~= input@.skip(i + j));
                    }
                } else {
                    let ghost base = out@;
                    let mut t: usize = 0;
                    while t < j
                        invariant
                            t <= j,
                            i + j <= chars@.len(),
                            chars@.len() <= usize::MAX,
                            chars@ == input@,
                            out@ == base + input@.skip(i as int).take(t as int),
                        decreases j - t,
                    {
                        out.push(chars[i + t]);
                        t += 1;
                        proof {
                            assert(out@ =~= base + input@.skip(i as int).take(t as int));
                        }
                    }
                    proof {
                        assert(input@.skip(i as int).skip(j as int) =~= input@.skip(i + j));
                    }
                }
                i += j;
            } else {
                out.push(c);
                i += 1;
            }
            proof {
                assert(total =~= out@ + poly_decrypt_rec(
                    self.spec_grid(),
                    self.spec_sep(),
                    input@.skip(i as int),
                    digits@,
                    di as int,
                ));
            }
        }
        proof {
            assert(input@.skip(input@.len() as int) =~= Seq::<char>::empty());
            assert(total =~= out@);
        }
        chars_to_string(&out)
    }
}

} // verus!
