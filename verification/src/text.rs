//! Character classes and string helpers shared by all ciphers.
use vstd::prelude::*;
use vstd::string::StrSliceExecFns;

verus! {

/// True for the ASCII capital letters 'A' through 'Z'.
pub open spec fn is_upper_letter(c: char) -> bool {
    65 <= c as int <= 90
}

/// True for the ASCII small letters 'a' through 'z'.
pub open spec fn is_lower_letter(c: char) -> bool {
    97 <= c as int <= 122
}

/// True for ASCII letters of either case.
pub open spec fn is_letter(c: char) -> bool {
    is_upper_letter(c) || is_lower_letter(c)
}

/// True for the ASCII digits '0' through '9'.
pub open spec fn is_digit_char(c: char) -> bool {
    48 <= c as int <= 57
}

/// Numeric value of an ASCII digit character.
pub open spec fn digit_value(c: char) -> int {
    c as int - 48
}

/// The code point of the first letter of `c`'s case: 'A' for capitals, 'a' for smalls.
pub open spec fn letter_base(c: char) -> int {
    if is_upper_letter(c) {
        65
    } else {
        97
    }
}

/// The 0-based position of a letter within its case's alphabet.
pub open spec fn letter_offset(c: char) -> int {
    c as int - letter_base(c)
}

/// The letter standing `off` places after the letter with code point `base`.
pub open spec fn letter_from(base: int, off: int) -> char {
    (base + off) as char
}

/// The capital form of an ASCII letter; other characters are unchanged.
pub open spec fn to_upper(c: char) -> char {
    if is_lower_letter(c) {
        (c as int - 32) as char
    } else {
        c
    }
}

pub fn upper_letter(c: char) -> (r: bool)
    ensures
        r == is_upper_letter(c),
{
    c >= 'A' && c <= 'Z'
}

pub fn lower_letter(c: char) -> (r: bool)
    ensures
        r == is_lower_letter(c),
{
    c >= 'a' && c <= 'z'
}

pub fn letter(c: char) -> (r: bool)
    ensures
        r == is_letter(c),
{
    upper_letter(c) || lower_letter(c)
}

pub fn digit_char(c: char) -> (r: bool)
    ensures
        r == is_digit_char(c),
{
    c >= '0' && c <= '9'
}

pub fn upper_char(c: char) -> (r: char)
    ensures
        r == to_upper(c),
{
    if lower_letter(c) {
        let u = c as u32;
        ((u - 32) as u8) as char
    } else {
        c
    }
}

/// The remainder of `x` modulo 26, always in [0, 26).
pub fn rem26(x: i32) -> (r: u8)
    ensures
        r as int == (x as int) % 26,
{
    if x >= 0 {
        (x % 26) as u8
    } else {
        let y: i64 = -(x as i64);
        let m = (y % 26) as u8;
        proof {
            lemma_neg_mod(y as int, 26);
            assert((x as int) == -(y as int));
        }
        if m == 0 {
            proof {
                assert((26 - (y as int) % 26) % 26 == 0) by {
                    assert((y as int) % 26 == 0);
                }
            }
            0
        } else {
            proof {
                vstd::arithmetic::div_mod::lemma_small_mod((26 - m) as nat, 26);
            }
            26 - m
        }
    }
}

/// Negating an integer reflects its remainder modulo `m`.
pub proof fn lemma_neg_mod(a: int, m: int)
    requires
        m > 0,
    ensures
        (-a) % m == (m - a % m) % m,
{
    let r = a % m;
    let q = a / m;
    vstd::arithmetic::div_mod::lemma_fundamental_div_mod(a, m);
    vstd::arithmetic::div_mod::lemma_mod_bound(a, m);
    if r == 0 {
        assert(-a == (-q) * m + 0) by (nonlinear_arith)
            requires
                a == m * q,
        ;
        vstd::arithmetic::div_mod::lemma_fundamental_div_mod_converse_mod(-a, m, -q, 0);
        vstd::arithmetic::div_mod::lemma_mod_multiples_basic(1, m);
        assert(1 * m == m);
    } else {
        assert(-a == (-q - 1) * m + (m - r)) by (nonlinear_arith)
            requires
                a == m * q + r,
        ;
        vstd::arithmetic::div_mod::lemma_fundamental_div_mod_converse_mod(-a, m, -q - 1, m - r);
        vstd::arithmetic::div_mod::lemma_small_mod((m - r) as nat, m as nat);
    }
}

/// A letter moved to place `m` of its own case's alphabet keeps its case,
/// sits at offset `m`, and is again a letter.
pub proof fn lemma_letter_from_case(c: char, m: int)
    requires
        is_letter(c),
        0 <= m < 26,
    ensures
        is_letter(letter_from(letter_base(c), m)),
        is_upper_letter(c) == is_upper_letter(letter_from(letter_base(c), m)),
        is_lower_letter(c) == is_lower_letter(letter_from(letter_base(c), m)),
        letter_offset(letter_from(letter_base(c), m)) == m,
        letter_base(letter_from(letter_base(c), m)) == letter_base(c),
{
    assert(letter_from(letter_base(c), m) as int == letter_base(c) + m);
}

/// The position of the first occurrence of `t` in `s`, or -1 when absent.
pub open spec fn first_index<A>(s: Seq<A>, t: A) -> int
    decreases s.len(),
{
    if s.len() == 0 {
        -1
    } else if s[0] == t {
        0
    } else {
        let r = first_index(s.drop_first(), t);
        if r < 0 {
            -1
        } else {
            1 + r
        }
    }
}

/// What `first_index` returns: the earliest position holding `t`, or -1
/// when no position does.
pub proof fn lemma_first_index<A>(s: Seq<A>, t: A)
    ensures
        -1 <= first_index(s, t) < s.len(),
        first_index(s, t) >= 0 ==> s[first_index(s, t)] == t && forall|j: int|
            0 <= j < first_index(s, t) ==> s[j] != t,
        first_index(s, t) == -1 ==> forall|j: int| 0 <= j < s.len() ==> s[j] != t,
    decreases s.len(),
{
    if s.len() == 0 {
    } else if s[0] == t {
    } else {
        lemma_first_index(s.drop_first(), t);
        let r = first_index(s.drop_first(), t);
        assert forall|j: int| 1 <= j < s.len() implies s[j] == s.drop_first()[j - 1] by {}
        if r >= 0 {
            assert(s[1 + r] == s.drop_first()[r]);
        }
    }
}

/// True when no character occurs twice in `s`.
pub open spec fn distinct_seq(s: Seq<char>) -> bool {
    forall|i: int, j: int| 0 <= i < j < s.len() ==> s[i] != s[j]
}

/// The digit character for a value `d` between 0 and 9.
pub open spec fn digit_char_of(d: int) -> char {
    (48 + d) as char
}

pub fn digit_of(d: u8) -> (c: char)
    requires
        d <= 9,
    ensures
        c == digit_char_of(d as int),
{
    (48 + d) as char
}

/// The characters of `s`, in order, as a vector.
pub fn str_to_chars(s: &str) -> (v: Vec<char>)
    ensures
        v@ == s@,
{
    let n = s.unicode_len();
    let mut v: Vec<char> = Vec::new();
    let mut i: usize = 0;
    while i < n
        invariant
            i <= n,
            n == s@.len(),
            v@ == s@.take(i as int),
        decreases n - i,
    {
        let c = s.get_char(i);
        v.push(c);
        i += 1;
        proof {
            assert(v@ =~= s@.take(i as int));
        }
    }
    proof {
        assert(s@.take(n as int) =~= s@);
    }
    v
}

/// Relies on String::push: appends the single character to the end of the string.
#[verifier::external_body]
fn push_char(s: &mut String, c: char)
    ensures
        final(s)@ == old(s)@.push(c),
{
    s.push(c);
}

/// A string holding exactly the characters of `v`, in order.
pub fn chars_to_string(v: &Vec<char>) -> (s: String)
    ensures
        s@ == v@,
{
    let mut s = String::new();
    let mut i: usize = 0;
    while i < v.len()
        invariant
            i <= v@.len(),
            s@ == v@.take(i as int),
        decreases v@.len() - i,
    {
        push_char(&mut s, v[i]);
        i += 1;
        proof {
            assert(s@ =~= v@.take(i as int));
        }
    }
    proof {
        assert(v@.take(v@.len() as int) =~= v@);
    }
    s
}

} // verus!
