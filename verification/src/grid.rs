//! The textual form of a puzzle: an input string is filtered to the allowed
//! alphabet (digits 1-9, with 0 or '.' for an empty cell), and a puzzle is
//! valid exactly when 81 characters survive the filter.

use vstd::prelude::*;
use crate::cands::digit_ok;

verus! {

/// A digit character 1-9: a given clue.
pub open spec fn is_digit_char(c: char) -> bool {
    ('1' as u32) <= c as u32 <= ('9' as u32)
}

/// The alphabet a puzzle string is filtered to.
pub open spec fn allowed_char(c: char) -> bool {
    is_digit_char(c) || c == '0' || c == '.'
}

/// The characters of `s` that survive the filter, in order.
pub open spec fn filtered_chars(s: Seq<char>) -> Seq<char> {
    s.filter(|c: char| allowed_char(c))
}

/// A puzzle string is valid when exactly 81 characters survive.
pub open spec fn valid_grid(s: Seq<char>) -> bool {
    filtered_chars(s).len() == 81
}

/// The digit a clue character stands for.
pub open spec fn digit_of_char(c: char) -> u8 {
    (c as u32 - 48) as u8
}

/// The character standing for a digit.
pub open spec fn char_of_digit(d: u8) -> char {
    ((d + 48) as u8) as char
}

/// The digits a fully solved output string spells, cell by cell.
pub open spec fn digits_of_chars(s: Seq<char>) -> Seq<u8> {
    Seq::new(s.len(), |i: int| digit_of_char(s[i]))
}

/// Grid `a` agrees with every clue given in the 81 filtered characters `g`.
pub open spec fn clue_consistent(g: Seq<char>, a: Seq<u8>) -> bool {
    forall|i: int| 0 <= i < 81 && is_digit_char(#[trigger] g[i]) ==> a[i] == digit_of_char(g[i])
}

pub proof fn lemma_digit_char(c: char)
    requires
        is_digit_char(c),
    ensures
        digit_ok(digit_of_char(c)),
        char_of_digit(digit_of_char(c)) == c,
{
}

pub proof fn lemma_filter_push(s: Seq<char>, c: char)
    ensures
        filtered_chars(s.push(c)) == if allowed_char(c) {
            filtered_chars(s).push(c)
        } else {
            filtered_chars(s)
        },
{
    reveal(Seq::filter);
    assert(s.push(c).drop_last() =~= s);
    assert(s.push(c).last() == c);
    if allowed_char(c) {
        assert(filtered_chars(s.push(c)) =~= filtered_chars(s).push(c));
    }
}

/// Collects the characters of a string.
pub fn chars_of(s: &str) -> (r: Vec<char>)
    ensures
        r@ == s@,
{
    broadcast use vstd::string::group_string_axioms;

    let mut r: Vec<char> = Vec::new();
    for c in it: s.chars()
        invariant
            r@ == it.history(),
            it.seq() == s@,
    {
        r.push(c);
    }
    proof {
        assert(r@ =~= s@);
    }
    r
}

/// Filters a string to the allowed puzzle alphabet.
pub fn filter_chars(s: &str) -> (r: Vec<char>)
    ensures
        r@ == filtered_chars(s@),
{
    let cs = chars_of(s);
    let mut r: Vec<char> = Vec::new();
    let mut t: usize = 0;
    proof {
        assert(cs@.subrange(0, 0) =~= Seq::<char>::empty());
        reveal(Seq::filter);
    }
    while t < cs.len()
        invariant
            t <= cs@.len(),
            r@ == filtered_chars(cs@.subrange(0, t as int)),
            cs@ == s@,
        decreases cs@.len() - t,
    {
        let c = cs[t];
        let u = c as u32;
        let keep = (49 <= u && u <= 57) || c == '0' || c == '.';
        proof {
            assert(keep == allowed_char(c));
            lemma_filter_push(cs@.subrange(0, t as int), c);
            assert(cs@.subrange(0, t as int).push(c) =~= cs@.subrange(0, t + 1));
        }
        if keep {
            r.push(c);
        }
        t = t + 1;
    }
    proof {
        assert(cs@.subrange(0, cs@.len() as int) =~= cs@);
    }
    r
}

} // verus!
