//! Byte classes of the textual syntax, as executable tests.

use vstd::prelude::*;
use crate::expr::{is_binder_word, is_delim, is_digit, is_space, valid_symbol};

verus! {

/// Whether `b` is a blank.
pub fn space(b: u8) -> (r: bool)
    ensures
        r == is_space(b),
{
    b == 32 || b == 9 || b == 10 || b == 13
}

/// Whether `b` ends a token.
pub fn delim(b: u8) -> (r: bool)
    ensures
        r == is_delim(b),
{
    space(b) || b == 40 || b == 41
}

/// Whether `b` is a decimal digit.
pub fn digit(b: u8) -> (r: bool)
    ensures
        r == is_digit(b),
{
    48 <= b && b <= 57
}

/// Whether every byte of `s` from `from` on is a decimal digit.
pub fn digits_from(s: &[u8], from: usize) -> (r: bool)
    requires
        from <= s@.len(),
    ensures
        r == (forall|i: int| from <= i < s@.len() ==> is_digit(#[trigger] s@[i])),
{
    let mut i: usize = from;
    while i < s.len()
        invariant
            from <= i <= s@.len(),
            forall|k: int| from <= k < i ==> is_digit(#[trigger] s@[k]),
        decreases s@.len() - i,
    {
        if !digit(s[i]) {
            return false;
        }
        i += 1;
    }
    true
}

/// Whether `s` is a binder word.
pub fn binder_word(s: &[u8]) -> (r: bool)
    ensures
        r == is_binder_word(s@),
{
    if s.len() < 3 {
        return false;
    }
    if s[0] != 108 || s[1] != 97 || s[2] != 109 {
        return false;
    }
    digits_from(s, 3)
}

/// Whether `s` may name a symbolic leaf.
pub fn symbol(s: &[u8]) -> (r: bool)
    ensures
        r == valid_symbol(s@),
{
    if s.len() == 0 {
        return false;
    }
    let mut i: usize = 0;
    while i < s.len()
        invariant
            i <= s@.len(),
            forall|k: int| 0 <= k < i ==> !is_delim(#[trigger] s@[k]),
        decreases s@.len() - i,
    {
        if delim(s[i]) {
            return false;
        }
        i += 1;
    }
    if s[0] == 36 || s[0] == 35 {
        return false;
    }
    !binder_word(s)
}

} // verus!
