//! Reading a puzzle from text: every decimal digit is a cell, and whatever
//! else the text holds is passed by.

use vstd::prelude::*;

verus! {

/// The value of a character that is a decimal digit.
pub open spec fn decimal_digit(c: char) -> Option<u8> {
    if '0' <= c <= '9' {
        Some((c as u32 - '0' as u32) as u8)
    } else {
        None
    }
}

/// The values of the decimal digits of `text`, in the order in which they
/// stand there.
pub open spec fn digits_of(text: Seq<char>) -> Seq<u8> {
    text.filter_map(|c: char| decimal_digit(c))
}

/// Returns the cells that a text holds: the values of its decimal digits,
/// in their order.
pub fn digits(text: &str) -> (cells: Vec<u8>)
    ensures
        cells@ == digits_of(text@),
{
    let mut cells: Vec<u8> = Vec::new();
    for c in it: text.chars()
        invariant
            it.seq() == text@,
            cells@ == digits_of(text@.take(it.index())),
    {
        proof {
            text@.lemma_filter_map_take_succ(|c: char| decimal_digit(c), it.index());
        }
        if c >= '0' && c <= '9' {
            cells.push((c as u32 - '0' as u32) as u8);
        }
    }
    assert(text@.take(text@.len() as int) =~= text@);
    cells
}

} // verus!
