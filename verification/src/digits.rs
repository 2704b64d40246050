//! The digit alphabet `"0".."9"`: symbol and index lookup. The alphabet size
//! doubles as the implicit upper sentinel index of the midpoint generator.

use crate::lex::{digit_val, is_digit};
use vstd::prelude::*;
use vstd::string::StrSliceExecFns;

verus! {

/// Index of the first character of `st` within the digit alphabet, or `None`
/// when that character is not a digit.
pub fn index_of(st: &str) -> (r: Option<usize>)
    requires
        st@.len() > 0,
    ensures
        r == if is_digit(st@[0]) {
            Some(digit_val(st@[0]) as usize)
        } else {
            None::<usize>
        },
{
    let c = st.get_char(0);
    let u = c as u32;
    if ('0' as u32) <= u && u <= ('9' as u32) {
        Some((u - ('0' as u32)) as usize)
    } else {
        None
    }
}

/// The size of the digit alphabet: one past the highest digit index, used as
/// the index of the open upper boundary.
pub fn max_index() -> (r: usize)
    ensures
        r == 10,
{
    10
}

/// The one-character string at alphabet position `idx`, or `None` when `idx`
/// lies outside the alphabet.
pub fn str_at(idx: usize) -> (r: Option<&'static str>)
    ensures
        r is Some <==> idx < 10,
        r is Some ==> r->0@.len() == 1 && is_digit(r->0@[0]) && digit_val(r->0@[0]) == idx as int,
{
    proof {
        reveal_strlit("0");
        reveal_strlit("1");
        reveal_strlit("2");
        reveal_strlit("3");
        reveal_strlit("4");
        reveal_strlit("5");
        reveal_strlit("6");
        reveal_strlit("7");
        reveal_strlit("8");
        reveal_strlit("9");
    }
    match idx {
        0 => Some("0"),
        1 => Some("1"),
        2 => Some("2"),
        3 => Some("3"),
        4 => Some("4"),
        5 => Some("5"),
        6 => Some("6"),
        7 => Some("7"),
        8 => Some("8"),
        9 => Some("9"),
        _ => None,
    }
}

/// Like [`str_at`], but returns an owned `String`.
pub fn string_at(idx: usize) -> (r: Option<String>)
    ensures
        r is Some <==> idx < 10,
        r is Some ==> r->0@.len() == 1 && is_digit(r->0@[0]) && digit_val(r->0@[0]) == idx as int,
{
    match str_at(idx) {
        Some(st) => Some(st.to_owned()),
        None => None,
    }
}

} // verus!
