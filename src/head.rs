use vstd::prelude::*;
use vstd::string::*;

use crate::selector::{chars_of, digits_value, is_position, parse_number};

verus! {

/// The digits of an unsigned number as Rust reads it: one leading `+` is allowed.
pub open spec fn unsigned_digits(s: Seq<char>) -> Seq<char> {
    if s.len() > 0 && s[0] == '+' {
        s.drop_first()
    } else {
        s
    }
}

/// A count of lines or bytes: a positive `usize`, or the text itself as the error.
pub open spec fn positive_int(s: Seq<char>) -> Result<usize, Seq<char>> {
    if is_position(unsigned_digits(s)) {
        Ok(digits_value(unsigned_digits(s)) as usize)
    } else {
        Err(s)
    }
}

/// Reads a positive count such as `"10"` or `"+3"`; on failure the error is
/// the text that was given.
pub fn parse_positive_int(s: &str) -> (r: Result<usize, String>)
    ensures
        match r {
            Ok(n) => positive_int(s@) == Ok::<usize, Seq<char>>(n),
            Err(e) => positive_int(s@) == Err::<usize, Seq<char>>(e@),
        },
{
    let v = chars_of(s);
    let a: usize = if v.len() > 0 && v[0] == '+' {
        1
    } else {
        0
    };
    assert(unsigned_digits(s@) =~= v@.subrange(a as int, v.len() as int));
    match parse_number(&v, a, v.len()) {
        Some(n) => Ok(n),
        None => Err(String::from_str(s)),
    }
}

} // verus!
