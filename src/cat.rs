use vstd::prelude::*;
use vstd::string::*;

use crate::text::{decimal, pad_left, padded, to_decimal};

verus! {

/// How lines are numbered.
#[derive(Debug)]
pub struct Config {
    pub files: Vec<String>,
    pub number: bool,
    pub number_nonblank: bool,
}

/// Whether a line gets a number.
pub open spec fn numbered(number: bool, number_nonblank: bool, line: Seq<char>) -> bool {
    number || (number_nonblank && line.len() > 0)
}

/// A numbered line: its number right-aligned in six columns, a tab, the line.
pub open spec fn numbered_text(n: usize, line: Seq<char>) -> Seq<char> {
    padded(decimal(n as nat), 6) + seq!['\t'] + line
}

/// The text written for one line (without its terminator); `next` is the
/// number the next numbered line gets, and moves on when it is used.
pub fn number_line(config: &Config, line: &str, next: &mut usize) -> (r: String)
    requires
        *old(next) < usize::MAX,
    ensures
        numbered(config.number, config.number_nonblank, line@) ==> r@ == numbered_text(
            *old(next),
            line@,
        ) && *final(next) == *old(next) + 1,
        !numbered(config.number, config.number_nonblank, line@) ==> r@ == line@ && *final(next)
            == *old(next),
{
    if config.number || (config.number_nonblank && line.unicode_len() > 0) {
        proof {
            reveal_strlit("\t");
        }
        let d = to_decimal(*next);
        let mut out = pad_left(d.as_str(), 6);
        out.append("\t");
        out.append(line);
        *next = *next + 1;
        out
    } else {
        String::from_str(line)
    }
}

} // verus!
