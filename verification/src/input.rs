//! The move-input parser: turns one line of text into a board coordinate.
//! The column is a single lowercase letter a-s naming columns 0-18; the row
//! is one or two decimal digits naming rows 0-18.  Anything else is
//! malformed and yields nothing, so a caller can re-prompt.

use vstd::prelude::*;
use vstd::string::StrSliceExecFns;
use crate::game::in_bounds;

verus! {

/// Column named by a letter a-s, if any.
pub open spec fn col_of(c: char) -> Option<int> {
    if 'a' as int <= c as int && c as int <= 's' as int {
        Some(c as int - 'a' as int)
    } else {
        None
    }
}

/// Value of a decimal digit character, if any.
pub open spec fn digit_of(c: char) -> Option<int> {
    if '0' as int <= c as int && c as int <= '9' as int {
        Some(c as int - '0' as int)
    } else {
        None
    }
}

/// The coordinate a line of move input names: a column letter followed by a
/// one- or two-digit row, nothing more, with the row on the board.
pub open spec fn parse_move_spec(s: Seq<char>) -> Option<(int, int)> {
    if s.len() < 2 || s.len() > 3 {
        None
    } else if col_of(s[0]) is None {
        None
    } else if s.len() == 2 {
        match digit_of(s[1]) {
            Some(d) => Some((col_of(s[0]).unwrap(), d)),
            None => None,
        }
    } else {
        match (digit_of(s[1]), digit_of(s[2])) {
            (Some(d1), Some(d2)) => {
                let row = 10 * d1 + d2;
                if row <= 18 {
                    Some((col_of(s[0]).unwrap(), row))
                } else {
                    None
                }
            },
            _ => None,
        }
    }
}

/// Parses one line of move input; a parsed coordinate is always on the
/// board.
pub fn parse_move(line: &str) -> (r: Option<(isize, isize)>)
    ensures
        r is None <==> parse_move_spec(line@) is None,
        r matches Some(c) ==> parse_move_spec(line@) == Some((c.0 as int, c.1 as int))
            && in_bounds(c.0 as int, c.1 as int),
{
    let n = line.unicode_len();
    if n < 2 || n > 3 {
        return None;
    }
    let c0 = line.get_char(0);
    if !(c0 as u32 >= 'a' as u32 && c0 as u32 <= 's' as u32) {
        return None;
    }
    let col = (c0 as u32 - 'a' as u32) as isize;
    let d1 = line.get_char(1);
    if !(d1 as u32 >= '0' as u32 && d1 as u32 <= '9' as u32) {
        return None;
    }
    let r1 = (d1 as u32 - '0' as u32) as isize;
    if n == 2 {
        return Some((col, r1));
    }
    let d2 = line.get_char(2);
    if !(d2 as u32 >= '0' as u32 && d2 as u32 <= '9' as u32) {
        return None;
    }
    let r2 = (d2 as u32 - '0' as u32) as isize;
    let row = 10 * r1 + r2;
    if row > 18 {
        return None;
    }
    Some((col, row))
}

} // verus!
