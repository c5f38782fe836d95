//! What is read from a line before it is shown: the text behind its
//! marker, and the language that a file header names.

use vstd::prelude::*;
use crate::line::{
    begins_with_triple, new_file_prefix, old_file_prefix, starts_with, MINUS, PLUS, SPACE,
};

verus! {

pub const TAB: u8 = 0x09;

pub const DOT: u8 = 0x2e;

pub const SLASH: u8 = 0x2f;

/// `text` with each tab replaced by `tab_width` spaces. A width of 0
/// leaves the tabs in place.
pub open spec fn expanded(text: Seq<u8>, tab_width: nat) -> Seq<u8>
    decreases text.len(),
{
    if text.len() == 0 {
        Seq::empty()
    } else if text.last() == TAB && tab_width > 0 {
        expanded(text.drop_last(), tab_width) + Seq::new(tab_width, |i: int| SPACE)
    } else {
        expanded(text.drop_last(), tab_width).push(text.last())
    }
}

/// The text of a line of a hunk: what follows its first byte, the marker,
/// with tabs expanded.
pub open spec fn content_of(line: Seq<u8>, tab_width: nat) -> Seq<u8> {
    if line.len() == 0 {
        Seq::empty()
    } else {
        expanded(line.subrange(1, line.len() as int), tab_width)
    }
}

/// The text of a line of a hunk.
pub fn content(line: &[u8], tab_width: usize) -> (text: Vec<u8>)
    ensures
        text@ == content_of(line@, tab_width as nat),
{
    let mut text: Vec<u8> = Vec::new();
    if line.len() == 0 {
        return text;
    }
    let ghost rest = line@.subrange(1, line.len() as int);
    let mut at: usize = 1;
    assert(rest.take(0) =~= Seq::empty());
    while at < line.len()
        invariant
            1 <= at <= line.len(),
            rest == line@.subrange(1, line.len() as int),
            text@ == expanded(rest.take(at - 1), tab_width as nat),
        decreases line.len() - at,
    {
        let byte = line[at];
        proof {
            assert(rest.take(at as int).drop_last() =~= rest.take(at - 1));
            assert(rest.take(at as int).last() == byte);
        }
        if byte == TAB && tab_width > 0 {
            let ghost before = text@;
            let mut n: usize = 0;
            while n < tab_width
                invariant
                    n <= tab_width,
                    text@ == before + Seq::new(n as nat, |i: int| SPACE),
                decreases tab_width - n,
            {
                text.push(SPACE);
                n += 1;
                assert(text@ =~= before + Seq::new(n as nat, |i: int| SPACE));
            }
        } else {
            text.push(byte);
        }
        at += 1;
    }
    assert(rest.take(at - 1) =~= rest);
    text
}

/// Where the file name of a file header ends: at the first tab at or
/// after `from`, or at the end of the line.
pub open spec fn path_end(line: Seq<u8>, from: int) -> int
    decreases line.len() - from,
{
    if from < 0 || from >= line.len() {
        line.len() as int
    } else if line[from] == TAB {
        from
    } else {
        path_end(line, from + 1)
    }
}

/// Where the extension of the file name in `line[lo..end]` begins: behind
/// the last dot at or after `lo` and before `at` that no slash follows;
/// `end` where there is no such dot.
pub open spec fn extension_start(line: Seq<u8>, lo: int, at: int, end: int) -> int
    decreases at - lo,
{
    if at <= lo || at > line.len() {
        end
    } else if line[at - 1] == DOT {
        at
    } else if line[at - 1] == SLASH {
        end
    } else {
        extension_start(line, lo, at - 1, end)
    }
}

/// The extension of the file that a file header names: what follows the
/// last dot of the last part of its path. Empty where that part has no
/// dot.
pub open spec fn extension_of(line: Seq<u8>) -> Seq<u8> {
    let end = path_end(line, 4);
    line.subrange(extension_start(line, 4, end, end), end)
}

/// The language of the lines that follow, once a line that is a file
/// header has been read. The header of the old file sets it to the
/// extension of that file; the header of the new file sets it to the
/// extension of the new file where that has one. No other header changes
/// it.
pub open spec fn language_after(language: Seq<u8>, line: Seq<u8>) -> Seq<u8> {
    if starts_with(line, old_file_prefix()) {
        extension_of(line)
    } else if starts_with(line, new_file_prefix()) && extension_of(line).len() > 0 {
        extension_of(line)
    } else {
        language
    }
}

/// The extension of the file that a file header names.
pub fn file_extension(line: &[u8]) -> (extension: Vec<u8>)
    ensures
        extension@ == extension_of(line@),
{
    let mut extension: Vec<u8> = Vec::new();
    if line.len() <= 4 {
        assert(extension@ =~= extension_of(line@));
        return extension;
    }
    let mut end: usize = 4;
    while end < line.len() && line[end] != TAB
        invariant
            4 <= end <= line.len(),
            path_end(line@, 4) == path_end(line@, end as int),
        decreases line.len() - end,
    {
        end += 1;
    }
    assert(path_end(line@, 4) == end);
    let mut at: usize = end;
    let mut start: usize = end;
    while at > 4
        invariant_except_break
            4 <= at <= end,
            start == end,
            extension_start(line@, 4, end as int, end as int) == extension_start(
                line@,
                4,
                at as int,
                end as int,
            ),
        invariant
            end <= line.len(),
        ensures
            4 <= start <= end,
            start == extension_start(line@, 4, end as int, end as int),
        decreases at,
    {
        if line[at - 1] == DOT {
            start = at;
            break ;
        }
        if line[at - 1] == SLASH {
            break ;
        }
        at -= 1;
    }
    let mut k: usize = start;
    while k < end
        invariant
            start <= k <= end,
            end <= line.len(),
            extension@ == line@.subrange(start as int, k as int),
        decreases end - k,
    {
        extension.push(line[k]);
        k += 1;
        assert(extension@ =~= line@.subrange(start as int, k as int));
    }
    extension
}

/// The language that a file header names, if it names one.
pub fn header_language(line: &[u8]) -> (named: Option<Vec<u8>>)
    ensures
        forall|language: Seq<u8>| #[trigger]
            language_after(language, line@) == match named {
                Some(extension) => extension@,
                None => language,
            },
{
    proof {
        assert(seq![MINUS, MINUS, MINUS, SPACE] =~= old_file_prefix());
        assert(seq![PLUS, PLUS, PLUS, SPACE] =~= new_file_prefix());
    }
    if begins_with_triple(line, MINUS) {
        Some(file_extension(line))
    } else if begins_with_triple(line, PLUS) {
        let extension = file_extension(line);
        if extension.len() > 0 {
            Some(extension)
        } else {
            None
        }
    } else {
        None
    }
}

} // verus!
