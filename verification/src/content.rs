//! What File View reads: the worktree text of a file, numbered by line.

use vstd::prelude::*;
use vstd::utf8::{decode_utf8, valid_utf8};

use crate::hunks::{names_its_line, utf8_str};
use crate::text::{chars_of, lines_of, lines_with_terminators, string_of, strip_eol, strip_line_ending};
use crate::order::views;
use crate::types::{DiffLineView, FileContent};

verus! {

/// The lines File View numbers from 1: the lines of the text without their endings.
pub open spec fn file_lines(text: Seq<char>) -> Seq<Seq<char>> {
    lines_of(text).map_values(|l: Seq<char>| strip_eol(l))
}

/// Splits file text into the lines File View numbers from 1. The newline that ends a
/// well-formed file does not start a further line, and a CRLF checkout does not render a
/// stray carriage return on every line.
///
/// These are exactly the lines the diff numbers (`lines_of`) with their endings taken
/// off, so a File View line number and a diff line number name the same line.
pub fn split_lines(text: &str) -> (r: Vec<String>)
    ensures
        views(r@) == file_lines(text@),
{
    let lines = lines_with_terminators(&chars_of(text));
    let mut out: Vec<String> = Vec::new();
    let mut i: usize = 0;
    while i < lines.len()
        invariant
            i <= lines@.len(),
            lines@.map_values(|l: Vec<char>| l@) == lines_of(text@),
            views(out@) == file_lines(text@).take(i as int),
        decreases lines.len() - i,
    {
        let t = strip_line_ending(&lines[i]);
        let s = string_of(t.as_slice());
        let ghost before = views(out@);
        out.push(s);
        proof {
            assert(lines@.map_values(|l: Vec<char>| l@)[i as int] == lines@[i as int]@);
            assert(views(out@) =~= before.push(s@));
            assert(file_lines(text@).take(i + 1) =~= file_lines(text@).take(i as int).push(s@));
        }
        i = i + 1;
    }
    proof {
        assert(file_lines(text@).take(i as int) =~= file_lines(text@));
    }
    out
}

/// A file's bytes as File View shows them. A file that is not valid UTF-8 is reported as
/// binary, with no lines, rather than decoded lossily: its line numbers would be made up,
/// and a Comment anchors to a line number.
pub fn file_content(bytes: &[u8]) -> (r: FileContent)
    ensures
        r.binary <==> !valid_utf8(bytes@),
        r.binary ==> r.lines@.len() == 0,
        !r.binary ==> views(r.lines@) == file_lines(decode_utf8(bytes@)),
{
    match utf8_str(bytes) {
        Some(text) => FileContent { lines: split_lines(text), binary: false },
        None => FileContent { lines: Vec::new(), binary: true },
    }
}

/// A line a diff numbers on the new side is the line File View shows under that number:
/// the `path:L12` a Comment hands on means the same line in both panes. `file_diff`
/// promises `names_its_line` of each line it shows, over the lines of the new side's text.
pub proof fn law_diff_and_file_view_number_lines_alike(
    old_lines: Seq<Seq<char>>,
    text: Seq<char>,
    line: DiffLineView,
)
    requires
        names_its_line(old_lines, lines_of(text), line),
        line.new_no is Some,
    ensures
        1 <= line.new_no->0 <= file_lines(text).len(),
        line.content == file_lines(text)[line.new_no->0 - 1],
{
}

} // verus!
