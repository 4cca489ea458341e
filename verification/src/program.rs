//! Diagnostics of a compiler that saw the merged text only, rewritten so
//! that they name the file and the line that the author wrote.

use vstd::prelude::*;
use vstd::string::StringExecFns;

use crate::pattern::{capture, captured};
use crate::preprocessor::{spans_of, Document, FileIncludes};
use crate::provenance::{covering, files_in, origin, Span};
use crate::text::{
    decimal, digits_of, join, lines_of, number_of, opt_view, parse_decimal, split_text,
};

verus! {

/// The pattern that finds the position in a line of a diagnostic: a source
/// number, then the line number in brackets, a space and a colon.
pub const ERROR_POSITION_PATTERN: &'static str = r#"(\d)+\((\d+)\) :"#;

/// The number of the capture group that holds the line number.
pub const LINE_NUMBER_GROUP: usize = 2;

/// The digits of the line number that a line of a diagnostic names.
pub open spec fn error_row(line: Seq<char>) -> Option<Seq<char>> {
    captured(ERROR_POSITION_PATTERN@, line, LINE_NUMBER_GROUP as int)
}

/// The trail that leads to a line: the files whose spans cover it, from the
/// outermost to the one that owns it.
pub open spec fn trail(spans: Seq<Span>, row: int) -> Seq<char> {
    "File "@ + join(files_in(covering(spans, row)), " included from\n"@)
}

/// What is put in front of a line of a diagnostic that names line `row` of
/// the merged text, which is line `local` of its file.
pub open spec fn prefix(spans: Seq<Span>, row: int, local: int) -> Seq<char> {
    trail(spans, row) + " | Line "@ + digits_of(local as nat) + " | "@
}

/// A line of a diagnostic with its origin in front, given the digits of the
/// line number that it names. The line stays as it is when it names no
/// line, when the digits are no number that fits the machine, and when the
/// merged text has no such line.
pub open spec fn annotated(line: Seq<char>, row: Option<Seq<char>>, doc: Document) -> Seq<char> {
    match row {
        None => line,
        Some(digits) => match number_of(digits) {
            None => line,
            Some(n) => if n > usize::MAX {
                line
            } else {
                match origin(doc.spans, n as int) {
                    None => line,
                    Some((file, local)) => prefix(doc.spans, n as int, local) + line,
                }
            },
        },
    }
}

/// The first `n` lines of a diagnostic, each annotated and closed by a
/// newline.
pub open spec fn remapped_lines(lines: Seq<Seq<char>>, doc: Document, n: int) -> Seq<char>
    decreases n,
{
    if n <= 0 {
        Seq::<char>::empty()
    } else {
        remapped_lines(lines, doc, n - 1) + annotated(lines[n - 1], error_row(lines[n - 1]), doc)
            + seq!['\n']
    }
}

/// A diagnostic with every line that names a line of the merged text
/// annotated with where that line came from.
pub open spec fn remapped(error: Seq<char>, doc: Document) -> Seq<char> {
    remapped_lines(lines_of(error), doc, lines_of(error).len() as int)
}

/// The trail that leads to line `row` of `file`.
fn trail_of(file: &FileIncludes, row: usize) -> (out: String)
    ensures
        out@ == trail(file@.spans, row as int),
{
    let history = file.all_segments_at(row);
    let ghost files = files_in(spans_of(history@));
    let mut out = "File ".to_owned();
    let mut i: usize = 0;
    proof {
        assert(files.take(0) =~= Seq::<Seq<char>>::empty());
        assert("File "@ + join(files.take(0), " included from\n"@) =~= "File "@);
    }
    while i < history.len()
        invariant
            i <= history.len(),
            files == files_in(spans_of(history@)),
            out@ == "File "@ + join(files.take(i as int), " included from\n"@),
        decreases history.len() - i,
    {
        let ghost sofar = files.take(i as int);
        let ghost next = files.take(i + 1);
        proof {
            assert(next.drop_last() =~= sofar);
            assert(next.last() == history[i as int].original_file@);
        }
        if i > 0 {
            out.append(" included from\n");
        }
        out.append(history[i].original_file.as_str());
        proof {
            if i == 0 {
                assert(out@ =~= "File "@ + join(next, " included from\n"@));
            } else {
                assert(out@ =~= "File "@ + join(next, " included from\n"@));
            }
        }
        i = i + 1;
    }
    proof {
        assert(files.take(history.len() as int) =~= files);
    }
    out
}

/// Puts the origin in front of a line of a diagnostic, given the digits of
/// the line number that the line names: see [`annotated`].
pub fn annotate_line(line: &str, row: Option<String>, file: &FileIncludes) -> (out: String)
    requires
        file.wf(),
    ensures
        out@ == annotated(line@, opt_view(row), file@),
{
    let digits = match row {
        Some(digits) => digits,
        None => {
            return line.to_owned();
        },
    };
    let row_no = match parse_decimal(digits.as_str()) {
        Some(n) => n,
        None => {
            return line.to_owned();
        },
    };
    let local = match file.file_and_line_at(row_no) {
        Some((_, local)) => local,
        None => {
            return line.to_owned();
        },
    };
    let mut out = trail_of(file, row_no);
    out.append(" | Line ");
    out.append(decimal(local).as_str());
    out.append(" | ");
    out.append(line);
    out
}

/// Rewrites a diagnostic that speaks of lines of the merged text `file`:
/// every line of it that names such a line gets the files that lead to that
/// line and the number the line has in its own file put in front. All
/// other lines stay as they are, and every line ends with a newline.
pub fn parse_opengl_errors(error: String, file: &FileIncludes) -> (out: String)
    requires
        file.wf(),
    ensures
        out@ == remapped(error@, file@),
{
    let lines = split_text(error.as_str(), '\n', '\n');
    let mut out = String::new();
    let mut i: usize = 0;
    proof {
        assert(set!['\n', '\n'] =~= crate::text::newline());
        reveal_strlit("\n");
        assert("\n"@ =~= seq!['\n']);
    }
    while i < lines.len()
        invariant
            i <= lines.len(),
            file.wf(),
            "\n"@ == seq!['\n'],
            lines.deep_view() == lines_of(error@),
            out@ == remapped_lines(lines_of(error@), file@, i as int),
        decreases lines.len() - i,
    {
        let line = lines[i].as_str();
        assert(line@ == lines_of(error@)[i as int]);
        let row = capture(ERROR_POSITION_PATTERN, line, LINE_NUMBER_GROUP);
        let edited = annotate_line(line, row, file);
        out.append(edited.as_str());
        out.append("\n");
        i = i + 1;
    }
    out
}

} // verus!
