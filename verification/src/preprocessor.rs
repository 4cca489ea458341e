//! The provenance-tracking text buffer and the include resolver.

use std::rc::Rc;
use vstd::prelude::*;
use vstd::std_specs::cmp::PartialEqSpecImpl;
use vstd::string::{StrSliceExecFns, StringExecFns};

use crate::pattern::{capture, captured};
use crate::provenance::{
    added_before, after_replace, after_splice, all_lowered, all_widened, apart, covering, covers,
    files_of, first_index, inside, last_covering, last_enclosing, lemma_added_bounded,
    lemma_last_covering,
    lemma_replace_keeps_form, lemma_splice_keeps_form, lowered, origin, owner, parent,
    parent_of_span, well_formed, widened, Span,
};
use crate::resolution::{
    all_admitted, blanked, checked, first_stage, included, is_load, is_resolution, jobs_in,
    jobs_of, lemma_all_admitted, lemma_is_resolution, lemma_jobs_lines, lemma_reaches_first,
    lemma_reaches_included, lemma_reaches_skipped, lemma_resolves_done,
    lemma_resolves_load_error, lemma_resolves_nested_error, loaded, loads, reaches, resolves,
    scheme_of, skipped, target_of, unsupported_message, with_file, Answer, Job, Loaded,
    DEFAULT_SCHEME, FILE_NAME_GROUP, INCLUDE_PATTERN,
};
use crate::Path;
use crate::text::{join_text, lines_of, opt_str_view, opt_view, split_text, text_of};

verus! {

/// The pattern that finds a scheme in front of a path: word characters, then
/// `://`, at the very start.
pub const SCHEME_PATTERN: &'static str = r#"^(\w+):\/\/"#;

/// The scheme and the remainder that two pieces of match text cut out of
/// `path`: `whole` is what matched in all, `scheme` the scheme within it.
/// Without a match the path has no scheme and is its own remainder.
pub open spec fn cut_scheme(
    path: Seq<char>,
    whole: Option<Seq<char>>,
    scheme: Option<Seq<char>>,
) -> (Option<Seq<char>>, Seq<char>) {
    match (whole, scheme) {
        (Some(w), Some(s)) => if s.len() <= path.len() && w.len() <= path.len() {
            (Some(path.take(s.len() as int)), path.skip(w.len() as int))
        } else {
            (None, path)
        },
        _ => (None, path),
    }
}

/// The scheme of `path`, if it has one, and what follows the scheme.
pub open spec fn scheme_split(path: Seq<char>) -> (Option<Seq<char>>, Seq<char>) {
    cut_scheme(path, captured(SCHEME_PATTERN@, path, 0), captured(SCHEME_PATTERN@, path, 1))
}

/// Cuts `path` as [`cut_scheme`] says, given the text of the whole match and
/// of the scheme within it.
pub fn split_at_scheme<'a>(path: &'a str, whole: Option<String>, scheme: Option<String>) -> (r: (
    Option<&'a str>,
    &'a str,
))
    ensures
        (opt_str_view(r.0), r.1@) == cut_scheme(path@, opt_view(whole), opt_view(scheme)),
{
    match (whole, scheme) {
        (Some(w), Some(s)) => {
            let total = path.unicode_len();
            let scheme_len = s.as_str().unicode_len();
            let whole_len = w.as_str().unicode_len();
            if scheme_len <= total && whole_len <= total {
                (Some(path.substring_char(0, scheme_len)), path.substring_char(whole_len, total))
            } else {
                (None, path)
            }
        },
        _ => (None, path),
    }
}

/// Splits `path` into its scheme, if it starts with one, and the rest.
pub fn get_protocol_and_path(path: &str) -> (r: (Option<&str>, &str))
    ensures
        (opt_str_view(r.0), r.1@) == scheme_split(path@),
{
    let whole = capture(SCHEME_PATTERN, path, 0);
    let scheme = capture(SCHEME_PATTERN, path, 1);
    split_at_scheme(path, whole, scheme)
}

/// `Rc::clone` of the standard library: a second handle to the same value.
#[verifier::external_body]
fn share(file: &Rc<String>) -> (r: Rc<String>)
    ensures
        r == *file,
{
    Rc::clone(file)
}

/// A range of lines of the merged text, `[start_line, end_line)`, and the
/// file that those lines came from.
#[derive(Debug)]
pub struct Segment {
    pub start_line: usize,
    pub end_line: usize,
    pub original_file: Rc<String>,
}

impl View for Segment {
    type V = Span;

    open spec fn view(&self) -> Span {
        Span { start: self.start_line as int, end: self.end_line as int, file: self.original_file@ }
    }
}

impl Clone for Segment {
    fn clone(&self) -> (r: Self)
        ensures
            r == *self,
    {
        Segment {
            start_line: self.start_line,
            end_line: self.end_line,
            original_file: share(&self.original_file),
        }
    }
}

impl PartialEq for Segment {
    fn eq(&self, other: &Self) -> (r: bool) {
        let same_file = *self.original_file == *other.original_file;
        self.start_line == other.start_line && self.end_line == other.end_line && same_file
    }
}

impl PartialEqSpecImpl for Segment {
    open spec fn obeys_eq_spec() -> bool {
        true
    }

    open spec fn eq_spec(&self, other: &Self) -> bool {
        self.start_line == other.start_line && self.end_line == other.end_line
            && self.original_file@ == other.original_file@
    }
}

impl Segment {
    /// Whether the range of this segment lies within the range of `of`.
    pub fn is_inside(&self, of: &Self) -> (r: bool)
        ensures
            r == inside(self@, of@),
    {
        self.start_line >= of.start_line && self.end_line <= of.end_line
    }

    /// Whether `line` lies in the range of this segment.
    pub fn contains_line(&self, line: usize) -> (r: bool)
        ensures
            r == covers(self@, line as int),
    {
        line >= self.start_line && line < self.end_line
    }
}

/// The spans that a sequence of segments stands for.
pub open spec fn spans_of(segments: Seq<Segment>) -> Seq<Span> {
    segments.map_values(|s: Segment| s@)
}

/// The span of an optional segment.
pub open spec fn opt_span(found: Option<Segment>) -> Option<Span> {
    match found {
        Some(s) => Some(s@),
        None => None,
    }
}

/// What a [`FileIncludes`] stands for: the lines of the merged text and the
/// spans that say where they came from.
pub ghost struct Document {
    pub lines: Seq<Seq<char>>,
    pub spans: Seq<Span>,
}

/// The document made of one file that includes nothing.
pub open spec fn fresh(text: Seq<char>, file: Seq<char>) -> Document {
    Document {
        lines: lines_of(text),
        spans: seq![Span { start: 0, end: lines_of(text).len() as int, file }],
    }
}

/// `doc` after its line `line` was replaced by the lines of `with`, which
/// come from `file`.
pub open spec fn replaced(doc: Document, line: int, with: Seq<char>, file: Seq<char>) -> Document {
    Document {
        lines: doc.lines.take(line) + lines_of(with) + doc.lines.skip(line + 1),
        spans: after_replace(doc.spans, line, lines_of(with).len() as int, file),
    }
}

/// `doc` after its line `line` was replaced by the whole of `nested`.
pub open spec fn spliced(doc: Document, line: int, nested: Document) -> Document {
    Document {
        lines: doc.lines.take(line) + nested.lines + doc.lines.skip(line + 1),
        spans: after_splice(doc.spans, line, nested.lines.len() as int, nested.spans),
    }
}

/// The characters of each string slice.
pub open spec fn str_views(names: Seq<&str>) -> Seq<Seq<char>> {
    names.map_values(|s: &str| s@)
}

/// Whether `name` is among `names`.
fn holds(names: &Vec<&str>, name: &str) -> (r: bool)
    ensures
        r == str_views(names@).contains(name@),
{
    let mut i: usize = 0;
    while i < names.len()
        invariant
            i <= names.len(),
            forall|k: int| 0 <= k < i ==> str_views(names@)[k] != name@,
        decreases names.len() - i,
    {
        if (*names[i]).eq(name) {
            assert(str_views(names@)[i as int] == name@);
            return true;
        }
        i = i + 1;
    }
    false
}

/// Puts `new_lines` in the place of line `line`.
fn replace_lines(lines: &mut Vec<String>, line: usize, new_lines: Vec<String>)
    requires
        line < old(lines).len(),
    ensures
        final(lines).deep_view() == old(lines).deep_view().take(line as int) + new_lines.deep_view()
            + old(lines).deep_view().skip(line + 1),
{
    let ghost before = lines.deep_view();
    let ghost all = new_lines.deep_view();
    let mut rest = new_lines;
    let _ = lines.remove(line);
    proof {
        assert(lines.deep_view() =~= before.take(line as int) + all.skip(all.len() as int)
            + before.skip(line + 1));
    }
    while rest.len() > 0
        invariant
            line < before.len(),
            rest.deep_view() == all.take(rest.len() as int),
            rest.len() <= all.len(),
            lines.len() == before.len() - 1 + all.len() - rest.len(),
            lines.deep_view() == before.take(line as int) + all.skip(rest.len() as int)
                + before.skip(line + 1),
        decreases rest.len(),
    {
        let ghost held = lines.deep_view();
        let ghost left = rest.deep_view();
        let last = rest.pop().unwrap();
        proof {
            assert(last@ == left[left.len() - 1]);
            assert(rest.deep_view() =~= all.take(rest.len() as int));
        }
        lines.insert(line, last);
        proof {
            assert(lines.deep_view() =~= held.insert(line as int, last@));
            assert(lines.deep_view() =~= before.take(line as int) + all.skip(rest.len() as int)
                + before.skip(line + 1));
        }
    }
    proof {
        assert(all.skip(0) =~= all);
    }
}

/// The segments as they are after line `line` was replaced by `count` lines.
fn widen_all(segments: &Vec<Segment>, line: usize, count: usize, total: usize) -> (r: Vec<Segment>)
    requires
        count >= 1,
        total + count - 1 <= usize::MAX,
        forall|i: int|
            0 <= i < segments.len() ==> (#[trigger] segments[i]).start_line <= segments[i].end_line
                <= total,
    ensures
        spans_of(r@) == all_widened(spans_of(segments@), line as int, count as int),
{
    let mut out: Vec<Segment> = Vec::new();
    let mut i: usize = 0;
    while i < segments.len()
        invariant
            i <= segments.len(),
            count >= 1,
            total + count - 1 <= usize::MAX,
            forall|k: int|
                0 <= k < segments.len() ==> (#[trigger] segments[k]).start_line
                    <= segments[k].end_line <= total,
            out.len() == i,
            forall|k: int|
                0 <= k < i ==> (#[trigger] out[k])@ == widened(
                    segments[k]@,
                    line as int,
                    count as int,
                ),
        decreases segments.len() - i,
    {
        let segment = &segments[i];
        let mut start_line = segment.start_line;
        let mut end_line = segment.end_line;
        if start_line > line {
            start_line = start_line + (count - 1);
        }
        if end_line > line {
            end_line = end_line + (count - 1);
        }
        out.push(Segment { start_line, end_line, original_file: share(&segment.original_file) });
        i = i + 1;
    }
    proof {
        assert(spans_of(out@) =~= all_widened(spans_of(segments@), line as int, count as int));
    }
    out
}

/// A file taken alone is its own merged text, and every line of it has in
/// the merged text the number it has in the file.
pub proof fn lemma_fresh_is_plain(text: Seq<char>, file: Seq<char>, line: int)
    requires
        0 <= line < lines_of(text).len(),
    ensures
        text_of(fresh(text, file).lines) == text,
        origin(fresh(text, file).spans, line) == Some((file, line)),
        well_formed(fresh(text, file).spans, fresh(text, file).lines.len() as int),
{
    crate::text::lemma_text_of_lines(text);
    let spans = fresh(text, file).spans;
    assert(covers(spans[0], line));
    assert(last_covering(spans, line, 0) is None);
    assert(owner(spans, line) == Some(0int));
    assert(last_enclosing(spans, spans[0], 0) is None);
    assert(added_before(spans, 0, line, 0) == 0);
    assert(added_before(spans, 0, line, 1) == 0);
}

/// A splice keeps every line and its origin: the lines above the splice
/// stay where they are, the lines of the nested document follow from line
/// `line` on, and the lines below move down behind them.
pub proof fn lemma_splice_keeps_lines(doc: Document, line: int, nested: Document, p: int)
    requires
        well_formed(doc.spans, doc.lines.len() as int),
        well_formed(nested.spans, nested.lines.len() as int),
        0 <= line < doc.lines.len(),
        0 <= p < spliced(doc, line, nested).lines.len(),
    ensures
        spliced(doc, line, nested).lines.len() == doc.lines.len() + nested.lines.len() - 1,
        p < line ==> spliced(doc, line, nested).lines[p] == doc.lines[p] && origin(
            spliced(doc, line, nested).spans,
            p,
        ) == origin(doc.spans, p),
        line <= p < line + nested.lines.len() ==> spliced(doc, line, nested).lines[p]
            == nested.lines[p - line] && origin(spliced(doc, line, nested).spans, p) == origin(
            nested.spans,
            p - line,
        ),
        line + nested.lines.len() <= p ==> spliced(doc, line, nested).lines[p] == doc.lines[p
            - nested.lines.len() + 1] && origin(spliced(doc, line, nested).spans, p) == origin(
            doc.spans,
            p - nested.lines.len() + 1,
        ),
{
    let total = doc.lines.len() as int;
    let count = nested.lines.len() as int;
    if p < line {
        crate::splicing::lemma_origin_above(doc.spans, total, line, count, nested.spans, p);
    } else if p < line + count {
        crate::splicing::lemma_origin_within(doc.spans, total, line, count, nested.spans, p - line);
    } else {
        crate::splicing::lemma_origin_below(
            doc.spans,
            total,
            line,
            count,
            nested.spans,
            p - count + 1,
        );
    }
}

/// The span at an optional index.
pub open spec fn span_at(spans: Seq<Span>, found: Option<int>) -> Option<Span> {
    match found {
        Some(i) => Some(spans[i]),
        None => None,
    }
}

/// A text merged from several files, with the record of which lines came
/// from which file.
#[derive(Debug)]
pub struct FileIncludes {
    lines: Vec<String>,
    segments: Vec<Segment>,
}

impl View for FileIncludes {
    type V = Document;

    closed spec fn view(&self) -> Document {
        Document { lines: self.lines.deep_view(), spans: spans_of(self.segments@) }
    }
}

impl Clone for FileIncludes {
    fn clone(&self) -> (r: Self)
        ensures
            r@ == self@,
    {
        let lines = self.lines.clone();
        let segments = self.segments.clone();
        proof {
            assert(lines.deep_view() =~= self.lines.deep_view());
            assert(spans_of(segments@) =~= spans_of(self.segments@));
        }
        FileIncludes { lines, segments }
    }
}

impl FileIncludes {
    /// Whether the spans fit the lines: see [`well_formed`].
    pub open spec fn wf(&self) -> bool {
        well_formed(self@.spans, self@.lines.len() as int)
    }

    /// The document that holds `text` as the content of `original_file`.
    pub fn new(text: &str, original_file: String) -> (r: Self)
        ensures
            r@ == fresh(text@, original_file@),
            r.wf(),
    {
        let lines = split_text(text, '\n', '\n');
        let end_line = lines.len();
        proof {
            assert(set!['\n', '\n'] =~= crate::text::newline());
            crate::text::lemma_split_shape(text@, crate::text::newline());
        }
        let mut segments: Vec<Segment> = Vec::new();
        segments.push(Segment { start_line: 0, end_line, original_file: Rc::new(original_file) });
        proof {
            assert(spans_of(segments@) =~= fresh(text@, original_file@).spans);
        }
        FileIncludes { lines, segments }
    }

    /// The merged text: the lines with a newline between neighbours.
    pub fn text(&self) -> (s: String)
        ensures
            s@ == text_of(self@.lines),
    {
        proof {
            reveal_strlit("\n");
            assert("\n"@ =~= seq!['\n']);
        }
        join_text(&self.lines, "\n")
    }

    /// Checks [`FileIncludes::wf`]. Every document that this module hands
    /// out passes.
    pub fn is_well_formed(&self) -> (ok: bool)
        ensures
            ok == self.wf(),
    {
        let total = self.lines.len();
        let count = self.segments.len();
        if count == 0 {
            return false;
        }
        if self.segments[0].start_line != 0 || self.segments[0].end_line != total {
            return false;
        }
        let mut j: usize = 0;
        while j < count
            invariant
                j <= count,
                count == self.segments.len(),
                total == self.lines.len(),
                forall|i: int|
                    0 <= i < j ==> 0 <= (#[trigger] self@.spans[i]).start < self@.spans[i].end
                        <= total,
                forall|a: int, b: int|
                    0 <= a < b < j ==> inside(#[trigger] self@.spans[b], #[trigger] self@.spans[a])
                        || apart(self@.spans[a], self@.spans[b]),
            decreases count - j,
        {
            let later = &self.segments[j];
            assert(self@.spans[j as int] == later@);
            if later.start_line >= later.end_line || later.end_line > total {
                return false;
            }
            let mut i: usize = 0;
            while i < j
                invariant
                    i <= j < count,
                    count == self.segments.len(),
                    later@ == self@.spans[j as int],
                    forall|a: int|
                        0 <= a < i ==> inside(self@.spans[j as int], #[trigger] self@.spans[a])
                            || apart(self@.spans[a], self@.spans[j as int]),
                decreases j - i,
            {
                let earlier = &self.segments[i];
                assert(self@.spans[i as int] == earlier@);
                let is_apart = earlier.end_line <= later.start_line || later.end_line
                    <= earlier.start_line;
                if !later.is_inside(earlier) && !is_apart {
                    return false;
                }
                i = i + 1;
            }
            j = j + 1;
        }
        true
    }

    /// The lines of the merged text.
    pub fn lines(&self) -> (r: &Vec<String>)
        ensures
            r.deep_view() == self@.lines,
    {
        &self.lines
    }

    /// The segments, in the order they were added.
    pub fn segments(&self) -> (r: &Vec<Segment>)
        ensures
            spans_of(r@) == self@.spans,
    {
        &self.segments
    }

    /// The number of lines of the merged text.
    pub fn line_count(&self) -> (n: usize)
        ensures
            n == self@.lines.len(),
    {
        self.lines.len()
    }

    /// The segment that owns `line`: of those that contain it, the one
    /// added last.
    pub fn last_segment_at(&self, line: usize) -> (r: Option<Segment>)
        ensures
            opt_span(r) == span_at(self@.spans, owner(self@.spans, line as int)),
    {
        match self.owner_index(line) {
            Some(i) => Some(self.segments[i].clone()),
            None => None,
        }
    }

    /// The index of the segment that owns `line`.
    fn owner_index(&self, line: usize) -> (r: Option<usize>)
        ensures
            match r {
                Some(i) => owner(self@.spans, line as int) == Some(i as int) && i
                    < self.segments.len(),
                None => owner(self@.spans, line as int) is None,
            },
    {
        let mut n = self.segments.len();
        while n > 0
            invariant
                n <= self.segments.len(),
                owner(self@.spans, line as int) == last_covering(
                    self@.spans,
                    line as int,
                    n as int,
                ),
            decreases n,
        {
            if self.segments[n - 1].contains_line(line) {
                return Some(n - 1);
            }
            n = n - 1;
        }
        None
    }

    /// The index of the closest segment before index `i` that encloses the
    /// one at `i`.
    fn parent_index(&self, i: usize) -> (r: Option<usize>)
        requires
            i < self.segments.len(),
        ensures
            match r {
                Some(k) => parent(self@.spans, i as int) == Some(k as int) && k < i,
                None => parent(self@.spans, i as int) is None,
            },
    {
        let mut n = i;
        while n > 0
            invariant
                n <= i < self.segments.len(),
                parent(self@.spans, i as int) == last_enclosing(
                    self@.spans,
                    self@.spans[i as int],
                    n as int,
                ),
            decreases n,
        {
            if self.segments[i].is_inside(&self.segments[n - 1]) {
                return Some(n - 1);
            }
            n = n - 1;
        }
        None
    }

    /// The parent of `segment`: the closest segment before its first
    /// occurrence that encloses it. `None` when `segment` does not occur or
    /// nothing encloses it.
    pub fn get_segment_parent(&self, segment: Segment) -> (r: Option<Segment>)
        ensures
            opt_span(r) == parent_of_span(self@.spans, segment@),
    {
        let mut i: usize = 0;
        while i < self.segments.len()
            invariant
                i <= self.segments.len(),
                first_index(self@.spans, segment@, 0) == first_index(
                    self@.spans,
                    segment@,
                    i as int,
                ),
            decreases self.segments.len() - i,
        {
            if self.segments[i] == segment {
                return match self.parent_index(i) {
                    Some(k) => Some(self.segments[k].clone()),
                    None => None,
                };
            }
            i = i + 1;
        }
        None
    }

    /// Every segment that contains `line`, in the order the segments are
    /// kept in.
    pub fn all_segments_at(&self, line: usize) -> (r: Vec<Segment>)
        ensures
            spans_of(r@) == covering(self@.spans, line as int),
    {
        let mut found: Vec<Segment> = Vec::new();
        let mut i: usize = 0;
        let ghost pred = |s: Span| covers(s, line as int);
        proof {
            reveal(Seq::filter);
            assert(self@.spans.take(0).filter(pred) =~= spans_of(found@));
        }
        while i < self.segments.len()
            invariant
                i <= self.segments.len(),
                pred == |s: Span| covers(s, line as int),
                spans_of(found@) == self@.spans.take(i as int).filter(pred),
            decreases self.segments.len() - i,
        {
            proof {
                reveal(Seq::filter);
                let next = self@.spans.take(i + 1);
                assert(next.drop_last() =~= self@.spans.take(i as int));
                assert(next.last() == self.segments[i as int]@);
            }
            if self.segments[i].contains_line(line) {
                let ghost before = spans_of(found@);
                found.push(self.segments[i].clone());
                proof {
                    assert(spans_of(found@) =~= before.push(self.segments[i as int]@));
                }
            }
            i = i + 1;
        }
        proof {
            assert(self@.spans.take(self.segments.len() as int) =~= self@.spans);
        }
        found
    }

    /// The files that the segments name, each once, in order of first
    /// occurrence.
    pub fn all_used_files(&self) -> (r: Vec<&str>)
        ensures
            str_views(r@) == files_of(self@.spans, self@.spans.len() as int),
    {
        let mut files: Vec<&str> = Vec::new();
        let mut i: usize = 0;
        proof {
            assert(str_views(files@) =~= files_of(self@.spans, 0));
        }
        while i < self.segments.len()
            invariant
                i <= self.segments.len(),
                str_views(files@) == files_of(self@.spans, i as int),
            decreases self.segments.len() - i,
        {
            let name: &str = self.segments[i].original_file.as_str();
            assert(name@ == self@.spans[i as int].file);
            if !holds(&files, name) {
                let ghost before = str_views(files@);
                files.push(name);
                proof {
                    assert(str_views(files@) =~= before.push(name@));
                }
            }
            i = i + 1;
        }
        files
    }

    /// The file that `line` of the merged text came from, and the number
    /// the line had in that file. `None` when no segment contains `line`.
    pub fn file_and_line_at(&self, line: usize) -> (r: Option<(Rc<String>, usize)>)
        requires
            self.wf(),
        ensures
            match r {
                Some((file, local)) => origin(self@.spans, line as int) == Some(
                    (file@, local as int),
                ),
                None => origin(self@.spans, line as int) is None,
            },
    {
        let o = match self.owner_index(line) {
            Some(o) => o,
            None => {
                return None;
            },
        };
        proof {
            lemma_last_covering(self@.spans, line as int, self@.spans.len() as int);
        }
        let mut local_line = line - self.segments[o].start_line;
        let mut j: usize = 0;
        while j < self.segments.len()
            invariant
                j <= self.segments.len(),
                o < self.segments.len(),
                self.wf(),
                covers(self@.spans[o as int], line as int),
                local_line == line - self@.spans[o as int].start - added_before(
                    self@.spans,
                    o as int,
                    line as int,
                    j as int,
                ),
            decreases self.segments.len() - j,
        {
            proof {
                lemma_added_bounded(
                    self@.spans,
                    self@.lines.len() as int,
                    o as int,
                    line as int,
                    j + 1,
                );
            }
            let segment = &self.segments[j];
            if segment.end_line <= line {
                let is_child = match self.parent_index(j) {
                    Some(k) => k == o,
                    None => false,
                };
                if is_child {
                    assert(segment@.start < segment@.end);
                    local_line = local_line - (segment.end_line - segment.start_line - 1);
                }
            }
            j = j + 1;
        }
        Some((share(&self.segments[o].original_file), local_line))
    }

    /// Empties line `line`; the segments stay as they are.
    pub fn blank_line(&mut self, line: usize)
        requires
            old(self).wf(),
            line < old(self)@.lines.len(),
        ensures
            final(self)@ == blanked(old(self)@, line as int),
            final(self).wf(),
    {
        let ghost before = self.lines.deep_view();
        self.lines[line] = String::new();
        proof {
            assert(self.lines.deep_view() =~= before.update(line as int, Seq::<char>::empty()));
        }
    }

    /// The directives of this document, in line order, each with the path
    /// it points to when the document lies in the directory `dir`.
    pub fn directives(&self, dir: &Path) -> (jobs: Vec<(usize, String)>)
        ensures
            job_views(jobs@) == jobs_in(self@.lines, dir@, self@.lines.len() as int),
    {
        let mut jobs: Vec<(usize, String)> = Vec::new();
        let mut i: usize = 0;
        proof {
            assert(job_views(jobs@) =~= jobs_in(self@.lines, dir@, 0));
        }
        while i < self.lines.len()
            invariant
                i <= self.lines.len(),
                job_views(jobs@) == jobs_in(self@.lines, dir@, i as int),
            decreases self.lines.len() - i,
        {
            assert(self@.lines[i as int] == self.lines[i as int]@);
            match capture(INCLUDE_PATTERN, self.lines[i].as_str(), FILE_NAME_GROUP) {
                Some(name) => {
                    let ghost before = job_views(jobs@);
                    let target = include_target(dir, name.as_str());
                    jobs.push((i, target));
                    proof {
                        assert(job_views(jobs@) =~= before.push(
                            Job { line: i as int, target: target@ },
                        ));
                    }
                },
                None => {},
            }
            i = i + 1;
        }
        jobs
    }

    /// Replaces line `line` by the lines of `with`, and records that they
    /// came from `original_file`.
    pub fn replace_line_with(&mut self, line: usize, with: &str, original_file: Rc<String>)
        requires
            old(self).wf(),
            line < old(self)@.lines.len(),
        ensures
            final(self)@ == replaced(old(self)@, line as int, with@, original_file@),
            final(self).wf(),
    {
        let insert_lines = split_text(with, '\n', '\n');
        let new_lines_count = insert_lines.len();
        let total = self.lines.len();
        proof {
            assert(set!['\n', '\n'] =~= crate::text::newline());
            crate::text::lemma_split_shape(with@, crate::text::newline());
            lemma_replace_keeps_form(
                self@.spans,
                total as int,
                line as int,
                new_lines_count as int,
                original_file@,
            );
        }
        assert forall|i: int| 0 <= i < self.segments.len() implies (#[trigger] self.segments[
            i
        ]).start_line <= self.segments[i].end_line <= total by {
            assert(self@.spans[i] == self.segments[i]@);
        }
        replace_lines(&mut self.lines, line, insert_lines);
        assert(self.lines.len() == total + new_lines_count - 1) by {
            assert(self.lines.deep_view().len() == self.lines.len());
        }
        let mut segments = widen_all(&self.segments, line, new_lines_count, total);
        let ghost widened_spans = spans_of(segments@);
        let end_line = line + new_lines_count;
        segments.push(Segment { start_line: line, end_line, original_file });
        proof {
            assert(spans_of(segments@) =~= widened_spans.push(
                Span {
                    start: line as int,
                    end: line as int + new_lines_count as int,
                    file: original_file@,
                },
            ));
        }
        self.segments = segments;
    }

    /// Replaces line `line` by the whole of `includes`: its lines take the
    /// place of the line, and its segments, moved down by `line`, follow the
    /// segments already here.
    pub fn replace_line_with_includes(&mut self, line: usize, includes: FileIncludes)
        requires
            old(self).wf(),
            includes.wf(),
            line < old(self)@.lines.len(),
        ensures
            final(self)@ == spliced(old(self)@, line as int, includes@),
            final(self).wf(),
    {
        let FileIncludes { lines: new_lines, segments: new_segments } = includes;
        let new_lines_count = new_lines.len();
        let total = self.lines.len();
        proof {
            lemma_splice_keeps_form(
                self@.spans,
                total as int,
                line as int,
                new_lines_count as int,
                spans_of(new_segments@),
            );
        }
        assert forall|i: int| 0 <= i < self.segments.len() implies (#[trigger] self.segments[
            i
        ]).start_line <= self.segments[i].end_line <= total by {
            assert(self@.spans[i] == self.segments[i]@);
        }
        replace_lines(&mut self.lines, line, new_lines);
        assert(self.lines.len() == total + new_lines_count - 1) by {
            assert(self.lines.deep_view().len() == self.lines.len());
        }
        let mut segments = widen_all(&self.segments, line, new_lines_count, total);
        let ghost widened_spans = spans_of(segments@);
        let mut i: usize = 0;
        proof {
            assert(widened_spans + all_lowered(spans_of(new_segments@), line as int).take(0)
                =~= widened_spans);
        }
        while i < new_segments.len()
            invariant
                i <= new_segments.len(),
                line + new_lines_count <= usize::MAX,
                well_formed(spans_of(new_segments@), new_lines_count as int),
                spans_of(segments@) == widened_spans + all_lowered(
                    spans_of(new_segments@),
                    line as int,
                ).take(i as int),
            decreases new_segments.len() - i,
        {
            let segment = &new_segments[i];
            assert(spans_of(new_segments@)[i as int] == segment@);
            let ghost before = spans_of(segments@);
            let moved = Segment {
                start_line: segment.start_line + line,
                end_line: segment.end_line + line,
                original_file: share(&segment.original_file),
            };
            segments.push(moved);
            proof {
                assert(moved@ == lowered(segment@, line as int));
                assert(spans_of(segments@) =~= before.push(moved@));
                let lowered_all = all_lowered(spans_of(new_segments@), line as int);
                assert(lowered_all.take(i + 1) =~= lowered_all.take(i as int).push(moved@));
            }
            i = i + 1;
        }
        proof {
            let lowered_all = all_lowered(spans_of(new_segments@), line as int);
            assert(lowered_all.take(new_segments.len() as int) =~= lowered_all);
        }
        self.segments = segments;
    }
}

/// A backend: hands out the content stored under a path, or says why it
/// cannot. The path comes without its scheme.
pub trait Protocol {
    /// Whether the backend may give `outcome` when asked for `path`.
    spec fn answers(&self, path: Seq<char>, outcome: Result<Seq<char>, Seq<char>>) -> bool;

    /// The content stored under `path`, or the reason why there is none.
    fn load(&self, path: &str) -> (r: Result<String, String>)
        ensures
            self.answers(path@, answer_view(r)),
    ;
}

/// Whether `loader` may give `outcome` when called with `path`.
pub open spec fn may_give<T: Fn(&str) -> Result<String, String>>(
    loader: T,
    path: Seq<char>,
    outcome: Result<Seq<char>, Seq<char>>,
) -> bool {
    exists|asked: &str, given: Result<String, String>|
        asked@ == path && answer_view(given) == outcome && #[trigger] call_ensures(
            loader,
            (asked,),
            given,
        )
}

/// A backend made of a function.
struct Backend<T: Fn(&str) -> Result<String, String>> {
    loader: T,
}

impl<T: Fn(&str) -> Result<String, String>> Backend<T> {
    #[verifier::type_invariant]
    spec fn accepts_every_path(self) -> bool {
        forall|path: &str| call_requires(self.loader, (path,))
    }
}

impl<T: Fn(&str) -> Result<String, String>> Protocol for Backend<T> {
    closed spec fn answers(&self, path: Seq<char>, outcome: Result<Seq<char>, Seq<char>>) -> bool {
        may_give(self.loader, path, outcome)
    }

    fn load(&self, path: &str) -> (r: Result<String, String>) {
        proof {
            use_type_invariant(self);
        }
        let r = (self.loader)(path);
        assert(call_ensures(self.loader, (path,), r));
        r
    }
}

/// The backend as the registry holds it: behind the box it answers as
/// `backend` does.
fn boxed<T: 'static + Fn(&str) -> Result<String, String>>(backend: Backend<T>) -> (held: Box<
    dyn Protocol,
>)
    ensures
        forall|path: Seq<char>, outcome: Result<Seq<char>, Seq<char>>| #[trigger]
            held.answers(path, outcome) == backend.answers(path, outcome),
{
    // The box turns into a trait object where it is handed out: a trait
    // object that is handed on once more is known by its type alone.
    return Box::new(backend);
}

/// A registered scheme and its backend. The backend is held as it came.
struct Entry<B> {
    name: String,
    backend: B,
}

/// The entry that registers `backend` under `name`.
fn entry_of<B>(name: String, backend: B) -> (e: Entry<B>)
    ensures
        e.name == name,
        e.backend == backend,
{
    Entry { name, backend }
}

/// The directives that pairs of a line number and a path stand for.
pub open spec fn job_views(jobs: Seq<(usize, String)>) -> Seq<Job> {
    jobs.map_values(|job: (usize, String)| Job { line: job.0 as int, target: job.1@ })
}

/// The path that the directive `name` points to from a file in the
/// directory `dir`: relative to `dir` when it has no scheme, else as it
/// stands.
pub fn include_target(dir: &Path, name: &str) -> (target: String)
    ensures
        target@ == target_of(dir@, name@),
{
    let (scheme, _) = get_protocol_and_path(name);
    if scheme.is_none() {
        let tail = Path::new(name);
        dir.join_path(&tail).to_string()
    } else {
        name.to_owned()
    }
}

/// Whether `name` is among the files used.
pub fn has_file(used: &Vec<String>, name: &str) -> (r: bool)
    ensures
        r == used.deep_view().contains(name@),
{
    let mut i: usize = 0;
    while i < used.len()
        invariant
            i <= used.len(),
            forall|k: int| 0 <= k < i ==> used.deep_view()[k] != name@,
        decreases used.len() - i,
    {
        if used[i].as_str().eq(name) {
            assert(used.deep_view()[i as int] == name@);
            return true;
        }
        i = i + 1;
    }
    false
}

/// Puts `path` among the files used, unless it is there.
pub fn mark_used(used: &mut Vec<String>, path: &str)
    ensures
        final(used).deep_view() == with_file(old(used).deep_view(), path@),
        final(used).len() >= old(used).len(),
{
    if !has_file(used, path) {
        let ghost before = used.deep_view();
        used.push(path.to_owned());
        proof {
            assert(used.deep_view() =~= before.push(path@));
        }
    }
}

/// What a resolution's outcome stands for.
pub open spec fn doc_view(r: Result<FileIncludes, String>) -> Result<Document, Seq<char>> {
    match r {
        Ok(doc) => Ok(doc@),
        Err(error) => Err(error@),
    }
}

/// The characters of a load's outcome.
pub open spec fn answer_view(answer: Result<String, String>) -> Result<Seq<char>, Seq<char>> {
    match answer {
        Ok(text) => Ok(text@),
        Err(error) => Err(error@),
    }
}

/// Loads files through registered backends, one per scheme, and unfolds
/// their directives.
pub struct FileLoader {
    protocols: Vec<Entry<Box<dyn Protocol>>>,
}

impl FileLoader {
    /// The registered schemes, in the order they were registered.
    pub closed spec fn schemes(&self) -> Seq<Seq<char>> {
        self.protocols@.map_values(|e: Entry<Box<dyn Protocol>>| e.name@)
    }

    /// Whether the backend of `scheme`, the first that was registered under
    /// that name, may give `outcome` when asked for `path`.
    pub closed spec fn backend_answers(
        &self,
        scheme: Seq<char>,
        path: Seq<char>,
        outcome: Result<Seq<char>, Seq<char>>,
    ) -> bool {
        exists|i: int|
            0 <= i < self.protocols.len() && (#[trigger] self.protocols[i]).name@ == scheme
                && self.is_first(i) && self.protocols[i].backend.answers(path, outcome)
    }

    /// No entry before the one at `i` has its name.
    spec fn is_first(&self, i: int) -> bool {
        forall|j: int|
            0 <= j < i ==> (#[trigger] self.protocols[j]).name@ != self.protocols[i].name@
    }

    /// The answers that the backends of this loader may give.
    pub open spec fn admits(&self) -> spec_fn(Answer) -> bool {
        |answer: Answer| self.backend_answers(answer.scheme, answer.path, answer.outcome)
    }

    /// A loader that knows the scheme `file` alone. Its backend answers as
    /// `file_loader` does, which must take every path.
    pub fn new<T>(file_loader: T) -> (r: Self)
        where T: 'static + Fn(&str) -> Result<String, String>
        requires
            forall|path: &str| call_requires(file_loader, (path,)),
        ensures
            r.schemes() == seq![DEFAULT_SCHEME@],
            forall|path: Seq<char>, outcome: Result<Seq<char>, Seq<char>>| #[trigger]
                r.backend_answers(DEFAULT_SCHEME@, path, outcome) == may_give(
                    file_loader,
                    path,
                    outcome,
                ),
    {
        let mut protocols: Vec<Entry<Box<dyn Protocol>>> = Vec::new();
        let entry = entry_of(DEFAULT_SCHEME.to_owned(), boxed(Backend { loader: file_loader }));
        protocols.push(entry);
        let r = FileLoader { protocols };
        proof {
            assert(r.schemes() =~= seq![DEFAULT_SCHEME@]);
            assert(r.protocols[0] == entry);
            assert(r.is_first(0));
            assert forall|path: Seq<char>, outcome: Result<Seq<char>, Seq<char>>| #[trigger]
                r.backend_answers(DEFAULT_SCHEME@, path, outcome) == may_give(
                    file_loader,
                    path,
                    outcome,
                ) by {
                assert(entry.backend.answers(path, outcome) == may_give(
                    file_loader,
                    path,
                    outcome,
                ));
            }
        }
        r
    }

    /// The first index that `name` is registered at.
    fn find(&self, name: &str) -> (r: Option<usize>)
        ensures
            match r {
                Some(i) => i < self.protocols.len() && self.protocols[i as int].name@ == name@
                    && self.is_first(i as int) && self.schemes().contains(name@),
                None => !self.schemes().contains(name@),
            },
    {
        let mut i: usize = 0;
        while i < self.protocols.len()
            invariant
                i <= self.protocols.len(),
                forall|k: int| 0 <= k < i ==> (#[trigger] self.protocols[k]).name@ != name@,
            decreases self.protocols.len() - i,
        {
            if self.protocols[i].name.as_str().eq(name) {
                assert(self.schemes()[i as int] == name@);
                return Some(i);
            }
            i = i + 1;
        }
        proof {
            assert forall|k: int| 0 <= k < self.schemes().len() implies self.schemes()[k]
                != name@ by {
                assert(self.protocols[k].name@ != name@);
            }
        }
        None
    }

    /// Registers `loader`, which must take every path, for the scheme
    /// `protocol`; from then on the backend of that scheme answers as
    /// `loader` does. A scheme can be registered once: a second registration
    /// changes nothing and fails. The backends of the other schemes answer
    /// as before.
    pub fn add_protocol<T>(&mut self, protocol: String, loader: T) -> (r: Result<(), &'static str>)
        where T: 'static + Fn(&str) -> Result<String, String>
        requires
            forall|path: &str| call_requires(loader, (path,)),
        ensures
            match r {
                Ok(_) => !old(self).schemes().contains(protocol@) && final(self).schemes() == old(
                    self,
                ).schemes().push(protocol@),
                Err(message) => old(self).schemes().contains(protocol@) && final(self).schemes()
                    == old(self).schemes() && message@ == "Protocol is already added"@,
            },
            old(self).schemes().no_duplicates() ==> final(self).schemes().no_duplicates(),
            forall|scheme: Seq<char>, path: Seq<char>, outcome: Result<Seq<char>, Seq<char>>|
                scheme != protocol@ || r is Err ==> #[trigger] final(self).backend_answers(
                    scheme,
                    path,
                    outcome,
                ) == old(self).backend_answers(scheme, path, outcome),
            r is Ok ==> forall|path: Seq<char>, outcome: Result<Seq<char>, Seq<char>>| #[trigger]
                final(self).backend_answers(protocol@, path, outcome) == may_give(
                    loader,
                    path,
                    outcome,
                ),
    {
        if self.find(protocol.as_str()).is_some() {
            return Err("Protocol is already added");
        }
        let ghost before = self.schemes();
        let ghost held = self.protocols@;
        let entry = entry_of(protocol, boxed(Backend { loader }));
        self.protocols.push(entry);
        proof {
            assert(self.schemes() =~= before.push(protocol@));
            assert forall|i: int| 0 <= i < held.len() implies (#[trigger] self.protocols[i])
                == held[i] by {}
            let last = held.len() as int;
            assert(self.protocols[last] == entry);
            assert(self.is_first(last)) by {
                assert forall|j: int| 0 <= j < last implies (#[trigger] self.protocols[j]).name@
                    != self.protocols[last].name@ by {
                    assert(before[j] == held[j].name@);
                }
            }
            assert forall|path: Seq<char>, outcome: Result<Seq<char>, Seq<char>>| #[trigger]
                self.backend_answers(protocol@, path, outcome) == may_give(
                    loader,
                    path,
                    outcome,
                ) by {
                assert(entry.backend.answers(path, outcome) == may_give(loader, path, outcome));
                if self.backend_answers(protocol@, path, outcome) {
                    let i = choose|i: int|
                        0 <= i < self.protocols.len() && (#[trigger] self.protocols[i]).name@
                            == protocol@ && self.is_first(i) && self.protocols[i].backend.answers(
                            path,
                            outcome,
                        );
                    if i < last {
                        assert(before[i] == held[i].name@);
                    }
                }
            }
            assert forall|scheme: Seq<char>, path: Seq<char>, outcome: Result<Seq<char>, Seq<char>>|
                scheme != protocol@ implies #[trigger] self.backend_answers(scheme, path, outcome)
                == old(self).backend_answers(scheme, path, outcome) by {
                if old(self).backend_answers(scheme, path, outcome) {
                    let i = choose|i: int|
                        0 <= i < held.len() && (#[trigger] held[i]).name@ == scheme && old(
                            self,
                        ).is_first(i) && held[i].backend.answers(path, outcome);
                    assert(self.protocols[i] == held[i]);
                    assert(self.is_first(i)) by {
                        assert forall|j: int|
                            0 <= j < i implies (#[trigger] self.protocols[j]).name@
                            != self.protocols[i].name@ by {
                            assert(self.protocols[j] == held[j]);
                        }
                    }
                }
                if self.backend_answers(scheme, path, outcome) {
                    let i = choose|i: int|
                        0 <= i < self.protocols.len() && (#[trigger] self.protocols[i]).name@
                            == scheme && self.is_first(i) && self.protocols[i].backend.answers(
                            path,
                            outcome,
                        );
                    assert(i < held.len());
                    assert(self.protocols[i] == held[i]);
                    assert(old(self).is_first(i)) by {
                        assert forall|j: int| 0 <= j < i implies (#[trigger] held[j]).name@
                            != held[i].name@ by {
                            assert(self.protocols[j] == held[j]);
                        }
                    }
                }
            }
        }
        Ok(())
    }

    /// Loads `path` through the backend of its scheme, and hands out beside
    /// the outcome the answers that backends gave on the way: none when no
    /// backend was asked, else one.
    fn load_step(&self, path: &str) -> (out: (Result<String, String>, Ghost<Seq<Answer>>))
        ensures
            loads(self.schemes(), out.1@, path@, answer_view(out.0)),
            all_admitted(out.1@, self.admits()),
            out.1@.len() <= 1,
            out.0 is Ok ==> out.1@.len() == 1 && out.0->Ok_0@.len() > 0,
            !self.schemes().contains(scheme_of(path@)) ==> answer_view(out.0) == Err::<
                Seq<char>,
                Seq<char>,
            >(unsupported_message(scheme_of(path@), path@)),
    {
        let (scheme, file_path) = get_protocol_and_path(path);
        let scheme = match scheme {
            Some(scheme) => scheme,
            None => DEFAULT_SCHEME,
        };
        match self.find(scheme) {
            None => {
                let ghost none = Seq::<Answer>::empty();
                proof {
                    assert forall|suffix: Seq<Answer>| #[trigger] (none + suffix) == suffix by {
                        assert(none + suffix =~= suffix);
                    }
                }
                (Err(unsupported(scheme, path)), Ghost(none))
            },
            Some(i) => {
                let answer = self.protocols[i].backend.load(file_path);
                let ghost given = Answer {
                    scheme: scheme@,
                    path: file_path@,
                    outcome: answer_view(answer),
                };
                let ghost one = seq![given];
                proof {
                    assert(self.backend_answers(given.scheme, given.path, given.outcome));
                    assert forall|suffix: Seq<Answer>|
                        (#[trigger] (one + suffix)).drop_first() == suffix && (one + suffix)[0]
                            == given by {
                        assert((one + suffix).drop_first() =~= suffix);
                    }
                }
                (check_content(path, answer), Ghost(one))
            },
        }
    }

    /// Loads the file `path` as it is, without looking for directives: the
    /// scheme picks the backend (`file` where the path names none), and the
    /// backend gets the path without its scheme. Fails when no backend is
    /// registered for the scheme, when the backend fails, and when the file
    /// is empty.
    pub fn basic_load_file(&self, path: &str) -> (r: Result<String, String>)
        ensures
            exists|answers: Seq<Answer>|
                answers.len() <= 1 && all_admitted(answers, self.admits()) && #[trigger] loaded(
                    self.schemes(),
                    answers,
                    path@,
                ) == (Loaded { content: answer_view(r), rest: Seq::empty(), fits: true }),
            !self.schemes().contains(scheme_of(path@)) ==> answer_view(r) == Err::<
                Seq<char>,
                Seq<char>,
            >(unsupported_message(scheme_of(path@), path@)),
            r matches Ok(text) ==> text@.len() > 0,
    {
        let (r, Ghost(answers)) = self.load_step(path);
        proof {
            let none = Seq::<Answer>::empty();
            assert(answers + none =~= answers);
            assert(loaded(self.schemes(), answers + none, path@) == (Loaded {
                content: answer_view(r),
                rest: none,
                fits: true,
            }));
        }
        r
    }

    /// Resolves `path` and hands out beside the outcome the answers that
    /// the backends gave on the way, in order.
    fn resolve_inner(&self, path: &str, used_files: &mut Vec<String>) -> (out: (
        Result<FileIncludes, String>,
        Ghost<Seq<Answer>>,
    ))
        ensures
            resolves(
                self.schemes(),
                out.1@,
                path@,
                old(used_files).deep_view(),
                doc_view(out.0),
                final(used_files).deep_view(),
            ),
            all_admitted(out.1@, self.admits()),
            out.0 matches Ok(doc) ==> doc.wf() && out.1@.len() >= 1,
            final(used_files).len() >= old(used_files).len(),
        decreases usize::MAX - old(used_files).len(),
    {
        let ghost schemes = self.schemes();
        let ghost admits = self.admits();
        let ghost used0 = used_files.deep_view();
        mark_used(used_files, path);
        let ghost used1 = used_files.deep_view();
        let (content, Ghost(first)) = self.load_step(path);
        let file = match content {
            Err(error) => {
                proof {
                    lemma_resolves_load_error(schemes, first, path@, used0, error@);
                }
                return (Err(error), Ghost(first));
            },
            Ok(file) => file,
        };
        let mut includes = FileIncludes::new(file.as_str(), path.to_owned());
        let dir = Path::new(path).dirname();
        let jobs = includes.directives(&dir);
        let ghost start = includes@;
        let ghost pending = job_views(jobs@);
        let ghost mut stage = first_stage(start, used1);
        let mut line_offset: usize = 0;
        let mut k: usize = 0;
        proof {
            lemma_jobs_lines(start.lines, dir@, start.lines.len() as int);
            lemma_reaches_first(schemes, start, pending, used1);
        }
        while k < jobs.len()
            invariant
                k <= jobs.len(),
                includes.wf(),
                schemes == self.schemes(),
                admits == self.admits(),
                pending == job_views(jobs@),
                pending == jobs_of(file@, path@),
                start == fresh(file@, path@),
                used0 == old(used_files).deep_view(),
                used1 == with_file(used0, path@),
                first.len() == 1,
                loads(schemes, first, path@, Ok(file@)),
                all_admitted(first, admits),
                all_admitted(stage.answers, admits),
                includes@.lines.len() == start.lines.len() + line_offset,
                forall|j: int|
                    0 <= j < pending.len() ==> 0 <= (#[trigger] pending[j]).line
                        < start.lines.len(),
                used_files.len() >= old(used_files).len(),
                reaches(schemes, start, pending, used1, stage),
                stage.doc == includes@,
                stage.k == k,
                stage.offset == line_offset,
                stage.used == used_files.deep_view(),
            decreases jobs.len() - k,
        {
            let ghost job = pending[k as int];
            assert(job.line == jobs[k as int].0 && job.target == jobs[k as int].1@);
            let line = jobs[k].0 + line_offset;
            if has_file(used_files, jobs[k].1.as_str()) {
                includes.blank_line(line);
                proof {
                    lemma_reaches_skipped(schemes, start, pending, used1, stage);
                    stage = skipped(stage, job);
                }
            } else {
                let ghost used_k = used_files.deep_view();
                used_files.push(jobs[k].1.clone());
                proof {
                    assert(used_files.deep_view() =~= used_k.push(job.target));
                }
                let (nested, Ghost(inner)) = self.resolve_inner(jobs[k].1.as_str(), used_files);
                proof {
                    lemma_all_admitted(stage.answers, inner, admits);
                    lemma_all_admitted(first, stage.answers + inner, admits);
                    assert(first + (stage.answers + inner) =~= first + stage.answers + inner);
                }
                match nested {
                    Err(error) => {
                        proof {
                            lemma_resolves_nested_error(
                                schemes,
                                first,
                                path@,
                                used0,
                                file@,
                                stage,
                                inner,
                                error@,
                                used_files.deep_view(),
                            );
                        }
                        return (Err(error), Ghost(first + stage.answers + inner));
                    },
                    Ok(new_includes) => {
                        let ghost nested_doc = new_includes@;
                        let offset = new_includes.line_count() - 1;
                        includes.replace_line_with_includes(line, new_includes);
                        line_offset = line_offset + offset;
                        proof {
                            lemma_reaches_included(
                                schemes,
                                start,
                                pending,
                                used1,
                                stage,
                                inner,
                                nested_doc,
                                used_files.deep_view(),
                            );
                            stage = included(stage, job, inner, nested_doc, used_files.deep_view());
                        }
                    },
                }
            }
            k = k + 1;
        }
        proof {
            lemma_resolves_done(schemes, first, path@, used0, file@, stage);
            lemma_all_admitted(first, stage.answers, admits);
        }
        (Ok(includes), Ghost(first + stage.answers))
    }

    /// Resolves `path` within a resolution already under way: `used_files`
    /// holds the files seen so far and gains those seen here. The outcome
    /// is what [`crate::resolution::resolve`] gives for the answers that
    /// the backends gave.
    pub fn load_file_inner(&self, path: &str, used_files: &mut Vec<String>) -> (r: Result<
        FileIncludes,
        String,
    >)
        ensures
            is_resolution(
                self.schemes(),
                self.admits(),
                path@,
                old(used_files).deep_view(),
                doc_view(r),
                final(used_files).deep_view(),
            ),
            r matches Ok(doc) ==> doc.wf(),
    {
        let ghost used0 = used_files.deep_view();
        let (r, Ghost(answers)) = self.resolve_inner(path, used_files);
        proof {
            lemma_is_resolution(
                self.schemes(),
                self.admits(),
                answers,
                path@,
                used0,
                doc_view(r),
                used_files.deep_view(),
            );
        }
        r
    }

    /// Loads the file `path` and unfolds its directives, and theirs in
    /// turn; each file is taken in once. The outcome is what
    /// [`crate::resolution::resolve`] gives, starting with no file used, for
    /// the answers that the backends gave.
    pub fn load_file(&self, path: &str) -> (r: Result<FileIncludes, String>)
        ensures
            is_load(self.schemes(), self.admits(), path@, doc_view(r)),
            r matches Ok(doc) ==> doc.wf(),
    {
        let mut used_files: Vec<String> = Vec::new();
        assert(used_files.deep_view() =~= Seq::<Seq<char>>::empty());
        let r = self.load_file_inner(path, &mut used_files);
        assert(is_resolution(
            self.schemes(),
            self.admits(),
            path@,
            Seq::empty(),
            doc_view(r),
            used_files.deep_view(),
        ));
        r
    }

    /// The backend registered for the scheme `name`.
    pub fn get_protocol(&self, name: &str) -> (r: Option<&Box<dyn Protocol>>)
        ensures
            r is Some <==> self.schemes().contains(name@),
            forall|path: Seq<char>, outcome: Result<Seq<char>, Seq<char>>|
                r is Some ==> (r->Some_0.answers(path, outcome) <==> #[trigger]
                self.backend_answers(name@, path, outcome)),
    {
        match self.find(name) {
            Some(i) => {
                let backend = &self.protocols[i].backend;
                proof {
                    assert forall|path: Seq<char>, outcome: Result<Seq<char>, Seq<char>>|
                        backend.answers(path, outcome) <==> #[trigger] self.backend_answers(
                            name@,
                            path,
                            outcome,
                        ) by {
                        if self.backend_answers(name@, path, outcome) {
                            let k = choose|k: int|
                                0 <= k < self.protocols.len() && (#[trigger]
                                self.protocols[k]).name@ == name@ && self.is_first(k)
                                    && self.protocols[k].backend.answers(path, outcome);
                            assert(k == i);
                        }
                    }
                }
                Some(backend)
            },
            None => None,
        }
    }
}

/// The message for a path whose scheme no backend is registered for.
fn unsupported(scheme: &str, path: &str) -> (message: String)
    ensures
        message@ == unsupported_message(scheme@, path@),
{
    let mut message = "Unsupported protocol: ".to_owned();
    message.append(scheme);
    message.append(" (");
    message.append(path);
    message.append(")");
    message
}

/// Takes a backend's answer for `path` as it is, but for empty content,
/// which is an error.
pub fn check_content(path: &str, answer: Result<String, String>) -> (r: Result<String, String>)
    ensures
        answer_view(r) == checked(path@, answer_view(answer)),
{
    match answer {
        Err(error) => Err(error),
        Ok(text) => {
            if text.as_str().is_empty() {
                let mut message = "Empty files (".to_owned();
                message.append(path);
                message.append(") are unsupported because of technical reasons, sorry :(");
                Err(message)
            } else {
                Ok(text)
            }
        },
    }
}

} // verus!
