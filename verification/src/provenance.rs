//! Line ranges and the order they are kept in: the mathematics behind the
//! provenance queries of a merged document.

use vstd::prelude::*;
use vstd::set_lib::{lemma_int_range, lemma_len_subset, lemma_set_disjoint_lens, set_int_range};

verus! {

/// A half-open range of lines `[start, end)` and the file they came from.
pub ghost struct Span {
    pub start: int,
    pub end: int,
    pub file: Seq<char>,
}

/// `line` lies in the range of `s`.
pub open spec fn covers(s: Span, line: int) -> bool {
    s.start <= line < s.end
}

/// The range of `a` lies within the range of `of`.
pub open spec fn inside(a: Span, of: Span) -> bool {
    a.start >= of.start && a.end <= of.end
}

/// The two ranges share no line.
pub open spec fn apart(a: Span, b: Span) -> bool {
    a.end <= b.start || b.end <= a.start
}

/// The last index below `n` of which `holds` is true.
pub open spec fn last_index(n: int, holds: spec_fn(int) -> bool) -> Option<int>
    decreases n,
{
    if n <= 0 {
        None
    } else if holds(n - 1) {
        Some(n - 1)
    } else {
        last_index(n - 1, holds)
    }
}

/// The last index below `n` whose span covers `line`.
pub open spec fn last_covering(spans: Seq<Span>, line: int, n: int) -> Option<int> {
    last_index(n, |i: int| covers(spans[i], line))
}

/// The span that owns `line`: of those that cover it, the one added last.
pub open spec fn owner(spans: Seq<Span>, line: int) -> Option<int> {
    last_covering(spans, line, spans.len() as int)
}

/// The last index below `n` whose span encloses `inner`.
pub open spec fn last_enclosing(spans: Seq<Span>, inner: Span, n: int) -> Option<int> {
    last_index(n, |i: int| inside(inner, spans[i]))
}

/// The parent of the span at index `i`: the closest one before it that
/// encloses it.
pub open spec fn parent(spans: Seq<Span>, i: int) -> Option<int> {
    last_enclosing(spans, spans[i], i)
}

/// The first index at or after `from` that holds `target`.
pub open spec fn first_index(spans: Seq<Span>, target: Span, from: int) -> Option<int>
    decreases spans.len() - from,
{
    if from < 0 || from >= spans.len() {
        None
    } else if spans[from] == target {
        Some(from)
    } else {
        first_index(spans, target, from + 1)
    }
}

/// The parent of the first span equal to `target`, if `target` occurs and
/// has one.
pub open spec fn parent_of_span(spans: Seq<Span>, target: Span) -> Option<Span> {
    match first_index(spans, target, 0) {
        None => None,
        Some(i) => match parent(spans, i) {
            None => None,
            Some(k) => Some(spans[k]),
        },
    }
}

/// The spans that cover `line`, in the order they are kept in.
pub open spec fn covering(spans: Seq<Span>, line: int) -> Seq<Span> {
    spans.filter(|s: Span| covers(s, line))
}

/// The files of the given spans, in order.
pub open spec fn files_in(spans: Seq<Span>) -> Seq<Seq<char>> {
    spans.map_values(|s: Span| s.file)
}

/// The files of the first `n` spans, each once, in order of first occurrence.
pub open spec fn files_of(spans: Seq<Span>, n: int) -> Seq<Seq<char>>
    decreases n,
{
    if n <= 0 {
        Seq::<Seq<char>>::empty()
    } else {
        let before = files_of(spans, n - 1);
        if before.contains(spans[n - 1].file) {
            before
        } else {
            before.push(spans[n - 1].file)
        }
    }
}

/// The lines that a span holds beyond the one line it replaced.
pub open spec fn extra_lines(s: Span) -> int {
    s.end - s.start - 1
}

/// The span at index `j` is a direct child of the one at `o` and ends at or
/// before `line`.
pub open spec fn child_before(spans: Seq<Span>, o: int, line: int, j: int) -> bool {
    parent(spans, j) == Some(o) && spans[j].end <= line
}

/// The lines that the direct children of `o` among the first `n` spans added
/// above `line`.
pub open spec fn added_before(spans: Seq<Span>, o: int, line: int, n: int) -> int
    decreases n,
{
    if n <= 0 {
        0
    } else {
        let rest = added_before(spans, o, line, n - 1);
        if child_before(spans, o, line, n - 1) {
            rest + extra_lines(spans[n - 1])
        } else {
            rest
        }
    }
}

/// The number that `line` had in the file of its owner `o`, before anything
/// was spliced into that file.
pub open spec fn local_line(spans: Seq<Span>, o: int, line: int) -> int {
    line - spans[o].start - added_before(spans, o, line, spans.len() as int)
}

/// The file that `line` came from and the number it had there; `None` when
/// no span covers the line.
pub open spec fn origin(spans: Seq<Span>, line: int) -> Option<(Seq<char>, int)> {
    match owner(spans, line) {
        None => None,
        Some(o) => Some((spans[o].file, local_line(spans, o, line))),
    }
}

/// Children come after their parents: a later span lies within an earlier
/// one or shares no line with it.
pub open spec fn ordered(spans: Seq<Span>) -> bool {
    forall|i: int, j: int|
        0 <= i < j < spans.len() ==> inside(#[trigger] spans[j], #[trigger] spans[i]) || apart(
            spans[i],
            spans[j],
        )
}

/// The spans of a document of `total` lines: the first spans all of it, none
/// is empty or reaches outside, and children come after their parents.
pub open spec fn well_formed(spans: Seq<Span>, total: int) -> bool {
    &&& spans.len() >= 1
    &&& spans[0].start == 0
    &&& spans[0].end == total
    &&& forall|i: int|
        0 <= i < spans.len() ==> 0 <= (#[trigger] spans[i]).start < spans[i].end <= total
    &&& ordered(spans)
}

/// Where a line boundary ends up when line `line` is replaced by `count`
/// lines.
pub open spec fn moved(x: int, line: int, count: int) -> int {
    if x > line {
        x + count - 1
    } else {
        x
    }
}

/// A span after line `line` was replaced by `count` lines.
pub open spec fn widened(s: Span, line: int, count: int) -> Span {
    Span { start: moved(s.start, line, count), end: moved(s.end, line, count), file: s.file }
}

/// A span moved down by `by` lines.
pub open spec fn lowered(s: Span, by: int) -> Span {
    Span { start: s.start + by, end: s.end + by, file: s.file }
}

/// All spans after line `line` was replaced by `count` lines.
pub open spec fn all_widened(spans: Seq<Span>, line: int, count: int) -> Seq<Span> {
    spans.map_values(|s: Span| widened(s, line, count))
}

/// All spans moved down by `by` lines.
pub open spec fn all_lowered(spans: Seq<Span>, by: int) -> Seq<Span> {
    spans.map_values(|s: Span| lowered(s, by))
}

/// The spans after line `line` was replaced by `count` lines of `file`.
pub open spec fn after_replace(
    spans: Seq<Span>,
    line: int,
    count: int,
    file: Seq<char>,
) -> Seq<Span> {
    all_widened(spans, line, count).push(Span { start: line, end: line + count, file })
}

/// The spans after line `line` was replaced by a document of `count` lines
/// with the spans `nested`.
pub open spec fn after_splice(
    spans: Seq<Span>,
    line: int,
    count: int,
    nested: Seq<Span>,
) -> Seq<Span> {
    all_widened(spans, line, count) + all_lowered(nested, line)
}

/// What [`last_index`] finds is the greatest index below `n` of which
/// `holds` is true.
pub proof fn lemma_last_index(n: int, holds: spec_fn(int) -> bool)
    ensures
        match last_index(n, holds) {
            Some(o) => 0 <= o < n && holds(o) && forall|j: int| o < j < n ==> !#[trigger] holds(j),
            None => forall|j: int| 0 <= j < n ==> !#[trigger] holds(j),
        },
    decreases n,
{
    if n > 0 {
        lemma_last_index(n - 1, holds);
    }
}

/// What [`last_covering`] finds is the greatest covering index below `n`.
pub proof fn lemma_last_covering(spans: Seq<Span>, line: int, n: int)
    requires
        0 <= n <= spans.len(),
    ensures
        match last_covering(spans, line, n) {
            Some(o) => 0 <= o < n && covers(spans[o], line) && forall|j: int|
                o < j < n ==> !covers(#[trigger] spans[j], line),
            None => forall|j: int| 0 <= j < n ==> !covers(#[trigger] spans[j], line),
        },
{
    let holds = |i: int| covers(spans[i], line);
    lemma_last_index(n, holds);
    match last_index(n, holds) {
        Some(o) => {
            assert forall|j: int| o < j < n implies !covers(#[trigger] spans[j], line) by {
                assert(!holds(j));
            }
        },
        None => {
            assert forall|j: int| 0 <= j < n implies !covers(#[trigger] spans[j], line) by {
                assert(!holds(j));
            }
        },
    }
}

/// What [`last_enclosing`] finds is the greatest enclosing index below `n`.
pub proof fn lemma_last_enclosing(spans: Seq<Span>, inner: Span, n: int)
    requires
        0 <= n <= spans.len(),
    ensures
        match last_enclosing(spans, inner, n) {
            Some(k) => 0 <= k < n && inside(inner, spans[k]) && forall|j: int|
                k < j < n ==> !inside(inner, #[trigger] spans[j]),
            None => forall|j: int| 0 <= j < n ==> !inside(inner, #[trigger] spans[j]),
        },
{
    let holds = |i: int| inside(inner, spans[i]);
    lemma_last_index(n, holds);
    match last_index(n, holds) {
        Some(k) => {
            assert forall|j: int| k < j < n implies !inside(inner, #[trigger] spans[j]) by {
                assert(!holds(j));
            }
        },
        None => {
            assert forall|j: int| 0 <= j < n implies !inside(inner, #[trigger] spans[j]) by {
                assert(!holds(j));
            }
        },
    }
}

/// What [`first_index`] finds is the least index from `from` on that holds
/// `target`.
pub proof fn lemma_first_index(spans: Seq<Span>, target: Span, from: int)
    requires
        0 <= from <= spans.len(),
    ensures
        match first_index(spans, target, from) {
            Some(i) => from <= i < spans.len() && spans[i] == target && forall|j: int|
                from <= j < i ==> #[trigger] spans[j] != target,
            None => forall|j: int| from <= j < spans.len() ==> #[trigger] spans[j] != target,
        },
    decreases spans.len() - from,
{
    if from < spans.len() && spans[from] != target {
        lemma_first_index(spans, target, from + 1);
    }
}

/// Some span among the first `n` is of `file`.
pub open spec fn names_file(spans: Seq<Span>, n: int, file: Seq<char>) -> bool {
    exists|i: int| 0 <= i < n && (#[trigger] spans[i]).file == file
}

/// The files that [`files_of`] lists are the files of the spans, and none
/// is listed twice.
pub proof fn lemma_files_of(spans: Seq<Span>, n: int)
    requires
        0 <= n <= spans.len(),
    ensures
        files_of(spans, n).no_duplicates(),
        forall|file: Seq<char>| #[trigger]
            names_file(spans, n, file) <==> files_of(spans, n).contains(file),
    decreases n,
{
    if n > 0 {
        lemma_files_of(spans, n - 1);
        let before = files_of(spans, n - 1);
        let all = files_of(spans, n);
        let last = spans[n - 1].file;
        assert forall|file: Seq<char>| #[trigger]
            names_file(spans, n, file) <==> all.contains(file) by {
            if all.contains(file) {
                let k = choose|k: int| 0 <= k < all.len() && all[k] == file;
                if k < before.len() {
                    assert(before[k] == file);
                    assert(before.contains(file));
                    assert(names_file(spans, n - 1, file));
                    let i = choose|i: int| 0 <= i < n - 1 && (#[trigger] spans[i]).file == file;
                    assert(spans[i].file == file);
                } else {
                    assert(spans[n - 1].file == file);
                }
            }
            if names_file(spans, n, file) {
                let i = choose|i: int| 0 <= i < n && (#[trigger] spans[i]).file == file;
                if i < n - 1 {
                    assert(names_file(spans, n - 1, file));
                    let k = choose|k: int| 0 <= k < before.len() && before[k] == file;
                    assert(all[k] == file);
                } else if before.contains(last) {
                    let k = choose|k: int| 0 <= k < before.len() && before[k] == file;
                    assert(all[k] == file);
                } else {
                    assert(all[before.len() as int] == file);
                }
            }
        }
    } else {
        assert forall|file: Seq<char>| #[trigger]
            names_file(spans, n, file) <==> files_of(spans, n).contains(file) by {}
    }
}

/// The spans that cover a line end with its owner.
pub proof fn lemma_covering_ends_with_owner(spans: Seq<Span>, line: int, n: int)
    requires
        0 <= n <= spans.len(),
    ensures
        match last_covering(spans, line, n) {
            Some(o) => covering(spans.take(n), line).len() >= 1 && covering(
                spans.take(n),
                line,
            ).last() == spans[o],
            None => covering(spans.take(n), line).len() == 0,
        },
    decreases n,
{
    reveal(Seq::filter);
    let holds = |s: Span| covers(s, line);
    if n > 0 {
        lemma_covering_ends_with_owner(spans, line, n - 1);
        assert(spans.take(n).drop_last() =~= spans.take(n - 1));
        assert(spans.take(n).last() == spans[n - 1]);
    } else {
        assert(spans.take(n).len() == 0);
    }
}

/// In a well-formed document every line has an owner.
pub proof fn lemma_every_line_owned(spans: Seq<Span>, total: int, line: int)
    requires
        well_formed(spans, total),
        0 <= line < total,
    ensures
        owner(spans, line) is Some,
{
    lemma_last_covering(spans, line, spans.len() as int);
    assert(covers(spans[0], line));
}

/// Replacing a line by one or more lines of a file leaves the spans
/// well-formed.
pub proof fn lemma_replace_keeps_form(
    spans: Seq<Span>,
    total: int,
    line: int,
    count: int,
    file: Seq<char>,
)
    requires
        well_formed(spans, total),
        0 <= line < total,
        count >= 1,
    ensures
        well_formed(after_replace(spans, line, count, file), total + count - 1),
{
    let nested = seq![Span { start: 0, end: count, file }];
    lemma_splice_keeps_form(spans, total, line, count, nested);
    assert(all_lowered(nested, line) =~= seq![Span { start: line, end: line + count, file }]);
    assert(after_splice(spans, line, count, nested) =~= after_replace(spans, line, count, file));
}

/// Replacing a line by a well-formed document leaves the spans well-formed.
pub proof fn lemma_splice_keeps_form(
    spans: Seq<Span>,
    total: int,
    line: int,
    count: int,
    nested: Seq<Span>,
)
    requires
        well_formed(spans, total),
        well_formed(nested, count),
        0 <= line < total,
    ensures
        well_formed(after_splice(spans, line, count, nested), total + count - 1),
{
    let old_part = all_widened(spans, line, count);
    let new_part = all_lowered(nested, line);
    let merged = after_splice(spans, line, count, nested);
    assert forall|i: int| 0 <= i < merged.len() implies 0 <= (#[trigger] merged[i]).start
        < merged[i].end <= total + count - 1 by {
        if i < old_part.len() {
            assert(merged[i] == widened(spans[i], line, count));
        } else {
            assert(merged[i] == lowered(nested[i - old_part.len()], line));
        }
    }
    assert forall|i: int, j: int| 0 <= i < j < merged.len() implies inside(
        #[trigger] merged[j],
        #[trigger] merged[i],
    ) || apart(merged[i], merged[j]) by {
        if j < old_part.len() {
            assert(merged[i] == widened(spans[i], line, count));
            assert(merged[j] == widened(spans[j], line, count));
            assert(inside(spans[j], spans[i]) || apart(spans[i], spans[j]));
        } else if i < old_part.len() {
            assert(merged[i] == widened(spans[i], line, count));
            assert(merged[j] == lowered(nested[j - old_part.len()], line));
        } else {
            let a = i - old_part.len();
            let b = j - old_part.len();
            assert(merged[i] == lowered(nested[a], line));
            assert(merged[j] == lowered(nested[b], line));
            assert(inside(nested[b], nested[a]) || apart(nested[a], nested[b]));
        }
    }
    assert(merged[0] == widened(spans[0], line, count));
}

/// The lines covered by the direct children of `o` among the first `n`
/// spans that end at or before `line`.
pub open spec fn shadow(spans: Seq<Span>, o: int, line: int, n: int) -> Set<int>
    decreases n,
{
    if n <= 0 {
        Set::<int>::empty()
    } else {
        let rest = shadow(spans, o, line, n - 1);
        if child_before(spans, o, line, n - 1) {
            rest + set_int_range(spans[n - 1].start, spans[n - 1].end)
        } else {
            rest
        }
    }
}

/// A line in the shadow lies in one of the children that cast it.
proof fn lemma_shadow_source(spans: Seq<Span>, o: int, line: int, n: int, p: int) -> (j: int)
    requires
        shadow(spans, o, line, n).contains(p),
    ensures
        0 <= j < n,
        child_before(spans, o, line, j),
        covers(spans[j], p),
    decreases n,
{
    if n <= 0 {
        0
    } else if child_before(spans, o, line, n - 1) && covers(spans[n - 1], p) {
        n - 1
    } else {
        lemma_shadow_source(spans, o, line, n - 1, p)
    }
}

/// The direct children of an owner that end at or before a line share no
/// lines, so what they added fits between the owner's start and the line.
proof fn lemma_shadow_size(spans: Seq<Span>, total: int, o: int, line: int, n: int)
    requires
        well_formed(spans, total),
        0 <= o < spans.len(),
        covers(spans[o], line),
        0 <= n <= spans.len(),
    ensures
        shadow(spans, o, line, n).finite(),
        shadow(spans, o, line, n).subset_of(set_int_range(spans[o].start, line)),
        0 <= added_before(spans, o, line, n) <= shadow(spans, o, line, n).len(),
    decreases n,
{
    if n > 0 {
        lemma_shadow_size(spans, total, o, line, n - 1);
        let rest = shadow(spans, o, line, n - 1);
        if child_before(spans, o, line, n - 1) {
            let child = spans[n - 1];
            let range = set_int_range(child.start, child.end);
            lemma_int_range(child.start, child.end);
            lemma_last_enclosing(spans, child, n - 1);
            assert forall|p: int| rest.contains(p) implies !range.contains(p) by {
                if range.contains(p) {
                    let j = lemma_shadow_source(spans, o, line, n - 1, p);
                    lemma_last_enclosing(spans, spans[j], j);
                    assert(inside(spans[n - 1], spans[j]) || apart(spans[j], spans[n - 1]));
                }
            }
            assert(rest.disjoint(range));
            lemma_set_disjoint_lens(rest, range);
            assert((rest + range).subset_of(set_int_range(spans[o].start, line)));
        }
    }
}

/// The local line number never falls below zero: the lines that inclusions
/// added above a line are fewer than the lines between the owner's start and
/// that line.
pub proof fn lemma_added_bounded(spans: Seq<Span>, total: int, o: int, line: int, n: int)
    requires
        well_formed(spans, total),
        0 <= o < spans.len(),
        covers(spans[o], line),
        0 <= n <= spans.len(),
    ensures
        0 <= added_before(spans, o, line, n) <= line - spans[o].start,
{
    lemma_shadow_size(spans, total, o, line, n);
    lemma_int_range(spans[o].start, line);
    lemma_len_subset(shadow(spans, o, line, n), set_int_range(spans[o].start, line));
}

} // verus!
