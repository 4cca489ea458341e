//! What a splice does to the origin of lines: the lines above it, the lines
//! it brings and the lines below it all keep the file and the number they
//! had.

use vstd::prelude::*;

use crate::provenance::{
    added_before, after_replace, after_splice, all_lowered, all_widened, apart, child_before,
    covers, extra_lines, inside, last_covering, last_enclosing, last_index,
    lemma_every_line_owned, lemma_last_covering, lemma_last_enclosing, lowered, moved, origin,
    owner, parent, well_formed, widened, Span,
};

verus! {

/// Predicates that agree below `n` have the same last index below `n`.
pub proof fn lemma_last_index_same(n: int, f: spec_fn(int) -> bool, g: spec_fn(int) -> bool)
    requires
        forall|i: int| 0 <= i < n ==> #[trigger] f(i) == g(i),
    ensures
        last_index(n, f) == last_index(n, g),
    decreases n,
{
    if n > 0 {
        lemma_last_index_same(n - 1, f, g);
    }
}

/// Indices of which the predicate is false can be left out at the end.
pub proof fn lemma_last_index_tail(k: int, n: int, f: spec_fn(int) -> bool)
    requires
        k <= n,
        forall|i: int| k <= i < n ==> !#[trigger] f(i),
    ensures
        last_index(n, f) == last_index(k, f),
    decreases n - k,
{
    if k < n {
        lemma_last_index_tail(k, n - 1, f);
    }
}

/// A predicate that is another one moved up by `by` has its last index
/// moved up by `by`.
pub proof fn lemma_last_index_shifted(
    by: int,
    n: int,
    f: spec_fn(int) -> bool,
    g: spec_fn(int) -> bool,
)
    requires
        0 <= by,
        forall|i: int| 0 <= i < n ==> f(by + i) == #[trigger] g(i),
        last_index(n, g) is Some,
    ensures
        last_index(by + n, f) == Some(by + last_index(n, g)->Some_0),
    decreases n,
{
    if n > 0 {
        assert(f(by + (n - 1)) == g(n - 1));
        if !g(n - 1) {
            lemma_last_index_shifted(by, n - 1, f, g);
        }
    }
}

/// Where the children of two owners correspond one to one among the first
/// `n` spans and add the same lines, but for the one at `special`, which
/// adds `delta` more, the sums differ by `delta`.
pub proof fn lemma_added_related(
    a: Seq<Span>,
    oa: int,
    xa: int,
    b: Seq<Span>,
    ob: int,
    xb: int,
    n: int,
    special: int,
    delta: int,
)
    requires
        forall|j: int|
            0 <= j < n ==> child_before(a, oa, xa, j) == #[trigger] child_before(b, ob, xb, j),
        forall|j: int|
            0 <= j < n && #[trigger] child_before(b, ob, xb, j) ==> extra_lines(a[j])
                == extra_lines(b[j]) + if j == special {
                delta
            } else {
                0
            },
        0 <= special < n ==> child_before(b, ob, xb, special),
    ensures
        added_before(a, oa, xa, n) == added_before(b, ob, xb, n) + if 0 <= special < n {
            delta
        } else {
            0
        },
    decreases n,
{
    if n > 0 {
        lemma_added_related(a, oa, xa, b, ob, xb, n - 1, special, delta);
        assert(child_before(a, oa, xa, n - 1) == child_before(b, ob, xb, n - 1));
    }
}

/// Spans that are no children can be left out at the end.
pub proof fn lemma_added_tail(a: Seq<Span>, o: int, x: int, k: int, n: int)
    requires
        k <= n,
        forall|j: int| k <= j < n ==> !#[trigger] child_before(a, o, x, j),
    ensures
        added_before(a, o, x, n) == added_before(a, o, x, k),
    decreases n - k,
{
    if k < n {
        lemma_added_tail(a, o, x, k, n - 1);
        assert(!child_before(a, o, x, n - 1));
    }
}

/// Where the children of an owner from index `by` on correspond one to one
/// to the children of another among its first `n` spans, and add the same
/// lines, the sum splits.
pub proof fn lemma_added_shifted(
    a: Seq<Span>,
    oa: int,
    xa: int,
    by: int,
    b: Seq<Span>,
    ob: int,
    xb: int,
    n: int,
)
    requires
        0 <= by,
        0 <= n,
        forall|j: int|
            0 <= j < n ==> child_before(a, oa, xa, by + j) == #[trigger] child_before(b, ob, xb, j),
        forall|j: int|
            0 <= j < n && #[trigger] child_before(b, ob, xb, j) ==> extra_lines(a[by + j])
                == extra_lines(b[j]),
    ensures
        added_before(a, oa, xa, by + n) == added_before(a, oa, xa, by) + added_before(b, ob, xb, n),
    decreases n,
{
    if n > 0 {
        lemma_added_shifted(a, oa, xa, by, b, ob, xb, n - 1);
        assert(child_before(a, oa, xa, by + (n - 1)) == child_before(b, ob, xb, n - 1));
        assert(by + n - 1 == by + (n - 1));
    }
}

/// The spans after a splice, one by one.
pub proof fn lemma_spliced_spans(spans: Seq<Span>, line: int, count: int, nested: Seq<Span>)
    ensures
        after_splice(spans, line, count, nested).len() == spans.len() + nested.len(),
        forall|i: int|
            0 <= i < spans.len() ==> after_splice(spans, line, count, nested)[i] == widened(
                #[trigger] spans[i],
                line,
                count,
            ),
        forall|i: int|
            0 <= i < nested.len() ==> after_splice(spans, line, count, nested)[spans.len() + i]
                == lowered(#[trigger] nested[i], line),
{
    let kept = all_widened(spans, line, count);
    let added = all_lowered(nested, line);
    assert forall|i: int| 0 <= i < nested.len() implies after_splice(
        spans,
        line,
        count,
        nested,
    )[spans.len() + i] == lowered(#[trigger] nested[i], line) by {
        assert((kept + added)[kept.len() + i] == added[i]);
    }
}

/// Boundaries keep their order when a line is replaced by one or more.
pub proof fn lemma_moved_order(x: int, y: int, line: int, count: int)
    requires
        count >= 1,
    ensures
        x < y <==> moved(x, line, count) < moved(y, line, count),
        x <= y <==> moved(x, line, count) <= moved(y, line, count),
{
}

/// A span that existed before a splice keeps its parent.
pub proof fn lemma_parent_kept(
    spans: Seq<Span>,
    total: int,
    line: int,
    count: int,
    nested: Seq<Span>,
    j: int,
)
    requires
        well_formed(spans, total),
        count >= 1,
        0 <= j < spans.len(),
    ensures
        parent(after_splice(spans, line, count, nested), j) == parent(spans, j),
{
    let merged = after_splice(spans, line, count, nested);
    lemma_spliced_spans(spans, line, count, nested);
    let f = |i: int| inside(merged[j], merged[i]);
    let g = |i: int| inside(spans[j], spans[i]);
    assert forall|i: int| 0 <= i < j implies #[trigger] f(i) == g(i) by {
        assert(merged[i] == widened(spans[i], line, count));
        assert(merged[j] == widened(spans[j], line, count));
        lemma_moved_order(spans[i].start, spans[j].start, line, count);
        lemma_moved_order(spans[j].end, spans[i].end, line, count);
    }
    lemma_last_index_same(j, f, g);
}

/// The first span that a splice brings has for its parent the owner of the
/// line that was replaced.
pub proof fn lemma_parent_of_root(
    spans: Seq<Span>,
    total: int,
    line: int,
    count: int,
    nested: Seq<Span>,
)
    requires
        well_formed(spans, total),
        well_formed(nested, count),
        0 <= line < total,
    ensures
        parent(after_splice(spans, line, count, nested), spans.len() as int) == owner(spans, line),
{
    let merged = after_splice(spans, line, count, nested);
    let n = spans.len() as int;
    lemma_spliced_spans(spans, line, count, nested);
    assert(merged[n + 0] == lowered(nested[0], line));
    let f = |i: int| inside(merged[n], merged[i]);
    let g = |i: int| covers(spans[i], line);
    assert forall|i: int| 0 <= i < n implies #[trigger] f(i) == g(i) by {
        assert(merged[i] == widened(spans[i], line, count));
    }
    lemma_last_index_same(n, f, g);
}

/// Every other span that a splice brings keeps its parent, moved along
/// with it.
pub proof fn lemma_parent_of_nested(
    spans: Seq<Span>,
    total: int,
    line: int,
    count: int,
    nested: Seq<Span>,
    j: int,
)
    requires
        well_formed(spans, total),
        well_formed(nested, count),
        1 <= j < nested.len(),
    ensures
        parent(nested, j) is Some,
        parent(after_splice(spans, line, count, nested), spans.len() + j) == Some(
            spans.len() + parent(nested, j)->Some_0,
        ),
{
    let merged = after_splice(spans, line, count, nested);
    let n = spans.len() as int;
    lemma_spliced_spans(spans, line, count, nested);
    let f = |i: int| inside(merged[n + j], merged[i]);
    let g = |i: int| inside(nested[j], nested[i]);
    assert(merged[n + j] == lowered(nested[j], line));
    assert forall|i: int| 0 <= i < j implies f(n + i) == #[trigger] g(i) by {
        assert(merged[n + i] == lowered(nested[i], line));
    }
    lemma_last_enclosing(nested, nested[j], j);
    assert(inside(nested[j], nested[0]));
    lemma_last_index_shifted(n, j, f, g);
}

/// Between an owner and a later span that covers the same line stands a
/// child of the owner that covers the line.
pub proof fn lemma_child_on_the_way(spans: Seq<Span>, total: int, o: int, line: int, j: int) -> (c:
    int)
    requires
        well_formed(spans, total),
        0 <= o < j < spans.len(),
        covers(spans[o], line),
        covers(spans[j], line),
    ensures
        o < c <= j,
        parent(spans, c) == Some(o),
        covers(spans[c], line),
    decreases j,
{
    lemma_last_enclosing(spans, spans[j], j);
    assert(inside(spans[j], spans[o]) || apart(spans[o], spans[j]));
    let k = parent(spans, j)->Some_0;
    if k == o {
        j
    } else {
        lemma_child_on_the_way(spans, total, o, line, k)
    }
}

/// Two children of one parent share no line.
pub proof fn lemma_children_apart(spans: Seq<Span>, total: int, o: int, a: int, b: int)
    requires
        well_formed(spans, total),
        0 <= a < b < spans.len(),
        parent(spans, a) == Some(o),
        parent(spans, b) == Some(o),
    ensures
        apart(spans[a], spans[b]),
{
    lemma_last_enclosing(spans, spans[a], a);
    lemma_last_enclosing(spans, spans[b], b);
    assert(inside(spans[b], spans[a]) || apart(spans[a], spans[b]));
}

/// The lines that a splice brings keep their origin: line `p` of the
/// nested document is line `line + p` of the merged one, and comes from the
/// same file with the same number.
pub proof fn lemma_origin_within(
    spans: Seq<Span>,
    total: int,
    line: int,
    count: int,
    nested: Seq<Span>,
    p: int,
)
    requires
        well_formed(spans, total),
        well_formed(nested, count),
        0 <= line < total,
        0 <= p < count,
    ensures
        origin(after_splice(spans, line, count, nested), line + p) == origin(nested, p),
{
    let merged = after_splice(spans, line, count, nested);
    let n = spans.len() as int;
    let m = nested.len() as int;
    let x = line + p;
    lemma_spliced_spans(spans, line, count, nested);
    lemma_every_line_owned(nested, count, p);
    let o = owner(nested, p)->Some_0;
    lemma_last_covering(nested, p, m);

    // The owner is the owner within the nested document, moved along.
    let f = |i: int| covers(merged[i], x);
    let g = |i: int| covers(nested[i], p);
    assert forall|i: int| 0 <= i < m implies f(n + i) == #[trigger] g(i) by {
        assert(merged[n + i] == lowered(nested[i], line));
    }
    lemma_last_index_shifted(n, m, f, g);
    assert(owner(merged, x) == Some(n + o));
    assert(merged[n + o] == lowered(nested[o], line));

    // Nothing that was there before is a child of that owner.
    assert forall|j: int| 0 <= j < n implies !#[trigger] child_before(merged, n + o, x, j) by {
        lemma_last_enclosing(merged, merged[j], j);
    }
    lemma_added_tail(merged, n + o, x, 0, n);

    // The children are the children within the nested document.
    assert forall|j: int| 0 <= j < m implies child_before(merged, n + o, x, n + j)
        == #[trigger] child_before(nested, o, p, j) by {
        assert(merged[n + j] == lowered(nested[j], line));
        if j == 0 {
            lemma_last_enclosing(merged, merged[n], n);
            lemma_last_enclosing(nested, nested[0], 0);
        } else {
            lemma_parent_of_nested(spans, total, line, count, nested, j);
        }
    }
    assert forall|j: int|
        0 <= j < m && #[trigger] child_before(nested, o, p, j) implies extra_lines(merged[n + j])
        == extra_lines(nested[j]) by {
        assert(merged[n + j] == lowered(nested[j], line));
    }
    lemma_added_shifted(merged, n + o, x, n, nested, o, p, m);
    assert(added_before(merged, n + o, x, 0) == 0);
}

/// The lines above a splice keep their place and their origin.
pub proof fn lemma_origin_above(
    spans: Seq<Span>,
    total: int,
    line: int,
    count: int,
    nested: Seq<Span>,
    p: int,
)
    requires
        well_formed(spans, total),
        well_formed(nested, count),
        0 <= p < line < total,
    ensures
        origin(after_splice(spans, line, count, nested), p) == origin(spans, p),
{
    let merged = after_splice(spans, line, count, nested);
    let n = spans.len() as int;
    let m = nested.len() as int;
    lemma_spliced_spans(spans, line, count, nested);
    lemma_every_line_owned(spans, total, p);
    let o = owner(spans, p)->Some_0;
    lemma_last_covering(spans, p, n);

    // The same spans cover the line.
    let f = |i: int| covers(merged[i], p);
    let g = |i: int| covers(spans[i], p);
    assert forall|i: int| 0 <= i < n implies #[trigger] f(i) == g(i) by {
        assert(merged[i] == widened(spans[i], line, count));
    }
    assert forall|i: int| n <= i < n + m implies !#[trigger] f(i) by {
        assert(merged[n + (i - n)] == lowered(nested[i - n], line));
    }
    lemma_last_index_tail(n, n + m, f);
    lemma_last_index_same(n, f, g);
    assert(owner(merged, p) == Some(o));
    assert(merged[o] == widened(spans[o], line, count));

    // The same children end above the line, and they add the same lines.
    assert forall|j: int| 0 <= j < n implies child_before(merged, o, p, j)
        == #[trigger] child_before(spans, o, p, j) by {
        lemma_parent_kept(spans, total, line, count, nested, j);
        assert(merged[j] == widened(spans[j], line, count));
    }
    assert forall|j: int| 0 <= j < n && #[trigger] child_before(spans, o, p, j) implies extra_lines(
        merged[j],
    ) == extra_lines(spans[j]) + if j == -1 {
        0int
    } else {
        0int
    } by {
        assert(merged[j] == widened(spans[j], line, count));
    }
    lemma_added_related(merged, o, p, spans, o, p, n, -1, 0);
    assert forall|j: int| n <= j < n + m implies !#[trigger] child_before(merged, o, p, j) by {
        assert(merged[n + (j - n)] == lowered(nested[j - n], line));
    }
    lemma_added_tail(merged, o, p, n, n + m);
}

/// The lines below a splice keep their origin: line `q` of the old
/// document is line `q + count - 1` of the merged one, and comes from the
/// same file with the same number.
pub proof fn lemma_origin_below(
    spans: Seq<Span>,
    total: int,
    line: int,
    count: int,
    nested: Seq<Span>,
    q: int,
)
    requires
        well_formed(spans, total),
        well_formed(nested, count),
        0 <= line < q < total,
    ensures
        origin(after_splice(spans, line, count, nested), q + count - 1) == origin(spans, q),
{
    let merged = after_splice(spans, line, count, nested);
    let n = spans.len() as int;
    let m = nested.len() as int;
    let x = q + count - 1;
    lemma_spliced_spans(spans, line, count, nested);
    lemma_every_line_owned(spans, total, q);
    let o = owner(spans, q)->Some_0;
    lemma_last_covering(spans, q, n);

    // The same spans cover the line.
    let f = |i: int| covers(merged[i], x);
    let g = |i: int| covers(spans[i], q);
    assert forall|i: int| 0 <= i < n implies #[trigger] f(i) == g(i) by {
        assert(merged[i] == widened(spans[i], line, count));
    }
    assert forall|i: int| n <= i < n + m implies !#[trigger] f(i) by {
        assert(merged[n + (i - n)] == lowered(nested[i - n], line));
    }
    lemma_last_index_tail(n, n + m, f);
    lemma_last_index_same(n, f, g);
    assert(owner(merged, x) == Some(o));
    assert(merged[o] == widened(spans[o], line, count));

    // The same spans are children that end above the line.
    assert forall|j: int| 0 <= j < n implies child_before(merged, o, x, j)
        == #[trigger] child_before(spans, o, q, j) by {
        lemma_parent_kept(spans, total, line, count, nested, j);
        assert(merged[j] == widened(spans[j], line, count));
    }
    // Of what the splice brought, only its first span can be a child.
    assert forall|j: int| n + 1 <= j < n + m implies !#[trigger] child_before(merged, o, x, j) by {
        lemma_parent_of_nested(spans, total, line, count, nested, j - n);
        lemma_last_enclosing(nested, nested[j - n], j - n);
        assert(n + (j - n) == j);
    }
    lemma_added_tail(merged, o, x, n + 1, n + m);
    lemma_parent_of_root(spans, total, line, count, nested);
    lemma_every_line_owned(spans, total, line);
    lemma_last_covering(spans, line, n);
    let at_line = owner(spans, line)->Some_0;
    assert(merged[n + 0] == lowered(nested[0], line));
    assert(extra_lines(merged[n]) == count - 1);
    assert(merged[n].end <= x);

    if spans[o].start > line {
        // The owner lies below the splice and moves as a whole.
        assert forall|j: int|
            0 <= j < n && #[trigger] child_before(spans, o, q, j) implies extra_lines(merged[j])
            == extra_lines(spans[j]) + if j == -1 {
            0int
        } else {
            0int
        } by {
            assert(merged[j] == widened(spans[j], line, count));
            lemma_last_enclosing(spans, spans[j], j);
        }
        lemma_added_related(merged, o, x, spans, o, q, n, -1, 0);
        assert(at_line != o);
        assert(!child_before(merged, o, x, n));
    } else if at_line == o {
        // The owner owns the replaced line too: what was brought is its
        // child, and that child alone grew.
        assert forall|j: int|
            0 <= j < n && #[trigger] child_before(spans, o, q, j) implies extra_lines(merged[j])
            == extra_lines(spans[j]) + if j == -1 {
            0int
        } else {
            0int
        } by {
            assert(merged[j] == widened(spans[j], line, count));
            lemma_last_enclosing(spans, spans[j], j);
            assert(!covers(spans[j], line));
        }
        lemma_added_related(merged, o, x, spans, o, q, n, -1, 0);
        assert(child_before(merged, o, x, n));
    } else {
        // A child of the owner holds the replaced line, and that child
        // alone grew.
        let c = lemma_child_on_the_way(spans, total, o, line, at_line);
        assert(!covers(spans[c], q));
        assert(child_before(spans, o, q, c));
        assert forall|j: int|
            0 <= j < n && #[trigger] child_before(spans, o, q, j) implies extra_lines(merged[j])
            == extra_lines(spans[j]) + if j == c {
            count - 1
        } else {
            0int
        } by {
            assert(merged[j] == widened(spans[j], line, count));
            if j < c {
                lemma_children_apart(spans, total, o, j, c);
            } else if c < j {
                lemma_children_apart(spans, total, o, c, j);
            }
        }
        lemma_added_related(merged, o, x, spans, o, q, n, c, count - 1);
        assert(!child_before(merged, o, x, n));
    }
}

/// The same for a line replaced by lines of one file: the lines above and
/// below keep their origin, and the new lines come from `file`, numbered
/// from zero.
pub proof fn lemma_origin_after_replace(
    spans: Seq<Span>,
    total: int,
    line: int,
    count: int,
    file: Seq<char>,
    p: int,
)
    requires
        well_formed(spans, total),
        0 <= line < total,
        count >= 1,
        0 <= p < total + count - 1,
    ensures
        origin(after_replace(spans, line, count, file), p) == if p < line {
            origin(spans, p)
        } else if p < line + count {
            Some((file, p - line))
        } else {
            origin(spans, p - count + 1)
        },
{
    let nested = seq![Span { start: 0, end: count, file }];
    assert(all_lowered(nested, line) =~= seq![Span { start: line, end: line + count, file }]);
    assert(after_splice(spans, line, count, nested) =~= after_replace(spans, line, count, file));
    if p < line {
        lemma_origin_above(spans, total, line, count, nested, p);
    } else if p < line + count {
        lemma_origin_within(spans, total, line, count, nested, p - line);
        let inner = p - line;
        assert(covers(nested[0], inner));
        assert(last_covering(nested, inner, 0) is None);
        assert(owner(nested, inner) == Some(0int));
        assert(last_enclosing(nested, nested[0], 0) is None);
        assert(added_before(nested, 0, inner, 0) == 0);
        assert(added_before(nested, 0, inner, 1) == 0);
    } else {
        lemma_origin_below(spans, total, line, count, nested, p - count + 1);
    }
}

} // verus!
