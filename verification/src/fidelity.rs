//! The merged text is faithful to the files it was made of: every line of
//! it is the line of the file that its origin names, or the emptied line of
//! a directive there.

use vstd::prelude::*;

use crate::preprocessor::{
    fresh, lemma_fresh_is_plain, lemma_splice_keeps_lines, spliced, Document,
};
use crate::provenance::{lemma_splice_keeps_form, origin, well_formed};
use crate::resolution::{
    all_admitted, blanked, directive_name, directory_of, expand, extends, is_resolution, jobs_in,
    jobs_of, lemma_include_once, loaded, resolve, with_file, Answer, Job, Resolved,
};
use crate::text::{lemma_split_shape, lines_of, newline};
use crate::PathView;

verus! {

/// The lines of the files that a resolution took in, by file.
pub open spec fn sources(
    schemes: Seq<Seq<char>>,
    answers: Seq<Answer>,
    path: Seq<char>,
    used: Seq<Seq<char>>,
) -> Map<Seq<char>, Seq<Seq<char>>>
    decreases answers.len(), 0int,
{
    let first = loaded(schemes, answers, path);
    match first.content {
        Err(_) => Map::empty(),
        Ok(text) => if first.rest.len() < answers.len() {
            expand_sources(
                schemes,
                first.rest,
                map![path => lines_of(text)],
                jobs_of(text, path),
                0,
                with_file(used, path),
            )
        } else {
            Map::empty()
        },
    }
}

/// The lines known after the directives from the `k`-th on are expanded,
/// where `known` holds the lines known before.
pub open spec fn expand_sources(
    schemes: Seq<Seq<char>>,
    answers: Seq<Answer>,
    known: Map<Seq<char>, Seq<Seq<char>>>,
    jobs: Seq<Job>,
    k: int,
    used: Seq<Seq<char>>,
) -> Map<Seq<char>, Seq<Seq<char>>>
    decreases answers.len(), 1 + jobs.len() - k,
{
    if k < 0 || k >= jobs.len() {
        known
    } else {
        let job = jobs[k];
        if used.contains(job.target) {
            expand_sources(schemes, answers, known, jobs, k + 1, used)
        } else {
            let pushed = used.push(job.target);
            let inner = resolve(schemes, answers, job.target, pushed);
            match inner.doc {
                Err(_) => known,
                Ok(_) => if inner.fits && inner.rest.len() < answers.len() {
                    expand_sources(
                        schemes,
                        inner.rest,
                        known.union_prefer_right(sources(schemes, answers, job.target, pushed)),
                        jobs,
                        k + 1,
                        inner.used,
                    )
                } else {
                    known
                },
            }
        }
    }
}

/// Line `p` of `doc` is the line that its origin names in `texts`, or it is
/// empty and that line is a directive.
pub open spec fn line_comes_from(
    doc: Document,
    texts: Map<Seq<char>, Seq<Seq<char>>>,
    p: int,
) -> bool {
    match origin(doc.spans, p) {
        None => false,
        Some((file, local)) => {
            &&& texts.dom().contains(file)
            &&& 0 <= local < texts[file].len()
            &&& (doc.lines[p] == texts[file][local] || (doc.lines[p].len() == 0 && directive_name(
                texts[file][local],
            ) is Some))
        },
    }
}

/// `doc` is well-formed and every line of it comes from `texts`.
pub open spec fn faithful(doc: Document, texts: Map<Seq<char>, Seq<Seq<char>>>) -> bool {
    &&& well_formed(doc.spans, doc.lines.len() as int)
    &&& forall|p: int| 0 <= p < doc.lines.len() ==> #[trigger] line_comes_from(doc, texts, p)
}

/// Every file of `texts` is `path` or not among `base`.
pub open spec fn only_new(
    texts: Map<Seq<char>, Seq<Seq<char>>>,
    path: Seq<char>,
    base: Seq<Seq<char>>,
) -> bool {
    forall|file: Seq<char>| #[trigger]
        texts.dom().contains(file) ==> file == path || !base.contains(file)
}

/// Every file of `texts` is among `used`.
pub open spec fn all_used(texts: Map<Seq<char>, Seq<Seq<char>>>, used: Seq<Seq<char>>) -> bool {
    forall|file: Seq<char>| #[trigger] texts.dom().contains(file) ==> used.contains(file)
}

/// `used` with `file` at the end holds `file` and all of `used`.
pub proof fn lemma_pushed(used: Seq<Seq<char>>, file: Seq<char>)
    ensures
        used.push(file).contains(file),
        extends(used.push(file), used),
        with_file(used.push(file), file) == used.push(file),
{
    let pushed = used.push(file);
    assert(pushed[used.len() as int] == file);
    assert forall|other: Seq<char>| used.contains(other) implies pushed.contains(other) by {
        let i = choose|i: int| 0 <= i < used.len() && used[i] == other;
        assert(pushed[i] == other);
    }
}

/// `used` with `file` in it holds `file` and all of `used`.
pub proof fn lemma_with_file(used: Seq<Seq<char>>, file: Seq<char>)
    ensures
        with_file(used, file).contains(file),
        extends(with_file(used, file), used),
{
    if !used.contains(file) {
        lemma_pushed(used, file);
    }
}

/// The files that a resolution took in are the file asked for and files
/// that were not used before, and all of them are used after it.
pub proof fn lemma_sources_domain(
    schemes: Seq<Seq<char>>,
    answers: Seq<Answer>,
    path: Seq<char>,
    used: Seq<Seq<char>>,
)
    ensures
        only_new(sources(schemes, answers, path, used), path, with_file(used, path)),
        resolve(schemes, answers, path, used).doc is Ok ==> all_used(
            sources(schemes, answers, path, used),
            resolve(schemes, answers, path, used).used,
        ),
    decreases answers.len(), 0int,
{
    let first = loaded(schemes, answers, path);
    let base = with_file(used, path);
    lemma_with_file(used, path);
    match first.content {
        Err(_) => {},
        Ok(text) => {
            if first.rest.len() < answers.len() {
                let known = map![path => lines_of(text)];
                lemma_expand_sources_domain(
                    schemes,
                    first.rest,
                    fresh(text, path),
                    known,
                    jobs_of(text, path),
                    0,
                    0,
                    base,
                    path,
                    base,
                );
            }
        },
    }
}

/// Expanding directives keeps what [`lemma_sources_domain`] says.
proof fn lemma_expand_sources_domain(
    schemes: Seq<Seq<char>>,
    answers: Seq<Answer>,
    doc: Document,
    known: Map<Seq<char>, Seq<Seq<char>>>,
    jobs: Seq<Job>,
    k: int,
    offset: int,
    used: Seq<Seq<char>>,
    path: Seq<char>,
    base: Seq<Seq<char>>,
)
    requires
        only_new(known, path, base),
        all_used(known, used),
        extends(used, base),
    ensures
        only_new(expand_sources(schemes, answers, known, jobs, k, used), path, base),
        expand(schemes, answers, doc, jobs, k, offset, used).doc is Ok ==> all_used(
            expand_sources(schemes, answers, known, jobs, k, used),
            expand(schemes, answers, doc, jobs, k, offset, used).used,
        ),
    decreases answers.len(), 1 + jobs.len() - k,
{
    if 0 <= k < jobs.len() {
        let job = jobs[k];
        if used.contains(job.target) {
            lemma_expand_sources_domain(
                schemes,
                answers,
                blanked(doc, job.line + offset),
                known,
                jobs,
                k + 1,
                offset,
                used,
                path,
                base,
            );
        } else {
            let pushed = used.push(job.target);
            let inner = resolve(schemes, answers, job.target, pushed);
            lemma_pushed(used, job.target);
            lemma_sources_domain(schemes, answers, job.target, pushed);
            lemma_include_once(schemes, answers, job.target, pushed);
            match inner.doc {
                Err(_) => {},
                Ok(nested) => {
                    if inner.fits && inner.rest.len() < answers.len() {
                        let more = sources(schemes, answers, job.target, pushed);
                        let all = known.union_prefer_right(more);
                        assert forall|file: Seq<char>| #[trigger]
                            all.dom().contains(file) implies file == path || !base.contains(
                            file,
                        ) by {
                            if more.dom().contains(file) {
                                assert(!used.contains(file)) by {
                                    if file != job.target {
                                        assert(!pushed.contains(file));
                                    }
                                }
                            }
                        }
                        assert forall|file: Seq<char>| #[trigger]
                            all.dom().contains(file) implies inner.used.contains(file) by {
                            if !more.dom().contains(file) {
                                assert(known.dom().contains(file));
                                assert(used.contains(file));
                                assert(pushed.contains(file));
                            }
                        }
                        lemma_expand_sources_domain(
                            schemes,
                            inner.rest,
                            spliced(doc, job.line + offset, nested),
                            all,
                            jobs,
                            k + 1,
                            offset + nested.lines.len() - 1,
                            inner.used,
                            path,
                            base,
                        );
                    }
                },
            }
        }
    }
}

/// The directives found in a text stand in lines of the text, in rising
/// order, and each of those lines is a directive.
pub proof fn lemma_jobs_in_order(lines: Seq<Seq<char>>, dir: PathView, n: int)
    requires
        0 <= n <= lines.len(),
    ensures
        in_order(jobs_in(lines, dir, n), lines.take(n)),
    decreases n,
{
    if n > 0 {
        lemma_jobs_in_order(lines, dir, n - 1);
        let before = jobs_in(lines, dir, n - 1);
        let all = jobs_in(lines, dir, n);
        let start = lines.take(n);
        assert forall|j: int| 0 <= j < all.len() implies 0 <= (#[trigger] all[j]).line
            < start.len() && directive_name(start[all[j].line]) is Some by {
            if j < before.len() {
                assert(all[j] == before[j]);
                assert(lines.take(n - 1)[before[j].line] == start[before[j].line]);
            }
        }
        assert forall|i: int, j: int| 0 <= i < j < all.len() implies (#[trigger] all[i]).line < (
        #[trigger] all[j]).line by {
            assert(all[i] == before[i]);
            if j < before.len() {
                assert(all[j] == before[j]);
            }
        }
    }
}

/// What holds while the directives of a file are expanded: the document is
/// faithful to the lines known, it has grown by `offset` lines, the file's
/// own lines are known, every file known is used, and each directive still
/// to come stands where the offset says, untouched.
pub open spec fn on_track(
    doc: Document,
    known: Map<Seq<char>, Seq<Seq<char>>>,
    jobs: Seq<Job>,
    k: int,
    offset: int,
    used: Seq<Seq<char>>,
    path: Seq<char>,
    start: Seq<Seq<char>>,
) -> bool {
    &&& faithful(doc, known)
    &&& 0 <= offset
    &&& doc.lines.len() == start.len() + offset
    &&& known.dom().contains(path)
    &&& known[path] == start
    &&& all_used(known, used)
    &&& forall|j: int|
        k <= j < jobs.len() ==> origin(doc.spans, (#[trigger] jobs[j]).line + offset) == Some(
            (path, jobs[j].line),
        ) && doc.lines[jobs[j].line + offset] == start[jobs[j].line]
}

/// The directives stand in lines of `start`, in rising order, and each of
/// those lines is a directive.
pub open spec fn in_order(jobs: Seq<Job>, start: Seq<Seq<char>>) -> bool {
    &&& forall|j: int|
        0 <= j < jobs.len() ==> 0 <= (#[trigger] jobs[j]).line < start.len() && directive_name(
            start[jobs[j].line],
        ) is Some
    &&& forall|i: int, j: int|
        0 <= i < j < jobs.len() ==> (#[trigger] jobs[i]).line < (#[trigger] jobs[j]).line
}

/// Emptying the line of the next directive keeps the expansion on track.
proof fn lemma_on_track_skipped(
    doc: Document,
    known: Map<Seq<char>, Seq<Seq<char>>>,
    jobs: Seq<Job>,
    k: int,
    offset: int,
    used: Seq<Seq<char>>,
    path: Seq<char>,
    start: Seq<Seq<char>>,
)
    requires
        on_track(doc, known, jobs, k, offset, used, path, start),
        in_order(jobs, start),
        0 <= k < jobs.len(),
    ensures
        on_track(
            blanked(doc, jobs[k].line + offset),
            known,
            jobs,
            k + 1,
            offset,
            used,
            path,
            start,
        ),
{
    let at = jobs[k].line + offset;
    let next = blanked(doc, at);
    assert forall|p: int| 0 <= p < next.lines.len() implies #[trigger] line_comes_from(
        next,
        known,
        p,
    ) by {
        assert(line_comes_from(doc, known, p));
    }
    assert forall|j: int| k + 1 <= j < jobs.len() implies origin(
        next.spans,
        (#[trigger] jobs[j]).line + offset,
    ) == Some((path, jobs[j].line)) && next.lines[jobs[j].line + offset] == start[jobs[j].line] by {
        assert(jobs[k].line < jobs[j].line);
    }
}

/// Splicing a faithful document in at the line of the next directive keeps
/// the expansion on track.
proof fn lemma_on_track_included(
    doc: Document,
    known: Map<Seq<char>, Seq<Seq<char>>>,
    jobs: Seq<Job>,
    k: int,
    offset: int,
    used: Seq<Seq<char>>,
    path: Seq<char>,
    start: Seq<Seq<char>>,
    nested: Document,
    more: Map<Seq<char>, Seq<Seq<char>>>,
    after: Seq<Seq<char>>,
)
    requires
        on_track(doc, known, jobs, k, offset, used, path, start),
        in_order(jobs, start),
        0 <= k < jobs.len(),
        faithful(nested, more),
        forall|file: Seq<char>| #[trigger] more.dom().contains(file) ==> !used.contains(file),
        all_used(more, after),
        extends(after, used),
    ensures
        on_track(
            spliced(doc, jobs[k].line + offset, nested),
            known.union_prefer_right(more),
            jobs,
            k + 1,
            offset + nested.lines.len() - 1,
            after,
            path,
            start,
        ),
{
    let at = jobs[k].line + offset;
    let count = nested.lines.len() as int;
    let next = spliced(doc, at, nested);
    let all = known.union_prefer_right(more);
    lemma_splice_keeps_form(doc.spans, doc.lines.len() as int, at, count, nested.spans);
    assert(next.lines.len() == doc.lines.len() + count - 1);
    assert forall|p: int| 0 <= p < next.lines.len() implies #[trigger] line_comes_from(
        next,
        all,
        p,
    ) by {
        lemma_splice_keeps_lines(doc, at, nested, p);
        if p < at {
            assert(line_comes_from(doc, known, p));
        } else if p < at + count {
            assert(line_comes_from(nested, more, p - at));
        } else {
            assert(line_comes_from(doc, known, p - count + 1));
        }
    }
    assert forall|file: Seq<char>| #[trigger] all.dom().contains(file) implies after.contains(
        file,
    ) by {
        if !more.dom().contains(file) {
            assert(known.dom().contains(file));
            assert(used.contains(file));
        }
    }
    assert forall|j: int| k + 1 <= j < jobs.len() implies origin(
        next.spans,
        (#[trigger] jobs[j]).line + (offset + count - 1),
    ) == Some((path, jobs[j].line)) && next.lines[jobs[j].line + (offset + count - 1)]
        == start[jobs[j].line] by {
        assert(jobs[k].line < jobs[j].line);
        lemma_splice_keeps_lines(doc, at, nested, jobs[j].line + offset + count - 1);
    }
}

/// The document that a resolution gives is faithful to the files it took
/// in: every line of the merged text has an origin, and is the line of that
/// number in that file, or the emptied line of a directive there.
pub proof fn lemma_resolve_is_faithful(
    schemes: Seq<Seq<char>>,
    answers: Seq<Answer>,
    path: Seq<char>,
    used: Seq<Seq<char>>,
)
    ensures
        resolve(schemes, answers, path, used).doc matches Ok(doc) ==> faithful(
            doc,
            sources(schemes, answers, path, used),
        ),
    decreases answers.len(), 0int,
{
    let first = loaded(schemes, answers, path);
    let base = with_file(used, path);
    match first.content {
        Err(_) => {},
        Ok(text) => {
            if first.rest.len() < answers.len() {
                let doc = fresh(text, path);
                let start = lines_of(text);
                let jobs = jobs_of(text, path);
                let known = map![path => start];
                lemma_with_file(used, path);
                lemma_split_shape(text, newline());
                lemma_jobs_in_order(start, directory_of(path), start.len() as int);
                assert(start.take(start.len() as int) =~= start);
                assert forall|p: int| 0 <= p < doc.lines.len() implies #[trigger] line_comes_from(
                    doc,
                    known,
                    p,
                ) by {
                    lemma_fresh_is_plain(text, path, p);
                }
                assert forall|j: int| 0 <= j < jobs.len() implies origin(
                    doc.spans,
                    (#[trigger] jobs[j]).line + 0,
                ) == Some((path, jobs[j].line)) && doc.lines[jobs[j].line + 0]
                    == start[jobs[j].line] by {
                    lemma_fresh_is_plain(text, path, jobs[j].line);
                }
                lemma_fresh_is_plain(text, path, 0);
                lemma_expand_is_faithful(
                    schemes,
                    first.rest,
                    doc,
                    known,
                    jobs,
                    0,
                    0,
                    base,
                    path,
                    start,
                );
            }
        },
    }
}

/// Expanding directives keeps the document faithful.
proof fn lemma_expand_is_faithful(
    schemes: Seq<Seq<char>>,
    answers: Seq<Answer>,
    doc: Document,
    known: Map<Seq<char>, Seq<Seq<char>>>,
    jobs: Seq<Job>,
    k: int,
    offset: int,
    used: Seq<Seq<char>>,
    path: Seq<char>,
    start: Seq<Seq<char>>,
)
    requires
        on_track(doc, known, jobs, k, offset, used, path, start),
        in_order(jobs, start),
        0 <= k,
    ensures
        expand(schemes, answers, doc, jobs, k, offset, used).doc matches Ok(grown) ==> faithful(
            grown,
            expand_sources(schemes, answers, known, jobs, k, used),
        ),
    decreases answers.len(), 1 + jobs.len() - k,
{
    if k < jobs.len() {
        let job = jobs[k];
        if used.contains(job.target) {
            lemma_on_track_skipped(doc, known, jobs, k, offset, used, path, start);
            lemma_expand_is_faithful(
                schemes,
                answers,
                blanked(doc, job.line + offset),
                known,
                jobs,
                k + 1,
                offset,
                used,
                path,
                start,
            );
        } else {
            let pushed = used.push(job.target);
            let inner = resolve(schemes, answers, job.target, pushed);
            match inner.doc {
                Err(_) => {},
                Ok(nested) => {
                    if inner.fits && inner.rest.len() < answers.len() {
                        let more = sources(schemes, answers, job.target, pushed);
                        lemma_pushed(used, job.target);
                        lemma_resolve_is_faithful(schemes, answers, job.target, pushed);
                        lemma_sources_domain(schemes, answers, job.target, pushed);
                        lemma_include_once(schemes, answers, job.target, pushed);
                        assert forall|file: Seq<char>| #[trigger]
                            more.dom().contains(file) implies !used.contains(file) by {
                            if file != job.target {
                                assert(!pushed.contains(file));
                            }
                        }
                        assert(extends(inner.used, used));
                        lemma_on_track_included(
                            doc,
                            known,
                            jobs,
                            k,
                            offset,
                            used,
                            path,
                            start,
                            nested,
                            more,
                            inner.used,
                        );
                        lemma_expand_is_faithful(
                            schemes,
                            inner.rest,
                            spliced(doc, job.line + offset, nested),
                            known.union_prefer_right(more),
                            jobs,
                            k + 1,
                            offset + nested.lines.len() - 1,
                            inner.used,
                            path,
                            start,
                        );
                    }
                },
            }
        }
    }
}

/// The lines that a resolution knows of the file asked for are the lines
/// of the text that the backend gave for it.
pub proof fn lemma_sources_hold_the_file(
    schemes: Seq<Seq<char>>,
    answers: Seq<Answer>,
    path: Seq<char>,
    used: Seq<Seq<char>>,
)
    ensures
        resolve(schemes, answers, path, used).doc is Ok ==> (loaded(
            schemes,
            answers,
            path,
        ).content matches Ok(text) && sources(schemes, answers, path, used).dom().contains(path)
            && sources(schemes, answers, path, used)[path] == lines_of(text)),
{
    let first = loaded(schemes, answers, path);
    match first.content {
        Err(_) => {},
        Ok(text) => {
            if first.rest.len() < answers.len() {
                lemma_with_file(used, path);
                lemma_expand_sources_keep(
                    schemes,
                    first.rest,
                    fresh(text, path),
                    map![path => lines_of(text)],
                    jobs_of(text, path),
                    0,
                    0,
                    with_file(used, path),
                    path,
                    lines_of(text),
                );
            }
        },
    }
}

/// Expanding directives leaves the lines of a file known and used as they
/// are.
proof fn lemma_expand_sources_keep(
    schemes: Seq<Seq<char>>,
    answers: Seq<Answer>,
    doc: Document,
    known: Map<Seq<char>, Seq<Seq<char>>>,
    jobs: Seq<Job>,
    k: int,
    offset: int,
    used: Seq<Seq<char>>,
    file: Seq<char>,
    lines: Seq<Seq<char>>,
)
    requires
        known.dom().contains(file),
        known[file] == lines,
        used.contains(file),
    ensures
        expand_sources(schemes, answers, known, jobs, k, used).dom().contains(file),
        expand_sources(schemes, answers, known, jobs, k, used)[file] == lines,
    decreases answers.len(), 1 + jobs.len() - k,
{
    if 0 <= k < jobs.len() {
        let job = jobs[k];
        if used.contains(job.target) {
            lemma_expand_sources_keep(
                schemes,
                answers,
                blanked(doc, job.line + offset),
                known,
                jobs,
                k + 1,
                offset,
                used,
                file,
                lines,
            );
        } else {
            let pushed = used.push(job.target);
            let inner = resolve(schemes, answers, job.target, pushed);
            match inner.doc {
                Err(_) => {},
                Ok(nested) => {
                    if inner.fits && inner.rest.len() < answers.len() {
                        let more = sources(schemes, answers, job.target, pushed);
                        lemma_pushed(used, job.target);
                        lemma_sources_domain(schemes, answers, job.target, pushed);
                        lemma_include_once(schemes, answers, job.target, pushed);
                        assert(!more.dom().contains(file)) by {
                            if more.dom().contains(file) && file != job.target {
                                assert(!pushed.contains(file));
                            }
                        }
                        assert(pushed.contains(file));
                        lemma_expand_sources_keep(
                            schemes,
                            inner.rest,
                            spliced(doc, job.line + offset, nested),
                            known.union_prefer_right(more),
                            jobs,
                            k + 1,
                            offset + nested.lines.len() - 1,
                            inner.used,
                            file,
                            lines,
                        );
                    }
                },
            }
        }
    }
}

/// What a load hands out is faithful to files that some sequence of
/// answers gave: the contract of the loader and
/// [`lemma_resolve_is_faithful`] put together.
pub proof fn lemma_resolution_is_faithful(
    schemes: Seq<Seq<char>>,
    admits: spec_fn(Answer) -> bool,
    path: Seq<char>,
    used: Seq<Seq<char>>,
    doc: Document,
    after: Seq<Seq<char>>,
)
    requires
        is_resolution(schemes, admits, path, used, Ok(doc), after),
    ensures
        exists|answers: Seq<Answer>|
            all_admitted(answers, admits) && resolve(schemes, answers, path, used).doc == Ok::<
                Document,
                Seq<char>,
            >(doc) && faithful(doc, #[trigger] sources(schemes, answers, path, used)),
{
    let answers = choose|answers: Seq<Answer>|
        all_admitted(answers, admits) && #[trigger] resolve(schemes, answers, path, used)
            == (Resolved { doc: Ok(doc), used: after, rest: Seq::empty(), fits: true });
    lemma_resolve_is_faithful(schemes, answers, path, used);
    assert(faithful(doc, sources(schemes, answers, path, used)));
}

} // verus!
