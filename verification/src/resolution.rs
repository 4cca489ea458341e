//! What resolving a file means: the merged document as a function of the
//! registered schemes, the path asked for, the files already used and the
//! answers that the backends gave, in the order they were asked.

use vstd::prelude::*;

use crate::pattern::captured;
use crate::preprocessor::{fresh, scheme_split, spliced, Document};
use crate::provenance::{all_lowered, all_widened, files_in};
use crate::{joined, parent_of, parse_path, rendered, PathView};

verus! {

/// The pattern that finds a directive in a line: optional white space, `#`,
/// an optional `pragma`, `include_once`, then the file name between a
/// space, `<` or `"` and `>`, `"` or the end of the line.
pub const INCLUDE_PATTERN: &'static str =
    r#"\s*(#(?:pragma)? ?include_once *[ <"](?P<filename>[^\n\r"<>]*)[>"\n\r]?)"#;

/// The number of the capture group that holds the file name of a directive.
pub const FILE_NAME_GROUP: usize = 2;

/// The scheme that a path without a scheme is loaded through.
pub const DEFAULT_SCHEME: &'static str = "file";

/// The scheme that `path` is loaded through.
pub open spec fn scheme_of(path: Seq<char>) -> Seq<char> {
    match scheme_split(path).0 {
        Some(scheme) => scheme,
        None => DEFAULT_SCHEME@,
    }
}

/// The message for a path whose scheme no backend is registered for.
pub open spec fn unsupported_message(scheme: Seq<char>, path: Seq<char>) -> Seq<char> {
    "Unsupported protocol: "@ + scheme + " ("@ + path + ")"@
}

/// The message for a file without content.
pub open spec fn empty_message(path: Seq<char>) -> Seq<char> {
    "Empty files ("@ + path + ") are unsupported because of technical reasons, sorry :("@
}

/// What a backend's answer is worth: its error stands, content is taken
/// unless it is empty.
pub open spec fn checked(path: Seq<char>, outcome: Result<Seq<char>, Seq<char>>) -> Result<
    Seq<char>,
    Seq<char>,
> {
    match outcome {
        Err(error) => Err(error),
        Ok(text) => if text.len() == 0 {
            Err(empty_message(path))
        } else {
            Ok(text)
        },
    }
}

/// An answer of a backend: the scheme whose backend was asked, the path it
/// was asked for, and what it gave.
pub ghost struct Answer {
    pub scheme: Seq<char>,
    pub path: Seq<char>,
    pub outcome: Result<Seq<char>, Seq<char>>,
}

/// The answer that loading `path` takes: one of the backend of its scheme,
/// asked for the path without the scheme.
pub open spec fn answers_to(answer: Answer, path: Seq<char>) -> bool {
    answer.scheme == scheme_of(path) && answer.path == scheme_split(path).1
}

/// The outcome of one load: the content or the error, the answers not yet
/// consumed, and whether there was an answer where one was needed.
pub ghost struct Loaded {
    pub content: Result<Seq<char>, Seq<char>>,
    pub rest: Seq<Answer>,
    pub fits: bool,
}

/// Loading `path` when the backends answer with `answers`, first answer
/// first. A path with an unregistered scheme fails without asking anyone;
/// any other takes the first answer, which must be one to this path.
pub open spec fn loaded(schemes: Seq<Seq<char>>, answers: Seq<Answer>, path: Seq<char>) -> Loaded {
    if !schemes.contains(scheme_of(path)) {
        Loaded {
            content: Err(unsupported_message(scheme_of(path), path)),
            rest: answers,
            fits: true,
        }
    } else if answers.len() == 0 || !answers_to(answers[0], path) {
        Loaded { content: Err(Seq::<char>::empty()), rest: answers, fits: false }
    } else {
        Loaded {
            content: checked(path, answers[0].outcome),
            rest: answers.drop_first(),
            fits: true,
        }
    }
}

/// The file name that a line asks for, if the line is a directive.
pub open spec fn directive_name(line: Seq<char>) -> Option<Seq<char>> {
    captured(INCLUDE_PATTERN@, line, FILE_NAME_GROUP as int)
}

/// The path that a directive in a file of directory `dir` points to: a name
/// without a scheme is taken relative to `dir`, any other as it stands.
pub open spec fn target_of(dir: PathView, name: Seq<char>) -> Seq<char> {
    if scheme_split(name).0 is None {
        rendered(joined(dir, parse_path(name)))
    } else {
        name
    }
}

/// The directory that the directives of the file `path` are relative to.
pub open spec fn directory_of(path: Seq<char>) -> PathView {
    parent_of(parse_path(path))
}

/// A directive: the line it stands in and the path it points to.
pub ghost struct Job {
    pub line: int,
    pub target: Seq<char>,
}

/// The directives among the first `n` lines, in line order.
pub open spec fn jobs_in(lines: Seq<Seq<char>>, dir: PathView, n: int) -> Seq<Job>
    decreases n,
{
    if n <= 0 {
        Seq::<Job>::empty()
    } else {
        let before = jobs_in(lines, dir, n - 1);
        match directive_name(lines[n - 1]) {
            Some(name) => before.push(Job { line: n - 1, target: target_of(dir, name) }),
            None => before,
        }
    }
}

/// `used` with `path` in it: added at the end unless it was there.
pub open spec fn with_file(used: Seq<Seq<char>>, path: Seq<char>) -> Seq<Seq<char>> {
    if used.contains(path) {
        used
    } else {
        used.push(path)
    }
}

/// `doc` with line `line` emptied.
pub open spec fn blanked(doc: Document, line: int) -> Document {
    Document { lines: doc.lines.update(line, Seq::<char>::empty()), spans: doc.spans }
}

/// The outcome of a resolution: the merged document or the first error, the
/// files used by then, the answers not consumed, and whether every load
/// found an answer.
pub ghost struct Resolved {
    pub doc: Result<Document, Seq<char>>,
    pub used: Seq<Seq<char>>,
    pub rest: Seq<Answer>,
    pub fits: bool,
}

/// Resolving `path`: the file is marked used and loaded, and its directives
/// are expanded in line order.
pub open spec fn resolve(
    schemes: Seq<Seq<char>>,
    answers: Seq<Answer>,
    path: Seq<char>,
    used: Seq<Seq<char>>,
) -> Resolved
    decreases answers.len(), 0int,
{
    let first = loaded(schemes, answers, path);
    match first.content {
        Err(error) => Resolved {
            doc: Err(error),
            used: with_file(used, path),
            rest: first.rest,
            fits: first.fits,
        },
        Ok(text) => {
            let doc = fresh(text, path);
            let jobs = jobs_in(doc.lines, directory_of(path), doc.lines.len() as int);
            if first.rest.len() < answers.len() {
                expand(schemes, first.rest, doc, jobs, 0, 0, with_file(used, path))
            } else {
                Resolved { doc: Err(Seq::<char>::empty()), used, rest: answers, fits: false }
            }
        },
    }
}

/// Expanding the directives from the `k`-th on, where the earlier ones have
/// made the document `offset` lines longer. A directive whose target is
/// already used only has its line emptied; any other has its target marked
/// used, resolved, and spliced in at its line. The first failure ends it.
pub open spec fn expand(
    schemes: Seq<Seq<char>>,
    answers: Seq<Answer>,
    doc: Document,
    jobs: Seq<Job>,
    k: int,
    offset: int,
    used: Seq<Seq<char>>,
) -> Resolved
    decreases answers.len(), 1 + jobs.len() - k,
{
    if k < 0 || k >= jobs.len() {
        Resolved { doc: Ok(doc), used, rest: answers, fits: true }
    } else {
        let job = jobs[k];
        if used.contains(job.target) {
            expand(schemes, answers, blanked(doc, job.line + offset), jobs, k + 1, offset, used)
        } else {
            let inner = resolve(schemes, answers, job.target, used.push(job.target));
            match inner.doc {
                Err(_) => inner,
                Ok(nested) => if inner.fits && inner.rest.len() < answers.len() {
                    expand(
                        schemes,
                        inner.rest,
                        spliced(doc, job.line + offset, nested),
                        jobs,
                        k + 1,
                        offset + nested.lines.len() - 1,
                        inner.used,
                    )
                } else {
                    Resolved {
                        doc: Err(Seq::<char>::empty()),
                        used: inner.used,
                        rest: inner.rest,
                        fits: false,
                    }
                },
            }
        }
    }
}

/// Every directive stands in one of the lines that were searched.
pub proof fn lemma_jobs_lines(lines: Seq<Seq<char>>, dir: PathView, n: int)
    ensures
        forall|k: int|
            0 <= k < jobs_in(lines, dir, n).len() ==> 0 <= (#[trigger] jobs_in(
                lines,
                dir,
                n,
            )[k]).line < n,
    decreases n,
{
    if n > 0 {
        lemma_jobs_lines(lines, dir, n - 1);
        let before = jobs_in(lines, dir, n - 1);
        let all = jobs_in(lines, dir, n);
        assert forall|k: int| 0 <= k < all.len() implies 0 <= (#[trigger] all[k]).line < n by {
            if k < before.len() {
                assert(all[k] == before[k]);
            }
        }
    }
}

/// Whatever answers follow them, loading `path` consumes exactly `answers`
/// and gives `content`.
pub open spec fn loads(
    schemes: Seq<Seq<char>>,
    answers: Seq<Answer>,
    path: Seq<char>,
    content: Result<Seq<char>, Seq<char>>,
) -> bool {
    forall|suffix: Seq<Answer>| #[trigger]
        loaded(schemes, answers + suffix, path) == (Loaded { content, rest: suffix, fits: true })
}

/// Whatever answers follow them, resolving `path` consumes exactly
/// `answers`, gives `doc` and leaves the files `after` used.
pub open spec fn resolves(
    schemes: Seq<Seq<char>>,
    answers: Seq<Answer>,
    path: Seq<char>,
    used: Seq<Seq<char>>,
    doc: Result<Document, Seq<char>>,
    after: Seq<Seq<char>>,
) -> bool {
    forall|suffix: Seq<Answer>| #[trigger]
        resolve(schemes, answers + suffix, path, used) == (Resolved {
            doc,
            used: after,
            rest: suffix,
            fits: true,
        })
}

/// A stage of an expansion: the first `k` directives of `jobs` have
/// consumed exactly `answers` and turned `start` into `doc`.
pub ghost struct Stage {
    pub answers: Seq<Answer>,
    pub doc: Document,
    pub k: int,
    pub offset: int,
    pub used: Seq<Seq<char>>,
}

/// Whatever answers follow them, expanding `jobs` from the start on
/// `stage.answers` is expanding from the stage on.
pub open spec fn reaches(
    schemes: Seq<Seq<char>>,
    start: Document,
    jobs: Seq<Job>,
    used: Seq<Seq<char>>,
    stage: Stage,
) -> bool {
    forall|suffix: Seq<Answer>| #[trigger]
        expand(schemes, suffix, stage.doc, jobs, stage.k, stage.offset, stage.used) == expand(
            schemes,
            stage.answers + suffix,
            start,
            jobs,
            0,
            0,
            used,
        )
}

/// The stage before the first directive.
pub open spec fn first_stage(start: Document, used: Seq<Seq<char>>) -> Stage {
    Stage { answers: Seq::empty(), doc: start, k: 0, offset: 0, used }
}

/// The stage after a directive whose target was already used.
pub open spec fn skipped(stage: Stage, job: Job) -> Stage {
    Stage {
        answers: stage.answers,
        doc: blanked(stage.doc, job.line + stage.offset),
        k: stage.k + 1,
        offset: stage.offset,
        used: stage.used,
    }
}

/// The stage after a directive whose target resolved to `nested` on
/// `inner`, leaving the files `after` used.
pub open spec fn included(
    stage: Stage,
    job: Job,
    inner: Seq<Answer>,
    nested: Document,
    after: Seq<Seq<char>>,
) -> Stage {
    Stage {
        answers: stage.answers + inner,
        doc: spliced(stage.doc, job.line + stage.offset, nested),
        k: stage.k + 1,
        offset: stage.offset + nested.lines.len() - 1,
        used: after,
    }
}

/// An expansion reaches its first stage.
pub proof fn lemma_reaches_first(
    schemes: Seq<Seq<char>>,
    start: Document,
    jobs: Seq<Job>,
    used: Seq<Seq<char>>,
)
    ensures
        reaches(schemes, start, jobs, used, first_stage(start, used)),
{
    let none = Seq::<Answer>::empty();
    assert forall|suffix: Seq<Answer>| #[trigger]
        expand(schemes, suffix, start, jobs, 0, 0, used) == expand(
            schemes,
            none + suffix,
            start,
            jobs,
            0,
            0,
            used,
        ) by {
        assert(none + suffix =~= suffix);
    }
}

/// A directive whose target is already used moves the expansion one stage
/// on without consuming an answer.
pub proof fn lemma_reaches_skipped(
    schemes: Seq<Seq<char>>,
    start: Document,
    jobs: Seq<Job>,
    used: Seq<Seq<char>>,
    stage: Stage,
)
    requires
        reaches(schemes, start, jobs, used, stage),
        0 <= stage.k < jobs.len(),
        stage.used.contains(jobs[stage.k].target),
    ensures
        reaches(schemes, start, jobs, used, skipped(stage, jobs[stage.k])),
{
    let next = skipped(stage, jobs[stage.k]);
    assert forall|suffix: Seq<Answer>| #[trigger]
        expand(schemes, suffix, next.doc, jobs, next.k, next.offset, next.used) == expand(
            schemes,
            next.answers + suffix,
            start,
            jobs,
            0,
            0,
            used,
        ) by {
        assert(expand(schemes, suffix, stage.doc, jobs, stage.k, stage.offset, stage.used)
            == expand(schemes, stage.answers + suffix, start, jobs, 0, 0, used));
    }
}

/// A directive whose target resolves moves the expansion one stage on and
/// consumes the answers of that resolution.
pub proof fn lemma_reaches_included(
    schemes: Seq<Seq<char>>,
    start: Document,
    jobs: Seq<Job>,
    used: Seq<Seq<char>>,
    stage: Stage,
    inner: Seq<Answer>,
    nested: Document,
    after: Seq<Seq<char>>,
)
    requires
        reaches(schemes, start, jobs, used, stage),
        0 <= stage.k < jobs.len(),
        !stage.used.contains(jobs[stage.k].target),
        inner.len() >= 1,
        resolves(
            schemes,
            inner,
            jobs[stage.k].target,
            stage.used.push(jobs[stage.k].target),
            Ok(nested),
            after,
        ),
    ensures
        reaches(schemes, start, jobs, used, included(stage, jobs[stage.k], inner, nested, after)),
{
    let job = jobs[stage.k];
    let next = included(stage, job, inner, nested, after);
    assert forall|suffix: Seq<Answer>| #[trigger]
        expand(schemes, suffix, next.doc, jobs, next.k, next.offset, next.used) == expand(
            schemes,
            next.answers + suffix,
            start,
            jobs,
            0,
            0,
            used,
        ) by {
        let tail = inner + suffix;
        assert(next.answers + suffix =~= stage.answers + tail);
        assert(resolve(schemes, inner + suffix, job.target, stage.used.push(job.target))
            == (Resolved { doc: Ok(nested), used: after, rest: suffix, fits: true }));
        assert(suffix.len() < tail.len());
        assert(expand(schemes, tail, stage.doc, jobs, stage.k, stage.offset, stage.used)
            == expand(schemes, stage.answers + tail, start, jobs, 0, 0, used));
    }
}

/// The directives of the file `path` when its content is `text`.
pub open spec fn jobs_of(text: Seq<char>, path: Seq<char>) -> Seq<Job> {
    jobs_in(
        fresh(text, path).lines,
        directory_of(path),
        fresh(text, path).lines.len() as int,
    )
}

/// A load that fails is a resolution that fails, with the same error.
pub proof fn lemma_resolves_load_error(
    schemes: Seq<Seq<char>>,
    first: Seq<Answer>,
    path: Seq<char>,
    used: Seq<Seq<char>>,
    error: Seq<char>,
)
    requires
        loads(schemes, first, path, Err(error)),
    ensures
        resolves(schemes, first, path, used, Err(error), with_file(used, path)),
{
    assert forall|suffix: Seq<Answer>| #[trigger]
        resolve(schemes, first + suffix, path, used) == (Resolved {
            doc: Err(error),
            used: with_file(used, path),
            rest: suffix,
            fits: true,
        }) by {
        assert(loaded(schemes, first + suffix, path) == (Loaded {
            content: Err(error),
            rest: suffix,
            fits: true,
        }));
    }
}

/// An expansion that got through all its directives is a resolution: of
/// the document of the last stage.
pub proof fn lemma_resolves_done(
    schemes: Seq<Seq<char>>,
    first: Seq<Answer>,
    path: Seq<char>,
    used: Seq<Seq<char>>,
    text: Seq<char>,
    stage: Stage,
)
    requires
        first.len() == 1,
        loads(schemes, first, path, Ok(text)),
        reaches(schemes, fresh(text, path), jobs_of(text, path), with_file(used, path), stage),
        stage.k == jobs_of(text, path).len(),
    ensures
        resolves(schemes, first + stage.answers, path, used, Ok(stage.doc), stage.used),
{
    let jobs = jobs_of(text, path);
    let start = fresh(text, path);
    assert forall|suffix: Seq<Answer>| #[trigger]
        resolve(schemes, (first + stage.answers) + suffix, path, used) == (Resolved {
            doc: Ok(stage.doc),
            used: stage.used,
            rest: suffix,
            fits: true,
        }) by {
        let rest = stage.answers + suffix;
        assert((first + stage.answers) + suffix =~= first + rest);
        assert(loaded(schemes, first + rest, path) == (Loaded {
            content: Ok(text),
            rest,
            fits: true,
        }));
        assert(rest.len() < (first + rest).len());
        assert(expand(schemes, suffix, stage.doc, jobs, stage.k, stage.offset, stage.used)
            == expand(schemes, stage.answers + suffix, start, jobs, 0, 0, with_file(used, path)));
    }
}

/// An expansion that meets a directive whose target fails to resolve is a
/// resolution that fails, with the same error.
pub proof fn lemma_resolves_nested_error(
    schemes: Seq<Seq<char>>,
    first: Seq<Answer>,
    path: Seq<char>,
    used: Seq<Seq<char>>,
    text: Seq<char>,
    stage: Stage,
    inner: Seq<Answer>,
    error: Seq<char>,
    after: Seq<Seq<char>>,
)
    requires
        first.len() == 1,
        loads(schemes, first, path, Ok(text)),
        reaches(schemes, fresh(text, path), jobs_of(text, path), with_file(used, path), stage),
        0 <= stage.k < jobs_of(text, path).len(),
        !stage.used.contains(jobs_of(text, path)[stage.k].target),
        resolves(
            schemes,
            inner,
            jobs_of(text, path)[stage.k].target,
            stage.used.push(jobs_of(text, path)[stage.k].target),
            Err(error),
            after,
        ),
    ensures
        resolves(schemes, first + stage.answers + inner, path, used, Err(error), after),
{
    let jobs = jobs_of(text, path);
    let start = fresh(text, path);
    let job = jobs[stage.k];
    assert forall|suffix: Seq<Answer>| #[trigger]
        resolve(schemes, (first + stage.answers + inner) + suffix, path, used) == (Resolved {
            doc: Err(error),
            used: after,
            rest: suffix,
            fits: true,
        }) by {
        let tail = inner + suffix;
        let rest = stage.answers + tail;
        assert((first + stage.answers + inner) + suffix =~= first + rest);
        assert(loaded(schemes, first + rest, path) == (Loaded {
            content: Ok(text),
            rest,
            fits: true,
        }));
        assert(rest.len() < (first + rest).len());
        assert(resolve(schemes, inner + suffix, job.target, stage.used.push(job.target))
            == (Resolved { doc: Err(error), used: after, rest: suffix, fits: true }));
        assert(expand(schemes, tail, stage.doc, jobs, stage.k, stage.offset, stage.used)
            == expand(schemes, stage.answers + tail, start, jobs, 0, 0, with_file(used, path)));
    }
}

/// A load that fails is a resolution that fails with the same error: no
/// document comes of it.
pub proof fn lemma_failed_load_fails(
    schemes: Seq<Seq<char>>,
    answers: Seq<Answer>,
    path: Seq<char>,
    used: Seq<Seq<char>>,
)
    ensures
        loaded(schemes, answers, path).content matches Err(error) ==> resolve(
            schemes,
            answers,
            path,
            used,
        ).doc == Err::<Document, Seq<char>>(error),
        !schemes.contains(scheme_of(path)) ==> resolve(schemes, answers, path, used).doc == Err::<
            Document,
            Seq<char>,
        >(unsupported_message(scheme_of(path), path)),
        schemes.contains(scheme_of(path)) && answers.len() > 0 && answers_to(answers[0], path)
            && answers[0].outcome == Ok::<Seq<char>, Seq<char>>(Seq::empty()) ==> resolve(
            schemes,
            answers,
            path,
            used,
        ).doc == Err::<Document, Seq<char>>(empty_message(path)),
{
}

/// A file without directives resolves to itself.
pub proof fn lemma_plain_file_resolves(
    schemes: Seq<Seq<char>>,
    answers: Seq<Answer>,
    path: Seq<char>,
    used: Seq<Seq<char>>,
    text: Seq<char>,
)
    requires
        loaded(schemes, answers, path).content == Ok::<Seq<char>, Seq<char>>(text),
        jobs_of(text, path).len() == 0,
    ensures
        resolve(schemes, answers, path, used).doc == Ok::<Document, Seq<char>>(fresh(text, path)),
        resolve(schemes, answers, path, used).used == with_file(used, path),
{
}

/// A resolution never gives back more answers than it was given, and one
/// that succeeds has consumed an answer and found one for every load: the
/// branches of [`resolve`] and [`expand`] that give up for want of answers
/// are never taken after a success.
pub proof fn lemma_resolve_consumes(
    schemes: Seq<Seq<char>>,
    answers: Seq<Answer>,
    path: Seq<char>,
    used: Seq<Seq<char>>,
)
    ensures
        resolve(schemes, answers, path, used).rest.len() <= answers.len(),
        resolve(schemes, answers, path, used).doc is Ok ==> resolve(
            schemes,
            answers,
            path,
            used,
        ).fits && resolve(schemes, answers, path, used).rest.len() < answers.len(),
    decreases answers.len(), 0int,
{
    let first = loaded(schemes, answers, path);
    match first.content {
        Err(_) => {},
        Ok(text) => {
            if first.rest.len() < answers.len() {
                lemma_expand_consumes(
                    schemes,
                    first.rest,
                    fresh(text, path),
                    jobs_of(text, path),
                    0,
                    0,
                    with_file(used, path),
                );
            }
        },
    }
}

/// The same for an expansion.
proof fn lemma_expand_consumes(
    schemes: Seq<Seq<char>>,
    answers: Seq<Answer>,
    doc: Document,
    jobs: Seq<Job>,
    k: int,
    offset: int,
    used: Seq<Seq<char>>,
)
    ensures
        expand(schemes, answers, doc, jobs, k, offset, used).rest.len() <= answers.len(),
        expand(schemes, answers, doc, jobs, k, offset, used).doc is Ok ==> expand(
            schemes,
            answers,
            doc,
            jobs,
            k,
            offset,
            used,
        ).fits,
    decreases answers.len(), 1 + jobs.len() - k,
{
    if 0 <= k < jobs.len() {
        let job = jobs[k];
        if used.contains(job.target) {
            lemma_expand_consumes(
                schemes,
                answers,
                blanked(doc, job.line + offset),
                jobs,
                k + 1,
                offset,
                used,
            );
        } else {
            let inner = resolve(schemes, answers, job.target, used.push(job.target));
            lemma_resolve_consumes(schemes, answers, job.target, used.push(job.target));
            match inner.doc {
                Err(_) => {},
                Ok(nested) => {
                    if inner.fits && inner.rest.len() < answers.len() {
                        lemma_expand_consumes(
                            schemes,
                            inner.rest,
                            spliced(doc, job.line + offset, nested),
                            jobs,
                            k + 1,
                            offset + nested.lines.len() - 1,
                            inner.used,
                        );
                    }
                },
            }
        }
    }
}

/// Every file of `before` is a file of `after`.
pub open spec fn extends(after: Seq<Seq<char>>, before: Seq<Seq<char>>) -> bool {
    forall|file: Seq<char>| before.contains(file) ==> after.contains(file)
}

/// What holds of the document that a file `path` has grown into when the
/// files `base` were used at its start and the files `used` are used now:
/// its first span is that of `path`, no file has two spans, every other
/// span is of a file that was not used at the start, and every file with a
/// span is used now.
pub open spec fn once_each(
    doc: Document,
    path: Seq<char>,
    base: Seq<Seq<char>>,
    used: Seq<Seq<char>>,
) -> bool {
    &&& doc.spans.len() >= 1
    &&& doc.spans[0].file == path
    &&& files_in(doc.spans).no_duplicates()
    &&& forall|i: int| 1 <= i < doc.spans.len() ==> !base.contains(#[trigger] doc.spans[i].file)
    &&& forall|i: int| 0 <= i < doc.spans.len() ==> used.contains(#[trigger] doc.spans[i].file)
}

/// Each file is taken in once: in the document that a resolution gives no
/// file has two spans, and but for the file asked for, a file with a span
/// was not used before. The files used only grow.
pub proof fn lemma_include_once(
    schemes: Seq<Seq<char>>,
    answers: Seq<Answer>,
    path: Seq<char>,
    used: Seq<Seq<char>>,
)
    ensures
        extends(resolve(schemes, answers, path, used).used, with_file(used, path)),
        resolve(schemes, answers, path, used).doc matches Ok(doc) ==> once_each(
            doc,
            path,
            with_file(used, path),
            resolve(schemes, answers, path, used).used,
        ),
    decreases answers.len(), 0int,
{
    let first = loaded(schemes, answers, path);
    let base = with_file(used, path);
    match first.content {
        Err(_) => {},
        Ok(text) => {
            let doc = fresh(text, path);
            let jobs = jobs_of(text, path);
            assert(base.contains(path)) by {
                if !used.contains(path) {
                    assert(base[used.len() as int] == path);
                }
            }
            if first.rest.len() < answers.len() {
                assert(files_in(doc.spans) =~= seq![path]);
                lemma_expand_once(schemes, first.rest, doc, jobs, 0, 0, base, path, base);
            }
        },
    }
}

/// Expanding directives keeps what [`once_each`] says.
proof fn lemma_expand_once(
    schemes: Seq<Seq<char>>,
    answers: Seq<Answer>,
    doc: Document,
    jobs: Seq<Job>,
    k: int,
    offset: int,
    used: Seq<Seq<char>>,
    path: Seq<char>,
    base: Seq<Seq<char>>,
)
    requires
        once_each(doc, path, base, used),
        extends(used, base),
    ensures
        extends(expand(schemes, answers, doc, jobs, k, offset, used).used, used),
        expand(schemes, answers, doc, jobs, k, offset, used).doc matches Ok(grown) ==> once_each(
            grown,
            path,
            base,
            expand(schemes, answers, doc, jobs, k, offset, used).used,
        ),
    decreases answers.len(), 1 + jobs.len() - k,
{
    if 0 <= k < jobs.len() {
        let job = jobs[k];
        if used.contains(job.target) {
            lemma_expand_once(
                schemes,
                answers,
                blanked(doc, job.line + offset),
                jobs,
                k + 1,
                offset,
                used,
                path,
                base,
            );
        } else {
            let pushed = used.push(job.target);
            let inner = resolve(schemes, answers, job.target, pushed);
            lemma_include_once(schemes, answers, job.target, pushed);
            assert(pushed.contains(job.target)) by {
                assert(pushed[used.len() as int] == job.target);
            }
            assert(with_file(pushed, job.target) == pushed);
            assert(extends(pushed, used)) by {
                assert forall|file: Seq<char>| used.contains(file) implies pushed.contains(
                    file,
                ) by {
                    let i = choose|i: int| 0 <= i < used.len() && used[i] == file;
                    assert(pushed[i] == file);
                }
            }
            match inner.doc {
                Err(_) => {},
                Ok(nested) => {
                    if inner.fits && inner.rest.len() < answers.len() {
                        let line = job.line + offset;
                        let grown = spliced(doc, line, nested);
                        let count = nested.lines.len() as int;
                        let kept = all_widened(doc.spans, line, count);
                        let added = all_lowered(nested.spans, line);
                        assert forall|i: int| 0 <= i < grown.spans.len() implies (if i
                            < doc.spans.len() {
                            (#[trigger] grown.spans[i]).file == doc.spans[i].file
                        } else {
                            grown.spans[i].file == nested.spans[i - doc.spans.len()].file
                        }) by {
                            if i < doc.spans.len() {
                                assert(grown.spans[i] == kept[i]);
                            } else {
                                assert(grown.spans[i] == added[i - doc.spans.len()]);
                            }
                        }
                        assert forall|i: int| 0 <= i < nested.spans.len() implies !used.contains(
                            #[trigger] nested.spans[i].file,
                        ) by {
                            if i >= 1 {
                                assert(!pushed.contains(nested.spans[i].file));
                            }
                        }
                        assert forall|i: int, j: int|
                            0 <= i < grown.spans.len() && 0 <= j < grown.spans.len() && i
                                != j implies files_in(grown.spans)[i] != files_in(
                            grown.spans,
                        )[j] by {
                            let n = doc.spans.len() as int;
                            assert(files_in(grown.spans)[i] == grown.spans[i].file);
                            assert(files_in(grown.spans)[j] == grown.spans[j].file);
                            if i < n && j < n {
                                assert(files_in(doc.spans)[i] != files_in(doc.spans)[j]);
                            } else if i >= n && j >= n {
                                let inner_files = files_in(nested.spans);
                                assert(inner_files[i - n] != inner_files[j - n]);
                            } else if i < n {
                                assert(used.contains(doc.spans[i].file));
                                assert(!used.contains(nested.spans[j - n].file));
                            } else {
                                assert(used.contains(doc.spans[j].file));
                                assert(!used.contains(nested.spans[i - n].file));
                            }
                        }
                        assert forall|i: int| 1 <= i < grown.spans.len() implies !base.contains(
                            #[trigger] grown.spans[i].file,
                        ) by {
                            let n = doc.spans.len() as int;
                            if i >= n {
                                assert(!used.contains(nested.spans[i - n].file));
                            }
                        }
                        assert forall|i: int|
                            0 <= i < grown.spans.len() implies inner.used.contains(
                            #[trigger] grown.spans[i].file,
                        ) by {
                            let n = doc.spans.len() as int;
                            if i < n {
                                assert(used.contains(doc.spans[i].file));
                                assert(pushed.contains(doc.spans[i].file));
                            } else {
                                assert(inner.used.contains(nested.spans[i - n].file));
                            }
                        }
                        assert(grown.spans[0].file == path);
                        lemma_expand_once(
                            schemes,
                            inner.rest,
                            grown,
                            jobs,
                            k + 1,
                            offset + nested.lines.len() - 1,
                            inner.used,
                            path,
                            base,
                        );
                    }
                },
            }
        }
    }
}

/// Every one of the answers is admitted.
pub open spec fn all_admitted(answers: Seq<Answer>, admits: spec_fn(Answer) -> bool) -> bool {
    forall|i: int| 0 <= i < answers.len() ==> admits(#[trigger] answers[i])
}

/// Admitted answers followed by admitted answers are admitted answers.
pub proof fn lemma_all_admitted(
    front: Seq<Answer>,
    back: Seq<Answer>,
    admits: spec_fn(Answer) -> bool,
)
    requires
        all_admitted(front, admits),
        all_admitted(back, admits),
    ensures
        all_admitted(front + back, admits),
{
    assert forall|i: int| 0 <= i < (front + back).len() implies admits(
        #[trigger] (front + back)[i],
    ) by {
        if i < front.len() {
            assert((front + back)[i] == front[i]);
        } else {
            assert((front + back)[i] == back[i - front.len()]);
        }
    }
}

/// Some sequence of admitted answers makes resolving `path`, with the
/// files `used` used before, give `doc` and leave the files `after` used.
pub open spec fn is_resolution(
    schemes: Seq<Seq<char>>,
    admits: spec_fn(Answer) -> bool,
    path: Seq<char>,
    used: Seq<Seq<char>>,
    doc: Result<Document, Seq<char>>,
    after: Seq<Seq<char>>,
) -> bool {
    exists|answers: Seq<Answer>|
        all_admitted(answers, admits) && #[trigger] resolve(schemes, answers, path, used)
            == (Resolved { doc, used: after, rest: Seq::empty(), fits: true })
}

/// Some sequence of admitted answers makes resolving `path` from scratch
/// give `doc`.
pub open spec fn is_load(
    schemes: Seq<Seq<char>>,
    admits: spec_fn(Answer) -> bool,
    path: Seq<char>,
    doc: Result<Document, Seq<char>>,
) -> bool {
    exists|after: Seq<Seq<char>>| #[trigger]
        is_resolution(schemes, admits, path, Seq::empty(), doc, after)
}

/// A resolution that holds whatever answers follow holds when none follow.
pub proof fn lemma_is_resolution(
    schemes: Seq<Seq<char>>,
    admits: spec_fn(Answer) -> bool,
    answers: Seq<Answer>,
    path: Seq<char>,
    used: Seq<Seq<char>>,
    doc: Result<Document, Seq<char>>,
    after: Seq<Seq<char>>,
)
    requires
        resolves(schemes, answers, path, used, doc, after),
        all_admitted(answers, admits),
    ensures
        is_resolution(schemes, admits, path, used, doc, after),
{
    let none = Seq::<Answer>::empty();
    assert(answers + none =~= answers);
    assert(resolve(schemes, answers + none, path, used) == (Resolved {
        doc,
        used: after,
        rest: none,
        fits: true,
    }));
}

} // verus!
