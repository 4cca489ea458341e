//! Resolution of `include_once` directives across a tree of source files,
//! with enough provenance kept to map every line of the merged text back to
//! the file and line it came from.

use vstd::prelude::*;
use vstd::string::StringExecFns;

use crate::preprocessor::{get_protocol_and_path, scheme_split};
use crate::text::{join, join_text, opt_str_view, opt_view, split, split_text};

pub mod fidelity;
pub mod pattern;
pub mod preprocessor;
pub mod program;
pub mod provenance;
pub mod resolution;
pub mod splicing;
pub mod text;

verus! {

/// What a [`Path`] stands for: an optional scheme and the components that
/// are left after normalization.
pub ghost struct PathView {
    pub protocol: Option<Seq<char>>,
    pub components: Seq<Seq<char>>,
}

/// The two characters that separate the components of a path.
pub open spec fn path_separators() -> Set<char> {
    set!['\\', '/']
}

/// A component that normalization drops without a trace.
pub open spec fn is_skipped(part: Seq<char>) -> bool {
    part.len() == 0 || part == seq!['.']
}

/// The component that removes its predecessor.
pub open spec fn is_parent(part: Seq<char>) -> bool {
    part == seq!['.', '.']
}

/// The components that remain of `parts`: empty ones and `.` are dropped,
/// and each `..` removes the component kept last, if there is one.
pub open spec fn normalize(parts: Seq<Seq<char>>) -> Seq<Seq<char>>
    decreases parts.len(),
{
    if parts.len() == 0 {
        Seq::<Seq<char>>::empty()
    } else {
        let kept = normalize(parts.drop_last());
        let part = parts.last();
        if is_skipped(part) {
            kept
        } else if is_parent(part) {
            if kept.len() > 0 {
                kept.drop_last()
            } else {
                kept
            }
        } else {
            kept.push(part)
        }
    }
}

/// The path that a scheme and the text after it stand for.
pub open spec fn path_of(protocol: Option<Seq<char>>, rest: Seq<char>) -> PathView {
    PathView { protocol, components: normalize(split(rest, path_separators())) }
}

/// The path that a raw string stands for.
pub open spec fn parse_path(raw: Seq<char>) -> PathView {
    path_of(scheme_split(raw).0, scheme_split(raw).1)
}

/// `base` with the components of `tail` appended.
pub open spec fn joined(base: PathView, tail: PathView) -> PathView {
    PathView { protocol: base.protocol, components: base.components + tail.components }
}

/// `p` without its last component; unchanged when it has none.
pub open spec fn parent_of(p: PathView) -> PathView {
    if p.components.len() > 0 {
        PathView { protocol: p.protocol, components: p.components.drop_last() }
    } else {
        p
    }
}

/// How a path is written: the components with `/` between them, after
/// `scheme://` when there is a scheme.
pub open spec fn rendered(p: PathView) -> Seq<char> {
    match p.protocol {
        None => join(p.components, seq!['/']),
        Some(scheme) => scheme + seq![':', '/', '/'] + join(p.components, seq!['/']),
    }
}

/// A component that can stand in a normalized path: not empty, not `.`, not
/// `..`, and free of separators.
pub open spec fn is_component(part: Seq<char>) -> bool {
    &&& !is_skipped(part)
    &&& !is_parent(part)
    &&& crate::text::free_of(part, path_separators())
}

/// Every element is a component.
pub open spec fn all_components(parts: Seq<Seq<char>>) -> bool {
    forall|k: int| 0 <= k < parts.len() ==> is_component(#[trigger] parts[k])
}

/// Normalizing separator-free pieces leaves components only.
pub proof fn lemma_normalize_components(parts: Seq<Seq<char>>)
    requires
        crate::text::all_free_of(parts, path_separators()),
    ensures
        all_components(normalize(parts)),
        normalize(parts).len() <= parts.len(),
    decreases parts.len(),
{
    if parts.len() > 0 {
        lemma_normalize_components(parts.drop_last());
    }
}

/// Whatever the scheme, the components written in a text are components.
pub proof fn lemma_path_of_components(protocol: Option<Seq<char>>, rest: Seq<char>)
    ensures
        all_components(path_of(protocol, rest).components),
{
    crate::text::lemma_split_shape(rest, path_separators());
    lemma_normalize_components(split(rest, path_separators()));
}

/// Joining paths made of components gives a path made of components.
pub proof fn lemma_joined_components(base: PathView, tail: PathView)
    requires
        all_components(base.components),
        all_components(tail.components),
    ensures
        all_components(joined(base, tail).components),
{
    let all = joined(base, tail).components;
    assert forall|k: int| 0 <= k < all.len() implies is_component(#[trigger] all[k]) by {
        if k < base.components.len() {
            assert(all[k] == base.components[k]);
        } else {
            assert(all[k] == tail.components[k - base.components.len()]);
        }
    }
}

/// The parent of a path made of components is made of components.
pub proof fn lemma_parent_components(p: PathView)
    requires
        all_components(p.components),
    ensures
        all_components(parent_of(p).components),
{
    let kept = parent_of(p).components;
    assert forall|k: int| 0 <= k < kept.len() implies is_component(#[trigger] kept[k]) by {
        assert(kept[k] == p.components[k]);
    }
}

/// A slash-delimited path with an optional `scheme://` in front.
#[derive(Debug)]
pub struct Path {
    protocol: Option<String>,
    components: Vec<String>,
}

impl View for Path {
    type V = PathView;

    closed spec fn view(&self) -> PathView {
        PathView { protocol: opt_view(self.protocol), components: self.components.deep_view() }
    }
}

impl Clone for Path {
    fn clone(&self) -> (r: Self)
        ensures
            r@ == self@,
    {
        let protocol = match &self.protocol {
            Some(scheme) => Some(scheme.clone()),
            None => None,
        };
        let components = self.components.clone();
        proof {
            assert(components.deep_view() =~= self.components.deep_view());
        }
        Path { protocol, components }
    }
}

impl Path {
    /// The path written in `from`: an optional scheme, then components
    /// separated by `/` or `\`.
    pub fn new(from: &str) -> (p: Path)
        ensures
            p@ == parse_path(from@),
            all_components(p@.components),
    {
        let (protocol, rest) = get_protocol_and_path(from);
        Path::from_parts(protocol, rest)
    }

    /// The path with the given scheme whose components are written in `rest`.
    pub fn from_parts(protocol: Option<&str>, rest: &str) -> (p: Path)
        ensures
            p@ == path_of(opt_str_view(protocol), rest@),
            all_components(p@.components),
    {
        let parts = split_text(rest, '\\', '/');
        let mut components: Vec<String> = Vec::new();
        let mut i: usize = 0;
        assert(parts.deep_view().take(0) =~= Seq::<Seq<char>>::empty());
        while i < parts.len()
            invariant
                i <= parts.len(),
                components.deep_view() == normalize(parts.deep_view().take(i as int)),
            decreases parts.len() - i,
        {
            let part = parts[i].as_str();
            proof {
                reveal_strlit(".");
                reveal_strlit("..");
                let next = parts.deep_view().take(i + 1);
                assert(next.drop_last() =~= parts.deep_view().take(i as int));
                assert(next.last() == part@);
                assert("."@ =~= seq!['.']);
                assert(".."@ =~= seq!['.', '.']);
            }
            if part.is_empty() || part.eq(".") {
            } else if part.eq("..") {
                let ghost kept = components.deep_view();
                let _ = components.pop();
                proof {
                    if kept.len() > 0 {
                        assert(components.deep_view() =~= kept.drop_last());
                    }
                }
            } else {
                let ghost kept = components.deep_view();
                components.push(part.to_owned());
                proof {
                    assert(components.deep_view() =~= kept.push(part@));
                }
            }
            i = i + 1;
        }
        proof {
            assert(parts.deep_view().take(parts.len() as int) =~= parts.deep_view());
            crate::text::lemma_split_shape(rest@, path_separators());
            lemma_normalize_components(parts.deep_view());
        }
        let protocol = match protocol {
            Some(scheme) => Some(scheme.to_owned()),
            None => None,
        };
        Path { protocol, components }
    }

    /// The scheme, if the path carries one.
    pub fn protocol(&self) -> (r: Option<&str>)
        ensures
            opt_str_view(r) == self@.protocol,
    {
        match &self.protocol {
            Some(scheme) => Some(scheme.as_str()),
            None => None,
        }
    }

    /// The components, first to last.
    pub fn components(&self) -> (r: &Vec<String>)
        ensures
            r.deep_view() == self@.components,
    {
        &self.components
    }

    /// This path with the components of `tail` after its own. `tail` must
    /// carry no scheme.
    pub fn join_path(&self, tail: &Path) -> (r: Path)
        requires
            tail@.protocol is None,
        ensures
            r@ == joined(self@, tail@),
    {
        let mut result = self.clone();
        let mut i: usize = 0;
        assert(tail@.components.take(0) =~= Seq::<Seq<char>>::empty());
        assert(self@.components + Seq::<Seq<char>>::empty() =~= self@.components);
        while i < tail.components.len()
            invariant
                i <= tail.components.len(),
                result@.protocol == self@.protocol,
                result@.components == self@.components + tail@.components.take(i as int),
            decreases tail.components.len() - i,
        {
            let ghost before = result.components.deep_view();
            result.components.push(tail.components[i].clone());
            proof {
                assert(result.components.deep_view() =~= before.push(tail.components[i as int]@));
                assert(tail@.components.take(i + 1) =~= tail@.components.take(i as int).push(
                    tail.components[i as int]@,
                ));
                assert(result@.components =~= self@.components + tail@.components.take(i + 1));
            }
            i = i + 1;
        }
        proof {
            assert(tail@.components.take(tail.components.len() as int) =~= tail@.components);
        }
        result
    }

    /// This path with the components of `path` after its own. What `path`
    /// converts into must carry no scheme.
    pub fn join<T: Into<Path>>(&self, path: T) -> (r: Path)
        requires
            forall|tail: Path| call_ensures(T::into, (path,), tail) ==> tail@.protocol is None,
        ensures
            exists|tail: Path| call_ensures(T::into, (path,), tail) && r@ == joined(self@, tail@),
    {
        let tail: Path = path.into();
        self.join_path(&tail)
    }

    /// Removes the last component and hands it out; `None` when there is
    /// none to remove.
    pub fn pop(&mut self) -> (last: Option<String>)
        ensures
            final(self)@ == parent_of(old(self)@),
            opt_view(last) == if old(self)@.components.len() > 0 {
                Some(old(self)@.components.last())
            } else {
                None
            },
    {
        let ghost before = self.components.deep_view();
        let last = self.components.pop();
        proof {
            if before.len() > 0 {
                assert(self.components.deep_view() =~= before.drop_last());
            } else {
                assert(self.components.deep_view() =~= before);
            }
        }
        last
    }

    /// This path without its last component.
    pub fn dirname(&self) -> (r: Path)
        ensures
            r@ == parent_of(self@),
    {
        let mut result = self.clone();
        let _ = result.pop();
        result
    }

    /// The path written out: `scheme://a/b/c`, or `a/b/c` without a scheme.
    pub fn to_string(&self) -> (s: String)
        ensures
            s@ == rendered(self@),
    {
        let body = join_text(&self.components, "/");
        proof {
            reveal_strlit("/");
            reveal_strlit("://");
            assert("/"@ =~= seq!['/']);
            assert("://"@ =~= seq![':', '/', '/']);
        }
        match &self.protocol {
            None => body,
            Some(scheme) => {
                let mut out = scheme.clone();
                out.append("://");
                out.append(body.as_str());
                out
            },
        }
    }
}

impl From<&str> for Path {
    fn from(raw: &str) -> (p: Path)
        ensures
            p@ == parse_path(raw@),
    {
        Path::new(raw)
    }
}

impl vstd::std_specs::convert::FromSpecImpl<&str> for Path {
    open spec fn obeys_from_spec() -> bool {
        false
    }

    open spec fn from_spec(raw: &str) -> Path {
        arbitrary()
    }
}

impl From<String> for Path {
    fn from(raw: String) -> (p: Path)
        ensures
            p@ == parse_path(raw@),
    {
        Path::new(raw.as_str())
    }
}

impl vstd::std_specs::convert::FromSpecImpl<String> for Path {
    open spec fn obeys_from_spec() -> bool {
        false
    }

    open spec fn from_spec(raw: String) -> Path {
        arbitrary()
    }
}

} // verus!
