//! Namespaces and where they live: every spelling of a namespace is brought
//! to one canonical form, and the canonical form fixes the directory and the
//! two files of the namespace under the root.

use vstd::prelude::*;
use vstd::string::*;
use crate::error::MemoryError;
use crate::text::{
    chars_of, lemma_stripped_ends, pieces, push_all, replace_char, replaced, rows, split,
    string_of, strip, stripped, texts, trim, trimmed, CharClass,
};

verus! {

/// Whether `c` may not stand in a file name.
pub open spec fn is_illegal(c: char) -> bool {
    c == '/' || c == '\\' || c == ':' || c == '*' || c == '?' || c == '"' || c == '<' || c == '>'
        || c == '|'
}

/// `c`, or `_` in place of a character that may not stand in a file name.
pub open spec fn legal(c: char) -> char {
    if is_illegal(c) {
        '_'
    } else {
        c
    }
}

/// The file name that a segment of a namespace becomes: every illegal
/// character replaced by `_`, then spaces and full stops taken off both
/// ends; `_` where nothing is left.
pub open spec fn sanitized(segment: Seq<char>) -> Seq<char> {
    let t = stripped(Seq::new(segment.len(), |i: int| legal(segment[i])), CharClass::SpaceOrDot);
    if t.len() == 0 {
        seq!['_']
    } else {
        t
    }
}

/// Makes a file name of a segment of a namespace.
pub fn sanitize_path_component(input: &Vec<char>) -> (r: Vec<char>)
    ensures
        r@ == sanitized(input@),
{
    let mut out: Vec<char> = Vec::new();
    let mut i: usize = 0;
    while i < input.len()
        invariant
            i <= input.len(),
            out@ == Seq::new(i as nat, |k: int| legal(input@[k])),
        decreases input.len() - i,
    {
        let ch = input[i];
        let illegal = ch == '/' || ch == '\\' || ch == ':' || ch == '*' || ch == '?' || ch == '"'
            || ch == '<' || ch == '>' || ch == '|';
        if illegal {
            out.push('_');
        } else {
            out.push(ch);
        }
        assert(out@ == Seq::new((i + 1) as nat, |k: int| legal(input@[k])));
        i += 1;
    }
    assert(out@ == Seq::new(input@.len(), |k: int| legal(input@[k])));
    let trimmed = strip(&out, CharClass::SpaceOrDot);
    if trimmed.len() == 0 {
        let mut one: Vec<char> = Vec::new();
        one.push('_');
        assert(one@ == seq!['_']);
        one
    } else {
        trimmed
    }
}

/// `s` with every backslash turned into a forward slash.
pub open spec fn slashed(s: Seq<char>) -> Seq<char> {
    replaced(s, '\\', '/')
}

/// The segment that a piece between two slashes stands for: none where the
/// trimmed piece is empty, `.` or `..`; else its file name.
pub open spec fn segment_of(piece: Seq<char>) -> Option<Seq<char>> {
    let p = trimmed(piece);
    if p.len() == 0 || p == seq!['.'] || p == seq!['.', '.'] {
        None
    } else {
        Some(sanitized(p))
    }
}

/// The segments that a sequence of pieces stands for, in order.
pub open spec fn segments_of(parts: Seq<Seq<char>>) -> Seq<Seq<char>>
    decreases parts.len(),
{
    if parts.len() == 0 {
        Seq::empty()
    } else {
        let before = segments_of(parts.drop_last());
        match segment_of(parts.last()) {
            Some(s) => before.push(s),
            None => before,
        }
    }
}

/// The segments of a raw namespace: it is trimmed, backslashes count as
/// slashes, and the pieces between slashes that stand for nothing are
/// dropped.
pub open spec fn components(raw: Seq<char>) -> Seq<Seq<char>> {
    segments_of(pieces(slashed(trimmed(raw)), CharClass::Slash))
}

/// `base` with `name` below it: a slash is put between the two unless `base`
/// is empty or ends in one.
pub open spec fn below(base: Seq<char>, name: Seq<char>) -> Seq<char> {
    if base.len() == 0 || base.last() == '/' {
        base + name
    } else {
        base + seq!['/'] + name
    }
}

/// The paths of one namespace, as texts.
pub struct StorePathsView {
    pub namespace: Seq<char>,
    pub namespace_dir: Seq<char>,
    pub memories_path: Seq<char>,
    pub index_path: Seq<char>,
}

/// The canonical form of a namespace of two segments.
pub open spec fn canonical(parts: Seq<Seq<char>>) -> Seq<char> {
    parts[0] + seq!['/'] + parts[1]
}

/// The directory of a namespace of two segments under `root`.
pub open spec fn directory(root: Seq<char>, parts: Seq<Seq<char>>) -> Seq<char> {
    below(below(root, parts[0]), parts[1])
}

/// What a raw namespace resolves to under `root`: its canonical form, its
/// directory, and the log and the index in that directory. A namespace that
/// does not have exactly two segments resolves to nothing.
pub open spec fn resolved(root: Seq<char>, raw: Seq<char>) -> Result<StorePathsView, MemoryError> {
    let parts = components(raw);
    if parts.len() != 2 {
        Err(MemoryError::InvalidNamespace)
    } else {
        let dir = directory(root, parts);
        Ok(
            StorePathsView {
                namespace: canonical(parts),
                namespace_dir: dir,
                memories_path: below(dir, "memories.jsonl"@),
                index_path: below(dir, "index.json"@),
            },
        )
    }
}

/// Where one namespace lives.
#[derive(Debug, Clone)]
pub struct StorePaths {
    /// The canonical namespace, `{userId}/{projectId}`.
    pub namespace: String,
    /// The directory of the namespace.
    pub namespace_dir: String,
    /// The record log.
    pub memories_path: String,
    /// The index file.
    pub index_path: String,
}

impl View for StorePaths {
    type V = StorePathsView;

    open spec fn view(&self) -> StorePathsView {
        StorePathsView {
            namespace: self.namespace@,
            namespace_dir: self.namespace_dir@,
            memories_path: self.memories_path@,
            index_path: self.index_path@,
        }
    }
}

/// Whether `p` is `.` or `..`.
fn is_dots(p: &Vec<char>) -> (r: bool)
    ensures
        r == (p@ == seq!['.'] || p@ == seq!['.', '.']),
{
    if p.len() == 1 {
        let r = p[0] == '.';
        assert(r ==> p@ == seq!['.']);
        assert(!r ==> p@[0] != seq!['.'][0]);
        r
    } else if p.len() == 2 {
        let r = p[0] == '.' && p[1] == '.';
        assert(r ==> p@ == seq!['.', '.']);
        assert(!r ==> (p@[0] != seq!['.', '.'][0] || p@[1] != seq!['.', '.'][1]));
        r
    } else {
        assert(seq!['.'].len() == 1 && seq!['.', '.'].len() == 2);
        false
    }
}

/// The segments of a raw namespace, which must be exactly two.
pub fn parse_namespace_components(namespace: &str) -> (r: Result<Vec<String>, MemoryError>)
    ensures
        r is Ok <==> components(namespace@).len() == 2,
        r matches Ok(parts) ==> texts(parts@) == components(namespace@),
        r matches Err(e) ==> e == MemoryError::InvalidNamespace,
{
    let ns = replace_char(&trim(&chars_of(namespace)), '\\', '/');
    let parts = split(&ns, CharClass::Slash);
    let mut out: Vec<String> = Vec::new();
    let mut i: usize = 0;
    assert(rows(parts@).take(0) == Seq::<Seq<char>>::empty());
    while i < parts.len()
        invariant
            i <= parts.len(),
            texts(out@) == segments_of(rows(parts@).take(i as int)),
        decreases parts.len() - i,
    {
        proof {
            assert(rows(parts@).take(i + 1).drop_last() == rows(parts@).take(i as int));
            assert(rows(parts@).take(i + 1).last() == parts@[i as int]@);
        }
        let p = trim(&parts[i]);
        if !(p.len() == 0 || is_dots(&p)) {
            let ghost before = texts(out@);
            let name = string_of(&sanitize_path_component(&p));
            let ghost shown = name@;
            out.push(name);
            assert(texts(out@) == before.push(shown));
        }
        i += 1;
    }
    assert(rows(parts@).take(parts.len() as int) == rows(parts@));
    if out.len() != 2 {
        return Err(MemoryError::InvalidNamespace);
    }
    Ok(out)
}

/// `base` with `name` below it.
pub fn join_path(base: &str, name: &str) -> (r: String)
    ensures
        r@ == below(base@, name@),
{
    let mut out = chars_of(base);
    let n = chars_of(name);
    let len = out.len();
    if !(len == 0 || out[len - 1] == '/') {
        out.push('/');
        assert(out@ == base@ + seq!['/']);
    }
    push_all(&mut out, &n);
    string_of(&out)
}

/// The directory of a namespace of two segments under `root_dir`.
fn directory_of(root_dir: &str, parts: &Vec<String>) -> (r: String)
    requires
        parts@.len() == 2,
    ensures
        r@ == directory(root_dir@, texts(parts@)),
{
    assert(texts(parts@)[0] == parts@[0]@);
    assert(texts(parts@)[1] == parts@[1]@);
    let user = join_path(root_dir, parts[0].as_str());
    join_path(user.as_str(), parts[1].as_str())
}

/// The directory of a namespace under `root_dir`.
///
/// The namespace must have exactly two segments;
/// `try_resolve_namespace_dir` is the way in for a namespace of which that
/// is not known.
pub fn resolve_namespace_dir(root_dir: &str, namespace: &str) -> (r: String)
    requires
        components(namespace@).len() == 2,
    ensures
        r@ == directory(root_dir@, components(namespace@)),
{
    match parse_namespace_components(namespace) {
        Ok(parts) => directory_of(root_dir, &parts),
        Err(_) => String::new(),
    }
}

/// The directory of a namespace under `root_dir`, for a namespace of which
/// it is not known whether it has two segments: it is tested first, and
/// refused where it has not.
pub fn try_resolve_namespace_dir(root_dir: &str, namespace: &str) -> (r: Result<
    String,
    MemoryError,
>)
    ensures
        match resolved(root_dir@, namespace@) {
            Ok(paths) => r is Ok && r->Ok_0@ == paths.namespace_dir,
            Err(e) => r is Err && r->Err_0 == e,
        },
{
    match parse_namespace_components(namespace) {
        Ok(_) => Ok(resolve_namespace_dir(root_dir, namespace)),
        Err(e) => Err(e),
    }
}

impl StorePaths {
    /// Resolves a raw namespace under `root_dir`.
    ///
    /// The namespace is accepted exactly when it has two segments once
    /// backslashes count as slashes and empty, `.` and `..` pieces are
    /// dropped.
    pub fn new(root_dir: &str, namespace: &str) -> (r: Result<StorePaths, MemoryError>)
        ensures
            match resolved(root_dir@, namespace@) {
                Ok(paths) => r is Ok && r->Ok_0@ == paths,
                Err(e) => r is Err && r->Err_0 == e,
            },
    {
        let parts = match parse_namespace_components(namespace) {
            Ok(parts) => parts,
            Err(e) => { return Err(e); },
        };
        assert(texts(parts@)[0] == parts@[0]@);
        assert(texts(parts@)[1] == parts@[1]@);
        let mut canonical_form = chars_of(parts[0].as_str());
        canonical_form.push('/');
        assert(canonical_form@ == parts@[0]@ + seq!['/']);
        push_all(&mut canonical_form, &chars_of(parts[1].as_str()));
        let namespace_text = string_of(&canonical_form);
        let namespace_dir = directory_of(root_dir, &parts);
        let memories_path = join_path(namespace_dir.as_str(), "memories.jsonl");
        let index_path = join_path(namespace_dir.as_str(), "index.json");
        Ok(StorePaths { namespace: namespace_text, namespace_dir, memories_path, index_path })
    }

    /// A copy of these paths.
    pub fn duplicate(&self) -> (r: StorePaths)
        ensures
            r@ == self@,
    {
        StorePaths {
            namespace: self.namespace.clone(),
            namespace_dir: self.namespace_dir.clone(),
            memories_path: self.memories_path.clone(),
            index_path: self.index_path.clone(),
        }
    }
}

/// Whether `name` can stand as one level of a directory tree without leading
/// out of it: it is not empty, holds no separator and no other illegal
/// character, and neither begins nor ends with a space or a full stop, so it
/// is neither `.` nor `..`.
pub open spec fn safe_name(name: Seq<char>) -> bool {
    &&& name.len() > 0
    &&& forall|i: int| 0 <= i < name.len() ==> !is_illegal(#[trigger] name[i])
    &&& name.first() != ' ' && name.first() != '.'
    &&& name.last() != ' ' && name.last() != '.'
}

/// Every sanitized segment is a safe file name.
pub proof fn lemma_sanitized_safe(segment: Seq<char>)
    ensures
        safe_name(sanitized(segment)),
{
    let m = Seq::new(segment.len(), |i: int| legal(segment[i]));
    let t = stripped(m, CharClass::SpaceOrDot);
    lemma_stripped_ends(m, CharClass::SpaceOrDot);
    crate::text::lemma_lead_bounds(m, CharClass::SpaceOrDot, 0);
    crate::text::lemma_trail_bounds(m, CharClass::SpaceOrDot, m.len() as int);
    if t.len() > 0 {
        let a = crate::text::lead(m, CharClass::SpaceOrDot, 0);
        assert forall|i: int| 0 <= i < t.len() implies !is_illegal(#[trigger] t[i]) by {
            assert(t[i] == m[a + i]);
        }
        assert(CharClass::SpaceOrDot.has(' ') && CharClass::SpaceOrDot.has('.'));
    } else {
        assert(sanitized(segment) == seq!['_']);
        assert(seq!['_'][0] == '_');
    }
}

/// No segment of a namespace leads out of the directory tree: whatever the
/// raw namespace, each of its segments is a safe file name.
pub proof fn lemma_components_safe(raw: Seq<char>)
    ensures
        forall|i: int| 0 <= i < components(raw).len() ==> safe_name(#[trigger] components(raw)[i]),
{
    lemma_segments_safe(pieces(slashed(trimmed(raw)), CharClass::Slash));
}

/// Each segment that a sequence of pieces stands for is a safe file name.
pub proof fn lemma_segments_safe(parts: Seq<Seq<char>>)
    ensures
        forall|i: int| 0 <= i < segments_of(parts).len() ==> safe_name(#[trigger] segments_of(parts)[i]),
    decreases parts.len(),
{
    if parts.len() > 0 {
        let before = segments_of(parts.drop_last());
        lemma_segments_safe(parts.drop_last());
        lemma_sanitized_safe(trimmed(parts.last()));
        assert forall|i: int| 0 <= i < segments_of(parts).len() implies safe_name(
            #[trigger] segments_of(parts)[i],
        ) by {
            if i < before.len() {
                assert(segments_of(parts)[i] == before[i]);
            }
        }
    }
}

/// Two spellings of a namespace that have the same segments resolve to the
/// same canonical namespace, the same directory and the same files.
pub proof fn lemma_equal_segments_resolve_alike(root: Seq<char>, n1: Seq<char>, n2: Seq<char>)
    requires
        components(n1) == components(n2),
    ensures
        resolved(root, n1) == resolved(root, n2),
{
}

} // verus!
