//! The resolved project model: module paths, target identities, targets,
//! modules and projects.

use vstd::prelude::*;
use crate::order::{id_lt, path_lt};
use crate::text::{text_eq, text_lt, chars_of, join, owned, push_str, spec_is_whitespace, split_colons, split_colons_chars, text_less, texts, is_whitespace};

verus! {

/// The view of a target identity: its module path and its local name.
pub type IdView = (Seq<Seq<char>>, Seq<char>);

/// One acceptance specification, kept as natural-language text.
#[derive(Debug, PartialEq, Eq)]
pub struct Spec {
    content: String,
}

impl View for Spec {
    type V = Seq<char>;

    closed spec fn view(&self) -> Seq<char> {
        self.content@
    }
}

impl Spec {
    /// Creates a specification from text.
    pub fn new(content: &str) -> (r: Self)
        ensures
            r@ == content@,
    {
        Spec { content: owned(content) }
    }

    /// Borrows the text of the specification.
    pub fn content(&self) -> (r: &str)
        ensures
            r@ == self@,
    {
        self.content.as_str()
    }

    /// Consumes the specification and returns its text.
    pub fn into_content(self) -> (r: String)
        ensures
            r@ == self@,
    {
        self.content
    }

    /// Copies the specification.
    pub fn duplicate(&self) -> (r: Self)
        ensures
            r@ == self@,
    {
        Spec { content: self.content.clone() }
    }
}

/// Whether `segment` can name a directory or file inside the project: it is
/// not empty, not `.` or `..`, and holds no white space, `/`, `\` or `:`.
pub open spec fn valid_segment(segment: Seq<char>) -> bool {
    &&& segment.len() > 0
    &&& segment != seq!['.']
    &&& segment != seq!['.', '.']
    &&& forall|i: int|
        0 <= i < segment.len() ==> !(spec_is_whitespace(#[trigger] segment[i]) || segment[i] == '/'
            || segment[i] == '\\' || segment[i] == ':')
}

/// `i` is the first position of `segments` that holds an invalid segment.
pub open spec fn first_invalid_segment(segments: Seq<Seq<char>>, i: int) -> bool {
    &&& 0 <= i < segments.len()
    &&& !valid_segment(segments[i])
    &&& forall|j: int| 0 <= j < i ==> valid_segment(#[trigger] segments[j])
}

/// Tests whether a segment can be mapped to a path inside the project.
pub fn is_valid_path_segment(segment: &str) -> (r: bool)
    ensures
        r == valid_segment(segment@),
{
    let chars = chars_of(segment);
    if chars.len() == 0 {
        return false;
    }
    if chars.len() == 1 && chars[0] == '.' {
        assert(chars@ =~= seq!['.']);
        return false;
    }
    if chars.len() == 2 && chars[0] == '.' && chars[1] == '.' {
        assert(chars@ =~= seq!['.', '.']);
        return false;
    }
    assert(chars@ != seq!['.']) by {
        if chars@ == seq!['.'] {
            assert(chars@.len() == 1 && chars@[0] == '.');
        }
    }
    assert(chars@ != seq!['.', '.']) by {
        if chars@ == seq!['.', '.'] {
            assert(chars@.len() == 2 && chars@[0] == '.' && chars@[1] == '.');
        }
    }
    let mut i: usize = 0;
    while i < chars.len()
        invariant
            i <= chars.len(),
            chars@ == segment@,
            forall|j: int|
                0 <= j < i ==> !(spec_is_whitespace(#[trigger] chars@[j]) || chars@[j] == '/'
                    || chars@[j] == '\\' || chars@[j] == ':'),
        decreases chars.len() - i,
    {
        let c = chars[i];
        if is_whitespace(c) || c == '/' || c == '\\' || c == ':' {
            return false;
        }
        i = i + 1;
    }
    true
}

/// Whether `name` can name a target: it is a valid path segment and holds
/// no backquote, which delimits names in Markdown.
pub open spec fn valid_target_name(name: Seq<char>) -> bool {
    valid_segment(name) && !crate::text::has_char(name, '`')
}

/// Tests whether a text can name a target.
pub fn is_valid_target_name(name: &str) -> (r: bool)
    ensures
        r == valid_target_name(name@),
{
    if !is_valid_path_segment(name) {
        return false;
    }
    let chars = chars_of(name);
    !crate::text::contains_char(chars.as_slice(), '`')
}

/// A module path relative to the project root, such as `catalog::api`.
#[derive(Debug, PartialEq, Eq, PartialOrd, Ord, Hash)]
pub struct ModulePath {
    segments: Vec<String>,
}

impl View for ModulePath {
    type V = Seq<Seq<char>>;

    closed spec fn view(&self) -> Seq<Seq<char>> {
        texts(self.segments@)
    }
}

/// Why a module path could not be built.
#[derive(Debug, PartialEq, Eq)]
pub enum ModulePathError {
    EmptyPath,
    InvalidSegment(String),
}

impl ModulePathError {
    /// The message that describes the error.
    pub fn to_string(&self) -> (r: String)
        ensures
            r@ == match self {
                ModulePathError::EmptyPath => "a module path cannot be empty"@,
                ModulePathError::InvalidSegment(s) => "`"@ + s@ + "` is not a valid module path segment"@,
            },
    {
        match self {
            ModulePathError::EmptyPath => owned("a module path cannot be empty"),
            ModulePathError::InvalidSegment(s) => {
                let mut r = owned("`");
                push_str(&mut r, s.as_str());
                push_str(&mut r, "` is not a valid module path segment");
                r
            },
        }
    }
}

/// Copies a list of strings.
pub fn copy_strings(v: &Vec<String>) -> (r: Vec<String>)
    ensures
        texts(r@) == texts(v@),
        r@.len() == v@.len(),
{
    let mut r: Vec<String> = Vec::new();
    let mut i: usize = 0;
    while i < v.len()
        invariant
            i <= v.len(),
            r@.len() == i,
            forall|j: int| 0 <= j < i ==> #[trigger] r@[j]@ == v@[j]@,
        decreases v.len() - i,
    {
        r.push(v[i].clone());
        i = i + 1;
    }
    assert(texts(r@) =~= texts(v@));
    r
}

impl ModulePath {
    /// The root module path, which has no segments.
    pub fn root() -> (r: Self)
        ensures
            r@ == Seq::<Seq<char>>::empty(),
    {
        let r = ModulePath { segments: Vec::new() };
        assert(r@ =~= Seq::<Seq<char>>::empty());
        r
    }

    /// Checks every segment and builds the path; the first invalid segment is
    /// reported.
    pub fn new(segments: Vec<String>) -> (r: Result<Self, ModulePathError>)
        ensures
            r is Ok <==> forall|i: int| 0 <= i < segments@.len() ==> valid_segment(#[trigger] texts(segments@)[i]),
            r matches Ok(p) ==> p@ == texts(segments@),
            r matches Err(e) ==> exists|i: int| first_invalid_segment(texts(segments@), i) && e == ModulePathError::InvalidSegment(segments@[i]),
    {
        let mut i: usize = 0;
        while i < segments.len()
            invariant
                i <= segments.len(),
                forall|j: int| 0 <= j < i ==> valid_segment(#[trigger] texts(segments@)[j]),
            decreases segments.len() - i,
        {
            if !is_valid_path_segment(segments[i].as_str()) {
                let bad = segments[i].clone();
                assert(first_invalid_segment(texts(segments@), i as int));
                return Err(ModulePathError::InvalidSegment(bad));
            }
            i = i + 1;
        }
        Ok(ModulePath { segments })
    }

    /// Builds a path from its `::`-separated form.
    pub fn parse(path: &str) -> (r: Result<Self, ModulePathError>)
        ensures
            path@.len() == 0 ==> r == Err::<Self, ModulePathError>(ModulePathError::EmptyPath),
            path@.len() > 0 ==> (r is Ok <==> forall|i: int| 0 <= i < split_colons(path@).len() ==> valid_segment(#[trigger] split_colons(path@)[i])),
            path@.len() > 0 ==> (r matches Ok(p) ==> p@ == split_colons(path@)),
            path@.len() > 0 ==> (r matches Err(e) ==> exists|i: int| first_invalid_segment(split_colons(path@), i) && (e matches ModulePathError::InvalidSegment(s) && s@ == split_colons(path@)[i])),
    {
        let chars = chars_of(path);
        if chars.len() == 0 {
            return Err(ModulePathError::EmptyPath);
        }
        let segments = split_colons_chars(chars.as_slice());
        Self::new(segments)
    }

    /// The segments of the path.
    pub fn segments(&self) -> (r: &[String])
        ensures
            texts(r@) == self@,
    {
        self.segments.as_slice()
    }

    /// Whether this is the root module path.
    pub fn is_root(&self) -> (r: bool)
        ensures
            r == (self@.len() == 0),
    {
        self.segments.len() == 0
    }

    /// The `::`-separated form of the path.
    pub fn to_string(&self) -> (r: String)
        ensures
            r@ == join(self@, "::"@),
    {
        let mut r = String::new();
        let mut i: usize = 0;
        while i < self.segments.len()
            invariant
                i <= self.segments.len(),
                r@ == join(self@.take(i as int), "::"@),
            decreases self.segments.len() - i,
        {
            if i > 0 {
                push_str(&mut r, "::");
            }
            push_str(&mut r, self.segments[i].as_str());
            i = i + 1;
            assert(self@.take(i as int).drop_last() =~= self@.take(i - 1));
        }
        assert(self@.take(self.segments.len() as int) =~= self@);
        r
    }

    /// Copies the path.
    pub fn duplicate(&self) -> (r: Self)
        ensures
            r@ == self@,
    {
        ModulePath { segments: copy_strings(&self.segments) }
    }

    /// Tests two paths for equality.
    pub fn same(&self, other: &Self) -> (r: bool)
        ensures
            r == (self@ == other@),
    {
        if self.segments.len() != other.segments.len() {
            assert(self@.len() != other@.len());
            return false;
        }
        let mut i: usize = 0;
        while i < self.segments.len()
            invariant
                i <= self.segments.len(),
                self.segments.len() == other.segments.len(),
                self@.len() == self.segments.len(),
                other@.len() == other.segments.len(),
                forall|j: int| 0 <= j < i ==> #[trigger] self@[j] == other@[j],
            decreases self.segments.len() - i,
        {
            if !(self.segments[i] == other.segments[i]) {
                assert(self@[i as int] != other@[i as int]);
                return false;
            }
            i = i + 1;
        }
        assert(self@ =~= other@);
        true
    }

    /// Whether this path precedes `other` in the stable module order.
    pub fn precedes(&self, other: &Self) -> (r: bool)
        ensures
            r == path_lt(self@, other@),
    {
        let mut i: usize = 0;
        assert(self@.skip(0) == self@);
        assert(other@.skip(0) == other@);
        while i < self.segments.len() && i < other.segments.len()
            invariant
                i <= self.segments.len(),
                i <= other.segments.len(),
                path_lt(self@, other@) == path_lt(self@.skip(i as int), other@.skip(i as int)),
            decreases self.segments.len() - i,
        {
            assert(self@.skip(i as int)[0] == self@[i as int]);
            assert(other@.skip(i as int)[0] == other@[i as int]);
            if text_less(self.segments[i].as_str(), other.segments[i].as_str()) {
                return true;
            }
            if !(self.segments[i] == other.segments[i]) {
                return false;
            }
            assert(self@.skip(i as int).drop_first() == self@.skip(i + 1));
            assert(other@.skip(i as int).drop_first() == other@.skip(i + 1));
            i = i + 1;
        }
        i < other.segments.len()
    }
}

/// Identifies a target by its module path and local name.
#[derive(Debug, PartialEq, Eq, PartialOrd, Ord, Hash)]
pub struct TargetId {
    namespace: ModulePath,
    name: String,
}

impl View for TargetId {
    type V = IdView;

    closed spec fn view(&self) -> IdView {
        (self.namespace@, self.name@)
    }
}

/// The qualified form of an identity: its name alone in the root module,
/// otherwise `path::name`.
pub open spec fn id_text(id: IdView) -> Seq<char> {
    if id.0.len() == 0 {
        id.1
    } else {
        join(id.0, "::"@) + "::"@ + id.1
    }
}

impl TargetId {
    /// Combines a module path and a name.
    pub fn new(namespace: ModulePath, name: &str) -> (r: Self)
        ensures
            r@ == (namespace@, name@),
    {
        TargetId { namespace, name: owned(name) }
    }

    /// The module the target belongs to.
    pub fn namespace(&self) -> (r: &ModulePath)
        ensures
            r@ == self@.0,
    {
        &self.namespace
    }

    /// The local name of the target.
    pub fn name(&self) -> (r: &str)
        ensures
            r@ == self@.1,
    {
        self.name.as_str()
    }

    /// The qualified name.
    pub fn to_string(&self) -> (r: String)
        ensures
            r@ == id_text(self@),
    {
        if self.namespace.is_root() {
            self.name.clone()
        } else {
            let mut r = self.namespace.to_string();
            push_str(&mut r, "::");
            push_str(&mut r, self.name.as_str());
            r
        }
    }

    /// Copies the identity.
    pub fn duplicate(&self) -> (r: Self)
        ensures
            r@ == self@,
    {
        TargetId { namespace: self.namespace.duplicate(), name: self.name.clone() }
    }

    /// Tests two identities for equality.
    pub fn same(&self, other: &Self) -> (r: bool)
        ensures
            r == (self@ == other@),
    {
        self.namespace.same(&other.namespace) && self.name == other.name
    }

    /// Whether this identity precedes `other` in the stable target order.
    pub fn precedes(&self, other: &Self) -> (r: bool)
        ensures
            r == id_lt(self@, other@),
    {
        if self.namespace.precedes(&other.namespace) {
            true
        } else if self.namespace.same(&other.namespace) {
            text_less(self.name.as_str(), other.name.as_str())
        } else {
            false
        }
    }
}

/// Whether other modules may refer to a target.
#[derive(Clone, Copy, Debug, PartialEq, Eq, Structural)]
pub enum Visibility {
    Private,
    Public,
}

impl Default for Visibility {
    fn default() -> (r: Self)
        ensures
            r == Visibility::Private,
    {
        Visibility::Private
    }
}

/// The view of a target.
pub struct TargetView {
    pub id: IdView,
    pub public: bool,
    pub dependencies: Seq<IdView>,
    pub description: Seq<char>,
    pub specifications: Seq<Seq<char>>,
}

/// The views of a list of identities.
pub open spec fn ids(v: Seq<TargetId>) -> Seq<IdView> {
    v.map_values(|t: TargetId| t@)
}

/// The views of a list of specifications.
pub open spec fn spec_texts(v: Seq<Spec>) -> Seq<Seq<char>> {
    v.map_values(|s: Spec| s@)
}

/// A resolved target that takes part in the dependency graph.
#[derive(Debug, PartialEq, Eq)]
pub struct Target {
    id: TargetId,
    visibility: Visibility,
    dependencies: Vec<TargetId>,
    description: String,
    specifications: Vec<Spec>,
}

impl View for Target {
    type V = TargetView;

    closed spec fn view(&self) -> TargetView {
        TargetView {
            id: self.id@,
            public: self.visibility == Visibility::Public,
            dependencies: ids(self.dependencies@),
            description: self.description@,
            specifications: spec_texts(self.specifications@),
        }
    }
}

/// Copies a list of identities.
pub fn copy_ids(v: &[TargetId]) -> (r: Vec<TargetId>)
    ensures
        ids(r@) == ids(v@),
{
    let mut r: Vec<TargetId> = Vec::new();
    let mut i: usize = 0;
    while i < v.len()
        invariant
            i <= v.len(),
            r@.len() == i,
            forall|j: int| 0 <= j < i ==> #[trigger] r@[j]@ == v@[j]@,
        decreases v.len() - i,
    {
        r.push(v[i].duplicate());
        i = i + 1;
    }
    assert(ids(r@) =~= ids(v@));
    r
}

/// Tests whether `id` occurs in `v`.
pub fn contains_id(v: &[TargetId], id: &TargetId) -> (r: bool)
    ensures
        r == ids(v@).contains(id@),
{
    let mut i: usize = 0;
    while i < v.len()
        invariant
            i <= v.len(),
            forall|j: int| 0 <= j < i ==> #[trigger] v@[j]@ != id@,
        decreases v.len() - i,
    {
        if v[i].same(id) {
            assert(ids(v@)[i as int] == id@);
            return true;
        }
        i = i + 1;
    }
    assert(!ids(v@).contains(id@)) by {
        if ids(v@).contains(id@) {
            let k = choose|k: int| 0 <= k < ids(v@).len() && ids(v@)[k] == id@;
            assert(v@[k]@ == id@);
        }
    }
    false
}

impl Target {
    /// Creates a private target with no content.
    pub fn new(namespace: ModulePath, name: &str) -> (r: Self)
        ensures
            r@ == (TargetView {
                id: (namespace@, name@),
                public: false,
                dependencies: seq![],
                description: seq![],
                specifications: seq![],
            }),
    {
        let r = Target {
            id: TargetId::new(namespace, name),
            visibility: Visibility::Private,
            dependencies: Vec::new(),
            description: String::new(),
            specifications: Vec::new(),
        };
        assert(ids(r.dependencies@) =~= seq![]);
        assert(spec_texts(r.specifications@) =~= seq![]);
        r
    }

    /// The identity of the target.
    pub fn id(&self) -> (r: &TargetId)
        ensures
            r@ == self@.id,
    {
        &self.id
    }

    /// The module the target belongs to.
    pub fn namespace(&self) -> (r: &ModulePath)
        ensures
            r@ == self@.id.0,
    {
        self.id.namespace()
    }

    /// The local name of the target.
    pub fn name(&self) -> (r: &str)
        ensures
            r@ == self@.id.1,
    {
        self.id.name()
    }

    /// The visibility of the target.
    pub fn visibility(&self) -> (r: Visibility)
        ensures
            (r == Visibility::Public) == self@.public,
    {
        self.visibility
    }

    /// Whether other modules may refer to the target.
    pub fn is_public(&self) -> (r: bool)
        ensures
            r == self@.public,
    {
        self.visibility == Visibility::Public
    }

    /// Sets the visibility of the target.
    pub fn set_visibility(&mut self, visibility: Visibility)
        ensures
            final(self)@ == (TargetView { public: visibility == Visibility::Public, ..old(self)@ }),
    {
        self.visibility = visibility;
    }

    /// The direct dependencies of the target.
    pub fn dependencies(&self) -> (r: &[TargetId])
        ensures
            ids(r@) == self@.dependencies,
    {
        self.dependencies.as_slice()
    }

    /// Records a direct dependency unless it is already recorded.
    pub fn add_dependency(&mut self, dependency: TargetId)
        ensures
            final(self)@ == with_dependency(old(self)@, dependency@),
    {
        if !contains_id(self.dependencies.as_slice(), &dependency) {
            let ghost old_deps = self.dependencies@;
            self.dependencies.push(dependency);
            assert(ids(self.dependencies@) =~= ids(old_deps).push(dependency@));
        }
    }

    /// The description of the target.
    pub fn description(&self) -> (r: &str)
        ensures
            r@ == self@.description,
    {
        self.description.as_str()
    }

    /// Replaces the description.
    pub fn set_description(&mut self, description: &str)
        ensures
            final(self)@ == (TargetView { description: description@, ..old(self)@ }),
    {
        self.description = owned(description);
    }

    /// Appends a line of text to the description, on a new line when the
    /// description is not empty.
    pub fn append_description(&mut self, text: &str)
        ensures
            final(self)@ == (TargetView {
                description: if old(self)@.description.len() == 0 {
                    text@
                } else {
                    old(self)@.description.push('\n') + text@
                },
                ..old(self)@
            }),
    {
        if !self.description.as_str().is_empty() {
            self.description.push('\n');
        }
        push_str(&mut self.description, text);
    }

    /// The specifications of the target.
    pub fn specifications(&self) -> (r: &[Spec])
        ensures
            spec_texts(r@) == self@.specifications,
    {
        self.specifications.as_slice()
    }

    /// Appends a specification.
    pub fn add_specification(&mut self, specification: Spec)
        ensures
            final(self)@ == (TargetView {
                specifications: old(self)@.specifications.push(specification@),
                ..old(self)@
            }),
    {
        let ghost old_specs = self.specifications@;
        self.specifications.push(specification);
        assert(spec_texts(self.specifications@) =~= spec_texts(old_specs).push(specification@));
    }

    /// Copies the target.
    pub fn duplicate(&self) -> (r: Self)
        ensures
            r@ == self@,
    {
        let mut specifications: Vec<Spec> = Vec::new();
        let mut i: usize = 0;
        while i < self.specifications.len()
            invariant
                i <= self.specifications.len(),
                specifications@.len() == i,
                forall|j: int| 0 <= j < i ==> #[trigger] specifications@[j]@ == self.specifications@[j]@,
            decreases self.specifications.len() - i,
        {
            specifications.push(self.specifications[i].duplicate());
            i = i + 1;
        }
        assert(spec_texts(specifications@) =~= spec_texts(self.specifications@));
        Target {
            id: self.id.duplicate(),
            visibility: self.visibility,
            dependencies: copy_ids(self.dependencies.as_slice()),
            description: self.description.clone(),
            specifications,
        }
    }
}


/// Every name precedes the names after it.
pub open spec fn texts_sorted(k: Seq<Seq<char>>) -> bool {
    forall|i: int, j: int| 0 <= i < j < k.len() ==> text_lt(#[trigger] k[i], #[trigger] k[j])
}

/// Every module path precedes the paths after it.
pub open spec fn paths_sorted(k: Seq<Seq<Seq<char>>>) -> bool {
    forall|i: int, j: int| 0 <= i < j < k.len() ==> path_lt(#[trigger] k[i], #[trigger] k[j])
}

/// Inserting a name at the position where it fits keeps names sorted.
pub proof fn lemma_insert_keeps_texts_sorted(k: Seq<Seq<char>>, p: int, x: Seq<char>)
    requires
        texts_sorted(k),
        0 <= p <= k.len(),
        forall|j: int| 0 <= j < p ==> text_lt(#[trigger] k[j], x),
        p < k.len() ==> text_lt(x, k[p]),
    ensures
        texts_sorted(k.insert(p, x)),
{
    let n = k.insert(p, x);
    assert forall|i: int, j: int| 0 <= i < j < n.len() implies text_lt(#[trigger] n[i], #[trigger] n[j]) by {
        if i < p && j < p {
        } else if i < p && j == p {
        } else if i < p && j > p {
            assert(n[j] == k[j - 1]);
            if j - 1 > p {
                crate::order::lemma_text_lt_transitive(x, k[p], k[j - 1]);
            }
            crate::order::lemma_text_lt_transitive(k[i], x, k[j - 1]);
        } else if i == p {
            assert(n[j] == k[j - 1]);
            if j - 1 > p {
                crate::order::lemma_text_lt_transitive(x, k[p], k[j - 1]);
            }
        } else {
            assert(n[i] == k[i - 1] && n[j] == k[j - 1]);
        }
    }
}

/// Inserting a path at the position where it fits keeps paths sorted.
pub proof fn lemma_insert_keeps_paths_sorted(k: Seq<Seq<Seq<char>>>, p: int, x: Seq<Seq<char>>)
    requires
        paths_sorted(k),
        0 <= p <= k.len(),
        forall|j: int| 0 <= j < p ==> path_lt(#[trigger] k[j], x),
        p < k.len() ==> path_lt(x, k[p]),
    ensures
        paths_sorted(k.insert(p, x)),
{
    let n = k.insert(p, x);
    assert forall|i: int, j: int| 0 <= i < j < n.len() implies path_lt(#[trigger] n[i], #[trigger] n[j]) by {
        if i < p && j < p {
        } else if i < p && j == p {
        } else if i < p && j > p {
            assert(n[j] == k[j - 1]);
            if j - 1 > p {
                crate::order::lemma_path_lt_transitive(x, k[p], k[j - 1]);
            }
            crate::order::lemma_path_lt_transitive(k[i], x, k[j - 1]);
        } else if i == p {
            assert(n[j] == k[j - 1]);
            if j - 1 > p {
                crate::order::lemma_path_lt_transitive(x, k[p], k[j - 1]);
            }
        } else {
            assert(n[i] == k[i - 1] && n[j] == k[j - 1]);
        }
    }
}

/// The view of a module.
pub struct ModuleView {
    pub namespace: Seq<Seq<char>>,
    pub includes: Seq<IdView>,
    pub targets: Seq<TargetView>,
}

/// The names of a list of targets.
pub open spec fn target_names(ts: Seq<TargetView>) -> Seq<Seq<char>> {
    ts.map_values(|t: TargetView| t.id.1)
}

/// The views of a list of targets.
pub open spec fn target_views(ts: Seq<Target>) -> Seq<TargetView> {
    ts.map_values(|t: Target| t@)
}

/// A well-formed module lists its targets by strictly increasing name, each
/// in the module's own namespace.
pub open spec fn module_wf(m: ModuleView) -> bool {
    &&& texts_sorted(target_names(m.targets))
    &&& forall|i: int| 0 <= i < m.targets.len() ==> (#[trigger] m.targets[i]).id.0 == m.namespace
}

/// The target of `m` called `name`, if there is one.
pub open spec fn target_named(m: ModuleView, name: Seq<char>) -> Option<TargetView> {
    if exists|i: int| 0 <= i < m.targets.len() && (#[trigger] m.targets[i]).id.1 == name {
        Some(m.targets[choose|i: int| 0 <= i < m.targets.len() && (#[trigger] m.targets[i]).id.1 == name])
    } else {
        None
    }
}

/// In a sorted list, the target at `i` is the only one with its name.
pub proof fn lemma_sorted_names_unique(ts: Seq<TargetView>, i: int, j: int)
    requires
        texts_sorted(target_names(ts)),
        0 <= i < ts.len(),
        0 <= j < ts.len(),
        ts[i].id.1 == ts[j].id.1,
    ensures
        i == j,
{
    if i < j {
        assert(text_lt(target_names(ts)[i], target_names(ts)[j]));
        crate::order::lemma_text_lt_irreflexive(ts[i].id.1);
    } else if j < i {
        assert(text_lt(target_names(ts)[j], target_names(ts)[i]));
        crate::order::lemma_text_lt_irreflexive(ts[i].id.1);
    }
}

/// Replacing one target of a list replaces its view.
pub broadcast proof fn lemma_views_update(ts: Seq<Target>, i: int, t: Target)
    requires
        0 <= i < ts.len(),
    ensures
        #[trigger] target_views(ts.update(i, t)) == target_views(ts).update(i, t@),
{
    assert(target_views(ts.update(i, t)) =~= target_views(ts).update(i, t@));
}

/// Why a target could not be added to a module.
#[derive(Debug, PartialEq, Eq)]
pub enum AddTargetError {
    DuplicateName(String),
    NamespaceMismatch { module: ModulePath, target: TargetId },
}

impl AddTargetError {
    /// The message that describes the error.
    pub fn to_string(&self) -> (r: String)
        ensures
            r@ == match self {
                AddTargetError::DuplicateName(n) => "target `"@ + n@ + "` already exists"@,
                AddTargetError::NamespaceMismatch { module, target } => "target `"@ + id_text(target@)
                    + "` cannot be added to module `"@ + join(module@, "::"@)
                    + "` because their namespaces differ"@,
            },
    {
        match self {
            AddTargetError::DuplicateName(n) => {
                let mut r = owned("target `");
                push_str(&mut r, n.as_str());
                push_str(&mut r, "` already exists");
                r
            },
            AddTargetError::NamespaceMismatch { module, target } => {
                let mut r = owned("target `");
                let t = target.to_string();
                push_str(&mut r, t.as_str());
                push_str(&mut r, "` cannot be added to module `");
                let m = module.to_string();
                push_str(&mut r, m.as_str());
                push_str(&mut r, "` because their namespaces differ");
                r
            },
        }
    }
}

/// Why a target could not be published.
#[derive(Debug, PartialEq, Eq)]
pub enum PublishTargetError {
    TargetNotFound(String),
}

impl PublishTargetError {
    /// The message that describes the error.
    pub fn to_string(&self) -> (r: String)
        ensures
            r@ == match self {
                PublishTargetError::TargetNotFound(n) => "target `"@ + n@ + "` does not exist"@,
            },
    {
        match self {
            PublishTargetError::TargetNotFound(n) => {
                let mut r = owned("target `");
                push_str(&mut r, n.as_str());
                push_str(&mut r, "` does not exist");
                r
            },
        }
    }
}

/// The targets and imports of one namespace.
#[derive(Debug, PartialEq, Eq)]
pub struct Module {
    namespace: ModulePath,
    includes: Vec<TargetId>,
    targets: Vec<Target>,
}

impl View for Module {
    type V = ModuleView;

    closed spec fn view(&self) -> ModuleView {
        ModuleView {
            namespace: self.namespace@,
            includes: ids(self.includes@),
            targets: target_views(self.targets@),
        }
    }
}

impl Module {
    /// Whether the module is well formed.
    pub open spec fn wf(&self) -> bool {
        module_wf(self@)
    }

    /// Creates an empty module.
    pub fn new(namespace: ModulePath) -> (r: Self)
        ensures
            r@ == (ModuleView { namespace: namespace@, includes: seq![], targets: seq![] }),
            r.wf(),
    {
        let r = Module { namespace, includes: Vec::new(), targets: Vec::new() };
        assert(ids(r.includes@) =~= seq![]);
        assert(target_views(r.targets@) =~= seq![]);
        r
    }

    /// The path of the module.
    pub fn namespace(&self) -> (r: &ModulePath)
        ensures
            r@ == self@.namespace,
    {
        &self.namespace
    }

    /// The resolved imports of the module.
    pub fn includes(&self) -> (r: &[TargetId])
        ensures
            ids(r@) == self@.includes,
    {
        self.includes.as_slice()
    }

    /// Records an import unless it is already recorded.
    pub fn add_include(&mut self, imported: TargetId)
        ensures
            final(self)@ == with_import(old(self)@, imported@),
    {
        if !contains_id(self.includes.as_slice(), &imported) {
            let ghost old_includes = self.includes@;
            self.includes.push(imported);
            assert(ids(self.includes@) =~= ids(old_includes).push(imported@));
        }
    }

    /// The targets, by increasing name.
    pub fn targets(&self) -> (r: &[Target])
        ensures
            target_views(r@) == self@.targets,
    {
        self.targets.as_slice()
    }

    /// Finds the position of the target called `name`.
    fn position(&self, name: &str) -> (r: Option<usize>)
        requires
            self.wf(),
        ensures
            match r {
                Some(i) => i < self@.targets.len() && self@.targets[i as int].id.1 == name@
                    && target_named(self@, name@) == Some(self@.targets[i as int]),
                None => target_named(self@, name@) is None,
            },
    {
        let mut i: usize = 0;
        while i < self.targets.len()
            invariant
                i <= self.targets.len(),
                self.wf(),
                forall|j: int| 0 <= j < i ==> (#[trigger] self@.targets[j]).id.1 != name@,
            decreases self.targets.len() - i,
        {
            if text_eq(self.targets[i].name(), name) {
                proof {
                    assert(self@.targets.len() == self.targets@.len());
                    assert(self@.targets[i as int].id.1 == name@);
                    let k = choose|k: int| 0 <= k < self@.targets.len() && (#[trigger] self@.targets[k]).id.1 == name@;
                    lemma_sorted_names_unique(self@.targets, i as int, k);
                }
                return Some(i);
            }
            i = i + 1;
        }
        None
    }

    /// Finds a target by its local name.
    pub fn target(&self, name: &str) -> (r: Option<&Target>)
        requires
            self.wf(),
        ensures
            match r {
                Some(t) => target_named(self@, name@) == Some(t@),
                None => target_named(self@, name@) is None,
            },
    {
        match self.position(name) {
            Some(i) => Some(&self.targets[i]),
            None => None,
        }
    }

    /// Finds a target by its local name, for changing it.
    pub fn target_mut(&mut self, name: &str) -> (r: Option<&mut Target>)
        requires
            old(self).wf(),
        ensures
            match r {
                Some(t) => exists|i: int|
                    0 <= i < old(self)@.targets.len() && old(self)@.targets[i].id.1 == name@ && t@
                        == old(self)@.targets[i] && final(self)@ == (ModuleView {
                        targets: old(self)@.targets.update(i, final(t)@),
                        ..old(self)@
                    }),
                None => target_named(old(self)@, name@) is None && final(self)@ == old(self)@,
            },
    {
        broadcast use lemma_views_update;

        match self.position(name) {
            Some(i) => {
                let r = &mut self.targets[i];
                Some(r)
            },
            None => None,
        }
    }

    /// The public targets, by increasing name.
    pub fn public_targets(&self) -> (r: Vec<&Target>)
        ensures
            r@.map_values(|t: &Target| t@) == self@.targets.filter(|t: TargetView| t.public),
    {
        let mut r: Vec<&Target> = Vec::new();
        let mut i: usize = 0;
        while i < self.targets.len()
            invariant
                i <= self.targets.len(),
                r@.map_values(|t: &Target| t@) == self@.targets.take(i as int).filter(|t: TargetView| t.public),
            decreases self.targets.len() - i,
        {
            let ghost before = r@;
            assert(self@.targets.take(i + 1) == self@.targets.take(i as int).push(self@.targets[i as int]));
            proof {
                self@.targets.take(i as int).lemma_filter_push(self@.targets[i as int], |t: TargetView| t.public);
            }
            if self.targets[i].is_public() {
                r.push(&self.targets[i]);
                assert(r@.map_values(|t: &Target| t@) =~= before.map_values(|t: &Target| t@).push(self@.targets[i as int]));
            }
            i = i + 1;
        }
        assert(self@.targets.take(self.targets.len() as int) == self@.targets);
        r
    }

    /// Makes the target called `name` public.
    pub fn publish_target(&mut self, name: &str) -> (r: Result<(), PublishTargetError>)
        requires
            old(self).wf(),
        ensures
            final(self).wf(),
            match r {
                Ok(()) => exists|i: int|
                    0 <= i < old(self)@.targets.len() && old(self)@.targets[i].id.1 == name@
                        && final(self)@ == (ModuleView {
                        targets: old(self)@.targets.update(i, TargetView { public: true, ..old(self)@.targets[i] }),
                        ..old(self)@
                    }),
                Err(e) => target_named(old(self)@, name@) is None && final(self)@ == old(self)@
                    && e == PublishTargetError::TargetNotFound(e->0) && e->0@ == name@,
            },
    {
        match self.position(name) {
            Some(i) => {
                let ghost old_targets = self.targets@;
                let mut t = self.targets.remove(i);
                t.set_visibility(Visibility::Public);
                self.targets.insert(i, t);
                assert(target_views(self.targets@) =~= target_views(old_targets).update(
                    i as int,
                    TargetView { public: true, ..target_views(old_targets)[i as int] },
                ));
                assert(target_names(self@.targets) =~= target_names(target_views(old_targets)));
                Ok(())
            },
            None => Err(PublishTargetError::TargetNotFound(owned(name))),
        }
    }

    /// Adds a target of this module's namespace whose name is not yet taken,
    /// keeping the targets ordered by name.
    pub fn add_target(&mut self, target: Target) -> (r: Result<(), AddTargetError>)
        requires
            old(self).wf(),
        ensures
            final(self).wf(),
            target@.id.0 != old(self)@.namespace ==> final(self)@ == old(self)@ && r == Err::<(), AddTargetError>(
                AddTargetError::NamespaceMismatch { module: r->Err_0->module, target: r->Err_0->target },
            ) && r->Err_0->module@ == old(self)@.namespace && r->Err_0->target@ == target@.id,
            target@.id.0 == old(self)@.namespace && target_named(old(self)@, target@.id.1) is Some
                ==> final(self)@ == old(self)@ && r is Err && r->Err_0 == AddTargetError::DuplicateName(r->Err_0->DuplicateName_0)
                && r->Err_0->DuplicateName_0@ == target@.id.1,
            target@.id.0 == old(self)@.namespace && target_named(old(self)@, target@.id.1) is None
                ==> r is Ok && exists|p: int|
                #![trigger old(self)@.targets.insert(p, target@)]
                0 <= p <= old(self)@.targets.len() && final(self)@ == (ModuleView {
                    targets: old(self)@.targets.insert(p, target@),
                    ..old(self)@
                }),
    {
        if !target.namespace().same(&self.namespace) {
            return Err(AddTargetError::NamespaceMismatch {
                module: self.namespace.duplicate(),
                target: target.id().duplicate(),
            });
        }
        let mut i: usize = 0;
        while i < self.targets.len() && text_less(self.targets[i].name(), target.name())
            invariant
                i <= self.targets.len(),
                self.wf(),
                forall|j: int| 0 <= j < i ==> text_lt(#[trigger] target_names(self@.targets)[j], target@.id.1),
            decreases self.targets.len() - i,
        {
            i = i + 1;
        }
        if i < self.targets.len() && text_eq(self.targets[i].name(), target.name()) {
            assert(self@.targets[i as int].id.1 == target@.id.1);
            assert(target_named(self@, target@.id.1) is Some);
            return Err(AddTargetError::DuplicateName(owned(target.name())));
        }
        proof {
            if i < self.targets.len() {
                crate::order::lemma_text_lt_total(target@.id.1, target_names(self@.targets)[i as int]);
            }
            assert forall|j: int| 0 <= j < self@.targets.len() implies (#[trigger] self@.targets[j]).id.1 != target@.id.1 by {
                assert(target_names(self@.targets)[j] == self@.targets[j].id.1);
                if j < i {
                    crate::order::lemma_text_lt_irreflexive(target@.id.1);
                } else {
                    if j > i {
                        crate::order::lemma_text_lt_transitive(target@.id.1, target_names(self@.targets)[i as int], target_names(self@.targets)[j]);
                    }
                    crate::order::lemma_text_lt_irreflexive(target@.id.1);
                }
            }
            lemma_insert_keeps_texts_sorted(target_names(self@.targets), i as int, target@.id.1);
        }
        let ghost old_targets = self.targets@;
        let ghost tv = target@;
        self.targets.insert(i, target);
        assert(target_views(self.targets@) =~= target_views(old_targets).insert(i as int, tv));
        assert(target_names(self@.targets) =~= target_names(target_views(old_targets)).insert(i as int, tv.id.1));
        Ok(())
    }
}


/// The view of a project.
pub struct ProjectView {
    pub root_module: Seq<Seq<char>>,
    pub modules: Seq<ModuleView>,
}

/// The paths of a list of modules.
pub open spec fn module_paths(ms: Seq<ModuleView>) -> Seq<Seq<Seq<char>>> {
    ms.map_values(|m: ModuleView| m.namespace)
}

/// The views of a list of modules.
pub open spec fn module_views(ms: Seq<Module>) -> Seq<ModuleView> {
    ms.map_values(|m: Module| m@)
}

/// A well-formed project lists well-formed modules by strictly increasing
/// path.
pub open spec fn project_wf(p: ProjectView) -> bool {
    &&& paths_sorted(module_paths(p.modules))
    &&& forall|i: int| 0 <= i < p.modules.len() ==> module_wf(#[trigger] p.modules[i])
}

/// The module of `p` at `namespace`, if there is one.
pub open spec fn module_at(p: ProjectView, namespace: Seq<Seq<char>>) -> Option<ModuleView> {
    if exists|i: int| 0 <= i < p.modules.len() && (#[trigger] p.modules[i]).namespace == namespace {
        Some(p.modules[choose|i: int| 0 <= i < p.modules.len() && (#[trigger] p.modules[i]).namespace == namespace])
    } else {
        None
    }
}

/// The target of `p` with identity `id`, if there is one.
pub open spec fn project_target(p: ProjectView, id: IdView) -> Option<TargetView> {
    match module_at(p, id.0) {
        Some(m) => target_named(m, id.1),
        None => None,
    }
}

/// In a sorted list, the module at `i` is the only one with its path.
pub proof fn lemma_sorted_paths_unique(ms: Seq<ModuleView>, i: int, j: int)
    requires
        paths_sorted(module_paths(ms)),
        0 <= i < ms.len(),
        0 <= j < ms.len(),
        ms[i].namespace == ms[j].namespace,
    ensures
        i == j,
{
    if i < j {
        assert(path_lt(module_paths(ms)[i], module_paths(ms)[j]));
        crate::order::lemma_path_lt_irreflexive(ms[i].namespace);
    } else if j < i {
        assert(path_lt(module_paths(ms)[j], module_paths(ms)[i]));
        crate::order::lemma_path_lt_irreflexive(ms[i].namespace);
    }
}

/// Replacing one module of a list replaces its view.
pub broadcast proof fn lemma_module_views_update(ms: Seq<Module>, i: int, m: Module)
    requires
        0 <= i < ms.len(),
    ensures
        #[trigger] module_views(ms.update(i, m)) == module_views(ms).update(i, m@),
{
    assert(module_views(ms.update(i, m)) =~= module_views(ms).update(i, m@));
}

/// Why a module could not be added to a project.
#[derive(Debug, PartialEq, Eq)]
pub enum AddModuleError {
    DuplicateNamespace(ModulePath),
}

impl AddModuleError {
    /// The message that describes the error.
    pub fn to_string(&self) -> (r: String)
        ensures
            r@ == match self {
                AddModuleError::DuplicateNamespace(p) => "module `"@ + join(p@, "::"@) + "` already exists"@,
            },
    {
        match self {
            AddModuleError::DuplicateNamespace(p) => {
                let mut r = owned("module `");
                let t = p.to_string();
                push_str(&mut r, t.as_str());
                push_str(&mut r, "` already exists");
                r
            },
        }
    }
}

/// The loaded and resolved modules of a project.
#[derive(Debug, PartialEq, Eq)]
pub struct Project {
    root_module: ModulePath,
    modules: Vec<Module>,
}

impl View for Project {
    type V = ProjectView;

    closed spec fn view(&self) -> ProjectView {
        ProjectView { root_module: self.root_module@, modules: module_views(self.modules@) }
    }
}

impl Project {
    /// Whether the project is well formed.
    pub open spec fn wf(&self) -> bool {
        project_wf(self@)
    }

    /// Creates a project with no modules.
    pub fn new(root_module: ModulePath) -> (r: Self)
        ensures
            r@ == (ProjectView { root_module: root_module@, modules: seq![] }),
            r.wf(),
    {
        let r = Project { root_module, modules: Vec::new() };
        assert(module_views(r.modules@) =~= seq![]);
        r
    }

    /// The path of the entry module.
    pub fn root_module(&self) -> (r: &ModulePath)
        ensures
            r@ == self@.root_module,
    {
        &self.root_module
    }

    /// Finds the position of the module at `namespace`.
    fn position(&self, namespace: &ModulePath) -> (r: Option<usize>)
        requires
            self.wf(),
        ensures
            match r {
                Some(i) => i < self@.modules.len() && self@.modules[i as int].namespace == namespace@
                    && module_at(self@, namespace@) == Some(self@.modules[i as int]),
                None => module_at(self@, namespace@) is None,
            },
    {
        let mut i: usize = 0;
        while i < self.modules.len()
            invariant
                i <= self.modules.len(),
                self.wf(),
                forall|j: int| 0 <= j < i ==> (#[trigger] self@.modules[j]).namespace != namespace@,
            decreases self.modules.len() - i,
        {
            if self.modules[i].namespace().same(namespace) {
                proof {
                    assert(self@.modules.len() == self.modules@.len());
                    assert(self@.modules[i as int].namespace == namespace@);
                    let k = choose|k: int| 0 <= k < self@.modules.len() && (#[trigger] self@.modules[k]).namespace == namespace@;
                    lemma_sorted_paths_unique(self@.modules, i as int, k);
                }
                return Some(i);
            }
            i = i + 1;
        }
        None
    }

    /// Finds a module by its path.
    pub fn module(&self, namespace: &ModulePath) -> (r: Option<&Module>)
        requires
            self.wf(),
        ensures
            match r {
                Some(m) => module_at(self@, namespace@) == Some(m@),
                None => module_at(self@, namespace@) is None,
            },
    {
        match self.position(namespace) {
            Some(i) => Some(&self.modules[i]),
            None => None,
        }
    }

    /// Finds a module by its path, for changing it.
    pub fn module_mut(&mut self, namespace: &ModulePath) -> (r: Option<&mut Module>)
        requires
            old(self).wf(),
        ensures
            match r {
                Some(m) => exists|i: int|
                    0 <= i < old(self)@.modules.len() && old(self)@.modules[i].namespace == namespace@
                        && m@ == old(self)@.modules[i] && final(self)@ == (ProjectView {
                        modules: old(self)@.modules.update(i, final(m)@),
                        ..old(self)@
                    }),
                None => module_at(old(self)@, namespace@) is None && final(self)@ == old(self)@,
            },
    {
        broadcast use lemma_module_views_update;

        match self.position(namespace) {
            Some(i) => {
                let r = &mut self.modules[i];
                Some(r)
            },
            None => None,
        }
    }

    /// The modules, by increasing path.
    pub fn modules(&self) -> (r: &[Module])
        ensures
            module_views(r@) == self@.modules,
    {
        self.modules.as_slice()
    }

    /// The entry module, if it is loaded.
    pub fn root(&self) -> (r: Option<&Module>)
        requires
            self.wf(),
        ensures
            match r {
                Some(m) => module_at(self@, self@.root_module) == Some(m@),
                None => module_at(self@, self@.root_module) is None,
            },
    {
        self.module(&self.root_module)
    }

    /// The entry module, if it is loaded, for changing it.
    pub fn root_mut(&mut self) -> (r: Option<&mut Module>)
        requires
            old(self).wf(),
        ensures
            match r {
                Some(m) => exists|i: int|
                    0 <= i < old(self)@.modules.len() && old(self)@.modules[i].namespace == old(self)@.root_module
                        && m@ == old(self)@.modules[i] && final(self)@ == (ProjectView {
                        modules: old(self)@.modules.update(i, final(m)@),
                        ..old(self)@
                    }),
                None => module_at(old(self)@, old(self)@.root_module) is None && final(self)@ == old(self)@,
            },
    {
        broadcast use lemma_module_views_update;

        match self.position(&self.root_module) {
            Some(i) => {
                let r = &mut self.modules[i];
                Some(r)
            },
            None => None,
        }
    }

    /// Adds a well-formed module whose path is not yet taken, keeping the
    /// modules ordered by path.
    pub fn add_module(&mut self, module: Module) -> (r: Result<(), AddModuleError>)
        requires
            old(self).wf(),
            module.wf(),
        ensures
            final(self).wf(),
            module_at(old(self)@, module@.namespace) is Some ==> final(self)@ == old(self)@ && r is Err
                && r->Err_0->DuplicateNamespace_0@ == module@.namespace,
            module_at(old(self)@, module@.namespace) is None ==> r is Ok && exists|p: int|
                #![trigger old(self)@.modules.insert(p, module@)]
                0 <= p <= old(self)@.modules.len() && final(self)@ == (ProjectView {
                    modules: old(self)@.modules.insert(p, module@),
                    ..old(self)@
                }),
    {
        let mut i: usize = 0;
        while i < self.modules.len() && self.modules[i].namespace().precedes(module.namespace())
            invariant
                i <= self.modules.len(),
                self.wf(),
                forall|j: int| 0 <= j < i ==> path_lt(#[trigger] module_paths(self@.modules)[j], module@.namespace),
            decreases self.modules.len() - i,
        {
            i = i + 1;
        }
        if i < self.modules.len() && self.modules[i].namespace().same(module.namespace()) {
            assert(self@.modules[i as int].namespace == module@.namespace);
            assert(module_at(self@, module@.namespace) is Some);
            return Err(AddModuleError::DuplicateNamespace(module.namespace().duplicate()));
        }
        proof {
            if i < self.modules.len() {
                crate::order::lemma_path_lt_total(module@.namespace, module_paths(self@.modules)[i as int]);
            }
            assert forall|j: int| 0 <= j < self@.modules.len() implies (#[trigger] self@.modules[j]).namespace != module@.namespace by {
                assert(module_paths(self@.modules)[j] == self@.modules[j].namespace);
                if j < i {
                    crate::order::lemma_path_lt_irreflexive(module@.namespace);
                } else {
                    if j > i {
                        crate::order::lemma_path_lt_transitive(module@.namespace, module_paths(self@.modules)[i as int], module_paths(self@.modules)[j]);
                    }
                    crate::order::lemma_path_lt_irreflexive(module@.namespace);
                }
            }
            lemma_insert_keeps_paths_sorted(module_paths(self@.modules), i as int, module@.namespace);
        }
        let ghost old_modules = self.modules@;
        let ghost mv = module@;
        self.modules.insert(i, module);
        assert(module_views(self.modules@) =~= module_views(old_modules).insert(i as int, mv));
        assert(module_paths(self@.modules) =~= module_paths(module_views(old_modules)).insert(i as int, mv.namespace));
        Ok(())
    }
}

/// A target with one more dependency, unless it already has it.
pub open spec fn with_dependency(t: TargetView, d: IdView) -> TargetView {
    TargetView {
        dependencies: if t.dependencies.contains(d) {
            t.dependencies
        } else {
            t.dependencies.push(d)
        },
        ..t
    }
}

/// A module with one more import, unless it already has it.
pub open spec fn with_import(m: ModuleView, id: IdView) -> ModuleView {
    ModuleView {
        includes: if m.includes.contains(id) {
            m.includes
        } else {
            m.includes.push(id)
        },
        ..m
    }
}

/// Recording a dependency twice records it once.
pub proof fn lemma_dependency_idempotent(t: TargetView, d: IdView)
    ensures
        with_dependency(with_dependency(t, d), d) == with_dependency(t, d),
        with_dependency(t, d).dependencies.contains(d),
{
    if !t.dependencies.contains(d) {
        assert(t.dependencies.push(d)[t.dependencies.len() as int] == d);
    }
}

/// Recording an import twice records it once.
pub proof fn lemma_import_idempotent(m: ModuleView, id: IdView)
    ensures
        with_import(with_import(m, id), id) == with_import(m, id),
        with_import(m, id).includes.contains(id),
{
    if !m.includes.contains(id) {
        assert(m.includes.push(id)[m.includes.len() as int] == id);
    }
}

/// A module path written out with `to_string` reads back with `parse` as
/// the same path: splitting the `::`-joined segments of a non-root path
/// gives its segments, and the text is not empty.
pub proof fn lemma_module_path_round_trip(segments: Seq<Seq<char>>)
    requires
        segments.len() > 0,
        forall|i: int| 0 <= i < segments.len() ==> valid_segment(#[trigger] segments[i]),
    ensures
        join(segments, "::"@).len() > 0,
        split_colons(join(segments, "::"@)) == segments,
{
    assert forall|i: int| 0 <= i < segments.len() implies crate::text::colon_free(#[trigger] segments[i]) by {
        assert(valid_segment(segments[i]));
    }
    crate::text::lemma_split_join(segments);
    if segments.len() >= 2 {
        crate::text::lemma_join_first(segments, "::"@);
    }
    assert(valid_segment(segments[0]));
}


/// In a well-formed module, the target called `name` is the one listed
/// with that name.
proof fn lemma_named_target_at(m: ModuleView, name: Seq<char>, a: int)
    requires
        module_wf(m),
        0 <= a < m.targets.len(),
        m.targets[a].id.1 == name,
    ensures
        target_named(m, name) == Some(m.targets[a]),
{
    assert(exists|i: int| 0 <= i < m.targets.len() && (#[trigger] m.targets[i]).id.1 == name);
    assert(exists|c: int| 0 <= c < m.targets.len() && (#[trigger] m.targets[c]) == target_named(m, name)->0 && m.targets[c].id.1 == name);
    let k = choose|c: int| 0 <= c < m.targets.len() && (#[trigger] m.targets[c]) == target_named(m, name)->0 && m.targets[c].id.1 == name;
    lemma_sorted_names_unique(m.targets, a, k);
}

/// A well-formed module lists each of its targets once, by strictly
/// increasing name, and looking a name up finds exactly the listed target
/// of that name, in the module's namespace.
pub proof fn lemma_module_lookup_matches_listing(m: ModuleView, name: Seq<char>)
    requires
        module_wf(m),
    ensures
        forall|i: int, j: int| 0 <= i < j < m.targets.len() ==> text_lt(#[trigger] m.targets[i].id.1, #[trigger] m.targets[j].id.1),
        target_named(m, name) is Some <==> exists|i: int| 0 <= i < m.targets.len() && (#[trigger] m.targets[i]).id.1 == name,
        forall|i: int| 0 <= i < m.targets.len() && (#[trigger] m.targets[i]).id.1 == name ==> target_named(m, name) == Some(m.targets[i]),
        target_named(m, name) matches Some(t) ==> t.id == (m.namespace, name),
{
    assert forall|i: int, j: int| 0 <= i < j < m.targets.len() implies text_lt(#[trigger] m.targets[i].id.1, #[trigger] m.targets[j].id.1) by {
        assert(target_names(m.targets)[i] == m.targets[i].id.1);
        assert(target_names(m.targets)[j] == m.targets[j].id.1);
    }
    assert forall|a: int| 0 <= a < m.targets.len() && (#[trigger] m.targets[a]).id.1 == name implies target_named(m, name) == Some(m.targets[a]) by {
        lemma_named_target_at(m, name, a);
    }
    if target_named(m, name) is Some {
        let k = choose|k: int| 0 <= k < m.targets.len() && (#[trigger] m.targets[k]).id.1 == name;
        assert(m.targets[k].id.0 == m.namespace);
    }
}

/// A well-formed project lists each of its modules once, by strictly
/// increasing path, and looking a path up, the entry module's among them,
/// finds exactly the listed module at that path.
pub proof fn lemma_project_lookup_matches_listing(p: ProjectView, namespace: Seq<Seq<char>>)
    requires
        project_wf(p),
    ensures
        forall|i: int, j: int| 0 <= i < j < p.modules.len() ==> path_lt(#[trigger] p.modules[i].namespace, #[trigger] p.modules[j].namespace),
        module_at(p, namespace) is Some <==> exists|i: int| 0 <= i < p.modules.len() && (#[trigger] p.modules[i]).namespace == namespace,
        forall|i: int| 0 <= i < p.modules.len() && (#[trigger] p.modules[i]).namespace == namespace ==> module_at(p, namespace) == Some(p.modules[i]),
{
    assert forall|i: int, j: int| 0 <= i < j < p.modules.len() implies path_lt(#[trigger] p.modules[i].namespace, #[trigger] p.modules[j].namespace) by {
        assert(module_paths(p.modules)[i] == p.modules[i].namespace);
        assert(module_paths(p.modules)[j] == p.modules[j].namespace);
    }
    assert forall|i: int| 0 <= i < p.modules.len() && (#[trigger] p.modules[i]).namespace == namespace implies module_at(p, namespace) == Some(p.modules[i]) by {
        assert(exists|k: int| 0 <= k < p.modules.len() && (#[trigger] p.modules[k]).namespace == namespace);
        let k = choose|k: int| 0 <= k < p.modules.len() && (#[trigger] p.modules[k]).namespace == namespace;
        lemma_sorted_paths_unique(p.modules, i, k);
    }
}


/// A change made through `target_mut` that keeps the target's identity, as
/// every method of `Target` does, keeps the module well formed: looking the
/// name up then gives the changed target, and every other name finds what
/// it found before.
pub proof fn lemma_changed_target_found(m: ModuleView, i: int, t: TargetView, name: Seq<char>)
    requires
        module_wf(m),
        0 <= i < m.targets.len(),
        t.id == m.targets[i].id,
    ensures
        module_wf(ModuleView { targets: m.targets.update(i, t), ..m }),
        target_named(ModuleView { targets: m.targets.update(i, t), ..m }, t.id.1) == Some(t),
        name != t.id.1 ==> target_named(ModuleView { targets: m.targets.update(i, t), ..m }, name) == target_named(m, name),
{
    let m2 = ModuleView { targets: m.targets.update(i, t), ..m };
    assert(target_names(m2.targets) =~= target_names(m.targets));
    lemma_named_target_at(m2, t.id.1, i);
    if name != t.id.1 {
        if target_named(m, name) is Some {
            let k = choose|k: int| 0 <= k < m.targets.len() && (#[trigger] m.targets[k]).id.1 == name;
            lemma_named_target_at(m, name, k);
            assert(k != i);
            assert(m2.targets[k] == m.targets[k]);
            lemma_named_target_at(m2, name, k);
        } else {
            assert forall|k: int| 0 <= k < m2.targets.len() implies (#[trigger] m2.targets[k]).id.1 != name by {
                if k != i {
                    assert(m2.targets[k] == m.targets[k]);
                }
            }
        }
    }
}

} // verus!
