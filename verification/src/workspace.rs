//! The editor's index of a project: which module a file is, where an import
//! path points, and, over the analysed modules and their unsaved texts, the
//! declaration a name jumps to, the places that name a target, the
//! completions of a `>` line and the diagnostics shown for a file.
//!
//! Positions follow the editor protocol: a zero-based row and columns in
//! UTF-16 code units.

use vstd::prelude::*;
use crate::lsp::{span_after, span_after_chars, trim_cr};
use crate::model::{valid_segment, valid_target_name, IdView, ModulePath, TargetId};
use crate::parser::{
    import_views, parsed_target_views, public_views, ref_views, ImportView, ParsedModule, ParsedModuleView,
    ParsedReference, ParsedTargetView, RefView,
};
use crate::project::{
    analysis_views, module_file_path, module_parent, AnalysisDiagView, AnalysisDiagnostic, ProjectAnalyzer,
};
use crate::text::{
    chars_of, first_word, join, lines, owned, push_str, starts_with, texts, trim, trim_end, trim_start,
    trim_start_char,
};

verus! {

/// The module of a Markfile from its path below the project directory, as
/// path components: the last component must end with `.mf`.
pub open spec fn module_of_parts(parts: Seq<Seq<char>>) -> Option<Seq<Seq<char>>> {
    if parts.len() == 0 {
        None
    } else {
        let last = parts.last();
        if last.len() >= 3 && last.subrange(last.len() - 3, last.len() as int) == ".mf"@ {
            let ns = parts.drop_last().push(last.subrange(0, last.len() - 3));
            if forall|i: int| 0 <= i < ns.len() ==> valid_segment(#[trigger] ns[i]) {
                Some(ns)
            } else {
                None
            }
        } else {
            None
        }
    }
}

/// The module of a Markfile from its path components below the project
/// directory.
pub fn module_for_parts(parts: Vec<String>) -> (r: Option<ModulePath>)
    ensures
        match module_of_parts(texts(parts@)) {
            Some(ns) => r matches Some(m) && m@ == ns,
            None => r is None,
        },
{
    let mut parts = parts;
    let ghost all = texts(parts@);
    let last = match parts.pop() {
        Some(l) => l,
        None => {
            return None;
        },
    };
    assert(texts(parts@) =~= all.drop_last());
    let chars = crate::text::chars_of(last.as_str());
    proof {
        reveal_strlit(".mf");
    }
    let n = chars.len();
    if n < 3 || chars[n - 3] != '.' || chars[n - 2] != 'm' || chars[n - 1] != 'f' {
        proof {
            if n >= 3 {
                if chars@.subrange(n - 3, n as int) == ".mf"@ {
                    assert(chars@.subrange(n - 3, n as int)[0] == chars@[n - 3]);
                    assert(chars@.subrange(n - 3, n as int)[1] == chars@[n - 2]);
                    assert(chars@.subrange(n - 3, n as int)[2] == chars@[n - 1]);
                }
            }
        }
        return None;
    }
    assert(chars@.subrange(n - 3, n as int) =~= ".mf"@);
    let stem = crate::text::copy_range(chars.as_slice(), 0, n - 3);
    let ghost before = parts@;
    parts.push(crate::text::string_of(stem.as_slice()));
    assert(texts(parts@) =~= texts(before).push(all.last().subrange(0, n - 3)));
    match ModulePath::new(parts) {
        Ok(m) => Some(m),
        Err(_) => None,
    }
}

/// Where an import path points from module `current`, ignoring paths that
/// cannot be resolved: the target the project's resolution finds, when its
/// name is a valid target name.
pub open spec fn pointed_target(current: Seq<Seq<char>>, segs: Seq<Seq<char>>) -> Option<IdView> {
    match crate::project::resolution(current, segs) {
        crate::project::Resolution::Found(id) => if valid_target_name(id.1) {
            Some(id)
        } else {
            None
        },
        _ => None,
    }
}

/// Resolves an import path from module `current` without reporting.
pub fn point_to(current: &ModulePath, reference: &ParsedReference) -> (r: Option<TargetId>)
    ensures
        match pointed_target(current@, reference@.path) {
            Some(id) => r matches Some(t) && t@ == id,
            None => r is None,
        },
{
    let mut diagnostics: Vec<crate::project::AnalysisDiagnostic> = Vec::new();
    let resolved = crate::project::resolve_path(current, reference, "", &mut diagnostics);
    match resolved {
        Some(t) => {
            if crate::model::is_valid_target_name(t.name()) {
                Some(t)
            } else {
                None
            }
        },
        None => None,
    }
}

/// The text lines after line `k` (counted from zero) up to the next target
/// title or section separator, trimmed, without blank ones.
pub open spec fn body_lines(ls: Seq<Seq<char>>, k: nat) -> Seq<Seq<char>>
    decreases ls.len() - k,
{
    if k >= ls.len() {
        seq![]
    } else {
        let line = trim_cr(ls[k as int]);
        if (line.len() > 0 && line[0] == '#') || trim_end(line) == "---"@ {
            seq![]
        } else {
            (if trim(line).len() > 0 {
                seq![trim(line)]
            } else {
                seq![]
            }) + body_lines(ls, k + 1)
        }
    }
}

/// The preview of a target declared on line `line` (counted from one) of
/// `text`: its body lines joined by line breaks, if there are any.
pub open spec fn target_preview(text: Seq<char>, line: nat) -> Option<Seq<char>> {
    let body = body_lines(lines(text), line);
    if body.len() == 0 {
        None
    } else {
        Some(join(body, "\n"@))
    }
}

/// The preview of a target declared on line `line` of `text`.
pub fn target_documentation(text: &str, line: usize) -> (r: Option<String>)
    ensures
        match target_preview(text@, line as nat) {
            Some(p) => r matches Some(s) && s@ == p,
            None => r is None,
        },
{
    let chars = crate::text::chars_of(text);
    let ls = crate::text::lines_chars(chars.as_slice());
    let ghost lv = lines(text@);
    assert(ls@.map_values(|w: Vec<char>| w@) == lv);
    proof {
        reveal_strlit("---");
        reveal_strlit("\n");
    }
    let mut body: Vec<Vec<char>> = Vec::new();
    let mut k = line;
    let mut done = false;
    while k < ls.len() && !done
        invariant
            line <= k,
            done ==> body_lines(lv, k as nat) == Seq::<Seq<char>>::empty(),
            ls@.map_values(|w: Vec<char>| w@) == lv,
            body@.map_values(|w: Vec<char>| w@) + body_lines(lv, k as nat) == body_lines(lv, line as nat),
        decreases ls.len() - k + if done { 0int } else { 1int },
    {
        assert(ls@[k as int]@ == lv[k as int]);
        let l = crate::lsp::trim_cr_chars(ls[k].as_slice());
        let te = crate::text::trim_end_chars(l.as_slice());
        let sep = te.len() == 3 && te[0] == '-' && te[1] == '-' && te[2] == '-';
        proof {
            reveal_strlit("---");
            if te@ == "---"@ {
                assert(te@.len() == 3 && te@[0] == '-' && te@[1] == '-' && te@[2] == '-');
            }
            if sep {
                assert(te@ =~= "---"@);
            }
        }
        if (l.len() > 0 && l[0] == '#') || sep {
            assert(body_lines(lv, k as nat) =~= Seq::<Seq<char>>::empty());
            done = true;
            continue;
        }
        let t = crate::text::trim_chars(l.as_slice());
        let ghost before = body@;
        if t.len() > 0 {
            body.push(t);
            assert(body@.map_values(|w: Vec<char>| w@) =~= before.map_values(|w: Vec<char>| w@).push(trim(trim_cr(lv[k as int]))));
        } else {
            assert(body@.map_values(|w: Vec<char>| w@) =~= before.map_values(|w: Vec<char>| w@));
        }
        assert(body@.map_values(|w: Vec<char>| w@) + body_lines(lv, (k + 1) as nat) =~= body_lines(lv, line as nat));
        k = k + 1;
    }
    let ghost bv = body@.map_values(|w: Vec<char>| w@);
    assert(bv =~= body_lines(lv, line as nat)) by {
        if k >= ls.len() {
            assert(body_lines(lv, k as nat) =~= Seq::<Seq<char>>::empty());
        }
        assert(bv + Seq::<Seq<char>>::empty() =~= bv);
    }
    if body.len() == 0 {
        return None;
    }
    let mut r = String::new();
    let mut i: usize = 0;
    while i < body.len()
        invariant
            i <= body.len(),
            bv == body@.map_values(|w: Vec<char>| w@),
            r@ == join(bv.take(i as int), "\n"@),
        decreases body.len() - i,
    {
        if i > 0 {
            r.push('\n');
        }
        crate::text::push_chars(&mut r, body[i].as_slice());
        proof {
            assert(bv.take(i + 1).drop_last() =~= bv.take(i as int));
            assert(bv[i as int] == body@[i as int]@);
            if i == 0 {
                assert(bv.take(1) =~= seq![bv[0]]);
            } else {
                reveal_strlit("\n");
                assert("\n"@ =~= seq!['\n']);
            }
        }
        i = i + 1;
    }
    assert(bv.take(body.len() as int) =~= bv);
    Some(r)
}

/// The bullet list of a module's public targets.
pub open spec fn public_list(names: Seq<Seq<char>>) -> Option<Seq<char>> {
    if names.len() == 0 {
        None
    } else {
        Some("public targets:\n"@ + join(names.map_values(|n: Seq<char>| "- "@ + n), "\n"@))
    }
}

/// Lists the public targets of a module for its completion preview.
pub fn module_documentation(module: &crate::parser::ParsedModule) -> (r: Option<String>)
    ensures
        match public_list(module@.public_targets.map_values(|p: crate::parser::PublicView| p.name)) {
            Some(p) => r matches Some(s) && s@ == p,
            None => r is None,
        },
{
    let publics = module.public_targets();
    let ghost names = module@.public_targets.map_values(|p: crate::parser::PublicView| p.name);
    let ghost items = names.map_values(|n: Seq<char>| "- "@ + n);
    if publics.len() == 0 {
        assert(names.len() == 0);
        return None;
    }
    let mut r = owned("public targets:\n");
    let ghost head = r@;
    let mut i: usize = 0;
    while i < publics.len()
        invariant
            i <= publics.len(),
            crate::parser::public_views(publics@) == module@.public_targets,
            names == module@.public_targets.map_values(|p: crate::parser::PublicView| p.name),
            items == names.map_values(|n: Seq<char>| "- "@ + n),
            r@ == head + join(items.take(i as int), "\n"@),
        decreases publics.len() - i,
    {
        if i > 0 {
            push_str(&mut r, "\n");
        }
        push_str(&mut r, "- ");
        push_str(&mut r, publics[i].name());
        proof {
            assert(names[i as int] == publics@[i as int]@.name);
            assert(items.take(i + 1).drop_last() =~= items.take(i as int));
            if i == 0 {
                assert(items.take(1) =~= seq![items[0]]);
            }
        }
        i = i + 1;
    }
    assert(items.take(publics.len() as int) =~= items);
    Some(r)
}

/// The first position of `s` whose element satisfies `p`.
#[verifier::opaque]
pub open spec fn first_where<A>(s: Seq<A>, p: spec_fn(A) -> bool) -> Option<int> {
    if exists|i: int| 0 <= i < s.len() && p(s[i]) {
        Some(choose|i: int| 0 <= i < s.len() && p(s[i]) && forall|j: int| 0 <= j < i ==> !p(#[trigger] s[j]))
    } else {
        None
    }
}

/// A position whose element satisfies `p`, with none before it, is the
/// first such position.
pub proof fn lemma_first_where_found<A>(s: Seq<A>, p: spec_fn(A) -> bool, i: int)
    requires
        0 <= i < s.len(),
        p(s[i]),
        forall|j: int| 0 <= j < i ==> !p(s[j]),
    ensures
        first_where(s, p) == Some(i),
{
    reveal(first_where);
    let k = choose|k: int| 0 <= k < s.len() && p(s[k]) && forall|j: int| 0 <= j < k ==> !p(#[trigger] s[j]);
    if k < i {
        assert(!p(s[k]));
    }
    if k > i {
        assert(!p(s[i]));
    }
}

/// When no element satisfies `p`, there is no first one.
pub proof fn lemma_first_where_none<A>(s: Seq<A>, p: spec_fn(A) -> bool)
    requires
        forall|j: int| 0 <= j < s.len() ==> !p(#[trigger] s[j]),
    ensures
        first_where(s, p) is None,
{
    reveal(first_where);
}

/// The first position found satisfies `p`, and none before it does.
pub proof fn lemma_first_where_some<A>(s: Seq<A>, p: spec_fn(A) -> bool)
    ensures
        match first_where(s, p) {
            Some(i) => 0 <= i < s.len() && p(s[i]) && forall|j: int| 0 <= j < i ==> !p(#[trigger] s[j]),
            None => forall|j: int| 0 <= j < s.len() ==> !p(#[trigger] s[j]),
        },
{
    reveal(first_where);
    if exists|i: int| 0 <= i < s.len() && p(s[i]) {
        let i = choose|i: int| 0 <= i < s.len() && p(s[i]);
        lemma_minimal_exists(s, p, i);
    } else {
        assert forall|j: int| 0 <= j < s.len() implies !p(#[trigger] s[j]) by {
            if p(s[j]) {
                assert(0 <= j < s.len() && p(s[j]));
            }
        }
    }
}

/// Where some element satisfies `p`, a first one does.
proof fn lemma_minimal_exists<A>(s: Seq<A>, p: spec_fn(A) -> bool, i: int)
    requires
        0 <= i < s.len(),
        p(s[i]),
    ensures
        exists|k: int| 0 <= k < s.len() && p(s[k]) && forall|j: int| 0 <= j < k ==> !p(#[trigger] s[j]),
    decreases i,
{
    if exists|j: int| 0 <= j < i && p(s[j]) {
        let j = choose|j: int| 0 <= j < i && p(s[j]);
        lemma_minimal_exists(s, p, j);
    } else {
        assert forall|j: int| 0 <= j < i implies !p(#[trigger] s[j]) by {
            if p(s[j]) {
                assert(0 <= j < i && p(s[j]));
            }
        }
    }
}

/// The view of a loaded module in the editor's index of a project: its
/// file, its syntax model, and the text read from the file, if it was read.
pub struct IndexedView {
    pub file: Seq<char>,
    pub module: ParsedModuleView,
    pub source: Option<Seq<char>>,
}

/// A loaded module with its file and the text read from it.
pub struct IndexedModule {
    file: String,
    module: ParsedModule,
    source: Option<String>,
}

impl View for IndexedModule {
    type V = IndexedView;

    closed spec fn view(&self) -> IndexedView {
        IndexedView {
            file: self.file@,
            module: self.module@,
            source: match &self.source {
                Some(s) => Some(s@),
                None => None,
            },
        }
    }
}

/// The views of loaded modules.
pub open spec fn indexed_views(v: Seq<IndexedModule>) -> Seq<IndexedView> {
    v.map_values(|m: IndexedModule| m@)
}

/// The view of the editor's index of a project: the analysis diagnostics,
/// the loaded modules, the module being edited, and the root Markfile.
pub struct ProjectIndexView {
    pub diagnostics: Seq<AnalysisDiagView>,
    pub modules: Seq<IndexedView>,
    pub current: Seq<Seq<char>>,
    pub root: Seq<char>,
}

/// What the editor knows of a project: the analysis diagnostics, the
/// modules loaded by the analysis with their files and texts, the module
/// of the file being edited, and the root Markfile.
pub struct ProjectView {
    diagnostics: Vec<AnalysisDiagnostic>,
    modules: Vec<IndexedModule>,
    current: ModulePath,
    analyzer: ProjectAnalyzer,
}

impl View for ProjectView {
    type V = ProjectIndexView;

    closed spec fn view(&self) -> ProjectIndexView {
        ProjectIndexView {
            diagnostics: analysis_views(self.diagnostics@),
            modules: indexed_views(self.modules@),
            current: self.current@,
            root: self.analyzer.root_file_view(),
        }
    }
}

/// Whether a loaded module is at `ns`.
pub open spec fn at_namespace(ns: Seq<Seq<char>>) -> spec_fn(IndexedView) -> bool {
    |m: IndexedView| m.module.namespace == ns
}

/// The first loaded module at `ns`.
pub open spec fn indexed_at(ms: Seq<IndexedView>, ns: Seq<Seq<char>>) -> Option<IndexedView> {
    match first_where(ms, at_namespace(ns)) {
        Some(i) => Some(ms[i]),
        None => None,
    }
}

/// The first text read from `file`.
pub open spec fn source_of(sources: Seq<(Seq<char>, Seq<char>)>, file: Seq<char>) -> Option<Seq<char>> {
    match first_where(sources, |e: (Seq<char>, Seq<char>)| e.0 == file) {
        Some(i) => Some(sources[i].1),
        None => None,
    }
}

/// The views of pairs of texts.
pub open spec fn pair_views(v: Seq<(String, String)>) -> Seq<(Seq<char>, Seq<char>)> {
    v.map_values(|e: (String, String)| (e.0@, e.1@))
}

/// Line `row` of `text`, if it has one.
pub open spec fn line_at(text: Seq<char>, row: nat) -> Option<Seq<char>> {
    if row < lines(text).len() {
        Some(lines(text)[row as int])
    } else {
        None
    }
}

/// Line `row` of a text.
fn line_of(text: &str, row: usize) -> (r: Option<Vec<char>>)
    ensures
        match line_at(text@, row as nat) {
            Some(l) => r matches Some(v) && v@ == l,
            None => r is None,
        },
{
    let chars = chars_of(text);
    let mut ls = crate::text::lines_chars(chars.as_slice());
    if row >= ls.len() {
        return None;
    }
    proof {
        assert(ls@.map_values(|w: Vec<char>| w@)[row as int] == ls@[row as int]@);
    }
    Some(ls.swap_remove(row))
}

/// The text read from `file`.
fn find_source(sources: &[(String, String)], file: &str) -> (r: Option<String>)
    ensures
        match source_of(pair_views(sources@), file@) {
            Some(t) => r matches Some(s) && s@ == t,
            None => r is None,
        },
{
    let ghost pv = pair_views(sources@);
    let ghost p = |e: (Seq<char>, Seq<char>)| e.0 == file@;
    let mut i: usize = 0;
    while i < sources.len()
        invariant
            i <= sources.len(),
            pv == pair_views(sources@),
            p == (|e: (Seq<char>, Seq<char>)| e.0 == file@),
            forall|j: int| 0 <= j < i ==> !p(#[trigger] pv[j]),
        decreases sources.len() - i,
    {
        assert(pv[i as int] == (sources@[i as int].0@, sources@[i as int].1@));
        if crate::text::text_eq(sources[i].0.as_str(), file) {
            proof {
                lemma_first_where_found(pv, p, i as int);
            }
            return Some(sources[i].1.clone());
        }
        i = i + 1;
    }
        proof {
            lemma_first_where_none(pv, p);
        }
    None
}

impl ProjectView {
    /// The index of an analysis: each loaded module with the file the
    /// analyzer reads it from and the first text read from that file.
    pub fn new(
        analyzer: &ProjectAnalyzer,
        diagnostics: Vec<AnalysisDiagnostic>,
        parsed: Vec<ParsedModule>,
        sources: &[(String, String)],
        current: ModulePath,
    ) -> (r: Self)
        ensures
            r@.diagnostics == analysis_views(diagnostics@),
            r@.current == current@,
            r@.root == analyzer.root_file_view(),
            r@.modules.len() == parsed@.len(),
            forall|i: int| 0 <= i < parsed@.len() ==> #[trigger] r@.modules[i] == (IndexedView {
                file: module_file_path(analyzer.root_file_view(), parsed@[i]@.namespace),
                module: parsed@[i]@,
                source: source_of(pair_views(sources@), module_file_path(analyzer.root_file_view(), parsed@[i]@.namespace)),
            }),
    {
        let ghost all = parsed@;
        let mut rest = parsed;
        let mut modules: Vec<IndexedModule> = Vec::new();
        while rest.len() > 0
            invariant
                modules@.len() + rest@.len() == all.len(),
                rest@ == all.skip(modules@.len() as int),
                forall|i: int| 0 <= i < modules@.len() ==> #[trigger] indexed_views(modules@)[i] == (IndexedView {
                    file: module_file_path(analyzer.root_file_view(), all[i]@.namespace),
                    module: all[i]@,
                    source: source_of(pair_views(sources@), module_file_path(analyzer.root_file_view(), all[i]@.namespace)),
                }),
            decreases rest@.len(),
        {
            let ghost k = modules@.len() as int;
            let module = rest.remove(0);
            assert(module == all[k]);
            assert(rest@ =~= all.skip(k + 1));
            let file = analyzer.module_file(module.namespace());
            let source = find_source(sources, file.as_str());
            let entry = IndexedModule { file, module, source };
            let ghost before = modules@;
            modules.push(entry);
            assert forall|i: int| 0 <= i < modules@.len() implies #[trigger] indexed_views(modules@)[i] == (IndexedView {
                file: module_file_path(analyzer.root_file_view(), all[i]@.namespace),
                module: all[i]@,
                source: source_of(pair_views(sources@), module_file_path(analyzer.root_file_view(), all[i]@.namespace)),
            }) by {
                if i < k {
                    assert(indexed_views(modules@)[i] == indexed_views(before)[i]);
                }
            }
        }
        let r = ProjectView { diagnostics, modules, current, analyzer: analyzer.duplicate() };
        assert(r@.modules.len() == all.len());
        r
    }

    /// The module being edited.
    pub fn current(&self) -> (r: &ModulePath)
        ensures
            r@ == self@.current,
    {
        &self.current
    }

    /// The root Markfile.
    pub fn root(&self) -> (r: &str)
        ensures
            r@ == self@.root,
    {
        self.analyzer.root_file()
    }

    /// The diagnostics of the analysis.
    pub fn diagnostics(&self) -> (r: &[AnalysisDiagnostic])
        ensures
            analysis_views(r@) == self@.diagnostics,
    {
        self.diagnostics.as_slice()
    }

    /// Looks at the index from another loaded module; an index without that
    /// module stays as it is.
    pub fn focus(&mut self, namespace: ModulePath) -> (r: bool)
        ensures
            r == indexed_at(old(self)@.modules, namespace@) is Some,
            r ==> final(self)@ == (ProjectIndexView { current: namespace@, ..old(self)@ }),
            !r ==> final(self)@ == old(self)@,
    {
        match self.position(&namespace) {
            None => false,
            Some(_) => {
                self.current = namespace;
                true
            },
        }
    }

    /// The position of the first loaded module at `namespace`.
    fn position(&self, namespace: &ModulePath) -> (r: Option<usize>)
        ensures
            match first_where(self@.modules, at_namespace(namespace@)) {
                Some(i) => r == Some(i as usize),
                None => r is None,
            },
            r matches Some(i) ==> i < self.modules@.len() && indexed_at(self@.modules, namespace@) == Some(self@.modules[i as int]),
            r is None ==> indexed_at(self@.modules, namespace@) is None,
    {
        let ghost mv = self@.modules;
        let mut i: usize = 0;
        while i < self.modules.len()
            invariant
                i <= self.modules.len(),
                mv == indexed_views(self.modules@),
                forall|j: int| 0 <= j < i ==> !at_namespace(namespace@)(#[trigger] mv[j]),
            decreases self.modules.len() - i,
        {
            assert(mv[i as int] == self.modules@[i as int]@);
            if self.modules[i].module.namespace().same(namespace) {
                proof {
                    lemma_first_where_found(mv, at_namespace(namespace@), i as int);
                }
                return Some(i);
            }
            i = i + 1;
        }
        proof {
            lemma_first_where_none(mv, at_namespace(namespace@));
        }
        None
    }
}

/// `s` ends with `pat`.
pub open spec fn ends_with(s: Seq<char>, pat: Seq<char>) -> bool {
    pat.len() <= s.len() && s.skip(s.len() - pat.len()) == pat
}

/// `s` ends with `::`.
pub open spec fn ends_with_colons(s: Seq<char>) -> bool {
    s.len() >= 2 && s[s.len() - 2] == ':' && s[s.len() - 1] == ':'
}

/// Where `name` starts on a target title (`title`) or a `>` line: after
/// the `#` marks and white space of a title; on a `>` line where its text
/// starts, if that starts with `name`, else where `name` ends the first word
/// right after a `::`.
pub open spec fn name_start(line: Seq<char>, name: Seq<char>, title: bool) -> Option<int> {
    if line.len() > 0 && line[0] == (if title { '#' } else { '>' }) {
        if title {
            Some(line.len() - trim_start(trim_start_char(line.drop_first(), '#')).len())
        } else {
            let rest = trim_start(line.drop_first());
            let start = line.len() - rest.len();
            if starts_with(rest, name) {
                Some(start)
            } else {
                match first_word(rest) {
                    Some(word) => if ends_with(word, name) {
                        let suffix = word.take(word.len() - name.len());
                        if suffix.len() > 0 && !ends_with_colons(suffix) {
                            None
                        } else {
                            Some(start + suffix.len())
                        }
                    } else {
                        None
                    },
                    None => None,
                }
            }
        }
    } else {
        None
    }
}

/// The columns of `name` on line `row` of `text`, on a title (`title`) or
/// a `>` line.
pub open spec fn name_span(text: Seq<char>, row: nat, name: Seq<char>, title: bool) -> Option<(u32, u32)> {
    match line_at(text, row) {
        None => None,
        Some(line) => match name_start(line, name, title) {
            None => None,
            Some(start) => if start <= line.len() && starts_with(line.skip(start), name) {
                span_after(line.take(start), name)
            } else {
                None
            },
        },
    }
}

/// Finds where `name` starts on a title or `>` line.
fn name_start_chars(line: &[char], name: &[char], title: bool) -> (r: Option<usize>)
    ensures
        match name_start(line@, name@, title) {
            Some(i) => 0 <= i <= line@.len() && r == Some(i as usize),
            None => r is None,
        },
{
    let marker = if title { '#' } else { '>' };
    if line.len() == 0 || line[0] != marker {
        return None;
    }
    let after = crate::text::copy_range(line, 1, line.len());
    assert(after@ =~= line@.drop_first());
    if title {
        let t = crate::text::trim_start_char_chars(after.as_slice(), '#');
        let u = crate::text::trim_start_chars(t.as_slice());
        proof {
            crate::text::lemma_trim_start_char_suffix(after@, '#');
            crate::text::lemma_trim_start_suffix(t@);
        }
        return Some(line.len() - u.len());
    }
    let rest = crate::text::trim_start_chars(after.as_slice());
    proof {
        crate::text::lemma_trim_start_suffix(after@);
    }
    let start = line.len() - rest.len();
    if crate::text::starts_with_chars(rest.as_slice(), name) {
        return Some(start);
    }
    let word = match crate::text::first_word_chars(rest.as_slice()) {
        Some(w) => w,
        None => {
            return None;
        },
    };
    proof {
        crate::text::lemma_words_short(rest@, seq![]);
        assert(crate::text::words(rest@)[0].len() <= rest@.len());
    }
    if word.len() < name.len() {
        return None;
    }
    let cut = word.len() - name.len();
    let tail = crate::text::copy_range(word.as_slice(), cut, word.len());
    assert(tail@ =~= word@.skip(cut as int));
    if !crate::text::chars_eq(tail.as_slice(), name) {
        return None;
    }
    assert(word@.take(cut as int).len() == cut);
    if cut > 0 && !(cut >= 2 && word[cut - 2] == ':' && word[cut - 1] == ':') {
        proof {
            if ends_with_colons(word@.take(cut as int)) {
                assert(word@.take(cut as int)[cut - 2] == word@[cut - 2]);
                assert(word@.take(cut as int)[cut - 1] == word@[cut - 1]);
            }
        }
        return None;
    }
    proof {
        if cut >= 2 {
            assert(word@.take(cut as int)[cut - 2] == word@[cut - 2]);
            assert(word@.take(cut as int)[cut - 1] == word@[cut - 1]);
        }
    }
    Some(start + cut)
}

/// The columns of `name` on line `row` of a text.
fn name_columns(text: &str, row: u32, name: &str, title: bool) -> (r: Option<(u32, u32)>)
    ensures
        r == name_span(text@, row as nat, name@, title),
{
    let line = match line_of(text, row as usize) {
        Some(l) => l,
        None => {
            return None;
        },
    };
    let name_chars = chars_of(name);
    let start = match name_start_chars(line.as_slice(), name_chars.as_slice(), title) {
        Some(s) => s,
        None => {
            return None;
        },
    };
    if start > line.len() {
        return None;
    }
    let tail = crate::text::copy_range(line.as_slice(), start, line.len());
    assert(tail@ =~= line@.skip(start as int));
    if !crate::text::starts_with_chars(tail.as_slice(), name_chars.as_slice()) {
        return None;
    }
    let prefix = crate::text::copy_range(line.as_slice(), 0, start);
    assert(prefix@ =~= line@.take(start as int));
    span_after_chars(prefix.as_slice(), name_chars.as_slice())
}

/// The text position of a name in a file of the index.
pub struct SpanView {
    pub file: Seq<char>,
    pub row: u32,
    pub first: u32,
    pub end: u32,
}

/// Where a name stands in a file: the file, the line counted from zero, and
/// the UTF-16 columns it covers.
#[derive(Debug, PartialEq, Eq)]
pub struct SourceSpan {
    pub file: String,
    pub row: u32,
    pub first: u32,
    pub end: u32,
}

impl View for SourceSpan {
    type V = SpanView;

    open spec fn view(&self) -> SpanView {
        SpanView { file: self.file@, row: self.row, first: self.first, end: self.end }
    }
}

/// Where `name` stands on line `row` of a loaded module's file.
pub open spec fn location_in(m: IndexedView, row: u32, name: Seq<char>, title: bool) -> Option<SpanView> {
    match m.source {
        None => None,
        Some(text) => match name_span(text, row as nat, name, title) {
            Some((a, b)) => Some(SpanView { file: m.file, row, first: a, end: b }),
            None => None,
        },
    }
}

/// Where `name` stands on line `row` of a loaded module's file.
fn location(m: &IndexedModule, row: u32, name: &str, title: bool) -> (r: Option<SourceSpan>)
    ensures
        match location_in(m@, row, name@, title) {
            Some(s) => r matches Some(x) && x@ == s,
            None => r is None,
        },
{
    match &m.source {
        None => None,
        Some(text) => match name_columns(text.as_str(), row, name, title) {
            Some((first, end)) => Some(SourceSpan { file: m.file.clone(), row, first, end }),
            None => None,
        },
    }
}

/// A parsed target called `name`.
pub open spec fn named(name: Seq<char>) -> spec_fn(ParsedTargetView) -> bool {
    |t: ParsedTargetView| t.name == name
}

/// A parsed target declared on line `n`.
pub open spec fn target_on_line(n: nat) -> spec_fn(ParsedTargetView) -> bool {
    |t: ParsedTargetView| t.line == n
}

/// A parsed target declared on the line counted from zero as `row`.
pub open spec fn declared_at_row(row: u32) -> spec_fn(ParsedTargetView) -> bool {
    |t: ParsedTargetView| t.line >= 1 && t.line - 1 == row
}

/// An import on line `n`.
pub open spec fn import_on_line(n: nat) -> spec_fn(ImportView) -> bool {
    |inc: ImportView| inc.target.line == n
}

/// A reference on line `n`.
pub open spec fn ref_on_line(n: nat) -> spec_fn(RefView) -> bool {
    |r: RefView| r.line == n
}

/// A parsed target with a dependency on line `n`.
pub open spec fn has_dependency_on_line(n: nat) -> spec_fn(ParsedTargetView) -> bool {
    |t: ParsedTargetView| exists|d: int| 0 <= d < t.dependencies.len() && (#[trigger] t.dependencies[d]).line == n
}

/// The local name of an import: its alias, or the last segment of its path.
pub open spec fn import_local_name(inc: ImportView) -> Option<Seq<char>> {
    match inc.alias {
        Some(a) => Some(a),
        None => if inc.target.path.len() > 0 {
            Some(inc.target.path.last())
        } else {
            None
        },
    }
}

/// An import whose local name is `name`.
pub open spec fn named_import(name: Seq<char>) -> spec_fn(ImportView) -> bool {
    |inc: ImportView| import_local_name(inc) == Some(name)
}

/// The target that a one-segment dependency name of module `m`, edited as
/// module `current`, stands for: a target of the module itself, else the
/// target of the first import with that local name.
pub open spec fn named_target(current: Seq<Seq<char>>, m: ParsedModuleView, name: Seq<char>) -> Option<IdView> {
    if crate::project::declares(m, name) {
        if valid_target_name(name) {
            Some((current, name))
        } else {
            None
        }
    } else {
        match first_where(m.includes, named_import(name)) {
            Some(k) => pointed_target(current, m.includes[k].target.path),
            None => None,
        }
    }
}

/// `word`, after `prefix` on a line, covers column `c`.
pub open spec fn covers(prefix: Seq<char>, word: Seq<char>, c: u32) -> bool {
    match span_after(prefix, word) {
        Some((a, b)) => a <= c < b,
        None => false,
    }
}

/// The target named at column `c` of a `>` line (`line_number` counted
/// from one) of module `m`, edited as module `current`: on a public
/// declaration its first word; on an import the first word or the alias;
/// on a dependency the first word, which must be one name.
#[verifier::opaque]
pub open spec fn directive_target(current: Seq<Seq<char>>, m: ParsedModuleView, line: Seq<char>, line_number: nat, c: u32) -> Option<IdView> {
    if !(line.len() > 0 && line[0] == '>') {
        None
    } else {
        let directive = trim_start(line.drop_first());
        let start = line.len() - directive.len();
        match first_word(directive) {
            None => None,
            Some(word) => {
                let on_word = covers(line.take(start), word, c);
                if exists|k: int| 0 <= k < m.public_targets.len() && (#[trigger] m.public_targets[k]).line == line_number {
                    if on_word && valid_target_name(word) {
                        Some((current, word))
                    } else {
                        None
                    }
                } else {
                    match first_where(m.includes, import_on_line(line_number)) {
                        Some(k) => {
                            let inc = m.includes[k];
                            let on_alias = match inc.alias {
                                Some(a) => match crate::text::last_occurrence(line, a) {
                                    Some(o) => covers(line.take(o), a, c),
                                    None => false,
                                },
                                None => false,
                            };
                            if on_word || on_alias {
                                pointed_target(current, inc.target.path)
                            } else {
                                None
                            }
                        },
                        None => match first_where(m.targets, has_dependency_on_line(line_number)) {
                            None => None,
                            Some(j) => match first_where(m.targets[j].dependencies, ref_on_line(line_number)) {
                                None => None,
                                Some(d) => {
                                    let dep = m.targets[j].dependencies[d];
                                    if on_word && dep.path.len() == 1 {
                                        named_target(current, m, dep.path[0])
                                    } else {
                                        None
                                    }
                                },
                            },
                        },
                    }
                }
            },
        }
    }
}

/// Where the editor jumps to for `target`, seen from module `current`: the
/// name on the title line of its first declaration, which must be public
/// unless it is in `current`.
#[verifier::opaque]
pub open spec fn declaration_span(v: ProjectIndexView, current: Seq<Seq<char>>, target: IdView) -> Option<SpanView> {
    match indexed_at(v.modules, target.0) {
        None => None,
        Some(tm) => match first_where(tm.module.targets, named(target.1)) {
            None => None,
            Some(j) => {
                let decl = tm.module.targets[j];
                if target.0 != current && !crate::project::publishes(tm.module, target.1) {
                    None
                } else {
                    match tm.source {
                        None => None,
                        Some(text) => if decl.line == 0 {
                            None
                        } else {
                            match line_at(text, (decl.line - 1) as nat) {
                                None => None,
                                Some(dline) => match crate::text::first_occurrence(dline, target.1) {
                                    None => None,
                                    Some(start) => match span_after(dline.take(start), target.1) {
                                        None => None,
                                        Some((a, b)) => if decl.line - 1 <= u32::MAX {
                                            Some(SpanView { file: tm.file, row: (decl.line - 1) as u32, first: a, end: b })
                                        } else {
                                            None
                                        },
                                    },
                                },
                            }
                        },
                    }
                }
            },
        },
    }
}

/// Where the target named at a position of the edited module is declared.
#[verifier::opaque]
pub open spec fn definition_of(v: ProjectIndexView, row: u32, c: u32) -> Option<SpanView> {
    match indexed_at(v.modules, v.current) {
        None => None,
        Some(cur) => match cur.source {
            None => None,
            Some(text) => match line_at(text, row as nat) {
                None => None,
                Some(raw) => {
                    let line = trim_cr(raw);
                    if crate::lsp::utf16_offset_spec(line, c as nat) is None || row + 1 > usize::MAX {
                        None
                    } else {
                        match directive_target(v.current, cur.module, line, (row + 1) as nat, c) {
                            None => None,
                            Some(target) => declaration_span(v, v.current, target),
                        }
                    }
                },
            },
        },
    }
}

/// The target declared at a row of a loaded module, if that module's file
/// is `file`.
pub open spec fn symbol_in(m: IndexedView, file: Seq<char>, row: u32) -> Option<IdView> {
    if m.file != file {
        None
    } else {
        match first_where(m.module.targets, declared_at_row(row)) {
            None => None,
            Some(j) => if valid_target_name(m.module.targets[j].name) {
                Some((m.module.namespace, m.module.targets[j].name))
            } else {
                None
            },
        }
    }
}

/// A loaded module that declares a target at the row of `loc`.
pub open spec fn declares_at(loc: SpanView) -> spec_fn(IndexedView) -> bool {
    |m: IndexedView| symbol_in(m, loc.file, loc.row) is Some
}

/// The target at a position of the edited module: the target whose title
/// the position is on, or else the target a `>` line names there.
#[verifier::opaque]
pub open spec fn symbol_of(v: ProjectIndexView, row: u32, c: u32) -> Option<IdView> {
    match indexed_at(v.modules, v.current) {
        None => None,
        Some(cur) => match cur.source {
            None => None,
            Some(text) => match line_at(text, row as nat) {
                None => None,
                Some(raw) => {
                    let line = trim_cr(raw);
                    if crate::lsp::utf16_offset_spec(line, c as nat) is None || row + 1 > usize::MAX {
                        None
                    } else if line.len() > 0 && line[0] == '#' {
                        match first_where(cur.module.targets, target_on_line((row + 1) as nat)) {
                            None => None,
                            Some(j) => {
                                let t = cur.module.targets[j];
                                let start = line.len() - trim_start(trim_start_char(line, '#')).len();
                                if covers(line.take(start), t.name, c) && valid_target_name(t.name) {
                                    Some((v.current, t.name))
                                } else {
                                    None
                                }
                            },
                        }
                    } else {
                        match definition_of(v, row, c) {
                            None => None,
                            Some(loc) => match first_where(v.modules, declares_at(loc)) {
                                Some(k) => symbol_in(v.modules[k], loc.file, loc.row),
                                None => None,
                            },
                        }
                    }
                },
            },
        },
    }
}

/// Whether `word` after `prefix` covers column `c`.
fn covers_chars(prefix: &[char], word: &[char], c: u32) -> (r: bool)
    ensures
        r == covers(prefix@, word@, c),
{
    match span_after_chars(prefix, word) {
        Some((a, b)) => a <= c && c < b,
        None => false,
    }
}

/// The first target of `m` called `name`.
fn find_named(m: &ParsedModule, name: &str) -> (r: Option<usize>)
    ensures
        match first_where(m@.targets, named(name@)) {
            Some(j) => 0 <= j < m@.targets.len() && r == Some(j as usize),
            None => r is None,
        },
{
    let ts = m.targets();
    let mut j: usize = 0;
    while j < ts.len()
        invariant
            j <= ts.len(),
            parsed_target_views(ts@) == m@.targets,
            forall|x: int| 0 <= x < j ==> !named(name@)(#[trigger] m@.targets[x]),
        decreases ts.len() - j,
    {
        assert(m@.targets[j as int] == ts@[j as int]@);
        if crate::text::text_eq(ts[j].name(), name) {
            proof {
                lemma_first_where_found(m@.targets, named(name@), j as int);
            }
            return Some(j);
        }
        j = j + 1;
    }
        proof {
            lemma_first_where_none(m@.targets, named(name@));
        }
    None
}

/// The first target of `m` declared on line `n`.
fn find_on_line(m: &ParsedModule, n: usize) -> (r: Option<usize>)
    ensures
        match first_where(m@.targets, target_on_line(n as nat)) {
            Some(j) => 0 <= j < m@.targets.len() && r == Some(j as usize),
            None => r is None,
        },
{
    let ts = m.targets();
    let mut j: usize = 0;
    while j < ts.len()
        invariant
            j <= ts.len(),
            parsed_target_views(ts@) == m@.targets,
            forall|x: int| 0 <= x < j ==> !target_on_line(n as nat)(#[trigger] m@.targets[x]),
        decreases ts.len() - j,
    {
        assert(m@.targets[j as int] == ts@[j as int]@);
        if ts[j].line() == n {
            proof {
                lemma_first_where_found(m@.targets, target_on_line(n as nat), j as int);
            }
            return Some(j);
        }
        j = j + 1;
    }
        proof {
            lemma_first_where_none(m@.targets, target_on_line(n as nat));
        }
    None
}

/// The first target of `m` declared at a row counted from zero.
fn find_at_row(m: &ParsedModule, row: u32) -> (r: Option<usize>)
    ensures
        match first_where(m@.targets, declared_at_row(row)) {
            Some(j) => 0 <= j < m@.targets.len() && r == Some(j as usize),
            None => r is None,
        },
{
    let ts = m.targets();
    let mut j: usize = 0;
    while j < ts.len()
        invariant
            j <= ts.len(),
            parsed_target_views(ts@) == m@.targets,
            forall|x: int| 0 <= x < j ==> !declared_at_row(row)(#[trigger] m@.targets[x]),
        decreases ts.len() - j,
    {
        assert(m@.targets[j as int] == ts@[j as int]@);
        let l = ts[j].line();
        if l >= 1 && l - 1 == row as usize {
            proof {
                lemma_first_where_found(m@.targets, declared_at_row(row), j as int);
            }
            return Some(j);
        }
        j = j + 1;
    }
        proof {
            lemma_first_where_none(m@.targets, declared_at_row(row));
        }
    None
}

/// The first import of `m` on line `n`.
fn find_import_on_line(m: &ParsedModule, n: usize) -> (r: Option<usize>)
    ensures
        match first_where(m@.includes, import_on_line(n as nat)) {
            Some(k) => 0 <= k < m@.includes.len() && r == Some(k as usize),
            None => r is None,
        },
{
    let incs = m.includes();
    let mut k: usize = 0;
    while k < incs.len()
        invariant
            k <= incs.len(),
            import_views(incs@) == m@.includes,
            forall|x: int| 0 <= x < k ==> !import_on_line(n as nat)(#[trigger] m@.includes[x]),
        decreases incs.len() - k,
    {
        assert(m@.includes[k as int] == incs@[k as int]@);
        if incs[k].target().line() == n {
            proof {
                lemma_first_where_found(m@.includes, import_on_line(n as nat), k as int);
            }
            return Some(k);
        }
        k = k + 1;
    }
        proof {
            lemma_first_where_none(m@.includes, import_on_line(n as nat));
        }
    None
}

/// The local name of an import.
fn local_name(inc: &crate::parser::ParsedInclude) -> (r: Option<&str>)
    ensures
        match import_local_name(inc@) {
            Some(n) => r matches Some(s) && s@ == n,
            None => r is None,
        },
{
    match inc.alias() {
        Some(a) => Some(a),
        None => {
            let segs = inc.target().path().segments();
            if segs.len() > 0 {
                proof {
                    assert(texts(segs@)[segs@.len() - 1] == segs@[segs@.len() - 1]@);
                }
                Some(segs[segs.len() - 1].as_str())
            } else {
                None
            }
        },
    }
}

/// The first import of `m` whose local name is `name`.
fn find_named_import(m: &ParsedModule, name: &str) -> (r: Option<usize>)
    ensures
        match first_where(m@.includes, named_import(name@)) {
            Some(k) => 0 <= k < m@.includes.len() && r == Some(k as usize),
            None => r is None,
        },
{
    let incs = m.includes();
    let mut k: usize = 0;
    while k < incs.len()
        invariant
            k <= incs.len(),
            import_views(incs@) == m@.includes,
            forall|x: int| 0 <= x < k ==> !named_import(name@)(#[trigger] m@.includes[x]),
        decreases incs.len() - k,
    {
        assert(m@.includes[k as int] == incs@[k as int]@);
        let found = match local_name(&incs[k]) {
            Some(l) => crate::text::text_eq(l, name),
            None => false,
        };
        if found {
            proof {
                lemma_first_where_found(m@.includes, named_import(name@), k as int);
            }
            return Some(k);
        }
        k = k + 1;
    }
        proof {
            lemma_first_where_none(m@.includes, named_import(name@));
        }
    None
}

/// Whether a public declaration of `m` is on line `n`.
fn public_on_line(m: &ParsedModule, n: usize) -> (r: bool)
    ensures
        r == exists|k: int| 0 <= k < m@.public_targets.len() && (#[trigger] m@.public_targets[k]).line == n,
{
    let ps = m.public_targets();
    let mut k: usize = 0;
    while k < ps.len()
        invariant
            k <= ps.len(),
            public_views(ps@) == m@.public_targets,
            forall|x: int| 0 <= x < k ==> (#[trigger] m@.public_targets[x]).line != n,
        decreases ps.len() - k,
    {
        assert(m@.public_targets[k as int] == ps@[k as int]@);
        if ps[k].line() == n {
            return true;
        }
        k = k + 1;
    }
    false
}

/// The first dependency on line `n`: the first target with one, and its
/// first one there.
fn find_dependency_on_line(m: &ParsedModule, n: usize) -> (r: Option<(usize, usize)>)
    ensures
        match first_where(m@.targets, has_dependency_on_line(n as nat)) {
            None => r is None,
            Some(j) => 0 <= j < m@.targets.len() && match first_where(m@.targets[j].dependencies, ref_on_line(n as nat)) {
                Some(d) => 0 <= d < m@.targets[j].dependencies.len() && r == Some((j as usize, d as usize)),
                None => false,
            },
        },
{
    let ts = m.targets();
    let mut j: usize = 0;
    while j < ts.len()
        invariant
            j <= ts.len(),
            parsed_target_views(ts@) == m@.targets,
            forall|x: int| 0 <= x < j ==> !has_dependency_on_line(n as nat)(#[trigger] m@.targets[x]),
        decreases ts.len() - j,
    {
        assert(m@.targets[j as int] == ts@[j as int]@);
        let deps = ts[j].dependencies();
        let mut d: usize = 0;
        while d < deps.len()
            invariant
                d <= deps.len(),
                j < ts.len(),
                parsed_target_views(ts@) == m@.targets,
                forall|x: int| 0 <= x < j ==> !has_dependency_on_line(n as nat)(#[trigger] m@.targets[x]),
                ref_views(deps@) == m@.targets[j as int].dependencies,
                forall|y: int| 0 <= y < d ==> !ref_on_line(n as nat)(#[trigger] m@.targets[j as int].dependencies[y]),
            decreases deps.len() - d,
        {
            assert(m@.targets[j as int].dependencies[d as int] == deps@[d as int]@);
            if deps[d].line() == n {
                proof {
                    lemma_first_where_found(m@.targets[j as int].dependencies, ref_on_line(n as nat), d as int);
                    assert(has_dependency_on_line(n as nat)(m@.targets[j as int]));
                    lemma_first_where_found(m@.targets, has_dependency_on_line(n as nat), j as int);
                }
                return Some((j, d));
            }
            d = d + 1;
        }
        proof {
            assert(!has_dependency_on_line(n as nat)(m@.targets[j as int])) by {
                if exists|y: int| 0 <= y < m@.targets[j as int].dependencies.len() && (#[trigger] m@.targets[j as int].dependencies[y]).line == n {
                    let y = choose|y: int| 0 <= y < m@.targets[j as int].dependencies.len() && (#[trigger] m@.targets[j as int].dependencies[y]).line == n;
                    assert(!ref_on_line(n as nat)(m@.targets[j as int].dependencies[y]));
                }
            }
        }
        j = j + 1;
    }
        proof {
            lemma_first_where_none(m@.targets, has_dependency_on_line(n as nat));
        }
    None
}

/// The target a one-segment dependency name of `m` stands for.
fn named_target_of(current: &ModulePath, m: &ParsedModule, name: &str) -> (r: Option<TargetId>)
    ensures
        match named_target(current@, m@, name@) {
            Some(id) => r matches Some(t) && t@ == id,
            None => r is None,
        },
{
    if crate::project::declares_name(m, name) {
        if crate::model::is_valid_target_name(name) {
            Some(TargetId::new(current.duplicate(), name))
        } else {
            None
        }
    } else {
        match find_named_import(m, name) {
            Some(k) => {
                let incs = m.includes();
                assert(m@.includes[k as int] == incs@[k as int]@);
                point_to(current, incs[k].target())
            },
            None => None,
        }
    }
}

/// The target named at a column of a `>` line of `m`.
#[verifier::spinoff_prover]
#[verifier::rlimit(60)]
fn directive_target_of(current: &ModulePath, m: &ParsedModule, line: &[char], n: usize, c: u32) -> (r: Option<TargetId>)
    ensures
        match directive_target(current@, m@, line@, n as nat, c) {
            Some(id) => r matches Some(t) && t@ == id,
            None => r is None,
        },
{
    reveal(directive_target);
    if line.len() == 0 || line[0] != '>' {
        return None;
    }
    let after = crate::text::copy_range(line, 1, line.len());
    assert(after@ =~= line@.drop_first());
    let directive = crate::text::trim_start_chars(after.as_slice());
    proof {
        crate::text::lemma_trim_start_suffix(after@);
    }
    let start = line.len() - directive.len();
    let word = match crate::text::first_word_chars(directive.as_slice()) {
        Some(w) => w,
        None => {
            return None;
        },
    };
    let prefix = crate::text::copy_range(line, 0, start);
    assert(prefix@ =~= line@.take(start as int));
    let on_word = covers_chars(prefix.as_slice(), word.as_slice(), c);
    if public_on_line(m, n) {
        let w = crate::text::string_of(word.as_slice());
        if on_word && crate::model::is_valid_target_name(w.as_str()) {
            return Some(TargetId::new(current.duplicate(), w.as_str()));
        }
        return None;
    }
    match find_import_on_line(m, n) {
        Some(k) => {
            let incs = m.includes();
            assert(m@.includes[k as int] == incs@[k as int]@);
            let inc = &incs[k];
            let on_alias = match inc.alias() {
                Some(a) => {
                    let ac = chars_of(a);
                    match crate::text::rfind_chars(line, ac.as_slice()) {
                        Some(o) => {
                            let before = crate::text::copy_range(line, 0, o);
                            assert(before@ =~= line@.take(o as int));
                            covers_chars(before.as_slice(), ac.as_slice(), c)
                        },
                        None => false,
                    }
                },
                None => false,
            };
            if on_word || on_alias {
                point_to(current, inc.target())
            } else {
                None
            }
        },
        None => match find_dependency_on_line(m, n) {
            None => None,
            Some((j, d)) => {
                let ts = m.targets();
                assert(m@.targets[j as int] == ts@[j as int]@);
                let deps = ts[j].dependencies();
                assert(m@.targets[j as int].dependencies[d as int] == deps@[d as int]@);
                let segs = deps[d].path().segments();
                if on_word && segs.len() == 1 {
                    assert(texts(segs@)[0] == segs@[0]@);
                    named_target_of(current, m, segs[0].as_str())
                } else {
                    None
                }
            },
        },
    }
}

impl ProjectView {
    /// Where `target` is declared, as the editor jumps to it from module
    /// `current`.
    #[verifier::spinoff_prover]
    #[verifier::rlimit(60)]
    fn declaration(&self, current: &ModulePath, target: &TargetId) -> (r: Option<SourceSpan>)
        ensures
            match declaration_span(self@, current@, target@) {
                Some(s) => r matches Some(x) && x@ == s,
                None => r is None,
            },
    {
        reveal(declaration_span);
        let k = match self.position(target.namespace()) {
            Some(k) => k,
            None => {
                return None;
            },
        };
        let tm = &self.modules[k];
        assert(self@.modules[k as int] == tm@);
        let j = match find_named(&tm.module, target.name()) {
            Some(j) => j,
            None => {
                return None;
            },
        };
        let ts = tm.module.targets();
        assert(tm@.module.targets[j as int] == ts@[j as int]@);
        let decl = &ts[j];
        if !target.namespace().same(current) && !crate::project::publishes_name(&tm.module, target.name()) {
            return None;
        }
        let text = match &tm.source {
            Some(t) => t,
            None => {
                return None;
            },
        };
        if decl.line() == 0 {
            return None;
        }
        let dline = match line_of(text.as_str(), decl.line() - 1) {
            Some(l) => l,
            None => {
                return None;
            },
        };
        let name = chars_of(target.name());
        let start = match crate::text::find_chars(dline.as_slice(), name.as_slice()) {
            Some(s) => s,
            None => {
                return None;
            },
        };
        let prefix = crate::text::copy_range(dline.as_slice(), 0, start);
        assert(prefix@ =~= dline@.take(start as int));
        let (first, end) = match span_after_chars(prefix.as_slice(), name.as_slice()) {
            Some(p) => p,
            None => {
                return None;
            },
        };
        if decl.line() - 1 > u32::MAX as usize {
            return None;
        }
        Some(SourceSpan { file: tm.file.clone(), row: (decl.line() - 1) as u32, first, end })
    }

    /// Where the target named at a position of the edited file is
    /// declared.
    pub fn definition(&self, row: u32, character: u32) -> (r: Option<SourceSpan>)
        ensures
            match definition_of(self@, row, character) {
                Some(s) => r matches Some(x) && x@ == s,
                None => r is None,
            },
    {
        reveal(definition_of);
        let k = match self.position(&self.current) {
            Some(k) => k,
            None => {
                return None;
            },
        };
        let cur = &self.modules[k];
        assert(self@.modules[k as int] == cur@);
        let text = match &cur.source {
            Some(t) => t,
            None => {
                return None;
            },
        };
        let raw = match line_of(text.as_str(), row as usize) {
            Some(l) => l,
            None => {
                return None;
            },
        };
        let line = crate::lsp::trim_cr_chars(raw.as_slice());
        if !crate::lsp::column_valid(line.as_slice(), character) || row as usize == usize::MAX {
            return None;
        }
        match directive_target_of(&self.current, &cur.module, line.as_slice(), row as usize + 1, character) {
            None => None,
            Some(target) => self.declaration(&self.current, &target),
        }
    }

    /// The target at a position of the edited file: the one whose title
    /// the position is on, or the one a `>` line names there.
    pub fn symbol_at(&self, row: u32, character: u32) -> (r: Option<TargetId>)
        ensures
            match symbol_of(self@, row, character) {
                Some(id) => r matches Some(t) && t@ == id,
                None => r is None,
            },
    {
        reveal(symbol_of);
        let k = match self.position(&self.current) {
            Some(k) => k,
            None => {
                return None;
            },
        };
        let cur = &self.modules[k];
        assert(self@.modules[k as int] == cur@);
        let text = match &cur.source {
            Some(t) => t,
            None => {
                return None;
            },
        };
        let raw = match line_of(text.as_str(), row as usize) {
            Some(l) => l,
            None => {
                return None;
            },
        };
        let line = crate::lsp::trim_cr_chars(raw.as_slice());
        if !crate::lsp::column_valid(line.as_slice(), character) || row as usize == usize::MAX {
            return None;
        }
        if line.len() > 0 && line[0] == '#' {
            let j = match find_on_line(&cur.module, row as usize + 1) {
                Some(j) => j,
                None => {
                    return None;
                },
            };
            let ts = cur.module.targets();
            assert(cur@.module.targets[j as int] == ts@[j as int]@);
            let t = crate::text::trim_start_char_chars(line.as_slice(), '#');
            let u = crate::text::trim_start_chars(t.as_slice());
            proof {
                crate::text::lemma_trim_start_char_suffix(line@, '#');
                crate::text::lemma_trim_start_suffix(t@);
            }
            let start = line.len() - u.len();
            let prefix = crate::text::copy_range(line.as_slice(), 0, start);
            assert(prefix@ =~= line@.take(start as int));
            let name = chars_of(ts[j].name());
            if covers_chars(prefix.as_slice(), name.as_slice(), character) && crate::model::is_valid_target_name(ts[j].name()) {
                return Some(TargetId::new(self.current.duplicate(), ts[j].name()));
            }
            return None;
        }
        let loc = match self.definition(row, character) {
            Some(l) => l,
            None => {
                return None;
            },
        };
        let ghost mv = self@.modules;
        assert(symbol_of(self@, row, character) == match first_where(mv, declares_at(loc@)) {
            Some(k) => symbol_in(mv[k], loc@.file, loc@.row),
            None => None,
        });
        let mut i: usize = 0;
        while i < self.modules.len()
            invariant
                i <= self.modules.len(),
                mv == indexed_views(self.modules@),
                mv == self@.modules,
                forall|x: int| 0 <= x < i ==> !declares_at(loc@)(#[trigger] mv[x]),
                symbol_of(self@, row, character) == match first_where(mv, declares_at(loc@)) {
                    Some(k) => symbol_in(mv[k], loc@.file, loc@.row),
                    None => None,
                },
            decreases self.modules.len() - i,
        {
            let m = &self.modules[i];
            assert(mv[i as int] == m@);
            if crate::text::text_eq(m.file.as_str(), loc.file.as_str()) {
                match find_at_row(&m.module, loc.row) {
                    Some(j) => {
                        let ts = m.module.targets();
                        assert(m@.module.targets[j as int] == ts@[j as int]@);
                        if crate::model::is_valid_target_name(ts[j].name()) {
                            let ghost id = (m@.module.namespace, m@.module.targets[j as int].name);
                            proof {
                                assert(symbol_in(mv[i as int], loc@.file, loc@.row) == Some(id));
                                lemma_first_where_found(mv, declares_at(loc@), i as int);
                                assert(symbol_of(self@, row, character) == Some(id));
                            }
                            let t = TargetId::new(m.module.namespace().duplicate(), ts[j].name());
                            assert(t@ == id);
                            return Some(t);
                        }
                    },
                    None => {},
                }
            }
            i = i + 1;
        }
        proof {
            lemma_first_where_none(mv, declares_at(loc@));
        }
        None
    }
}

/// The order of text positions: by file, then row, then columns.
pub open spec fn span_lt(a: SpanView, b: SpanView) -> bool {
    ||| crate::text::text_lt(a.file, b.file)
    ||| a.file == b.file && a.row < b.row
    ||| a.file == b.file && a.row == b.row && a.first < b.first
    ||| a.file == b.file && a.row == b.row && a.first == b.first && a.end < b.end
}

/// Each position precedes the positions after it.
pub open spec fn spans_sorted(v: Seq<SpanView>) -> bool {
    forall|i: int, j: int| 0 <= i < j < v.len() ==> span_lt(#[trigger] v[i], #[trigger] v[j])
}

/// The views of a list of positions.
pub open spec fn span_views(v: Seq<SourceSpan>) -> Seq<SpanView> {
    v.map_values(|x: SourceSpan| x@)
}

/// The order of positions is a strict total order.
proof fn lemma_span_lt_order(a: SpanView, b: SpanView, c: SpanView)
    ensures
        !span_lt(a, a),
        span_lt(a, b) && span_lt(b, c) ==> span_lt(a, c),
        a != b ==> span_lt(a, b) || span_lt(b, a),
{
    crate::order::lemma_text_lt_irreflexive(a.file);
    if span_lt(a, b) && span_lt(b, c) {
        if crate::text::text_lt(a.file, b.file) && crate::text::text_lt(b.file, c.file) {
            crate::order::lemma_text_lt_transitive(a.file, b.file, c.file);
        }
    }
    if a != b && a.file != b.file {
        crate::order::lemma_text_lt_total(a.file, b.file);
    }
}

/// Compares two positions.
fn span_less(a: &SourceSpan, b: &SourceSpan) -> (r: bool)
    ensures
        r == span_lt(a@, b@),
{
    if crate::text::text_less(a.file.as_str(), b.file.as_str()) {
        return true;
    }
    if !crate::text::text_eq(a.file.as_str(), b.file.as_str()) {
        return false;
    }
    a.row < b.row || (a.row == b.row && (a.first < b.first || (a.first == b.first && a.end < b.end)))
}

/// Adds a position to a sorted list of distinct positions.
fn add_span(r: &mut Vec<SourceSpan>, x: SourceSpan)
    requires
        spans_sorted(span_views(old(r)@)),
    ensures
        spans_sorted(span_views(final(r)@)),
        forall|y: SpanView| span_views(final(r)@).contains(y) <==> (span_views(old(r)@).contains(y) || y == x@),
{
    let ghost k = span_views(r@);
    let mut p: usize = 0;
    while p < r.len() && span_less(&r[p], &x)
        invariant
            p <= r.len(),
            k == span_views(r@),
            forall|j: int| 0 <= j < p ==> span_lt(#[trigger] k[j], x@),
        decreases r.len() - p,
    {
        p = p + 1;
    }
    if p < r.len() && r[p].file == x.file && r[p].row == x.row && r[p].first == x.first && r[p].end == x.end {
        proof {
            assert(k[p as int] == x@);
            assert forall|y: SpanView| k.contains(y) <==> (k.contains(y) || y == x@) by {
                if y == x@ {
                    assert(k[p as int] == y);
                }
            }
        }
        return;
    }
    proof {
        if p < k.len() {
            lemma_span_lt_order(x@, k[p as int], k[p as int]);
            assert(!span_lt(k[p as int], x@));
            assert(k[p as int] != x@);
            assert(span_lt(x@, k[p as int]));
        }
    }
    r.insert(p, x);
    proof {
        let n = span_views(r@);
        assert(n =~= k.insert(p as int, x@));
        assert forall|i: int, j: int| 0 <= i < j < n.len() implies span_lt(#[trigger] n[i], #[trigger] n[j]) by {
            if i < p && j < p {
            } else if i < p && j == p {
            } else if i < p && j > p {
                assert(n[j] == k[j - 1]);
                if j - 1 > p {
                    lemma_span_lt_order(x@, k[p as int], k[j - 1]);
                }
                lemma_span_lt_order(k[i], x@, k[j - 1]);
            } else if i == p {
                assert(n[j] == k[j - 1]);
                if j - 1 > p {
                    lemma_span_lt_order(x@, k[p as int], k[j - 1]);
                }
            } else {
                assert(n[i] == k[i - 1] && n[j] == k[j - 1]);
            }
        }
        assert forall|y: SpanView| n.contains(y) <==> (k.contains(y) || y == x@) by {
            if n.contains(y) {
                let i = choose|i: int| 0 <= i < n.len() && n[i] == y;
                if i < p {
                    assert(k[i] == y);
                } else if i > p {
                    assert(k[i - 1] == y);
                }
            }
            if k.contains(y) {
                let i = choose|i: int| 0 <= i < k.len() && k[i] == y;
                if i < p {
                    assert(n[i] == y);
                } else {
                    assert(n[i + 1] == y);
                }
            }
            if y == x@ {
                assert(n[p as int] == y);
            }
        }
    }
}

/// A row number from a line number counted from one.
pub open spec fn row_of(line: nat) -> u32 {
    if line == 0 {
        0
    } else if line - 1 <= u32::MAX {
        (line - 1) as u32
    } else {
        u32::MAX
    }
}

/// Computes the row of a line.
fn row_from(line: usize) -> (r: u32)
    ensures
        r == row_of(line as nat),
{
    if line == 0 {
        0
    } else if line - 1 <= u32::MAX as usize {
        (line - 1) as u32
    } else {
        u32::MAX
    }
}

/// A found position as a list.
pub open spec fn found(l: Option<SpanView>) -> Seq<SpanView> {
    match l {
        Some(x) => seq![x],
        None => seq![],
    }
}

/// The positions where imports of `e` name `target`.
pub open spec fn import_refs(e: IndexedView, target: IdView, incs: Seq<ImportView>) -> Seq<SpanView>
    decreases incs.len(),
{
    if incs.len() == 0 {
        seq![]
    } else {
        let inc = incs.last();
        import_refs(e, target, incs.drop_last()) + if pointed_target(e.module.namespace, inc.target.path) == Some(target) {
            found(location_in(e, row_of(inc.target.line), target.1, false))
        } else {
            seq![]
        }
    }
}

/// The positions where dependencies among `deps`, written in `e`, name
/// `target`.
pub open spec fn dependency_refs(e: IndexedView, target: IdView, deps: Seq<RefView>) -> Seq<SpanView>
    decreases deps.len(),
{
    if deps.len() == 0 {
        seq![]
    } else {
        let dep = deps.last();
        dependency_refs(e, target, deps.drop_last()) + if dep.path.len() == 1 && named_target(
            e.module.namespace,
            e.module,
            dep.path[0],
        ) == Some(target) {
            found(location_in(e, row_of(dep.line), dep.path[0], false))
        } else {
            seq![]
        }
    }
}

/// The positions where dependencies of the targets `ts` of `e` name
/// `target`.
pub open spec fn target_refs(e: IndexedView, target: IdView, ts: Seq<ParsedTargetView>) -> Seq<SpanView>
    decreases ts.len(),
{
    if ts.len() == 0 {
        seq![]
    } else {
        target_refs(e, target, ts.drop_last()) + dependency_refs(e, target, ts.last().dependencies)
    }
}

/// The positions where public declarations of `e` name `target`.
pub open spec fn public_refs(e: IndexedView, target: IdView, ps: Seq<crate::parser::PublicView>) -> Seq<SpanView>
    decreases ps.len(),
{
    if ps.len() == 0 {
        seq![]
    } else {
        let p = ps.last();
        public_refs(e, target, ps.drop_last()) + if p.name == target.1 {
            found(location_in(e, row_of(p.line), target.1, false))
        } else {
            seq![]
        }
    }
}

/// The references to `target` in the loaded module `e`: none unless `e`
/// is the target's module or the target is public; then its imports and
/// dependencies that name it, and in its own module its public
/// declarations.
pub open spec fn module_refs(v: ProjectIndexView, e: IndexedView, target: IdView) -> Seq<SpanView> {
    let public = match indexed_at(v.modules, target.0) {
        Some(tm) => crate::project::publishes(tm.module, target.1),
        None => false,
    };
    if e.module.namespace != target.0 && !public {
        seq![]
    } else {
        import_refs(e, target, e.module.includes) + target_refs(e, target, e.module.targets) + if e.module.namespace
            == target.0 {
            public_refs(e, target, e.module.public_targets)
        } else {
            seq![]
        }
    }
}

/// The references in the loaded modules `ms`, in order.
pub open spec fn all_module_refs(v: ProjectIndexView, target: IdView, ms: Seq<IndexedView>) -> Seq<SpanView>
    decreases ms.len(),
{
    if ms.len() == 0 {
        seq![]
    } else {
        all_module_refs(v, target, ms.drop_last()) + module_refs(v, ms.last(), target)
    }
}

/// The title of the first declaration of `target`.
pub open spec fn declaration_ref(v: ProjectIndexView, target: IdView) -> Seq<SpanView> {
    match indexed_at(v.modules, target.0) {
        None => seq![],
        Some(tm) => match first_where(tm.module.targets, named(target.1)) {
            None => seq![],
            Some(j) => found(location_in(tm, row_of(tm.module.targets[j].line), target.1, true)),
        },
    }
}

/// Every position that refers to `target`: its declaration when asked
/// for, then the references of every loaded module.
pub open spec fn collected_refs(v: ProjectIndexView, target: IdView, include_declaration: bool) -> Seq<SpanView> {
    (if include_declaration {
        declaration_ref(v, target)
    } else {
        seq![]
    }) + all_module_refs(v, target, v.modules)
}

/// The positions a list holds.
pub open spec fn span_set(v: Seq<SourceSpan>) -> Set<SpanView> {
    span_views(v).to_set()
}

/// Adds a position that may not have been found.
fn add_found(r: &mut Vec<SourceSpan>, x: Option<SourceSpan>, ghost_x: Ghost<Option<SpanView>>)
    requires
        spans_sorted(span_views(old(r)@)),
        match ghost_x@ {
            Some(v) => x matches Some(s) && s@ == v,
            None => x is None,
        },
    ensures
        spans_sorted(span_views(final(r)@)),
        span_set(final(r)@) == span_set(old(r)@) + found(ghost_x@).to_set(),
{
    let ghost k = span_views(r@);
    match x {
        Some(s) => {
            add_span(r, s);
            proof {
                let n = span_views(r@);
                assert forall|y: SpanView| n.to_set().contains(y) <==> (k.to_set() + found(ghost_x@).to_set()).contains(y) by {
                    assert(n.contains(y) <==> (k.contains(y) || y == s@));
                    if y == s@ {
                        assert(found(ghost_x@)[0] == y);
                    }
                }
                assert(n.to_set() =~= k.to_set() + found(ghost_x@).to_set());
            }
        },
        None => {
            proof {
                assert(found(ghost_x@).to_set() =~= Set::<SpanView>::empty());
                assert(span_set(r@) =~= span_set(r@) + found(ghost_x@).to_set());
            }
        },
    }
}

/// The set of a list that grew by one more part.
proof fn lemma_grown_set(r0: Set<SpanView>, prev: Seq<SpanView>, part: Seq<SpanView>, before: Set<SpanView>, after: Set<SpanView>)
    requires
        before == r0 + prev.to_set(),
        after == before + part.to_set(),
    ensures
        after == r0 + (prev + part).to_set(),
{
    vstd::seq_lib::seq_to_set_distributes_over_add(prev, part);
    assert(after =~= r0 + (prev + part).to_set());
}

/// Adds the positions where imports of `e` name `target`.
fn add_import_refs(e: &IndexedModule, target: &TargetId, r: &mut Vec<SourceSpan>)
    requires
        spans_sorted(span_views(old(r)@)),
    ensures
        spans_sorted(span_views(final(r)@)),
        span_set(final(r)@) == span_set(old(r)@) + import_refs(e@, target@, e@.module.includes).to_set(),
{
    let ghost r0 = span_set(r@);
    let incs = e.module.includes();
    let ghost iv = e@.module.includes;
    let mut k: usize = 0;
    proof {
        assert(import_refs(e@, target@, iv.take(0)) =~= Seq::<SpanView>::empty());
        assert(r0 =~= r0 + import_refs(e@, target@, iv.take(0)).to_set());
    }
    while k < incs.len()
        invariant
            k <= incs.len(),
            import_views(incs@) == iv,
            iv == e@.module.includes,
            spans_sorted(span_views(r@)),
            span_set(r@) == r0 + import_refs(e@, target@, iv.take(k as int)).to_set(),
        decreases incs.len() - k,
    {
        let ghost before = span_set(r@);
        let ghost prev = import_refs(e@, target@, iv.take(k as int));
        let inc = &incs[k];
        assert(iv[k as int] == inc@);
        assert(iv.take(k + 1).drop_last() =~= iv.take(k as int));
        assert(iv.take(k + 1).last() == inc@);
        let ghost part: Seq<SpanView> = if pointed_target(e@.module.namespace, inc@.target.path) == Some(target@) {
            found(location_in(e@, row_of(inc@.target.line), target@.1, false))
        } else {
            seq![]
        };
        let mut hit = false;
        match point_to(e.module.namespace(), inc.target()) {
            Some(t) => {
                if t.same(target) {
                    hit = true;
                }
            },
            None => {},
        }
        if hit {
            let row = row_from(inc.target().line());
            let l = location(e, row, target.name(), false);
            add_found(r, l, Ghost(location_in(e@, row_of(inc@.target.line), target@.1, false)));
        } else {
            assert(part.to_set() =~= Set::<SpanView>::empty());
            assert(before =~= before + part.to_set());
        }
        k = k + 1;
        proof {
            assert(import_refs(e@, target@, iv.take(k as int)) == prev + part);
            lemma_grown_set(r0, prev, part, before, span_set(r@));
        }
    }
    assert(iv.take(k as int) =~= iv);
}

/// Adds the positions where the dependencies `deps`, written in `e`, name
/// `target`.
fn add_dependency_refs(e: &IndexedModule, target: &TargetId, deps: &[ParsedReference], r: &mut Vec<SourceSpan>)
    requires
        spans_sorted(span_views(old(r)@)),
    ensures
        spans_sorted(span_views(final(r)@)),
        span_set(final(r)@) == span_set(old(r)@) + dependency_refs(e@, target@, ref_views(deps@)).to_set(),
{
    let ghost r0 = span_set(r@);
    let ghost dv = ref_views(deps@);
    let mut d: usize = 0;
    proof {
        assert(dependency_refs(e@, target@, dv.take(0)) =~= Seq::<SpanView>::empty());
        assert(r0 =~= r0 + dependency_refs(e@, target@, dv.take(0)).to_set());
    }
    while d < deps.len()
        invariant
            d <= deps.len(),
            dv == ref_views(deps@),
            spans_sorted(span_views(r@)),
            span_set(r@) == r0 + dependency_refs(e@, target@, dv.take(d as int)).to_set(),
        decreases deps.len() - d,
    {
        let ghost before = span_set(r@);
        let ghost prev = dependency_refs(e@, target@, dv.take(d as int));
        let dep = &deps[d];
        assert(dv[d as int] == dep@);
        assert(dv.take(d + 1).drop_last() =~= dv.take(d as int));
        assert(dv.take(d + 1).last() == dep@);
        let segs = dep.path().segments();
        let ghost part: Seq<SpanView> = if dep@.path.len() == 1 && named_target(e@.module.namespace, e@.module, dep@.path[0]) == Some(target@) {
            found(location_in(e@, row_of(dep@.line), dep@.path[0], false))
        } else {
            seq![]
        };
        let mut hit = false;
        if segs.len() == 1 {
            assert(texts(segs@)[0] == segs@[0]@);
            match named_target_of(e.module.namespace(), &e.module, segs[0].as_str()) {
                Some(t) => {
                    if t.same(target) {
                        hit = true;
                    }
                },
                None => {},
            }
        }
        if hit {
            let row = row_from(dep.line());
            let l = location(e, row, segs[0].as_str(), false);
            add_found(r, l, Ghost(location_in(e@, row_of(dep@.line), dep@.path[0], false)));
        } else {
            assert(part.to_set() =~= Set::<SpanView>::empty());
            assert(before =~= before + part.to_set());
        }
        d = d + 1;
        proof {
            assert(dependency_refs(e@, target@, dv.take(d as int)) == prev + part);
            lemma_grown_set(r0, prev, part, before, span_set(r@));
        }
    }
    assert(dv.take(d as int) =~= dv);
}

/// Adds the positions where dependencies of the targets of `e` name
/// `target`.
fn add_target_refs(e: &IndexedModule, target: &TargetId, r: &mut Vec<SourceSpan>)
    requires
        spans_sorted(span_views(old(r)@)),
    ensures
        spans_sorted(span_views(final(r)@)),
        span_set(final(r)@) == span_set(old(r)@) + target_refs(e@, target@, e@.module.targets).to_set(),
{
    let ghost r0 = span_set(r@);
    let ts = e.module.targets();
    let ghost tv = e@.module.targets;
    let mut j: usize = 0;
    proof {
        assert(target_refs(e@, target@, tv.take(0)) =~= Seq::<SpanView>::empty());
        assert(r0 =~= r0 + target_refs(e@, target@, tv.take(0)).to_set());
    }
    while j < ts.len()
        invariant
            j <= ts.len(),
            parsed_target_views(ts@) == tv,
            tv == e@.module.targets,
            spans_sorted(span_views(r@)),
            span_set(r@) == r0 + target_refs(e@, target@, tv.take(j as int)).to_set(),
        decreases ts.len() - j,
    {
        assert(tv[j as int] == ts@[j as int]@);
        assert(tv.take(j + 1).drop_last() =~= tv.take(j as int));
        assert(tv.take(j + 1).last() == tv[j as int]);
        let ghost before = span_set(r@);
        let ghost prev = target_refs(e@, target@, tv.take(j as int));
        add_dependency_refs(e, target, ts[j].dependencies(), r);
        let ghost part = dependency_refs(e@, target@, tv[j as int].dependencies);
        j = j + 1;
        proof {
            assert(target_refs(e@, target@, tv.take(j as int)) == prev + part);
            lemma_grown_set(r0, prev, part, before, span_set(r@));
        }
    }
    assert(tv.take(j as int) =~= tv);
}

/// Adds the positions where public declarations of `e` name `target`.
fn add_public_refs(e: &IndexedModule, target: &TargetId, r: &mut Vec<SourceSpan>)
    requires
        spans_sorted(span_views(old(r)@)),
    ensures
        spans_sorted(span_views(final(r)@)),
        span_set(final(r)@) == span_set(old(r)@) + public_refs(e@, target@, e@.module.public_targets).to_set(),
{
    let ghost r0 = span_set(r@);
    let ps = e.module.public_targets();
    let ghost pv = e@.module.public_targets;
    let mut k: usize = 0;
    proof {
        assert(public_refs(e@, target@, pv.take(0)) =~= Seq::<SpanView>::empty());
        assert(r0 =~= r0 + public_refs(e@, target@, pv.take(0)).to_set());
    }
    while k < ps.len()
        invariant
            k <= ps.len(),
            public_views(ps@) == pv,
            pv == e@.module.public_targets,
            spans_sorted(span_views(r@)),
            span_set(r@) == r0 + public_refs(e@, target@, pv.take(k as int)).to_set(),
        decreases ps.len() - k,
    {
        assert(pv[k as int] == ps@[k as int]@);
        assert(pv.take(k + 1).drop_last() =~= pv.take(k as int));
        assert(pv.take(k + 1).last() == pv[k as int]);
        let ghost part: Seq<SpanView> = if pv[k as int].name == target@.1 {
            found(location_in(e@, row_of(pv[k as int].line), target@.1, false))
        } else {
            seq![]
        };
        let ghost before = span_set(r@);
        let ghost prev = public_refs(e@, target@, pv.take(k as int));
        if crate::text::text_eq(ps[k].name(), target.name()) {
            let row = row_from(ps[k].line());
            let l = location(e, row, target.name(), false);
            add_found(r, l, Ghost(location_in(e@, row_of(pv[k as int].line), target@.1, false)));
        } else {
            assert(part.to_set() =~= Set::<SpanView>::empty());
            assert(before =~= before + part.to_set());
        }
        k = k + 1;
        proof {
            assert(public_refs(e@, target@, pv.take(k as int)) == prev + part);
            lemma_grown_set(r0, prev, part, before, span_set(r@));
        }
    }
    assert(pv.take(k as int) =~= pv);
}

/// Whether `target` is declared public in the first loaded module of its
/// namespace.
pub open spec fn published(v: ProjectIndexView, target: IdView) -> bool {
    match indexed_at(v.modules, target.0) {
        Some(tm) => crate::project::publishes(tm.module, target.1),
        None => false,
    }
}

impl ProjectView {
    /// Adds the references to `target` in the loaded module `e`.
    fn add_module_refs(&self, e: &IndexedModule, target: &TargetId, public: bool, r: &mut Vec<SourceSpan>)
        requires
            public == published(self@, target@),
            spans_sorted(span_views(old(r)@)),
        ensures
            spans_sorted(span_views(final(r)@)),
            span_set(final(r)@) == span_set(old(r)@) + module_refs(self@, e@, target@).to_set(),
    {
        let ghost r0 = span_set(r@);
        let same = e.module.namespace().same(target.namespace());
        if !same && !public {
            proof {
                assert(module_refs(self@, e@, target@) =~= Seq::<SpanView>::empty());
                assert(r0 =~= r0 + module_refs(self@, e@, target@).to_set());
            }
            return;
        }
        let ghost a = import_refs(e@, target@, e@.module.includes);
        let ghost b = target_refs(e@, target@, e@.module.targets);
        add_import_refs(e, target, r);
        let ghost r1 = span_set(r@);
        add_target_refs(e, target, r);
        proof {
            lemma_grown_set(r0, a, b, r1, span_set(r@));
        }
        let ghost r2 = span_set(r@);
        let ghost c: Seq<SpanView> = if e@.module.namespace == target@.0 {
            public_refs(e@, target@, e@.module.public_targets)
        } else {
            seq![]
        };
        if same {
            add_public_refs(e, target, r);
        } else {
            assert(c.to_set() =~= Set::<SpanView>::empty());
            assert(r2 =~= r2 + c.to_set());
        }
        proof {
            lemma_grown_set(r0, a + b, c, r2, span_set(r@));
            assert(module_refs(self@, e@, target@) == a + b + c);
        }
    }

    /// Every place that names `target`: its declaration when asked for, the
    /// imports and dependencies that lead to it, and the public
    /// declarations of it, sorted by file, row and column, each once.
    pub fn references(&self, target: &TargetId, include_declaration: bool) -> (r: Vec<SourceSpan>)
        ensures
            spans_sorted(span_views(r@)),
            span_set(r@) == collected_refs(self@, target@, include_declaration).to_set(),
    {
        let mut r: Vec<SourceSpan> = Vec::new();
        let ghost d: Seq<SpanView> = if include_declaration {
            declaration_ref(self@, target@)
        } else {
            seq![]
        };
        proof {
            assert(span_views(r@) =~= Seq::<SpanView>::empty());
        }
        let tpos = self.position(target.namespace());
        if include_declaration {
            match tpos {
                Some(k) => {
                    let tm = &self.modules[k];
                    assert(self@.modules[k as int] == tm@);
                    match find_named(&tm.module, target.name()) {
                        Some(j) => {
                            let ts = tm.module.targets();
                            assert(tm@.module.targets[j as int] == ts@[j as int]@);
                            let row = row_from(ts[j].line());
                            let l = location(tm, row, target.name(), true);
                            add_found(&mut r, l, Ghost(location_in(tm@, row_of(tm@.module.targets[j as int].line), target@.1, true)));
                            assert(span_set(r@) =~= d.to_set());
                        },
                        None => {
                            assert(span_set(r@) =~= d.to_set());
                        },
                    }
                },
                None => {
                    assert(span_set(r@) =~= d.to_set());
                },
            }
        } else {
            assert(span_set(r@) =~= d.to_set());
        }
        let public = match tpos {
            Some(k) => {
                assert(self@.modules[k as int] == self.modules@[k as int]@);
                crate::project::publishes_name(&self.modules[k].module, target.name())
            },
            None => false,
        };
        let ghost mv = self@.modules;
        let ghost r0 = span_set(r@);
        proof {
            assert(all_module_refs(self@, target@, mv.take(0)) =~= Seq::<SpanView>::empty());
            assert(r0 =~= r0 + all_module_refs(self@, target@, mv.take(0)).to_set());
        }
        let mut i: usize = 0;
        while i < self.modules.len()
            invariant
                i <= self.modules.len(),
                mv == indexed_views(self.modules@),
                mv == self@.modules,
                public == published(self@, target@),
                spans_sorted(span_views(r@)),
                span_set(r@) == r0 + all_module_refs(self@, target@, mv.take(i as int)).to_set(),
            decreases self.modules.len() - i,
        {
            let ghost before = span_set(r@);
            let ghost prev = all_module_refs(self@, target@, mv.take(i as int));
            assert(mv[i as int] == self.modules@[i as int]@);
            assert(mv.take(i + 1).drop_last() =~= mv.take(i as int));
            assert(mv.take(i + 1).last() == mv[i as int]);
            self.add_module_refs(&self.modules[i], target, public, &mut r);
            let ghost part = module_refs(self@, mv[i as int], target@);
            i = i + 1;
            proof {
                assert(all_module_refs(self@, target@, mv.take(i as int)) == prev + part);
                lemma_grown_set(r0, prev, part, before, span_set(r@));
            }
        }
        proof {
            assert(mv.take(i as int) =~= mv);
            vstd::seq_lib::seq_to_set_distributes_over_add(d, all_module_refs(self@, target@, mv));
        }
        r
    }
}

/// What a completion offers: a path anchor such as `crate::`, a target,
/// or a module path.
#[derive(Clone, Copy, Debug, PartialEq, Eq, Structural)]
pub enum CompletionKind {
    Anchor,
    Target,
    Module,
}

/// The group a kind of completion is listed in: anchors, then targets,
/// then modules.
pub open spec fn kind_rank(k: CompletionKind) -> nat {
    match k {
        CompletionKind::Anchor => 0,
        CompletionKind::Target => 1,
        CompletionKind::Module => 2,
    }
}

/// The view of a completion candidate: its label, its kind, and the
/// preview shown beside it.
pub struct CandidateView {
    pub label: Seq<char>,
    pub kind: CompletionKind,
    pub documentation: Option<Seq<char>>,
}

/// A completion candidate.
pub struct Candidate {
    pub label: String,
    pub kind: CompletionKind,
    pub documentation: Option<String>,
}

impl View for Candidate {
    type V = CandidateView;

    open spec fn view(&self) -> CandidateView {
        CandidateView {
            label: self.label@,
            kind: self.kind,
            documentation: match &self.documentation {
                Some(d) => Some(d@),
                None => None,
            },
        }
    }
}

/// The views of candidates.
pub open spec fn candidate_views(v: Seq<Candidate>) -> Seq<CandidateView> {
    v.map_values(|c: Candidate| c@)
}

/// `a` comes no later than `b` in the listing: by group, then by label.
pub open spec fn key_le(a: CandidateView, b: CandidateView) -> bool {
    kind_rank(a.kind) < kind_rank(b.kind) || (kind_rank(a.kind) == kind_rank(b.kind) && !crate::text::text_lt(b.label, a.label))
}

/// `x` put into `s` after every candidate at its place or before it from
/// the end, as a stable insertion does.
pub open spec fn insert_candidate(s: Seq<CandidateView>, x: CandidateView) -> Seq<CandidateView>
    decreases s.len(),
{
    if s.len() == 0 || key_le(s.last(), x) {
        s.push(x)
    } else {
        insert_candidate(s.drop_last(), x).push(s.last())
    }
}

/// The candidates in listing order, equal keys in their first order.
pub open spec fn sort_candidates(s: Seq<CandidateView>) -> Seq<CandidateView>
    decreases s.len(),
{
    if s.len() == 0 {
        seq![]
    } else {
        insert_candidate(sort_candidates(s.drop_last()), s.last())
    }
}

/// The candidates without one whose label equals that of the candidate
/// kept just before it.
pub open spec fn dedup_labels(s: Seq<CandidateView>) -> Seq<CandidateView>
    decreases s.len(),
{
    if s.len() == 0 {
        seq![]
    } else {
        let d = dedup_labels(s.drop_last());
        if d.len() > 0 && d.last().label == s.last().label {
            d
        } else {
            d.push(s.last())
        }
    }
}

/// The candidates whose label extends the word typed so far.
pub open spec fn offered(s: Seq<CandidateView>, typed: Seq<char>) -> Seq<CandidateView>
    decreases s.len(),
{
    if s.len() == 0 {
        seq![]
    } else {
        let c = s.last();
        offered(s.drop_last(), typed) + if crate::text::starts_with(c.label, typed) && c.label != typed {
            seq![c]
        } else {
            seq![]
        }
    }
}

/// Whether `a` comes no later than `b`.
fn candidate_le(a: &Candidate, b: &Candidate) -> (r: bool)
    ensures
        r == key_le(a@, b@),
{
    let ra: u8 = match a.kind {
        CompletionKind::Anchor => 0,
        CompletionKind::Target => 1,
        CompletionKind::Module => 2,
    };
    let rb: u8 = match b.kind {
        CompletionKind::Anchor => 0,
        CompletionKind::Target => 1,
        CompletionKind::Module => 2,
    };
    ra < rb || (ra == rb && !crate::text::text_less(b.label.as_str(), a.label.as_str()))
}

/// Sorts candidates into listing order, keeping equal keys in order.
fn sort_candidate_list(items: Vec<Candidate>) -> (r: Vec<Candidate>)
    ensures
        candidate_views(r@) == sort_candidates(candidate_views(items@)),
{
    let ghost all = candidate_views(items@);
    let mut rest = items;
    let mut r: Vec<Candidate> = Vec::new();
    let ghost mut n: int = 0;
    assert(all.take(0) =~= Seq::<CandidateView>::empty());
    while rest.len() > 0
        invariant
            0 <= n <= all.len(),
            candidate_views(rest@) == all.skip(n),
            candidate_views(r@) == sort_candidates(all.take(n)),
        decreases rest.len(),
    {
        assert(candidate_views(rest@)[0] == rest@[0]@);
        assert(all.skip(n).len() == rest@.len());
        let ghost before = rest@;
        let x = rest.remove(0);
        assert(x@ == all[n]);
        assert(rest@ =~= before.skip(1));
        assert forall|i: int| 0 <= i < rest@.len() implies #[trigger] candidate_views(rest@)[i] == all.skip(n + 1)[i] by {
            assert(rest@[i] == before[i + 1]);
            assert(candidate_views(before)[i + 1] == before[i + 1]@);
            assert(all.skip(n)[i + 1] == all.skip(n + 1)[i]);
        }
        assert(candidate_views(rest@) =~= all.skip(n + 1));
        assert(all.take(n + 1).drop_last() =~= all.take(n));
        assert(all.take(n + 1).last() == x@);
        let ghost s = candidate_views(r@);
        let mut p = r.len();
        assert(s.take(p as int) =~= s);
        assert(s.skip(p as int) =~= Seq::<CandidateView>::empty());
        while p > 0 && !candidate_le(&r[p - 1], &x)
            invariant
                p <= r.len(),
                s == candidate_views(r@),
                insert_candidate(s, x@) == insert_candidate(s.take(p as int), x@) + s.skip(p as int),
            decreases p,
        {
            let ghost q = s.take(p as int);
            assert(q.last() == r@[p - 1]@);
            assert(q.drop_last() =~= s.take(p - 1));
            assert(s.skip(p - 1) =~= seq![q.last()] + s.skip(p as int));
            assert(insert_candidate(q, x@) == insert_candidate(s.take(p - 1), x@).push(q.last()));
            assert(insert_candidate(s.take(p - 1), x@).push(q.last()) + s.skip(p as int) =~= insert_candidate(s.take(p - 1), x@) + s.skip(p - 1));
            p = p - 1;
        }
        proof {
            let q = s.take(p as int);
            if p > 0 {
                assert(q.last() == r@[p - 1]@);
            }
            assert(insert_candidate(q, x@) == q.push(x@));
        }
        r.insert(p, x);
        proof {
            assert(candidate_views(r@) =~= s.take(p as int).push(x@) + s.skip(p as int));
        }
        proof { n = n + 1; }
    }
    assert(all.take(n) =~= all);
    r
}

/// Drops each candidate whose label equals that of the one kept before it.
fn dedup_candidate_list(items: Vec<Candidate>) -> (r: Vec<Candidate>)
    ensures
        candidate_views(r@) == dedup_labels(candidate_views(items@)),
{
    let ghost all = candidate_views(items@);
    let mut rest = items;
    let mut r: Vec<Candidate> = Vec::new();
    let ghost mut n: int = 0;
    assert(all.take(0) =~= Seq::<CandidateView>::empty());
    while rest.len() > 0
        invariant
            0 <= n <= all.len(),
            candidate_views(rest@) == all.skip(n),
            candidate_views(r@) == dedup_labels(all.take(n)),
        decreases rest.len(),
    {
        assert(candidate_views(rest@)[0] == rest@[0]@);
        assert(all.skip(n).len() == rest@.len());
        let ghost before = rest@;
        let x = rest.remove(0);
        assert(x@ == all[n]);
        assert(rest@ =~= before.skip(1));
        assert forall|i: int| 0 <= i < rest@.len() implies #[trigger] candidate_views(rest@)[i] == all.skip(n + 1)[i] by {
            assert(rest@[i] == before[i + 1]);
            assert(candidate_views(before)[i + 1] == before[i + 1]@);
            assert(all.skip(n)[i + 1] == all.skip(n + 1)[i]);
        }
        assert(candidate_views(rest@) =~= all.skip(n + 1));
        assert(all.take(n + 1).drop_last() =~= all.take(n));
        assert(all.take(n + 1).last() == x@);
        let keep = r.len() == 0 || !crate::text::text_eq(r[r.len() - 1].label.as_str(), x.label.as_str());
        proof {
            if r.len() > 0 {
                assert(candidate_views(r@).last() == r@[r.len() - 1]@);
            }
        }
        if keep {
            r.push(x);
            assert(candidate_views(r@) =~= dedup_labels(all.take(n)).push(x@));
        }
        proof { n = n + 1; }
    }
    assert(all.take(n) =~= all);
    r
}

/// Keeps the candidates whose label extends the word typed so far.
fn offered_list(items: Vec<Candidate>, typed: &[char]) -> (r: Vec<Candidate>)
    ensures
        candidate_views(r@) == offered(candidate_views(items@), typed@),
{
    let ghost all = candidate_views(items@);
    let mut rest = items;
    let mut r: Vec<Candidate> = Vec::new();
    let ghost mut n: int = 0;
    assert(all.take(0) =~= Seq::<CandidateView>::empty());
    while rest.len() > 0
        invariant
            0 <= n <= all.len(),
            candidate_views(rest@) == all.skip(n),
            candidate_views(r@) == offered(all.take(n), typed@),
        decreases rest.len(),
    {
        assert(candidate_views(rest@)[0] == rest@[0]@);
        assert(all.skip(n).len() == rest@.len());
        let ghost before = rest@;
        let x = rest.remove(0);
        assert(x@ == all[n]);
        assert(rest@ =~= before.skip(1));
        assert forall|i: int| 0 <= i < rest@.len() implies #[trigger] candidate_views(rest@)[i] == all.skip(n + 1)[i] by {
            assert(rest@[i] == before[i + 1]);
            assert(candidate_views(before)[i + 1] == before[i + 1]@);
            assert(all.skip(n)[i + 1] == all.skip(n + 1)[i]);
        }
        assert(candidate_views(rest@) =~= all.skip(n + 1));
        assert(all.take(n + 1).drop_last() =~= all.take(n));
        assert(all.take(n + 1).last() == x@);
        let label = chars_of(x.label.as_str());
        if crate::text::starts_with_chars(label.as_slice(), typed) && !crate::text::chars_eq(label.as_slice(), typed) {
            r.push(x);
            assert(candidate_views(r@) =~= offered(all.take(n), typed@) + seq![x@]);
        } else {
            assert(offered(all.take(n), typed@) + Seq::<CandidateView>::empty() =~= offered(all.take(n), typed@));
        }
        proof { n = n + 1; }
    }
    assert(all.take(n) =~= all);
    r
}

/// The preview of the first target named `name` in the first loaded module
/// at `ns`.
pub open spec fn target_doc_of(v: ProjectIndexView, ns: Seq<Seq<char>>, name: Seq<char>) -> Option<Seq<char>> {
    match indexed_at(v.modules, ns) {
        None => None,
        Some(tm) => match first_where(tm.module.targets, named(name)) {
            None => None,
            Some(j) => match tm.source {
                None => None,
                Some(text) => target_preview(text, tm.module.targets[j].line),
            },
        },
    }
}

/// A target candidate.
pub open spec fn target_candidate(label: Seq<char>, documentation: Option<Seq<char>>) -> CandidateView {
    CandidateView { label, kind: CompletionKind::Target, documentation }
}

/// The public targets among `ts` of the loaded module `m`, each as a
/// candidate labelled with its name after `prefix`.
pub open spec fn published_candidates(v: ProjectIndexView, m: IndexedView, prefix: Seq<char>, ts: Seq<ParsedTargetView>) -> Seq<CandidateView>
    decreases ts.len(),
{
    if ts.len() == 0 {
        seq![]
    } else {
        let t = ts.last();
        published_candidates(v, m, prefix, ts.drop_last()) + if crate::project::publishes(m.module, t.name) {
            seq![target_candidate(prefix + t.name, target_doc_of(v, m.module.namespace, t.name))]
        } else {
            seq![]
        }
    }
}

/// The path written for a module: `anchor`, then the segments `rel`
/// joined by `::` and closed by `::` when there are any.
pub open spec fn module_prefix(anchor: Seq<char>, rel: Seq<Seq<char>>) -> Seq<char> {
    if rel.len() == 0 {
        anchor
    } else {
        anchor + join(rel, "::"@) + "::"@
    }
}

/// The names a module declares public, in order.
pub open spec fn public_names(m: ParsedModuleView) -> Seq<Seq<char>> {
    m.public_targets.map_values(|p: crate::parser::PublicView| p.name)
}

/// What the loaded module `m` offers after `anchor`, which stands for the
/// module path `base`: nothing unless `m` is under `base`; else its path
/// when it is below `base`, and its public targets.
pub open spec fn module_candidates(v: ProjectIndexView, anchor: Seq<char>, base: Seq<Seq<char>>, m: IndexedView) -> Seq<CandidateView> {
    let ns = m.module.namespace;
    if base.len() <= ns.len() && ns.take(base.len() as int) == base {
        let rel = ns.skip(base.len() as int);
        let prefix = module_prefix(anchor, rel);
        (if rel.len() > 0 {
            seq![CandidateView { label: prefix, kind: CompletionKind::Module, documentation: public_list(public_names(m.module)) }]
        } else {
            seq![]
        }) + published_candidates(v, m, prefix, m.module.targets)
    } else {
        seq![]
    }
}

/// What the loaded modules `ms` offer after `anchor`.
pub open spec fn anchored_candidates(v: ProjectIndexView, anchor: Seq<char>, base: Seq<Seq<char>>, ms: Seq<IndexedView>) -> Seq<CandidateView>
    decreases ms.len(),
{
    if ms.len() == 0 {
        seq![]
    } else {
        anchored_candidates(v, anchor, base, ms.drop_last()) + module_candidates(v, anchor, base, ms.last())
    }
}

/// The anchor itself, then what every loaded module offers after it.
pub open spec fn anchor_block(v: ProjectIndexView, anchor: Seq<char>, base: Seq<Seq<char>>) -> Seq<CandidateView> {
    seq![CandidateView { label: anchor, kind: CompletionKind::Anchor, documentation: None }] + anchored_candidates(v, anchor, base, v.modules)
}

/// What an import line offers: paths from `crate::`, from `self::` (the
/// parent of the edited module) and, below the top level, from `super::`.
pub open spec fn import_candidates(v: ProjectIndexView) -> Seq<CandidateView> {
    let cur = v.current;
    let p: int = if cur.len() > 0 {
        cur.len() - 1
    } else {
        0
    };
    anchor_block(v, "crate::"@, seq![]) + anchor_block(v, "self::"@, cur.take(p)) + if p > 0 {
        anchor_block(v, "super::"@, cur.take(p - 1))
    } else {
        seq![]
    }
}

/// The targets `ts` of the edited module as candidates.
pub open spec fn own_candidates(v: ProjectIndexView, ts: Seq<ParsedTargetView>) -> Seq<CandidateView>
    decreases ts.len(),
{
    if ts.len() == 0 {
        seq![]
    } else {
        own_candidates(v, ts.drop_last()) + seq![target_candidate(ts.last().name, target_doc_of(v, v.current, ts.last().name))]
    }
}

/// The local names of the imports `incs` of the edited module as
/// candidates, with the preview of the target each leads to.
pub open spec fn include_candidates(v: ProjectIndexView, incs: Seq<ImportView>) -> Seq<CandidateView>
    decreases incs.len(),
{
    if incs.len() == 0 {
        seq![]
    } else {
        let inc = incs.last();
        include_candidates(v, incs.drop_last()) + match import_local_name(inc) {
            Some(n) => seq![target_candidate(n, match pointed_target(v.current, inc.target.path) {
                Some(id) => target_doc_of(v, id.0, id.1),
                None => None,
            })],
            None => seq![],
        }
    }
}

/// What a `>` line offers in a section of the edited module `cur`: paths
/// in the imports section, the module's targets and imports in the
/// targets section, its targets in the public section.
pub open spec fn section_candidates(v: ProjectIndexView, cur: IndexedView, section: nat) -> Seq<CandidateView> {
    if section == 0 {
        import_candidates(v)
    } else if section == 1 {
        own_candidates(v, cur.module.targets) + include_candidates(v, cur.module.includes)
    } else {
        own_candidates(v, cur.module.targets)
    }
}

impl ProjectView {
    /// The preview of the first target named `name` in the module at `ns`.
    fn target_doc(&self, ns: &ModulePath, name: &str) -> (r: Option<String>)
        ensures
            match target_doc_of(self@, ns@, name@) {
                Some(d) => r matches Some(s) && s@ == d,
                None => r is None,
            },
    {
        let k = match self.position(ns) {
            Some(k) => k,
            None => {
                return None;
            },
        };
        let tm = &self.modules[k];
        assert(self@.modules[k as int] == tm@);
        let j = match find_named(&tm.module, name) {
            Some(j) => j,
            None => {
                return None;
            },
        };
        let ts = tm.module.targets();
        assert(tm@.module.targets[j as int] == ts@[j as int]@);
        match &tm.source {
            None => None,
            Some(text) => target_documentation(text.as_str(), ts[j].line()),
        }
    }

    /// Adds the public targets of `m`, labelled after `prefix`.
    fn push_published(&self, m: &IndexedModule, prefix: &str, out: &mut Vec<Candidate>)
        ensures
            candidate_views(final(out)@) == candidate_views(old(out)@) + published_candidates(self@, m@, prefix@, m@.module.targets),
    {
        let ghost o = candidate_views(out@);
        let ts = m.module.targets();
        let ghost tv = m@.module.targets;
        let mut j: usize = 0;
        assert(published_candidates(self@, m@, prefix@, tv.take(0)) =~= Seq::<CandidateView>::empty());
        assert(o =~= o + Seq::<CandidateView>::empty());
        while j < ts.len()
            invariant
                j <= ts.len(),
                parsed_target_views(ts@) == tv,
                tv == m@.module.targets,
                candidate_views(out@) == o + published_candidates(self@, m@, prefix@, tv.take(j as int)),
            decreases ts.len() - j,
        {
            assert(tv[j as int] == ts@[j as int]@);
            assert(tv.take(j + 1).drop_last() =~= tv.take(j as int));
            assert(tv.take(j + 1).last() == tv[j as int]);
            let ghost before = candidate_views(out@);
            if crate::project::publishes_name(&m.module, ts[j].name()) {
                let mut label = owned(prefix);
                push_str(&mut label, ts[j].name());
                let documentation = self.target_doc(m.module.namespace(), ts[j].name());
                out.push(Candidate { label, kind: CompletionKind::Target, documentation });
                assert(candidate_views(out@) =~= before.push(target_candidate(prefix@ + tv[j as int].name, target_doc_of(self@, m@.module.namespace, tv[j as int].name))));
            }
            j = j + 1;
            assert(candidate_views(out@) =~= o + published_candidates(self@, m@, prefix@, tv.take(j as int)));
        }
        assert(tv.take(j as int) =~= tv);
    }
}

/// The path written for a module below the first `n` segments of its
/// namespace, after `anchor`.
fn module_label(anchor: &str, ns: &ModulePath, n: usize) -> (r: String)
    requires
        n <= ns@.len(),
    ensures
        r@ == module_prefix(anchor@, ns@.skip(n as int)),
{
    let segs = ns.segments();
    let ghost rel = ns@.skip(n as int);
    let mut r = owned(anchor);
    if n == segs.len() {
        assert(rel.len() == 0);
        return r;
    }
    let mut i: usize = n;
    while i < segs.len()
        invariant
            n < segs.len(),
            n <= i <= segs.len(),
            texts(segs@) == ns@,
            rel == ns@.skip(n as int),
            r@ == anchor@ + join(rel.take(i - n), "::"@),
        decreases segs.len() - i,
    {
        if i > n {
            push_str(&mut r, "::");
        }
        push_str(&mut r, segs[i].as_str());
        proof {
            assert(rel[i - n] == segs@[i as int]@);
            assert(rel.take(i + 1 - n).drop_last() =~= rel.take(i - n));
            assert(rel.take(i + 1 - n).last() == rel[i - n]);
            if i == n {
                assert(rel.take(1) =~= seq![rel[0]]);
            }
        }
        i = i + 1;
    }
    assert(rel.take(i - n) =~= rel);
    push_str(&mut r, "::");
    r
}

/// Whether the first `n` segments of `ns` are those of `base`.
fn under(ns: &ModulePath, base: &ModulePath, n: usize) -> (r: bool)
    requires
        n <= base@.len(),
    ensures
        r == (n <= ns@.len() && ns@.take(n as int) == base@.take(n as int)),
{
    let a = ns.segments();
    let b = base.segments();
    if n > a.len() {
        return false;
    }
    let mut i: usize = 0;
    while i < n
        invariant
            i <= n,
            n <= a.len(),
            n <= b.len(),
            texts(a@) == ns@,
            texts(b@) == base@,
            forall|x: int| 0 <= x < i ==> ns@[x] == base@[x],
        decreases n - i,
    {
        assert(ns@[i as int] == a@[i as int]@ && base@[i as int] == b@[i as int]@);
        if !crate::text::text_eq(a[i].as_str(), b[i].as_str()) {
            assert(ns@.take(n as int)[i as int] != base@.take(n as int)[i as int]);
            return false;
        }
        i = i + 1;
    }
    assert(ns@.take(n as int) =~= base@.take(n as int));
    true
}

impl ProjectView {
    /// Adds what the loaded module `m` offers after `anchor`, which stands
    /// for the first `n` segments of the edited module's path.
    fn push_module_candidates(&self, anchor: &str, n: usize, m: &IndexedModule, out: &mut Vec<Candidate>)
        requires
            n <= self@.current.len(),
        ensures
            candidate_views(final(out)@) == candidate_views(old(out)@) + module_candidates(self@, anchor@, self@.current.take(n as int), m@),
    {
        let ghost o = candidate_views(out@);
        let ghost base = self@.current.take(n as int);
        let ns = m.module.namespace();
        if !under(ns, &self.current, n) {
            assert(o =~= o + module_candidates(self@, anchor@, base, m@));
            return;
        }
        let prefix = module_label(anchor, ns, n);
        let ghost rel = ns@.skip(n as int);
        let ghost head: Seq<CandidateView> = if rel.len() > 0 {
            seq![CandidateView { label: prefix@, kind: CompletionKind::Module, documentation: public_list(public_names(m@.module)) }]
        } else {
            seq![]
        };
        if n < ns.segments().len() {
            let documentation = module_documentation(&m.module);
            let label = crate::text::copy_string(&prefix);
            out.push(Candidate { label, kind: CompletionKind::Module, documentation });
            assert(candidate_views(out@) =~= o + head);
        } else {
            assert(candidate_views(out@) =~= o + head);
        }
        self.push_published(m, prefix.as_str(), out);
        assert(candidate_views(out@) =~= o + module_candidates(self@, anchor@, base, m@));
    }

    /// Adds the anchor and what every loaded module offers after it.
    fn push_anchor_block(&self, anchor: &str, n: usize, out: &mut Vec<Candidate>)
        requires
            n <= self@.current.len(),
        ensures
            candidate_views(final(out)@) == candidate_views(old(out)@) + anchor_block(self@, anchor@, self@.current.take(n as int)),
    {
        let ghost o = candidate_views(out@);
        let ghost base = self@.current.take(n as int);
        out.push(Candidate { label: owned(anchor), kind: CompletionKind::Anchor, documentation: None });
        let ghost o1 = candidate_views(out@);
        assert(o1 =~= o + seq![CandidateView { label: anchor@, kind: CompletionKind::Anchor, documentation: None }]);
        let ghost mv = self@.modules;
        assert(anchored_candidates(self@, anchor@, base, mv.take(0)) =~= Seq::<CandidateView>::empty());
        assert(o1 =~= o1 + anchored_candidates(self@, anchor@, base, mv.take(0)));
        let mut i: usize = 0;
        while i < self.modules.len()
            invariant
                i <= self.modules.len(),
                n <= self@.current.len(),
                base == self@.current.take(n as int),
                mv == indexed_views(self.modules@),
                mv == self@.modules,
                candidate_views(out@) == o1 + anchored_candidates(self@, anchor@, base, mv.take(i as int)),
            decreases self.modules.len() - i,
        {
            assert(mv[i as int] == self.modules@[i as int]@);
            assert(mv.take(i + 1).drop_last() =~= mv.take(i as int));
            assert(mv.take(i + 1).last() == mv[i as int]);
            self.push_module_candidates(anchor, n, &self.modules[i], out);
            i = i + 1;
            assert(candidate_views(out@) =~= o1 + anchored_candidates(self@, anchor@, base, mv.take(i as int)));
        }
        assert(mv.take(i as int) =~= mv);
        assert(candidate_views(out@) =~= o + anchor_block(self@, anchor@, base));
    }

    /// What an import line offers.
    fn import_candidate_list(&self) -> (r: Vec<Candidate>)
        ensures
            candidate_views(r@) == import_candidates(self@),
    {
        let mut out: Vec<Candidate> = Vec::new();
        let len = self.current.segments().len();
        let p: usize = if len > 0 {
            len - 1
        } else {
            0
        };
        assert(self@.current.take(0) =~= Seq::<Seq<char>>::empty());
        self.push_anchor_block("crate::", 0, &mut out);
        self.push_anchor_block("self::", p, &mut out);
        if p > 0 {
            self.push_anchor_block("super::", p - 1, &mut out);
        }
        assert(candidate_views(out@) =~= import_candidates(self@));
        out
    }

    /// The targets of the edited module `m` as candidates.
    fn own_candidate_list(&self, m: &ParsedModule) -> (r: Vec<Candidate>)
        ensures
            candidate_views(r@) == own_candidates(self@, m@.targets),
    {
        let mut out: Vec<Candidate> = Vec::new();
        let ts = m.targets();
        let ghost tv = m@.targets;
        let mut j: usize = 0;
        assert(own_candidates(self@, tv.take(0)) =~= Seq::<CandidateView>::empty());
        while j < ts.len()
            invariant
                j <= ts.len(),
                parsed_target_views(ts@) == tv,
                tv == m@.targets,
                candidate_views(out@) == own_candidates(self@, tv.take(j as int)),
            decreases ts.len() - j,
        {
            assert(tv[j as int] == ts@[j as int]@);
            assert(tv.take(j + 1).drop_last() =~= tv.take(j as int));
            assert(tv.take(j + 1).last() == tv[j as int]);
            let documentation = self.target_doc(&self.current, ts[j].name());
            out.push(Candidate { label: owned(ts[j].name()), kind: CompletionKind::Target, documentation });
            j = j + 1;
            assert(candidate_views(out@) =~= own_candidates(self@, tv.take(j as int)));
        }
        assert(tv.take(j as int) =~= tv);
        out
    }

    /// Adds the local names of the imports of the edited module `m`.
    fn push_include_candidates(&self, m: &ParsedModule, out: &mut Vec<Candidate>)
        ensures
            candidate_views(final(out)@) == candidate_views(old(out)@) + include_candidates(self@, m@.includes),
    {
        let ghost o = candidate_views(out@);
        let incs = m.includes();
        let ghost iv = m@.includes;
        let mut k: usize = 0;
        assert(include_candidates(self@, iv.take(0)) =~= Seq::<CandidateView>::empty());
        assert(o =~= o + include_candidates(self@, iv.take(0)));
        while k < incs.len()
            invariant
                k <= incs.len(),
                import_views(incs@) == iv,
                iv == m@.includes,
                candidate_views(out@) == o + include_candidates(self@, iv.take(k as int)),
            decreases incs.len() - k,
        {
            assert(iv[k as int] == incs@[k as int]@);
            assert(iv.take(k + 1).drop_last() =~= iv.take(k as int));
            assert(iv.take(k + 1).last() == iv[k as int]);
            let ghost before = candidate_views(out@);
            match local_name(&incs[k]) {
                Some(name) => {
                    let documentation = match point_to(&self.current, incs[k].target()) {
                        Some(id) => self.target_doc(id.namespace(), id.name()),
                        None => None,
                    };
                    out.push(Candidate { label: owned(name), kind: CompletionKind::Target, documentation });
                    assert(candidate_views(out@) =~= before + include_candidates(self@, iv.take(k + 1)).skip(include_candidates(self@, iv.take(k as int)).len() as int));
                },
                None => {},
            }
            k = k + 1;
            assert(candidate_views(out@) =~= o + include_candidates(self@, iv.take(k as int)));
        }
        assert(iv.take(k as int) =~= iv);
    }
}

/// The number of section separators (`---` lines) among `ls`.
pub open spec fn separators(ls: Seq<Seq<char>>) -> nat
    decreases ls.len(),
{
    if ls.len() == 0 {
        0
    } else {
        separators(ls.drop_last()) + if crate::text::trim_end(ls.last()) == "---"@ {
            1nat
        } else {
            0nat
        }
    }
}

/// The index of the first white space in `s`, or its length.
pub open spec fn space_at(s: Seq<char>) -> nat
    decreases s.len(),
{
    if s.len() == 0 {
        0
    } else if crate::text::spec_is_whitespace(s[0]) {
        0
    } else {
        1 + space_at(s.drop_first())
    }
}

/// A target declared on a line before line `n`.
pub open spec fn declared_before(n: nat) -> spec_fn(ParsedTargetView) -> bool {
    |t: ParsedTargetView| t.line < n
}

/// The view of a completion: the candidate and the columns of the row that
/// choosing it replaces.
pub struct CompletionView {
    pub item: CandidateView,
    pub row: u32,
    pub first: u32,
    pub end: u32,
}

/// A completion: the candidate and the columns of the row that choosing it
/// replaces.
pub struct Completion {
    pub item: Candidate,
    pub row: u32,
    pub first: u32,
    pub end: u32,
}

impl View for Completion {
    type V = CompletionView;

    open spec fn view(&self) -> CompletionView {
        CompletionView { item: self.item@, row: self.row, first: self.first, end: self.end }
    }
}

/// The views of completions.
pub open spec fn completion_views(v: Seq<Completion>) -> Seq<CompletionView> {
    v.map_values(|c: Completion| c@)
}

/// The completions at a position of the edited module. They are offered on
/// a `>` line of the imports, targets or public section, when the position
/// lies in the word after `>` (in the targets section only below the first
/// target): the candidates of the section in listing order, without repeated
/// labels, that extend the part of the word before the position, each
/// replacing the whole word.
#[verifier::opaque]
pub open spec fn completion_list(v: ProjectIndexView, row: u32, c: u32) -> Seq<CompletionView> {
    match indexed_at(v.modules, v.current) {
        None => seq![],
        Some(cur) => match cur.source {
            None => seq![],
            Some(text) => match line_at(text, row as nat) {
                None => seq![],
                Some(raw) => {
                    let line = trim_cr(raw);
                    match crate::lsp::column_index(line, c as nat) {
                        None => seq![],
                        Some(caret) => {
                            let section = separators(lines(text).take(row as int));
                            let start = line.len() - crate::text::trim_start(line.drop_first()).len();
                            let token_end = start + space_at(line.skip(start));
                            if section > 2 || !(line.len() > 0 && line[0] == '>') || caret < start || caret > token_end
                                || (section == 1 && first_where(cur.module.targets, declared_before((row + 1) as nat)) is None) {
                                seq![]
                            } else {
                                let items = offered(
                                    dedup_labels(sort_candidates(section_candidates(v, cur, section))),
                                    line.subrange(start, caret as int),
                                );
                                let first = crate::lsp::saturate(crate::lsp::utf16_len(line.take(start)));
                                let end = crate::lsp::saturate(crate::lsp::utf16_len(line.take(token_end)));
                                placed(items, row, first, end)
                            }
                        },
                    }
                },
            },
        },
    }
}

/// Candidates placed at a span of a row.
pub open spec fn placed(items: Seq<CandidateView>, row: u32, first: u32, end: u32) -> Seq<CompletionView> {
    items.map_values(|x: CandidateView| CompletionView { item: x, row, first, end })
}

/// The number of section separators among the first `row` lines of `text`.
fn separators_before(text: &str, row: usize) -> (r: usize)
    requires
        row <= lines(text@).len(),
    ensures
        r == separators(lines(text@).take(row as int)),
{
    let chars = chars_of(text);
    let ls = crate::text::lines_chars(chars.as_slice());
    let ghost lv = lines(text@);
    let dashes = chars_of("---");
    let mut n: usize = 0;
    let mut i: usize = 0;
    assert(lv.take(0) =~= Seq::<Seq<char>>::empty());
    while i < row
        invariant
            i <= row,
            row <= lv.len(),
            ls@.map_values(|w: Vec<char>| w@) == lv,
            dashes@ == "---"@,
            n == separators(lv.take(i as int)),
            n <= i,
        decreases row - i,
    {
        assert(lv[i as int] == ls@[i as int]@);
        assert(lv.take(i + 1).drop_last() =~= lv.take(i as int));
        assert(lv.take(i + 1).last() == lv[i as int]);
        let t = crate::text::trim_end_chars(ls[i].as_slice());
        if crate::text::chars_eq(t.as_slice(), dashes.as_slice()) {
            n = n + 1;
        }
        i = i + 1;
    }
    n
}

/// The index of the first white space in `s`, or its length.
fn space_index(s: &[char]) -> (r: usize)
    ensures
        r == space_at(s@),
        r <= s.len(),
{
    let mut i: usize = 0;
    assert(s@.skip(0) =~= s@);
    while i < s.len() && !crate::text::is_whitespace(s[i])
        invariant
            i <= s.len(),
            space_at(s@) == i + space_at(s@.skip(i as int)),
        decreases s.len() - i,
    {
        assert(s@.skip(i as int)[0] == s@[i as int]);
        assert(s@.skip(i as int).drop_first() =~= s@.skip(i + 1));
        i = i + 1;
    }
    if i < s.len() {
        assert(s@.skip(i as int)[0] == s@[i as int]);
    } else {
        assert(s@.skip(i as int) =~= Seq::<char>::empty());
    }
    i
}

/// Whether `m` declares a target on a line up to line `n`.
fn declares_before(m: &ParsedModule, n: usize) -> (r: bool)
    ensures
        r == first_where(m@.targets, declared_before((n + 1) as nat)) is Some,
{
    let ts = m.targets();
    let ghost tv = m@.targets;
    let mut j: usize = 0;
    while j < ts.len()
        invariant
            j <= ts.len(),
            parsed_target_views(ts@) == tv,
            tv == m@.targets,
            forall|x: int| 0 <= x < j ==> !declared_before((n + 1) as nat)(#[trigger] tv[x]),
        decreases ts.len() - j,
    {
        assert(tv[j as int] == ts@[j as int]@);
        if ts[j].line() <= n {
            proof {
                lemma_first_where_found(tv, declared_before((n + 1) as nat), j as int);
            }
            return true;
        }
        j = j + 1;
    }
    proof {
        lemma_first_where_none(tv, declared_before((n + 1) as nat));
    }
    false
}

impl ProjectView {
    /// The completions at a position of the edited module, as
    /// `completion_list` describes them.
    #[verifier::rlimit(40)]
    pub fn completions(&self, row: u32, character: u32) -> (r: Vec<Completion>)
        ensures
            completion_views(r@) == completion_list(self@, row, character),
    {
        reveal(completion_list);
        let none: Vec<Completion> = Vec::new();
        proof {
            assert(completion_views(none@) =~= Seq::<CompletionView>::empty());
        }
        let k = match self.position(&self.current) {
            Some(k) => k,
            None => {
                return none;
            },
        };
        let cur = &self.modules[k];
        assert(self@.modules[k as int] == cur@);
        let text = match &cur.source {
            Some(t) => t,
            None => {
                return none;
            },
        };
        let raw = match line_of(text.as_str(), row as usize) {
            Some(l) => l,
            None => {
                return none;
            },
        };
        let line = crate::lsp::trim_cr_chars(raw.as_slice());
        let caret = match crate::lsp::column_index_of(line.as_slice(), character) {
            Some(c) => c,
            None => {
                return none;
            },
        };
        let section = separators_before(text.as_str(), row as usize);
        if section > 2 || line.len() == 0 || line[0] != '>' {
            return none;
        }
        let after = crate::text::copy_range(line.as_slice(), 1, line.len());
        assert(after@ =~= line@.drop_first());
        let rest = crate::text::trim_start_chars(after.as_slice());
        proof {
            crate::text::lemma_trim_start_suffix(after@);
        }
        let start = line.len() - rest.len();
        let word = crate::text::copy_range(line.as_slice(), start, line.len());
        assert(word@ =~= line@.skip(start as int));
        let token_end = start + space_index(word.as_slice());
        if caret < start || caret > token_end {
            return none;
        }
        if section == 1 && !declares_before(&cur.module, row as usize) {
            return none;
        }
        let candidates = if section == 0 {
            self.import_candidate_list()
        } else if section == 1 {
            let mut c = self.own_candidate_list(&cur.module);
            self.push_include_candidates(&cur.module, &mut c);
            c
        } else {
            self.own_candidate_list(&cur.module)
        };
        let sorted = sort_candidate_list(candidates);
        let unique = dedup_candidate_list(sorted);
        let typed = crate::text::copy_range(line.as_slice(), start, caret);
        let mut items = offered_list(unique, typed.as_slice());
        let head = crate::text::copy_range(line.as_slice(), 0, start);
        let first = crate::lsp::utf16_count(head.as_slice());
        let whole = crate::text::copy_range(line.as_slice(), 0, token_end);
        let end = crate::lsp::utf16_count(whole.as_slice());
        assert(head@ =~= line@.take(start as int));
        assert(whole@ =~= line@.take(token_end as int));
        assert(typed@ =~= line@.subrange(start as int, caret as int));
        let ghost iv = candidate_views(items@);
        let mut r: Vec<Completion> = Vec::new();
        let mut n: usize = 0;
        let total = items.len();
        assert(placed(iv.take(0), row, first, end) =~= Seq::<CompletionView>::empty());
        while items.len() > 0
            invariant
                n + items@.len() == total,
                total == iv.len(),
                candidate_views(items@) == iv.skip(n as int),
                completion_views(r@) == placed(iv.take(n as int), row, first, end),
            decreases items.len(),
        {
            assert(candidate_views(items@)[0] == items@[0]@);
            let ghost before = items@;
            let x = items.remove(0);
            assert(x@ == iv[n as int]);
            assert(items@ =~= before.skip(1));
            assert forall|i: int| 0 <= i < items@.len() implies #[trigger] candidate_views(items@)[i] == iv.skip(n + 1)[i] by {
                assert(items@[i] == before[i + 1]);
                assert(candidate_views(before)[i + 1] == before[i + 1]@);
                assert(iv.skip(n as int)[i + 1] == iv.skip(n + 1)[i]);
            }
            assert(candidate_views(items@) =~= iv.skip(n + 1));
            let ghost rb = completion_views(r@);
            r.push(Completion { item: x, row, first, end });
            assert(completion_views(r@) =~= rb.push(CompletionView { item: iv[n as int], row, first, end }));
            assert(iv.take(n + 1) =~= iv.take(n as int).push(iv[n as int]));
            n = n + 1;
            assert(completion_views(r@) =~= placed(iv.take(n as int), row, first, end));
        }
        assert(iv.take(n as int) =~= iv);
        r
    }
}

impl Candidate {
    /// The text an editor sorts the candidate by: the digit of its group,
    /// then its label.
    pub fn sort_text(&self) -> (r: String)
        ensures
            r@ == seq![match self.kind {
                CompletionKind::Anchor => '0',
                CompletionKind::Target => '1',
                CompletionKind::Module => '2',
            }] + self.label@,
    {
        let mut r = match self.kind {
            CompletionKind::Anchor => owned("0"),
            CompletionKind::Target => owned("1"),
            CompletionKind::Module => owned("2"),
        };
        proof {
            reveal_strlit("0");
            reveal_strlit("1");
            reveal_strlit("2");
        }
        push_str(&mut r, self.label.as_str());
        r
    }
}

/// A missing-module diagnostic `d` repeated on each import of `incs` that
/// leads into the missing module's file, placed in `path`.
pub open spec fn relocated(v: ProjectIndexView, path: Seq<char>, d: AnalysisDiagView, incs: Seq<ImportView>) -> Seq<AnalysisDiagView>
    decreases incs.len(),
{
    if incs.len() == 0 {
        seq![]
    } else {
        let inc = incs.last();
        relocated(v, path, d, incs.drop_last()) + match pointed_target(v.current, inc.target.path) {
            Some(id) => if module_file_path(v.root, id.0) == d.file {
                seq![AnalysisDiagView { file: path, line: Some(inc.target.line), ..d }]
            } else {
                seq![]
            },
            None => seq![],
        }
    }
}

/// The missing-module diagnostics among `ds`, each repeated on the imports
/// of the edited module `cur` that lead into it.
pub open spec fn missing_imports(v: ProjectIndexView, path: Seq<char>, ds: Seq<AnalysisDiagView>, cur: IndexedView) -> Seq<AnalysisDiagView>
    decreases ds.len(),
{
    if ds.len() == 0 {
        seq![]
    } else {
        missing_imports(v, path, ds.drop_last(), cur) + if ds.last().code == "P001"@ {
            relocated(v, path, ds.last(), cur.module.includes)
        } else {
            seq![]
        }
    }
}

/// The diagnostics among `ds` about the file `path`.
pub open spec fn in_file(ds: Seq<AnalysisDiagView>, path: Seq<char>) -> Seq<AnalysisDiagView>
    decreases ds.len(),
{
    if ds.len() == 0 {
        seq![]
    } else {
        in_file(ds.drop_last(), path) + if ds.last().file == path {
            seq![ds.last()]
        } else {
            seq![]
        }
    }
}

/// The diagnostics an editor shows for the file `path` of the edited
/// module: those about the file, then each missing-module diagnostic again
/// on every import of the edited module that leads into the missing file.
pub open spec fn file_diagnostics(v: ProjectIndexView, path: Seq<char>) -> Seq<AnalysisDiagView> {
    in_file(v.diagnostics, path) + match indexed_at(v.modules, v.current) {
        Some(cur) => missing_imports(v, path, v.diagnostics, cur),
        None => seq![],
    }
}

impl ProjectView {
    /// Adds `d` again on each import of `m` that leads into its file.
    fn push_relocated(&self, path: &str, d: &AnalysisDiagnostic, m: &ParsedModule, out: &mut Vec<AnalysisDiagnostic>)
        ensures
            analysis_views(final(out)@) == analysis_views(old(out)@) + relocated(self@, path@, d@, m@.includes),
    {
        let ghost o = analysis_views(out@);
        let incs = m.includes();
        let ghost iv = m@.includes;
        let mut k: usize = 0;
        assert(relocated(self@, path@, d@, iv.take(0)) =~= Seq::<AnalysisDiagView>::empty());
        assert(o =~= o + relocated(self@, path@, d@, iv.take(0)));
        while k < incs.len()
            invariant
                k <= incs.len(),
                import_views(incs@) == iv,
                iv == m@.includes,
                analysis_views(out@) == o + relocated(self@, path@, d@, iv.take(k as int)),
            decreases incs.len() - k,
        {
            assert(iv[k as int] == incs@[k as int]@);
            assert(iv.take(k + 1).drop_last() =~= iv.take(k as int));
            assert(iv.take(k + 1).last() == iv[k as int]);
            let ghost before = analysis_views(out@);
            match point_to(&self.current, incs[k].target()) {
                Some(id) => {
                    let file = self.analyzer.module_file(id.namespace());
                    if crate::text::text_eq(file.as_str(), d.file()) {
                        out.push(d.at(path, incs[k].target().line()));
                        assert(analysis_views(out@) =~= before.push(AnalysisDiagView { file: path@, line: Some(iv[k as int].target.line), ..d@ }));
                    }
                },
                None => {},
            }
            k = k + 1;
            assert(analysis_views(out@) =~= o + relocated(self@, path@, d@, iv.take(k as int)));
        }
        assert(iv.take(k as int) =~= iv);
    }

    /// The diagnostics an editor shows for the file `path` of the edited
    /// module, as `file_diagnostics` describes them.
    pub fn diagnostics_for(&self, path: &str) -> (r: Vec<AnalysisDiagnostic>)
        ensures
            analysis_views(r@) == file_diagnostics(self@, path@),
    {
        let mut out: Vec<AnalysisDiagnostic> = Vec::new();
        let ghost dv = self@.diagnostics;
        let mut i: usize = 0;
        assert(in_file(dv.take(0), path@) =~= Seq::<AnalysisDiagView>::empty());
        while i < self.diagnostics.len()
            invariant
                i <= self.diagnostics.len(),
                dv == analysis_views(self.diagnostics@),
                analysis_views(out@) == in_file(dv.take(i as int), path@),
            decreases self.diagnostics.len() - i,
        {
            assert(dv[i as int] == self.diagnostics@[i as int]@);
            assert(dv.take(i + 1).drop_last() =~= dv.take(i as int));
            assert(dv.take(i + 1).last() == dv[i as int]);
            let ghost before = analysis_views(out@);
            if crate::text::text_eq(self.diagnostics[i].file(), path) {
                out.push(self.diagnostics[i].duplicate());
                assert(analysis_views(out@) =~= before.push(dv[i as int]));
            }
            i = i + 1;
            assert(analysis_views(out@) =~= in_file(dv.take(i as int), path@));
        }
        assert(dv.take(i as int) =~= dv);
        let ghost head = analysis_views(out@);
        match self.position(&self.current) {
            None => {
                assert(analysis_views(out@) =~= file_diagnostics(self@, path@));
            },
            Some(k) => {
                let cur = &self.modules[k];
                assert(self@.modules[k as int] == cur@);
                let mut j: usize = 0;
                assert(missing_imports(self@, path@, dv.take(0), cur@) =~= Seq::<AnalysisDiagView>::empty());
                assert(head =~= head + missing_imports(self@, path@, dv.take(0), cur@));
                while j < self.diagnostics.len()
                    invariant
                        j <= self.diagnostics.len(),
                        dv == analysis_views(self.diagnostics@),
                        dv == self@.diagnostics,
                        analysis_views(out@) == head + missing_imports(self@, path@, dv.take(j as int), cur@),
                    decreases self.diagnostics.len() - j,
                {
                    assert(dv[j as int] == self.diagnostics@[j as int]@);
                    assert(dv.take(j + 1).drop_last() =~= dv.take(j as int));
                    assert(dv.take(j + 1).last() == dv[j as int]);
                    let ghost before = analysis_views(out@);
                    let p001 = owned("P001");
                    if crate::text::text_eq(self.diagnostics[j].code(), p001.as_str()) {
                        self.push_relocated(path, &self.diagnostics[j], &cur.module, &mut out);
                    } else {
                        assert(before =~= before + Seq::<AnalysisDiagView>::empty());
                    }
                    j = j + 1;
                    assert(analysis_views(out@) =~= head + missing_imports(self@, path@, dv.take(j as int), cur@));
                }
                assert(dv.take(j as int) =~= dv);
            },
        }
        out
    }
}

/// The candidates are in listing order.
pub open spec fn in_listing_order(s: Seq<CandidateView>) -> bool {
    forall|i: int, j: int| 0 <= i < j < s.len() ==> key_le(#[trigger] s[i], #[trigger] s[j])
}

/// The listing order is transitive and total.
proof fn lemma_key_order(a: CandidateView, b: CandidateView, c: CandidateView)
    ensures
        key_le(a, b) && key_le(b, c) ==> key_le(a, c),
        key_le(a, b) || key_le(b, a),
{
    if key_le(a, b) && key_le(b, c) && kind_rank(a.kind) == kind_rank(c.kind) {
        if crate::text::text_lt(c.label, a.label) {
            if crate::text::text_lt(b.label, a.label) || b.label == a.label {
                if b.label != a.label {
                    crate::order::lemma_text_lt_asymmetric(b.label, a.label);
                }
            }
            if a.label != b.label && !crate::text::text_lt(b.label, a.label) {
                crate::order::lemma_text_lt_total(a.label, b.label);
                crate::order::lemma_text_lt_transitive(c.label, a.label, b.label);
            }
        }
    }
    if !key_le(a, b) && kind_rank(a.kind) == kind_rank(b.kind) {
        crate::order::lemma_text_lt_asymmetric(b.label, a.label);
    }
}

/// A candidate put into a list in listing order keeps it in order, and the
/// list holds the same candidates besides it.
proof fn lemma_insert_in_order(s: Seq<CandidateView>, x: CandidateView)
    requires
        in_listing_order(s),
    ensures
        in_listing_order(insert_candidate(s, x)),
        insert_candidate(s, x).len() == s.len() + 1,
        forall|y: CandidateView| #[trigger] insert_candidate(s, x).contains(y) ==> s.contains(y) || y == x,
    decreases s.len(),
{
    if s.len() == 0 || key_le(s.last(), x) {
        let r = s.push(x);
        assert forall|i: int, j: int| 0 <= i < j < r.len() implies key_le(#[trigger] r[i], #[trigger] r[j]) by {
            if j == s.len() && i < s.len() - 1 {
                lemma_key_order(r[i], s.last(), x);
            }
        }
        assert forall|y: CandidateView| r.contains(y) implies s.contains(y) || y == x by {
            let k = choose|k: int| 0 <= k < r.len() && r[k] == y;
            if k < s.len() {
                assert(s[k] == y);
            }
        }
    } else {
        let t = s.drop_last();
        assert(in_listing_order(t)) by {
            assert forall|i: int, j: int| 0 <= i < j < t.len() implies key_le(#[trigger] t[i], #[trigger] t[j]) by {
                assert(t[i] == s[i] && t[j] == s[j]);
            }
        }
        lemma_insert_in_order(t, x);
        let m = insert_candidate(t, x);
        let r = m.push(s.last());
        lemma_key_order(s.last(), x, x);
        assert(key_le(x, s.last()));
        assert forall|i: int, j: int| 0 <= i < j < r.len() implies key_le(#[trigger] r[i], #[trigger] r[j]) by {
            if j == m.len() {
                assert(m.contains(r[i]));
                if r[i] != x {
                    assert(t.contains(r[i]));
                    let k = choose|k: int| 0 <= k < t.len() && t[k] == r[i];
                    assert(s[k] == r[i]);
                    assert(s[s.len() - 1] == s.last());
                }
            }
        }
        assert forall|y: CandidateView| r.contains(y) implies s.contains(y) || y == x by {
            let k = choose|k: int| 0 <= k < r.len() && r[k] == y;
            if k < m.len() {
                assert(m.contains(y));
                if y != x {
                    assert(t.contains(y));
                    let q = choose|q: int| 0 <= q < t.len() && t[q] == y;
                    assert(s[q] == y);
                }
            } else {
                assert(s[s.len() - 1] == y);
            }
        }
    }
}

/// Sorting puts candidates in listing order.
proof fn lemma_sorted_in_order(s: Seq<CandidateView>)
    ensures
        in_listing_order(sort_candidates(s)),
    decreases s.len(),
{
    if s.len() > 0 {
        lemma_sorted_in_order(s.drop_last());
        lemma_insert_in_order(sort_candidates(s.drop_last()), s.last());
    }
}

/// Dropping repeated labels keeps listing order, and keeps only candidates
/// of the list.
proof fn lemma_dedup_in_order(s: Seq<CandidateView>)
    requires
        in_listing_order(s),
    ensures
        in_listing_order(dedup_labels(s)),
        forall|y: CandidateView| #[trigger] dedup_labels(s).contains(y) ==> s.contains(y),
    decreases s.len(),
{
    if s.len() > 0 {
        let t = s.drop_last();
        assert(in_listing_order(t)) by {
            assert forall|i: int, j: int| 0 <= i < j < t.len() implies key_le(#[trigger] t[i], #[trigger] t[j]) by {
                assert(t[i] == s[i] && t[j] == s[j]);
            }
        }
        lemma_dedup_in_order(t);
        let d = dedup_labels(t);
        assert forall|y: CandidateView| d.contains(y) implies s.contains(y) && key_le(y, s.last()) by {
            assert(t.contains(y));
            let q = choose|q: int| 0 <= q < t.len() && t[q] == y;
            assert(s[q] == y);
            assert(s[s.len() - 1] == s.last());
        }
        if !(d.len() > 0 && d.last().label == s.last().label) {
            let r = d.push(s.last());
            assert forall|i: int, j: int| 0 <= i < j < r.len() implies key_le(#[trigger] r[i], #[trigger] r[j]) by {
                if j == d.len() {
                    assert(d.contains(r[i]));
                }
            }
            assert forall|y: CandidateView| r.contains(y) implies s.contains(y) by {
                let k = choose|k: int| 0 <= k < r.len() && r[k] == y;
                if k < d.len() {
                    assert(d.contains(y));
                } else {
                    assert(s[s.len() - 1] == y);
                }
            }
        }
    }
}

/// Keeping the candidates that extend the typed word keeps listing order,
/// and keeps only candidates of the list.
proof fn lemma_offered_in_order(s: Seq<CandidateView>, typed: Seq<char>)
    requires
        in_listing_order(s),
    ensures
        in_listing_order(offered(s, typed)),
        forall|y: CandidateView| #[trigger] offered(s, typed).contains(y) ==> s.contains(y),
    decreases s.len(),
{
    if s.len() > 0 {
        let t = s.drop_last();
        assert(in_listing_order(t)) by {
            assert forall|i: int, j: int| 0 <= i < j < t.len() implies key_le(#[trigger] t[i], #[trigger] t[j]) by {
                assert(t[i] == s[i] && t[j] == s[j]);
            }
        }
        lemma_offered_in_order(t, typed);
        let d = offered(t, typed);
        assert forall|y: CandidateView| d.contains(y) implies s.contains(y) && key_le(y, s.last()) by {
            assert(t.contains(y));
            let q = choose|q: int| 0 <= q < t.len() && t[q] == y;
            assert(s[q] == y);
            assert(s[s.len() - 1] == s.last());
        }
        let c = s.last();
        if crate::text::starts_with(c.label, typed) && c.label != typed {
            let r = d + seq![c];
            assert forall|i: int, j: int| 0 <= i < j < r.len() implies key_le(#[trigger] r[i], #[trigger] r[j]) by {
                if j == d.len() {
                    assert(d.contains(r[i]));
                } else {
                    assert(r[i] == d[i] && r[j] == d[j]);
                }
            }
            assert forall|y: CandidateView| r.contains(y) implies s.contains(y) by {
                let k = choose|k: int| 0 <= k < r.len() && r[k] == y;
                if k < d.len() {
                    assert(d[k] == y);
                    assert(d.contains(y));
                } else {
                    assert(s[s.len() - 1] == y);
                }
            }
        } else {
            assert(d + Seq::<CandidateView>::empty() =~= d);
        }
    }
}

/// Completions are listed in order: path anchors first, then targets, then
/// module paths, each group by label.
pub proof fn lemma_completions_listed_in_order(v: ProjectIndexView, row: u32, c: u32)
    ensures
        forall|i: int, j: int| 0 <= i < j < completion_list(v, row, c).len() ==> key_le(
            #[trigger] completion_list(v, row, c)[i].item,
            #[trigger] completion_list(v, row, c)[j].item,
        ),
{
    reveal(completion_list);
    let r = completion_list(v, row, c);
    if r.len() > 0 {
        let cur = indexed_at(v.modules, v.current)->0;
        let text = cur.source->0;
        let line = trim_cr(line_at(text, row as nat)->0);
        let caret = crate::lsp::column_index(line, c as nat)->0;
        let section = separators(lines(text).take(row as int));
        let start = line.len() - crate::text::trim_start(line.drop_first()).len();
        let sorted = sort_candidates(section_candidates(v, cur, section));
        lemma_sorted_in_order(section_candidates(v, cur, section));
        lemma_dedup_in_order(sorted);
        lemma_offered_in_order(dedup_labels(sorted), line.subrange(start, caret as int));
    }
}

/// Asking for the declaration adds exactly the declaration's place to the
/// references.
pub proof fn lemma_references_with_declaration(v: ProjectIndexView, target: IdView)
    ensures
        collected_refs(v, target, true).to_set() == declaration_ref(v, target).to_set() + collected_refs(v, target, false).to_set(),
{
    vstd::seq_lib::seq_to_set_distributes_over_add(declaration_ref(v, target), all_module_refs(v, target, v.modules));
    assert(Seq::<SpanView>::empty() + all_module_refs(v, target, v.modules) =~= all_module_refs(v, target, v.modules));
}

} // verus!
