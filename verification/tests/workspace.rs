use makedown::model::{ModulePath, TargetId};
use makedown::parser::{ParseMode, Parser};
use makedown::project::{AnalysisMode, AnalysisState, ProjectAnalyzer};
use makedown::workspace::{
    module_documentation, module_for_parts, point_to, target_documentation, Completion, CompletionKind, ProjectView,
};

const ROOT: &str = "/p/main.mf";

/// Indexes an in-memory project whose files are named relative to `/p/`,
/// loading the modules reachable from the root and the `extra` ones.
fn index(files: &[(&str, &str)], extra: &[&str], current: &str) -> ProjectView {
    let analyzer = ProjectAnalyzer::new(ROOT, AnalysisMode::DryRun);
    let mut state = AnalysisState::new(&analyzer, None);
    state.add_pending(ModulePath::root());
    for module in extra {
        state.add_pending(ModulePath::parse(module).unwrap());
    }
    let mut sources = Vec::new();
    while let Some(request) = state.next_module() {
        if !request.namespace().is_root() && request.file() == ROOT {
            state.alias_root(&request);
            continue;
        }
        match files.iter().find(|(name, _)| format!("/p/{name}") == request.file()) {
            Some((_, text)) => {
                sources.push((request.file().to_owned(), text.to_string()));
                state.parse_source(&request, text);
            }
            None => state.read_failed(&request, "No such file or directory"),
        }
    }
    let (result, parsed) = state.resolve_with_modules();
    let diagnostics = result.diagnostics().iter().map(|d| d.duplicate()).collect();
    let current = if current.is_empty() { ModulePath::root() } else { ModulePath::parse(current).unwrap() };
    ProjectView::new(&analyzer, diagnostics, parsed, &sources, current)
}

fn labels(items: &[Completion]) -> Vec<String> {
    items.iter().map(|c| c.item.label.clone()).collect()
}

const SHARED_MAIN: &str = "> crate::shared::ready as gate\n---\n# build\n> gate\n- done\n---\n> build\n";
const SHARED: &str = "---\n# ready\n- done\n---\n> ready\n";

fn path(path: &str) -> ModulePath {
    ModulePath::parse(path).unwrap()
}

fn parts(items: &[&str]) -> Vec<String> {
    items.iter().map(|s| s.to_string()).collect()
}

#[test]
fn markfiles_below_the_project_name_their_module() {
    assert_eq!(module_for_parts(parts(&["catalog", "api.mf"])), Some(path("catalog::api")));
    assert_eq!(module_for_parts(parts(&["main.mf"])), Some(path("main")));
    assert_eq!(module_for_parts(parts(&["notes.txt"])), None);
    assert_eq!(module_for_parts(parts(&["bad dir", "x.mf"])), None);
    assert_eq!(module_for_parts(parts(&[".mf"])), None);
    assert_eq!(module_for_parts(Vec::new()), None);
}

#[test]
fn import_paths_point_at_targets_relative_to_their_module() {
    let source = "> crate::shared::ready\n> self::model::check\n> super::top\n> ready\n---\n# build\n---\n> build\n";
    let parsed = Parser::new(ParseMode::Build).parse(path("catalog::api"), source);
    let module = parsed.partial_module();
    let current = path("catalog::api");
    let pointed = module
        .includes()
        .iter()
        .map(|item| point_to(&current, item.target()))
        .collect::<Vec<_>>();
    assert_eq!(
        pointed,
        [
            Some(TargetId::new(path("shared"), "ready")),
            Some(TargetId::new(path("catalog::model"), "check")),
            Some(TargetId::new(ModulePath::root(), "top")),
            None,
        ]
    );
}

#[test]
fn target_previews_show_the_body_of_a_target() {
    let text = "---\n# build\nFirst line.  \n\n- done\r\n# next\n---\n";
    assert_eq!(
        target_documentation(text, 2),
        Some("First line.\n- done".to_owned())
    );
    assert_eq!(target_documentation(text, 6), None);
}

#[test]
fn module_previews_list_public_targets() {
    let parsed = Parser::new(ParseMode::Build)
        .parse(path("shared"), "---\n# ready\n# later\n---\n> ready\n> later\n");
    assert_eq!(
        module_documentation(parsed.partial_module()),
        Some("public targets:\n- ready\n- later".to_owned())
    );
    let private = Parser::new(ParseMode::Build).parse(path("shared"), "---\n# hidden\n---\n");
    assert_eq!(module_documentation(private.partial_module()), None);
}

#[test]
fn source_overlays_change_project_diagnostics() {
    let codes = |shared: &str| -> Vec<String> {
        let view = index(&[("main.mf", SHARED_MAIN), ("shared.mf", shared)], &[], "");
        view.diagnostics_for(ROOT).iter().map(|d| d.code().to_owned()).collect()
    };
    let clean = codes(SHARED);
    assert!(!clean.iter().any(|c| c == "P008" || c == "P009"));
    assert!(codes("---\n# ready\n- done\n---\n").iter().any(|c| c == "P009"));
    assert!(codes("---\n# later\n- done\n---\n> later\n").iter().any(|c| c == "P008"));
}

#[test]
fn new_unsaved_module_is_loaded_from_overlays() {
    let view = index(
        &[("main.mf", "> crate::fresh::ready\n---\n# build\n> ready\n---\n> build\n"), ("fresh.mf", SHARED)],
        &[],
        "",
    );
    assert!(view.diagnostics_for(ROOT).iter().all(|d| d.code() != "P001"));
    let location = view.definition(3, 4).unwrap();
    assert_eq!(location.file, "/p/fresh.mf");
}

#[test]
fn definition_resolves_imports_dependencies_and_utf16() {
    let view = index(&[("main.mf", SHARED_MAIN), ("shared.mf", SHARED)], &[], "");
    for (row, character) in [(0, 12), (0, 27), (3, 3)] {
        let location = view.definition(row, character).unwrap();
        assert_eq!(location.file, "/p/shared.mf");
        assert_eq!((location.row, location.first, location.end), (1, 2, 7));
    }
    let local = view.definition(6, 4).unwrap();
    assert_eq!(local.file, ROOT);
    assert_eq!((local.row, local.first), (2, 2));
    assert!(view.definition(2, 2).is_none());
}

#[test]
fn definition_resolves_local_target_and_utf16_columns() {
    let view = index(&[("main.mf", "---\n# 测试😀\n- done\n# build\n> 测试😀\n- done\n---\n> build\n")], &[], "");
    let location = view.definition(4, 4).unwrap();
    assert_eq!((location.row, location.first, location.end), (1, 2, 6));
    assert!(view.definition(4, 0).is_none());
}

#[test]
fn missing_module_diagnostic_is_visible_in_importer() {
    let view = index(&[("main.mf", "> crate::missing::ready\n---\n# build\n> ready\n---\n> build\n")], &[], "");
    assert!(view.diagnostics_for(ROOT).iter().any(|d| d.code() == "P001" && d.line() == Some(1) && d.file() == ROOT));
}

#[test]
fn completions_follow_section_context() {
    let view = index(
        &[
            ("main.mf", "> crate::shared::ready as gate\n---\n# build\n> gate\n- done\n# hidden\n---\n> build\n"),
            ("shared.mf", "---\n# ready\n- done\n# internal\n- hidden\n---\n> ready\n"),
        ],
        &[],
        "",
    );
    let imports = labels(&view.completions(0, 2));
    assert!(imports.contains(&"crate::shared::ready".to_owned()));
    assert!(imports.contains(&"crate::".to_owned()));
    assert!(imports.contains(&"self::".to_owned()));
    assert!(!imports.contains(&"super::".to_owned()));
    assert!(imports.contains(&"self::build".to_owned()));
    assert!(!imports.iter().any(|label| label.ends_with("::internal")));

    let narrowed = view.completions(0, 10);
    assert_eq!(labels(&narrowed), vec!["crate::shared::ready".to_owned(), "crate::shared::".to_owned()]);
    assert_eq!(narrowed[0].item.sort_text(), "1crate::shared::ready");
    assert_eq!(narrowed[0].item.documentation.as_deref(), Some("- done"));
    assert_eq!(narrowed[1].item.kind, CompletionKind::Module);
    assert_eq!(narrowed[1].item.documentation.as_deref(), Some("public targets:\n- ready"));

    let dependencies = view.completions(3, 2);
    let dependency_labels = labels(&dependencies);
    assert!(dependency_labels.contains(&"gate".to_owned()));
    assert!(dependency_labels.contains(&"build".to_owned()));
    assert!(dependency_labels.contains(&"hidden".to_owned()));
    assert!(!dependency_labels.iter().any(|label| label.contains("ready")));
    let gate = dependencies.iter().find(|c| c.item.label == "gate").unwrap();
    assert_eq!(gate.item.sort_text(), "1gate");
    assert_eq!(gate.item.documentation.as_deref(), Some("- done"));

    assert_eq!(labels(&view.completions(7, 2)), vec!["build".to_owned(), "hidden".to_owned()]);
    assert!(view.completions(1, 2).is_empty());
    assert!(view.completions(2, 2).is_empty());
}

#[test]
fn completions_resolve_relative_anchors_and_overlay_modules() {
    let mut view = index(
        &[
            ("main.mf", "---\n# root_target\n- done\n---\n> root_target\n"),
            ("team/worker.mf", "> self::shared::ready\n---\n# work\n- done\n---\n> work\n"),
            ("team/shared.mf", SHARED),
        ],
        &["team::worker", "team::shared"],
        "",
    );
    assert!(view.focus(path("team::worker")));
    let self_candidates = labels(&view.completions(0, 8));
    assert!(self_candidates.contains(&"self::shared::ready".to_owned()));
    assert!(!self_candidates.contains(&"self::root_target".to_owned()));
    let super_candidates = labels(&view.completions(0, 2));
    assert!(super_candidates.contains(&"super::root_target".to_owned()));
    assert!(super_candidates.contains(&"crate::team::shared::ready".to_owned()));
}

#[test]
fn positions_use_utf16_for_unicode_target_names() {
    let view = index(&[("main.mf", "---\n# 😀build\n- done\n# use\n> 😀build\n> 😀b\n- done\n---\n> use\n")], &[], "");
    let target = TargetId::new(ModulePath::root(), "😀build");
    assert!(view.symbol_at(1, 2).unwrap().same(&target));
    assert!(view.symbol_at(1, 4).unwrap().same(&target));
    assert!(view.symbol_at(1, 3).is_none());
    let locations = view.references(&target, true);
    assert_eq!((locations[0].row, locations[0].first, locations[0].end), (1, 2, 9));
    assert_eq!((locations[1].row, locations[1].first, locations[1].end), (4, 2, 9));
    let items = view.completions(5, 4);
    assert_eq!(labels(&items), vec!["😀build".to_owned()]);
    assert_eq!((items[0].row, items[0].first, items[0].end), (5, 2, 5));
    assert!(view.completions(5, 3).is_empty());
}

#[test]
fn references_cover_imports_dependencies_and_declarations() {
    let view = index(&[("main.mf", SHARED_MAIN), ("shared.mf", SHARED)], &[], "");
    let ready = TargetId::new(path("shared"), "ready");
    assert!(view.symbol_at(3, 3).unwrap().same(&ready));
    assert!(view.symbol_at(1, 2).is_none());
    let references = view.references(&ready, true);
    assert_eq!(references.len(), 4);
    assert_eq!((references[0].file.as_str(), references[0].row, references[0].first), (ROOT, 0, 17));
    assert_eq!((references[1].file.as_str(), references[1].row, references[1].first), (ROOT, 3, 2));
    assert_eq!((references[2].file.as_str(), references[2].row, references[2].first), ("/p/shared.mf", 1, 2));
    assert_eq!((references[3].file.as_str(), references[3].row, references[3].first), ("/p/shared.mf", 4, 2));
    let without = view.references(&ready, false);
    assert_eq!(without.len(), 3);
}

#[test]
fn completions_list_anchors_then_targets_then_modules() {
    let view = index(
        &[
            ("main.mf", "> crate::shared::ready\n---\n# build\n> ready\n- done\n---\n> build\n"),
            ("shared.mf", SHARED),
            ("team/tools.mf", "---\n# lint\n- done\n---\n> lint\n"),
        ],
        &["shared", "team::tools"],
        "",
    );
    let items = view.completions(0, 2);
    let rank = |c: &Completion| match c.item.kind {
        CompletionKind::Anchor => 0,
        CompletionKind::Target => 1,
        CompletionKind::Module => 2,
    };
    assert!(items.windows(2).all(|w| (rank(&w[0]), &w[0].item.label) <= (rank(&w[1]), &w[1].item.label)));
    assert_eq!(
        labels(&items),
        vec![
            "crate::", "self::", "crate::build", "crate::shared::ready", "crate::team::tools::lint",
            "self::build", "self::shared::ready", "self::team::tools::lint", "crate::shared::",
            "crate::team::tools::", "self::shared::", "self::team::tools::",
        ]
    );
    assert!(items.iter().all(|c| (c.row, c.first, c.end) == (0, 2, 22)));
}

#[test]
fn references_without_the_declaration_drop_only_the_declaration() {
    let view = index(&[("main.mf", SHARED_MAIN), ("shared.mf", SHARED)], &[], "");
    let ready = TargetId::new(path("shared"), "ready");
    let with = view.references(&ready, true);
    let without = view.references(&ready, false);
    let missing = with.iter().filter(|span| !without.contains(span)).collect::<Vec<_>>();
    assert_eq!(missing.len(), 1);
    assert_eq!((missing[0].file.as_str(), missing[0].row, missing[0].first, missing[0].end), ("/p/shared.mf", 1, 2, 7));
}
