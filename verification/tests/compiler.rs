use std::collections::BTreeSet;

use makedown::compiler::{CompileError, Compiler, DefaultMarkdownRenderer, PlannedTarget};
use makedown::model::{Module, ModulePath, Project, Spec, Target, TargetId};

fn path(path: &str) -> ModulePath {
    ModulePath::parse(path).unwrap()
}

fn id(namespace: ModulePath, name: &str) -> TargetId {
    TargetId::new(namespace, name)
}

fn make_target(namespace: ModulePath, name: &str) -> Target {
    Target::new(namespace, name)
}

fn target(namespace: ModulePath, name: &str, dependencies: Vec<TargetId>) -> Target {
    let mut target = make_target(namespace, name);
    target.set_description(&format!("{name} description"));
    target.add_specification(Spec::new(&format!("{name} specification")));
    for dependency in dependencies {
        target.add_dependency(dependency);
    }
    target
}

fn healthy_project() -> Project {
    let root = ModulePath::root();
    let common = path("common");
    let mut root_module = Module::new(root.duplicate());
    let mut common_module = Module::new(common.duplicate());

    common_module
        .add_target(target(common.duplicate(), "base", Vec::new()))
        .unwrap();
    root_module
        .add_target(target(
            root.duplicate(),
            "left",
            vec![id(common.duplicate(), "base")],
        ))
        .unwrap();
    root_module
        .add_target(target(root.duplicate(), "right", vec![id(common, "base")]))
        .unwrap();
    root_module
        .add_target(target(
            root.duplicate(),
            "finish",
            vec![id(root.duplicate(), "left"), id(root, "right")],
        ))
        .unwrap();

    let mut project = Project::new(ModulePath::root());
    project.add_module(root_module).unwrap();
    project.add_module(common_module).unwrap();
    project
}

#[test]
fn plan_groups_independent_targets_into_stable_stages() {
    let project = healthy_project();

    let plan = Compiler::new()
        .plan(&project, id(ModulePath::root(), "finish"))
        .unwrap();

    assert_eq!(plan.stages().len(), 3);
    assert_eq!(plan.stages()[0].targets()[0].id(), &id(path("common"), "base"));
    assert_eq!(
        plan.stages()[1]
            .targets()
            .iter()
            .map(|target| target.id().name())
            .collect::<Vec<_>>(),
        ["left", "right"]
    );
    assert_eq!(plan.stages()[2].targets()[0].id().name(), "finish");
    assert_eq!(
        plan.stages()
            .iter()
            .flat_map(|stage| stage.targets())
            .filter(|target| target.id().name() == "base")
            .count(),
        1
    );
    for stage in plan.stages() {
        let stage_ids = stage
            .targets()
            .iter()
            .map(PlannedTarget::id)
            .collect::<BTreeSet<_>>();
        assert!(stage.targets().iter().all(|target| {
            target
                .dependencies()
                .iter()
                .all(|dependency| !stage_ids.contains(dependency))
        }));
    }
}

#[test]
fn plan_omits_unreachable_targets() {
    let mut project = healthy_project();
    project
        .root_mut()
        .unwrap()
        .add_target(target(ModulePath::root(), "unused", Vec::new()))
        .unwrap();

    let plan = Compiler::new()
        .plan(&project, id(ModulePath::root(), "left"))
        .unwrap();
    let names = plan
        .stages()
        .iter()
        .flat_map(|stage| stage.targets().iter())
        .map(|target| target.id().name())
        .collect::<Vec<_>>();

    assert_eq!(names, ["base", "left"]);
}

#[test]
fn plan_rejects_missing_targets() {
    let project = Project::new(ModulePath::root());
    let missing = id(ModulePath::root(), "missing");

    let error = Compiler::new()
        .plan(&project, missing.duplicate())
        .unwrap_err();

    assert_eq!(error, CompileError::TargetNotFound(missing));
}

#[test]
fn plan_rejects_missing_transitive_dependencies() {
    let root = ModulePath::root();
    let missing = id(root.duplicate(), "missing");
    let mut module = Module::new(root.duplicate());
    module
        .add_target(target(root.duplicate(), "build", vec![missing.duplicate()]))
        .unwrap();
    let mut project = Project::new(root.duplicate());
    project.add_module(module).unwrap();

    let error = Compiler::new()
        .plan(&project, id(root, "build"))
        .unwrap_err();

    assert_eq!(error, CompileError::TargetNotFound(missing));
}

#[test]
fn plan_rejects_dependency_cycles() {
    let root = ModulePath::root();
    let mut module = Module::new(root.duplicate());
    module
        .add_target(target(root.duplicate(), "a", vec![id(root.duplicate(), "b")]))
        .unwrap();
    module
        .add_target(target(root.duplicate(), "b", vec![id(root.duplicate(), "a")]))
        .unwrap();
    let mut project = Project::new(root.duplicate());
    project.add_module(module).unwrap();

    let error = Compiler::new().plan(&project, id(root, "a")).unwrap_err();

    assert!(matches!(error, CompileError::DependencyCycle(_)));
}

#[test]
fn plan_rejects_self_dependencies() {
    let root = ModulePath::root();
    let self_id = id(root.duplicate(), "recursive");
    let mut module = Module::new(root.duplicate());
    module
        .add_target(target(
            root.duplicate(),
            "recursive",
            vec![self_id.duplicate()],
        ))
        .unwrap();
    let mut project = Project::new(root);
    project.add_module(module).unwrap();

    let error = Compiler::new().plan(&project, self_id).unwrap_err();

    assert!(matches!(error, CompileError::DependencyCycle(_)));
}

#[test]
fn compile_uses_the_default_markdown_renderer() {
    let project = healthy_project();

    let markdown = Compiler::new()
        .compile(&project, id(ModulePath::root(), "finish"))
        .unwrap();

    assert!(markdown.starts_with("# 规格实施计划：finish\n"));
    assert!(markdown.contains("## 阶段 3：最终目标"));
}

#[test]
fn default_renderer_emits_an_actionable_markdown_plan() {
    let project = healthy_project();
    let plan = Compiler::new()
        .plan(&project, id(ModulePath::root(), "finish"))
        .unwrap();

    let markdown = DefaultMarkdownRenderer::new().render(&plan);

    assert!(markdown.starts_with("# 规格实施计划：finish\n"));
    assert!(markdown.contains("同一阶段中的目标互不依赖，可以并行实施"));
    assert!(markdown.contains("## 阶段 1：基础目标"));
    assert!(markdown.contains("## 阶段 3：最终目标"));
    assert!(markdown.contains("### 目标 `common::base`"));
    assert!(markdown.contains("- `left`\n- `right`"));
    assert!(markdown.contains("- [ ] finish specification"));
}

#[test]
fn default_renderer_has_a_stable_single_target_layout() {
    let mut module = Module::new(ModulePath::root());
    module
        .add_target(target(ModulePath::root(), "build", Vec::new()))
        .unwrap();
    let mut project = Project::new(ModulePath::root());
    project.add_module(module).unwrap();
    let plan = Compiler::new()
        .plan(&project, id(ModulePath::root(), "build"))
        .unwrap();

    let markdown = DefaultMarkdownRenderer::new().render(&plan);

    assert_eq!(
        markdown,
        "# 规格实施计划：build\n\
\n\
本计划按照依赖关系分阶段排列。\n\
\n\
执行规则：\n\
\n\
1. 按阶段顺序实施。\n\
2. 同一阶段中的目标互不依赖，可以并行实施，实际顺序由实施者决定。\n\
3. 开始下一阶段前，必须确认前序阶段的全部规格均已验收通过。\n\
4. 不得忽略未完成的前置目标。\n\
\n\
## 阶段 1：最终目标\n\
\n\
### 目标 `build`\n\
\n\
#### 描述\n\
\n\
build description\n\
\n\
#### 验收规格\n\
\n\
- [ ] build specification\n"
    );
}

#[test]
fn default_renderer_marks_missing_optional_content() {
    let mut module = Module::new(ModulePath::root());
    module
        .add_target(make_target(ModulePath::root(), "empty"))
        .unwrap();
    let mut project = Project::new(ModulePath::root());
    project.add_module(module).unwrap();
    let plan = Compiler::new()
        .plan(&project, id(ModulePath::root(), "empty"))
        .unwrap();

    let markdown = DefaultMarkdownRenderer::new().render(&plan);

    assert!(markdown.contains("（未提供描述）"));
    assert!(markdown.contains("（未提供验收规格）"));
}

#[test]
fn every_dependency_is_planned_in_an_earlier_stage() {
    let project = healthy_project();
    let plan = Compiler::new()
        .plan(&project, id(ModulePath::root(), "finish"))
        .unwrap();
    let mut earlier: BTreeSet<&TargetId> = BTreeSet::new();
    for stage in plan.stages() {
        for target in stage.targets() {
            for dependency in target.dependencies() {
                assert!(earlier.contains(dependency));
            }
        }
        for target in stage.targets() {
            earlier.insert(target.id());
        }
    }
    assert_eq!(plan.root_target(), &id(ModulePath::root(), "finish"));
    assert_eq!(
        plan.stages().iter().map(|s| s.index()).collect::<Vec<_>>(),
        [1, 2, 3]
    );
}

#[test]
fn compile_errors_have_messages() {
    let missing = CompileError::TargetNotFound(id(path("a::b"), "c"));
    assert_eq!(missing.to_string(), "target `a::b::c` does not exist");
    let cycle = CompileError::DependencyCycle(vec![
        id(ModulePath::root(), "a"),
        id(ModulePath::root(), "b"),
    ]);
    assert_eq!(
        cycle.to_string(),
        "dependency cycle prevents compilation; blocked targets: a, b"
    );
    let project = Project::new(ModulePath::root());
    assert_eq!(
        Compiler::new().compile(&project, id(ModulePath::root(), "x")),
        Err(CompileError::TargetNotFound(id(ModulePath::root(), "x")))
    );
}

#[test]
fn compiling_renders_the_plan_and_fails_where_planning_fails() {
    let project = healthy_project();
    let root = id(ModulePath::root(), "finish");
    let compiler = Compiler::new();
    let plan = compiler.plan(&project, root.duplicate()).unwrap();
    let again = compiler.plan(&project, root.duplicate()).unwrap();
    assert_eq!(plan, again);
    assert_eq!(
        compiler.compile(&project, root).unwrap(),
        DefaultMarkdownRenderer::new().render(&plan)
    );
    let missing = id(ModulePath::root(), "absent");
    assert_eq!(
        compiler.compile(&project, missing.duplicate()).unwrap_err(),
        compiler.plan(&project, missing).unwrap_err()
    );
}

#[test]
fn the_first_missing_target_in_dependency_order_is_reported() {
    let root = ModulePath::root();
    let mut module = Module::new(root.duplicate());
    module
        .add_target(target(
            root.duplicate(),
            "finish",
            vec![id(root.duplicate(), "middle"), id(root.duplicate(), "absent_late")],
        ))
        .unwrap();
    module
        .add_target(target(root.duplicate(), "middle", vec![id(root.duplicate(), "absent_early")]))
        .unwrap();
    let mut project = Project::new(ModulePath::root());
    project.add_module(module).unwrap();
    let compiler = Compiler::new();
    let expected = CompileError::TargetNotFound(id(root.duplicate(), "absent_early"));
    assert_eq!(compiler.plan(&project, id(root.duplicate(), "finish")).unwrap_err(), expected);
    assert_eq!(compiler.compile(&project, id(root, "finish")).unwrap_err(), expected);
}
