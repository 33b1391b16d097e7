use makedown::compiler::{Compiler, DefaultMarkdownRenderer};
use makedown::model::{Module, ModulePath, Project, Spec, Target, TargetId};
use makedown::render::{render_context, render_plan};

fn small_project() -> Project {
    let root = ModulePath::root();
    let common = ModulePath::parse("common").unwrap();
    let mut base = Target::new(common.duplicate(), "base");
    base.set_description("Base work.");
    base.add_specification(Spec::new("base is done"));
    let mut finish = Target::new(root.duplicate(), "finish");
    finish.add_dependency(TargetId::new(common.duplicate(), "base"));
    let mut common_module = Module::new(common);
    common_module.add_target(base).unwrap();
    let mut root_module = Module::new(root);
    root_module.add_target(finish).unwrap();
    let mut project = Project::new(ModulePath::root());
    project.add_module(root_module).unwrap();
    project.add_module(common_module).unwrap();
    project
}

fn plan() -> makedown::compiler::CompilationPlan {
    Compiler::new()
        .plan(&small_project(), TargetId::new(ModulePath::root(), "finish"))
        .unwrap()
}

#[test]
fn the_context_is_the_plan_object_as_json() {
    let plan = plan();
    assert_eq!(
        render_context(&plan),
        "{\"plan\":{\"root_target\":\"finish\",\"stages\":[{\"index\":1,\"targets\":[{\"id\":\"common::base\",\"name\":\"base\",\"dependencies\":[],\"description\":\"Base work.\",\"specifications\":[\"base is done\"]}]},{\"index\":2,\"targets\":[{\"id\":\"finish\",\"name\":\"finish\",\"dependencies\":[\"common::base\"],\"description\":\"\",\"specifications\":[]}]}]}}"
    );
}

#[test]
fn quotes_backslashes_and_control_characters_are_escaped() {
    let mut base = Target::new(ModulePath::root(), "quoted");
    base.set_description("say \"hi\"\\\n\tdone");
    let mut module = Module::new(ModulePath::root());
    module.add_target(base).unwrap();
    let mut project = Project::new(ModulePath::root());
    project.add_module(module).unwrap();
    let plan = Compiler::new().plan(&project, TargetId::new(ModulePath::root(), "quoted")).unwrap();
    assert!(render_context(&plan).contains("\"description\":\"say \\\"hi\\\"\\\\\\u000a\\u0009done\""));
    let text = render_plan(&plan, Some("{% for stage in plan.stages %}{% for target in stage.targets %}{{ target.description }}{% endfor %}{% endfor %}")).ok().unwrap();
    assert_eq!(text, "say \"hi\"\\\n\tdone");
}

#[test]
fn without_a_template_the_default_markdown_is_rendered() {
    let plan = plan();
    assert_eq!(render_plan(&plan, None).ok().unwrap(), DefaultMarkdownRenderer::new().render(&plan));
}

#[test]
fn templates_see_the_plan_object() {
    let plan = plan();
    let source = "{{ plan.root_target }}|{% for stage in plan.stages %}{{ stage.index }}:{% for target in stage.targets %}{{ target.id }}/{{ target.name }}/{{ target.dependencies|join(',') }}/{{ target.description }}/{{ target.specifications|length }};{% endfor %}{% endfor %}";
    let text = render_plan(&plan, Some(source)).ok().unwrap();
    assert_eq!(text, "finish|1:common::base/base//Base work./1;2:finish/finish/common::base//0;");
}

#[test]
fn undefined_fields_and_syntax_errors_fail() {
    let plan = plan();
    let undefined = render_plan(&plan, Some("{{ plan.missing.field }}")).err().unwrap();
    assert!(!undefined.2.is_empty());
    let broken = render_plan(&plan, Some("line\n{% for %}")).err().unwrap();
    assert_eq!(broken.0, Some(2));
    assert!(render_plan(&plan, Some("{% include 'other.md' %}")).is_err());
}

const DOCUMENTED_TEMPLATE: &str = "# 实施计划：{{ plan.root_target }}\n\n{% for stage in plan.stages %}\n## 阶段 {{ stage.index }}\n\n本阶段的目标可以并行实施；进入下一阶段前应完成验收。\n{% for target in stage.targets %}\n### 目标 `{{ target.id }}`\n\n{% if target.dependencies %}\n前置目标：{% for dependency in target.dependencies %}`{{ dependency }}` {% endfor %}\n{% endif %}\n\n{{ target.description or '（未提供描述）' }}\n\n{% for specification in target.specifications %}\n- [ ] {{ specification }}\n{% else %}\n（未提供验收规格）\n{% endfor %}\n{% endfor %}\n{% endfor %}\n";

#[test]
fn the_documented_template_passes_static_validation_and_renders() {
    assert!(makedown::template::diagnostics(DOCUMENTED_TEMPLATE).is_empty());
    let rendered = render_plan(&plan(), Some(DOCUMENTED_TEMPLATE)).unwrap();
    assert!(rendered.starts_with("# 实施计划：finish\n"));
    assert!(rendered.contains("## 阶段 2"));
    assert!(rendered.contains("### 目标 `common::base`"));
    assert!(rendered.contains("前置目标：`common::base` "));
    assert!(rendered.contains("- [ ] base is done"));
    assert!(rendered.contains("（未提供描述）"));
    assert!(rendered.contains("（未提供验收规格）"));
}

#[test]
fn templates_that_run_too_long_fail() {
    let source = "{% for i in range(100000) %}{% for j in range(100000) %}{{ j }}{% endfor %}{% endfor %}";
    let error = render_plan(&plan(), Some(source)).unwrap_err();
    assert_eq!(error.2, "engine ran out of fuel");
}
