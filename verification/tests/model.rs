use makedown::model::{
    AddModuleError, AddTargetError, Module, ModulePath, ModulePathError, Project,
    PublishTargetError, Spec, Target, TargetId, Visibility,
};

fn path(path: &str) -> ModulePath {
    ModulePath::parse(path).unwrap()
}

#[test]
fn module_path_is_a_normalized_relative_logical_path() {
    let logical = path("catalog::api");

    assert_eq!(logical.segments(), &["catalog", "api"]);
    assert_eq!(logical.to_string(), "catalog::api");
    assert!(!logical.is_root());
    assert!(ModulePath::root().is_root());
}

#[test]
fn module_path_rejects_ambiguous_or_invalid_paths() {
    assert_eq!(ModulePath::parse(""), Err(ModulePathError::EmptyPath));
    assert_eq!(
        ModulePath::parse("catalog::::api"),
        Err(ModulePathError::InvalidSegment("".to_owned()))
    );
    assert_eq!(
        ModulePath::parse("catalog::api docs"),
        Err(ModulePathError::InvalidSegment("api docs".to_owned()))
    );
    assert_eq!(
        ModulePath::parse("catalog::../secret"),
        Err(ModulePathError::InvalidSegment("../secret".to_owned()))
    );
}

#[test]
fn target_keeps_its_description_dependencies_and_specifications() {
    let mut target = Target::new(path("guide"), "publish");
    target.append_description("Build the guide.");
    target.append_description("Publish the result.");
    target.add_dependency(TargetId::new(path("guide"), "build"));
    target.add_dependency(TargetId::new(path("guide"), "build"));
    target.add_specification(Spec::new("The guide renders successfully."));

    assert_eq!(target.description(), "Build the guide.\nPublish the result.");
    assert_eq!(target.dependencies(), &[TargetId::new(path("guide"), "build")]);
    assert_eq!(
        target.specifications()[0].content(),
        "The guide renders successfully."
    );
}

#[test]
fn module_rejects_duplicate_target_names_without_replacing_the_original() {
    let mut module = Module::new(path("guide"));
    module.add_target(Target::new(path("guide"), "build")).unwrap();

    let error = module
        .add_target(Target::new(path("guide"), "build"))
        .unwrap_err();

    assert_eq!(error, AddTargetError::DuplicateName("build".to_owned()));
    assert_eq!(
        module.target("build").unwrap().id(),
        &TargetId::new(path("guide"), "build")
    );
}

#[test]
fn module_exposes_targets_and_deduplicates_includes() {
    let mut module = Module::new(path("guide"));
    let included_target = TargetId::new(path("common"), "lint");
    module.add_include(included_target.duplicate());
    module.add_include(included_target.duplicate());
    module.add_target(Target::new(path("guide"), "build")).unwrap();
    module
        .target_mut("build")
        .unwrap()
        .set_description("Build the guide.");

    assert_eq!(module.namespace(), &path("guide"));
    assert_eq!(module.includes(), &[included_target]);
    assert_eq!(module.targets().len(), 1);
    assert_eq!(
        module.target("build").unwrap().description(),
        "Build the guide."
    );
    assert_eq!(Spec::new("content").into_content(), "content");
}

#[test]
fn targets_are_private_until_the_module_publishes_them() {
    let mut module = Module::new(path("guide"));
    module.add_target(Target::new(path("guide"), "build")).unwrap();
    module.add_target(Target::new(path("guide"), "draft")).unwrap();

    module.publish_target("build").unwrap();

    assert!(module.target("build").unwrap().is_public());
    assert_eq!(
        module.target("draft").unwrap().visibility(),
        Visibility::Private
    );
    assert_eq!(
        module
            .public_targets()
            .into_iter()
            .map(|t| t.name())
            .collect::<Vec<_>>(),
        ["build"]
    );
}

#[test]
fn publishing_an_unknown_target_fails() {
    let mut module = Module::new(path("guide"));

    let error = module.publish_target("build").unwrap_err();

    assert_eq!(error, PublishTargetError::TargetNotFound("build".to_owned()));
}

#[test]
fn module_rejects_a_target_from_another_namespace() {
    let mut module = Module::new(path("guide"));

    let error = module
        .add_target(Target::new(path("other"), "build"))
        .unwrap_err();

    assert_eq!(
        error,
        AddTargetError::NamespaceMismatch {
            module: path("guide"),
            target: TargetId::new(path("other"), "build"),
        }
    );
}

#[test]
fn project_models_an_entry_module_without_assuming_its_file_name() {
    let mut project = Project::new(path("application"));
    project.add_module(Module::new(path("application"))).unwrap();
    project.add_module(Module::new(path("library"))).unwrap();
    project
        .root_mut()
        .unwrap()
        .add_target(Target::new(path("application"), "run"))
        .unwrap();
    project
        .module_mut(&path("library"))
        .unwrap()
        .add_target(Target::new(path("library"), "serve"))
        .unwrap();

    assert_eq!(project.root_module(), &path("application"));
    assert_eq!(project.modules().len(), 2);
    assert_eq!(project.root().unwrap().target("run").unwrap().name(), "run");
    assert_eq!(
        project
            .module(&path("library"))
            .unwrap()
            .target("serve")
            .unwrap()
            .name(),
        "serve"
    );
}

#[test]
fn project_rejects_duplicate_module_namespaces() {
    let mut project = Project::new(path("application"));
    project.add_module(Module::new(path("application"))).unwrap();

    let error = project
        .add_module(Module::new(path("application")))
        .unwrap_err();

    assert_eq!(error, AddModuleError::DuplicateNamespace(path("application")));
}

#[test]
fn error_messages_name_the_offending_items() {
    assert_eq!(
        ModulePathError::EmptyPath.to_string(),
        "a module path cannot be empty"
    );
    assert_eq!(
        ModulePathError::InvalidSegment("a b".to_owned()).to_string(),
        "`a b` is not a valid module path segment"
    );
    assert_eq!(
        AddTargetError::DuplicateName("build".to_owned()).to_string(),
        "target `build` already exists"
    );
    assert_eq!(
        PublishTargetError::TargetNotFound("build".to_owned()).to_string(),
        "target `build` does not exist"
    );
    assert_eq!(
        AddModuleError::DuplicateNamespace(path("app")).to_string(),
        "module `app` already exists"
    );
}

#[test]
fn path_parse_and_display_round_trip() {
    for text in ["a", "catalog::api", "org::product::api::handler"] {
        assert_eq!(path(text).to_string(), text);
    }
    assert_eq!(ModulePath::root().to_string(), "");
}

#[test]
fn target_ids_display_with_their_namespace() {
    assert_eq!(TargetId::new(ModulePath::root(), "build").to_string(), "build");
    assert_eq!(
        TargetId::new(path("catalog::api"), "publish").to_string(),
        "catalog::api::publish"
    );
}

#[test]
fn adding_a_dependency_twice_keeps_one_copy() {
    let mut target = Target::new(path("guide"), "publish");
    target.add_dependency(TargetId::new(path("guide"), "a"));
    target.add_dependency(TargetId::new(path("guide"), "b"));
    target.add_dependency(TargetId::new(path("guide"), "a"));
    assert_eq!(
        target.dependencies(),
        &[
            TargetId::new(path("guide"), "a"),
            TargetId::new(path("guide"), "b")
        ]
    );
}

#[test]
fn targets_are_listed_once_by_name_and_found_by_name() {
    let namespace = ModulePath::parse("guide").unwrap();
    let mut module = Module::new(namespace.duplicate());
    for name in ["write", "build", "review"] {
        module.add_target(Target::new(namespace.duplicate(), name)).unwrap();
    }
    assert!(module.add_target(Target::new(namespace.duplicate(), "build")).is_err());
    let names: Vec<&str> = module.targets().iter().map(|t| t.name()).collect();
    assert_eq!(names, vec!["build", "review", "write"]);
    for name in names {
        assert_eq!(module.target(name).unwrap().name(), name);
        assert!(module.target(name).unwrap().namespace().same(&namespace));
    }
    assert!(module.target("publish").is_none());
}

#[test]
fn changes_made_through_target_mut_are_seen_by_target() {
    let namespace = ModulePath::parse("guide").unwrap();
    let mut module = Module::new(namespace.duplicate());
    module.add_target(Target::new(namespace.duplicate(), "build")).unwrap();
    module.add_target(Target::new(namespace.duplicate(), "write")).unwrap();
    module.target_mut("build").unwrap().set_description("Build the guide.");
    assert_eq!(module.target("build").unwrap().description(), "Build the guide.");
    assert_eq!(module.target("write").unwrap().description(), "");
    assert!(module.target_mut("publish").is_none());
}
