use makedown::config::{
    check_profile, check_relative_path, is_valid_profile_name, parse_qualified, BuildConfig,
    BuildProfile, ProjectConfig,
};
use makedown::model::{ModulePath, TargetId};

fn profile(target: &str, output: &str) -> BuildProfile {
    BuildProfile::new(target.to_owned(), output.to_owned(), None)
}

fn config(version: u32, default: Option<&str>, profiles: Vec<(&str, BuildProfile)>) -> ProjectConfig {
    ProjectConfig::new(
        version,
        BuildConfig::new(
            default.map(str::to_owned),
            profiles
                .into_iter()
                .map(|(name, p)| (name.to_owned(), p))
                .collect(),
        ),
    )
}

#[test]
fn the_default_profile_is_selected_when_no_name_is_given() {
    let c = config(1, Some("release"), vec![("release", profile("publish", "dist/out.md"))]);
    assert!(c.check_settings().is_ok());
    let (name, chosen) = c.profile(None).unwrap();
    assert_eq!(name, "release");
    assert_eq!(chosen.target_id().unwrap().name(), "publish");
    assert_eq!(chosen.output(), "dist/out.md");
    assert_eq!(chosen.template(), None);
    assert!(c.profile(Some("other")).is_none());
}

#[test]
fn settings_problems_are_reported() {
    assert_eq!(
        config(2, None, vec![]).check_settings(),
        Err("unsupported version 2; expected 1".to_owned())
    );
    assert!(config(1, None, vec![]).check_settings().is_ok());
    assert!(config(1, None, vec![]).profile(None).is_none());
    assert_eq!(
        config(1, None, vec![("main", profile("publish", "dist/out.md"))]).check_settings(),
        Err("[build] default is required when profiles exist".to_owned())
    );
    assert_eq!(
        config(1, Some("x"), vec![("main", profile("publish", "dist/out.md"))]).check_settings(),
        Err("default profile `x` does not exist".to_owned())
    );
}

#[test]
fn profiles_need_valid_names_and_targets() {
    assert!(is_valid_profile_name("main"));
    assert!(!is_valid_profile_name(""));
    assert!(!is_valid_profile_name("a.b"));
    assert!(!is_valid_profile_name("a b"));
    assert!(check_profile("main", &profile("guide::write", "dist/x.md")).is_ok());
    assert_eq!(
        check_profile("a.b", &profile("x", "y")),
        Err("invalid profile name `a.b`".to_owned())
    );
    assert_eq!(
        check_profile("main", &profile("bad name", "y")),
        Err("[build.main] `bad name` is not a valid target name".to_owned())
    );
}

#[test]
fn qualified_targets_are_split_on_double_colons() {
    assert_eq!(
        parse_qualified("guide::write"),
        Ok(TargetId::new(ModulePath::parse("guide").unwrap(), "write"))
    );
    assert_eq!(
        parse_qualified("a::b c::x"),
        Err("`b c` is not a valid module path segment".to_owned())
    );
}

#[test]
fn configured_paths_stay_inside_the_project() {
    assert!(check_relative_path("dist/plan.md").is_ok());
    assert!(check_relative_path("a/../b").is_ok());
    assert_eq!(
        check_relative_path("../outside.md"),
        Err("path escapes the project directory".to_owned())
    );
    assert_eq!(
        check_relative_path("/tmp/other.md"),
        Err("expected a nonempty project-relative path".to_owned())
    );
    assert_eq!(
        check_relative_path(""),
        Err("expected a nonempty project-relative path".to_owned())
    );
    assert_eq!(
        check_relative_path("a/.."),
        Err("path must refer to a file inside the project".to_owned())
    );
    assert_eq!(
        check_relative_path("./."),
        Err("path must refer to a file inside the project".to_owned())
    );
}

#[test]
fn profiles_are_listed_by_name_and_a_later_entry_replaces_an_earlier_one() {
    let build = BuildConfig::new(
        Some("main".to_owned()),
        vec![
            ("main".to_owned(), profile("publish", "dist/first.md")),
            ("draft".to_owned(), profile("publish", "dist/draft.md")),
            ("main".to_owned(), profile("publish", "dist/second.md")),
        ],
    );
    let names: Vec<&str> = build.profiles().iter().map(|(name, _)| name.as_str()).collect();
    assert_eq!(names, vec!["draft", "main"]);
    assert_eq!(build.profiles()[1].1.output(), "dist/second.md");
    assert_eq!(build.default_name(), Some("main"));
}
