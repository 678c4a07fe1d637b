use cki::skills::{eq_ignore_ascii_case, split_frontmatter, Skill, SkillRegistry};

fn skill(name: &str, body: &str) -> Skill {
    Skill { name: name.into(), description: String::new(), body: body.into(), source: String::new() }
}

#[test]
fn parses_frontmatter_and_body() {
    let skill = Skill::parse(
        "rust-testing.md",
        "---\nname: rust-testing\ndescription: TDD with cargo test\n---\n# Rust Testing\nRun `cargo test` first.",
    );
    assert_eq!(skill.name, "rust-testing");
    assert_eq!(skill.description, "TDD with cargo test");
    assert!(skill.body.starts_with("# Rust Testing"));
    assert!(skill.body.contains("cargo test"));
}

#[test]
fn body_without_frontmatter_still_works() {
    let skill = Skill::parse("notes.md", "# Notes\nJust prose, no frontmatter.");
    assert_eq!(skill.name, "notes");
    assert!(skill.description.is_empty());
    assert!(skill.body.starts_with("# Notes"));
}

#[test]
fn summary_uses_description_when_present() {
    let skill = Skill { name: "x".into(), description: "does thing".into(), body: String::new(), source: String::new() };
    assert_eq!(skill.summary(), "x - does thing");
    assert_eq!(Skill { description: String::new(), ..skill }.summary(), "x");
}

#[test]
fn missing_directory_is_silently_ignored() {
    // A directory that cannot be read contributes no skills.
    let mut reg = SkillRegistry::new();
    reg.load_skills(Vec::new());
    assert!(reg.is_empty());
}

#[test]
fn registry_loads_and_dedups_with_project_precedence() {
    let mut reg = SkillRegistry::new();
    // Project skills are found before user skills.
    reg.load_skills(vec![
        skill("shared", "project-version-body"),
        skill("only-proj", "proj"),
        skill("Shared", "user-version-body"),
    ]);
    assert_eq!(reg.get("shared").unwrap().body, "project-version-body");
    assert!(reg.get("only-proj").is_some());
    assert!(reg.get("missing").is_none());
    let names: Vec<&str> = reg.list().iter().map(|s| s.name.as_str()).collect();
    assert_eq!(names, vec!["only-proj", "shared"]);
}

#[test]
fn frontmatter_edge_cases() {
    assert_eq!(split_frontmatter("\u{feff}---\nname: a\n---\nbody"), ("name: a".to_string(), "body".to_string()));
    assert_eq!(split_frontmatter("---\r\nname: a\r\n---\r\nbody"), ("name: a".to_string(), "\r\nbody".to_string()));
    assert_eq!(split_frontmatter("---\nname: a\n---"), ("name: a".to_string(), String::new()));
    assert_eq!(split_frontmatter("---\nname: a"), (String::new(), "---\nname: a".to_string()));
    assert_eq!(split_frontmatter("plain"), (String::new(), "plain".to_string()));
}

#[test]
fn frontmatter_keys_and_quotes() {
    let s = Skill::parse("dir/file.name.md", "---\nname: \"\"\ndescription: 'quoted'\nname: 'real'\n---\n  text  ");
    assert_eq!(s.name, "real");
    assert_eq!(s.description, "quoted");
    assert_eq!(s.body, "text");
    assert_eq!(s.source, "dir/file.name.md");
    let t = Skill::parse("dir/file.name.md", "---\nname: \"\"\n---\n");
    assert_eq!(t.name, "file.name");
    assert!(eq_ignore_ascii_case("RuSt", "rust"));
    assert!(!eq_ignore_ascii_case("rust", "rusty"));
}
