use projectstructure::config::{parse_config, ProjectConfig};
use projectstructure::snapshot::{plan_command, save_project_structure, update_project_structure, Command, Plan, Project};
use projectstructure::tree::{Node, Structure};

fn scan(names: &[&str]) -> Structure {
    Structure {
        root: ".".to_string(),
        children: names.iter().map(|n| Node::File(format!("./{}", n))).collect(),
    }
}

fn listed(s: &projectstructure::snapshot::ProjectStructure) -> Vec<(String, Vec<String>)> {
    s.structure.entries.iter().map(|e| (e.dir.clone(), e.files.clone())).collect()
}

#[test]
fn new_record_carries_metadata_and_tags() {
    let p = Project::from_config(parse_config("{\"name\":\"n\"}", "json"));
    assert_eq!(p.name, "n");
    assert_eq!(p.version, "1.0.0");
    assert_eq!(p.tags, vec!["project".to_string(), "folder".to_string()]);
    let rec = save_project_structure(p, &scan(&["a.txt"]));
    assert_eq!(listed(&rec), vec![(".".to_string(), vec!["a.txt".to_string()])]);
}

#[test]
fn update_keeps_metadata_and_replaces_structure() {
    let prior = save_project_structure(
        Project {
            name: "kept".to_string(),
            version: "7".to_string(),
            description: "d".to_string(),
            tags: vec!["x".to_string()],
        },
        &scan(&["old.txt"]),
    );
    let rec = update_project_structure(prior, &scan(&["new.txt"]));
    assert_eq!(rec.project.name, "kept");
    assert_eq!(rec.project.version, "7");
    assert_eq!(rec.project.description, "d");
    assert_eq!(rec.project.tags, vec!["x".to_string()]);
    assert_eq!(listed(&rec), vec![(".".to_string(), vec!["new.txt".to_string()])]);
}

#[test]
fn update_after_create_is_unchanged() {
    let p = Project::from_config(ProjectConfig::default());
    let created = save_project_structure(p, &scan(&["a", "b"]));
    let before = listed(&created);
    let updated = update_project_structure(created, &scan(&["a", "b"]));
    assert_eq!(listed(&updated), before);
}

#[test]
fn init_plans() {
    assert_eq!(plan_command(&Command::Init { force: false }, true, true), Plan::AlreadyInitialized);
    assert_eq!(plan_command(&Command::Init { force: false }, true, false), Plan::AlreadyInitialized);
    assert_eq!(plan_command(&Command::Init { force: true }, true, true), Plan::Create);
    assert_eq!(plan_command(&Command::Init { force: false }, false, true), Plan::Create);
    assert_eq!(plan_command(&Command::Init { force: true }, false, false), Plan::NotADirectory);
}

#[test]
fn update_plans() {
    assert_eq!(plan_command(&Command::Update, true, true), Plan::Refresh);
    assert_eq!(plan_command(&Command::Update, false, true), Plan::Create);
    assert_eq!(plan_command(&Command::Update, true, false), Plan::NotADirectory);
    assert_eq!(plan_command(&Command::Update, false, false), Plan::NotADirectory);
}
