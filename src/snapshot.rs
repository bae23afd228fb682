//! The persisted record: project metadata with the directory map. Creating
//! one flattens a scan; updating one keeps the metadata and replaces the map.

use vstd::prelude::*;
use crate::config::{ConfigModel, ProjectConfig};
use crate::flatten::{flatten_model, flatten_structure, FlatModel, FlatStructure};
use crate::tree::{Node, Structure};

verus! {

/// Project metadata as stored, with its tags.
#[derive(Debug)]
pub struct Project {
    pub name: String,
    pub version: String,
    pub description: String,
    pub tags: Vec<String>,
}

pub type ProjectModel = (ConfigModel, Seq<Seq<char>>);

impl View for Project {
    type V = ProjectModel;

    open spec fn view(&self) -> ProjectModel {
        ((self.name@, self.version@, self.description@), self.tags@.map_values(|t: String| t@))
    }
}

/// The tags that every new record carries.
pub open spec fn default_tags() -> Seq<Seq<char>> {
    seq!["project"@, "folder"@]
}

impl Project {
    /// A record's metadata from a loaded configuration.
    pub fn from_config(config: ProjectConfig) -> (r: Project)
        ensures
            r@ == (config@, default_tags()),
    {
        let r = Project {
            name: config.name,
            version: config.version,
            description: config.description,
            tags: vec!["project".to_owned(), "folder".to_owned()],
        };
        assert(r.tags@.map_values(|t: String| t@) =~= default_tags());
        r
    }
}

/// A whole record: metadata and directory map.
#[derive(Debug)]
pub struct ProjectStructure {
    pub project: Project,
    pub structure: FlatStructure,
}

pub type SnapshotModel = (ProjectModel, FlatModel);

impl View for ProjectStructure {
    type V = SnapshotModel;

    open spec fn view(&self) -> SnapshotModel {
        (self.project@, self.structure@)
    }
}

impl ProjectStructure {
    pub open spec fn wf(&self) -> bool {
        self.structure.wf()
    }
}

/// The record that creating gives: the metadata and the scan's map.
pub open spec fn created_model(project: ProjectModel, children: Seq<Node>) -> SnapshotModel {
    (project, flatten_model(children))
}

/// The record that updating gives: the prior metadata, the new scan's map.
pub open spec fn updated_model(prior: SnapshotModel, children: Seq<Node>) -> SnapshotModel {
    (prior.0, flatten_model(children))
}

/// Builds a new record from metadata and a scan.
pub fn save_project_structure(project: Project, structure: &Structure) -> (r: ProjectStructure)
    ensures
        r.wf(),
        r@ == created_model(project@, structure.children@),
{
    let flat = flatten_structure(structure);
    ProjectStructure { project, structure: flat }
}

/// Replaces the map of an existing record with the map of a new scan; the
/// metadata is kept as it was.
pub fn update_project_structure(prior: ProjectStructure, structure: &Structure) -> (r:
    ProjectStructure)
    ensures
        r.wf(),
        r@ == updated_model(prior@, structure.children@),
        r.project == prior.project,
{
    let flat = flatten_structure(structure);
    ProjectStructure { project: prior.project, structure: flat }
}

/// Updating keeps the prior metadata exactly and takes its whole map from
/// the new scan, whatever the prior map held.
pub proof fn lemma_update_replaces_structure(prior: SnapshotModel, children: Seq<Node>)
    ensures
        updated_model(prior, children).0 == prior.0,
        updated_model(prior, children).1 == flatten_model(children),
{
}

/// Creating a record and then updating it from the same, unchanged tree
/// gives back the very record that was created.
pub proof fn lemma_update_after_create(project: ProjectModel, children: Seq<Node>)
    ensures
        updated_model(created_model(project, children), children) == created_model(project, children),
{
}

/// A command of the tool.
pub enum Command {
    /// Write a new record; `force` overwrites one that exists.
    Init { force: bool },
    /// Refresh the map of an existing record.
    Update,
}

/// What a command does, given the state of the target.
#[derive(PartialEq, Eq, Structural, Debug, Clone, Copy)]
pub enum Plan {
    /// Scan, and write a new record.
    Create,
    /// Scan, and replace the map of the existing record.
    Refresh,
    /// A record is there and no override was asked for: stop, successfully.
    AlreadyInitialized,
    /// The target is not a directory: stop, successfully.
    NotADirectory,
}

/// Decides what a command does. An update with no record falls back to a
/// plain init; an init finds an existing record before it looks at the
/// target's kind.
pub fn plan_command(command: &Command, record_exists: bool, is_dir: bool) -> (r: Plan)
    ensures
        r == match *command {
            Command::Init { force } => if record_exists && !force {
                Plan::AlreadyInitialized
            } else if !is_dir {
                Plan::NotADirectory
            } else {
                Plan::Create
            },
            Command::Update => if !is_dir {
                Plan::NotADirectory
            } else if record_exists {
                Plan::Refresh
            } else {
                Plan::Create
            },
        },
{
    match command {
        Command::Init { force } => {
            if record_exists && !*force {
                Plan::AlreadyInitialized
            } else if !is_dir {
                Plan::NotADirectory
            } else {
                Plan::Create
            }
        },
        Command::Update => {
            if !is_dir {
                Plan::NotADirectory
            } else if record_exists {
                Plan::Refresh
            } else {
                Plan::Create
            }
        },
    }
}

} // verus!
