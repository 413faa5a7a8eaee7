//! Where a project keeps its per-user files, as `directories` and std's
//! paths place them, each place tagged with how it was made.
use vstd::prelude::*;

use directories::ProjectDirs;
use std::path::PathBuf;

verus! {

#[verifier::external_type_specification]
#[verifier::external_body]
pub struct ExProjectDirs(directories::ProjectDirs);

/// A project's (qualifier, organization, application) names.
pub type ProjectNames = (Seq<char>, Seq<char>, Seq<char>);

/// The per-user directories of a project.
pub struct ProjectPlace {
    dirs: ProjectDirs,
    names: Ghost<ProjectNames>,
}

impl ProjectPlace {
    /// The names the directories were asked for with.
    pub closed spec fn project(&self) -> ProjectNames {
        self.names@
    }
}

/// A project's configuration directory.
pub struct ProjectConfigDir {
    path: PathBuf,
    names: Ghost<ProjectNames>,
}

impl ProjectConfigDir {
    /// The names of the project whose configuration directory this is.
    pub closed spec fn project(&self) -> ProjectNames {
        self.names@
    }
}

/// A path made by joining a name onto a project's configuration directory.
pub struct ProjectFile {
    path: PathBuf,
    names: Ghost<ProjectNames>,
    joined: Ghost<Seq<char>>,
}

impl ProjectFile {
    /// The names of the project whose configuration directory holds the path.
    pub closed spec fn project(&self) -> ProjectNames {
        self.names@
    }

    /// The name joined onto the configuration directory.
    pub closed spec fn joined_name(&self) -> Seq<char> {
        self.joined@
    }

    pub closed spec fn location(&self) -> PathBuf {
        self.path
    }

    pub fn path(&self) -> (r: &PathBuf)
        ensures
            *r == self.location(),
    {
        &self.path
    }
}

/// `directories::ProjectDirs::from`: the per-user directories of the project
/// with these names, when the platform has a home directory to put them in.
/// Claimed: the directories are those of the names given. Whether there are
/// any depends on the environment and is not stated.
#[verifier::external_body]
pub fn project_dirs(qualifier: &str, organization: &str, application: &str) -> (r: Option<ProjectPlace>)
    ensures
        r matches Some(p) ==> p.project() == (qualifier@, organization@, application@),
{
    match ProjectDirs::from(qualifier, organization, application) {
        Some(dirs) => Some(ProjectPlace { dirs, names: Ghost((qualifier@, organization@, application@)) }),
        None => None,
    }
}

/// `directories::ProjectDirs::config_dir`: the project's configuration
/// directory, which the platform chooses. Claimed: it is the directory of
/// the same project.
#[verifier::external_body]
pub fn config_dir(place: &ProjectPlace) -> (r: ProjectConfigDir)
    ensures
        r.project() == place.project(),
{
    ProjectConfigDir { path: place.dirs.config_dir().to_path_buf(), names: Ghost(place.names@) }
}

/// `std::path::Path::join`: the directory's path with `name` joined onto it.
/// Claimed: the result is that join, in the same project's directory.
#[verifier::external_body]
pub fn join_path(dir: &ProjectConfigDir, name: &str) -> (r: ProjectFile)
    ensures
        r.project() == dir.project(),
        r.joined_name() == name@,
{
    ProjectFile { path: dir.path.join(name), names: Ghost(dir.names@), joined: Ghost(name@) }
}

} // verus!
