//! The values that the server sends to the pages.
use vstd::prelude::*;

verus! {

/// A project: a repository imported for translation.
#[derive(Debug, Clone, PartialEq)]
pub struct ProjectDto {
    pub id: String,
    pub name: String,
    pub slug: String,
    pub repository_full_name: String,
    pub repository_owner: String,
    pub repository_name: String,
    pub default_branch: String,
    pub source_locale: Option<String>,
    pub locales_path: Option<String>,
}

/// A Fluent file found in a repository, with the locale its path suggests.
#[derive(Debug, Clone, PartialEq)]
pub struct FluentFileDto {
    pub path: String,
    pub locale: Option<String>,
}

/// What a scan of a repository for Fluent files found.
#[derive(Debug, Clone, PartialEq)]
pub struct ProjectScanDto {
    pub project_id: String,
    pub repository_full_name: String,
    pub files: Vec<FluentFileDto>,
    pub directories: Vec<FluentDirectoryDto>,
    pub suggested_locales_path: Option<String>,
    pub suggested_source_locale: Option<String>,
}

/// A directory that holds Fluent files, scored as a translations directory.
#[derive(Debug, Clone, PartialEq)]
pub struct FluentDirectoryDto {
    pub path: String,
    pub files_count: usize,
    pub locales: Vec<String>,
    pub recommended: bool,
    pub score: i32,
}

/// A project with its Fluent files and the keys they hold.
#[derive(Debug, Clone, PartialEq)]
pub struct ProjectWorkspaceDto {
    pub project: ProjectDto,
    pub files: Vec<ProjectWorkspaceFileDto>,
    pub keys: Vec<ProjectWorkspaceKeyDto>,
}

/// A Fluent file of a project's workspace.
#[derive(Debug, Clone, PartialEq)]
pub struct ProjectWorkspaceFileDto {
    pub path: String,
    pub sha: String,
    pub locale: Option<String>,
    pub name: String,
}

/// A message of a Fluent file: its key and its text.
#[derive(Debug, Clone, PartialEq)]
pub struct ProjectWorkspaceKeyDto {
    pub key: String,
    pub file_path: String,
    pub locale: Option<String>,
    pub value: String,
}

/// The outcome of a synchronisation with the repository.
#[derive(Debug, Clone, PartialEq)]
pub struct ProjectSyncDto {
    pub files_count: usize,
    pub keys_count: usize,
    pub translations_count: usize,
    pub locales_count: usize,
    pub last_synced_at: Option<String>,
    pub sync_status: Option<String>,
    pub sync_error: Option<String>,
}

/// A progress report of a running synchronisation.
#[derive(Debug, Clone, PartialEq)]
pub struct ProjectSyncProgressDto {
    pub total_files: usize,
    pub processed_files: usize,
    pub keys_count: usize,
    pub translations_count: usize,
    pub locales_count: usize,
    pub message: String,
    pub done: bool,
    pub error: Option<String>,
}

/// A project as the database stores it, with the columns a page shows.
#[derive(Debug, Clone, PartialEq)]
pub struct ProjectRecord {
    pub id: String,
    pub name: String,
    pub slug: String,
    pub repository_full_name: String,
    pub repository_owner: String,
    pub repository_name: String,
    pub default_branch: String,
    pub source_locale: Option<String>,
    pub locales_path: Option<String>,
}

/// An optional text as an optional character sequence.
pub open spec fn opt_view(o: Option<String>) -> Option<Seq<char>> {
    match o {
        Some(s) => Some(s@),
        None => None,
    }
}

/// The page's view of a stored project: the same columns.
pub fn map_project(project: ProjectRecord) -> (out: ProjectDto)
    ensures
        out.id@ == project.id@,
        out.name@ == project.name@,
        out.slug@ == project.slug@,
        out.repository_full_name@ == project.repository_full_name@,
        out.repository_owner@ == project.repository_owner@,
        out.repository_name@ == project.repository_name@,
        out.default_branch@ == project.default_branch@,
        opt_view(out.source_locale) == opt_view(project.source_locale),
        opt_view(out.locales_path) == opt_view(project.locales_path),
{
    ProjectDto {
        id: project.id,
        name: project.name,
        slug: project.slug,
        repository_full_name: project.repository_full_name,
        repository_owner: project.repository_owner,
        repository_name: project.repository_name,
        default_branch: project.default_branch,
        source_locale: project.source_locale,
        locales_path: project.locales_path,
    }
}

} // verus!
