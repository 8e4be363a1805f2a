//! Which page the application shows, and where it sends the user.
use vstd::prelude::*;

use crate::auth::{AuthUserDto, AuthUserState};
use crate::dto::ProjectDto;

verus! {

/// What the application area shows for the current user.
pub enum AppView {
    /// The session is still being looked up.
    Loading,
    /// Nobody is signed in: go to this path.
    Redirect(String),
    /// The user's projects.
    Dashboard(AuthUserDto),
    /// The onboarding of a user who has not finished it.
    Onboarding(AuthUserDto),
}

/// What the application area shows for `state`.
pub fn app_view(state: AuthUserState) -> (out: AppView)
    ensures
        match state {
            AuthUserState::Loading => out is Loading,
            AuthUserState::Guest => (match out {
                AppView::Redirect(p) => p@ == "/"@,
                _ => false,
            }),
            AuthUserState::Authenticated(u) => if u.onboarded {
                out == AppView::Dashboard(u)
            } else {
                out == AppView::Onboarding(u)
            },
        },
{
    match state {
        AuthUserState::Loading => AppView::Loading,
        AuthUserState::Guest => AppView::Redirect("/".to_string()),
        AuthUserState::Authenticated(user) => if user.onboarded {
            AppView::Dashboard(user)
        } else {
            AppView::Onboarding(user)
        },
    }
}

/// The path of a project's onboarding page.
pub fn onboarding_project_path(project_id: &str) -> (out: String)
    ensures
        out@ == "/app/onboarding/"@ + project_id@,
{
    let mut out = "/app/onboarding/".to_string();
    out.append(project_id);
    out
}

/// The path of a project's page.
pub fn project_path(project_id: &str) -> (out: String)
    ensures
        out@ == "/app/projects/"@ + project_id@,
{
    let mut out = "/app/projects/".to_string();
    out.append(project_id);
    out
}

/// What the onboarding entry shows.
pub enum OnboardingEntryView {
    /// The lookup of a project in onboarding still runs.
    Loading,
    /// A project is in onboarding: go to this path.
    Redirect(String),
    /// Start onboarding with the choice of a repository.
    Onboarding,
}

/// What the onboarding entry shows, given the lookup of the project whose
/// onboarding is unfinished: a failed lookup starts onboarding anew.
pub fn onboarding_entry_view<E>(project_state: &Option<Result<Option<ProjectDto>, E>>) -> (out: OnboardingEntryView)
    ensures
        match *project_state {
            None => out is Loading,
            Some(Ok(Some(p))) => (match out {
                OnboardingEntryView::Redirect(path) => path@ == "/app/onboarding/"@ + p.id@,
                _ => false,
            }),
            _ => out is Onboarding,
        },
{
    match project_state {
        None => OnboardingEntryView::Loading,
        Some(Ok(Some(project))) => OnboardingEntryView::Redirect(onboarding_project_path(project.id.as_str())),
        _ => OnboardingEntryView::Onboarding,
    }
}

/// What the dashboard shows.
#[derive(Debug, Clone, Copy, PartialEq, Eq, Structural)]
pub enum DashboardView {
    Loading,
    Failed,
    Empty,
    Projects,
}

/// What the dashboard shows, given the lookup of the user's projects.
pub fn dashboard_view<E>(projects_state: &Option<Result<Vec<ProjectDto>, E>>) -> (out: DashboardView)
    ensures
        out == match *projects_state {
            None => DashboardView::Loading,
            Some(Err(_)) => DashboardView::Failed,
            Some(Ok(projects)) => if projects@.len() == 0 {
                DashboardView::Empty
            } else {
                DashboardView::Projects
            },
        },
{
    match projects_state {
        None => DashboardView::Loading,
        Some(Err(_)) => DashboardView::Failed,
        Some(Ok(projects)) => if projects.len() == 0 {
            DashboardView::Empty
        } else {
            DashboardView::Projects
        },
    }
}

/// Where the sign-in page sends a user who is signed in already.
pub fn start_redirect(user_state: &Option<Option<AuthUserDto>>) -> (out: Option<String>)
    ensures
        match *user_state {
            Some(Some(_)) => out matches Some(p) && p@ == "/app"@,
            _ => out is None,
        },
{
    match user_state {
        Some(Some(_)) => Some("/app".to_string()),
        _ => None,
    }
}

} // verus!
