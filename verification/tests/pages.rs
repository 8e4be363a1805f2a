use bitefluent::auth::{AuthUserDto, AuthUserState};
use bitefluent::dto::ProjectDto;
use bitefluent::pages::{
    app_view, dashboard_view, onboarding_entry_view, onboarding_project_path, project_path,
    start_redirect, AppView, DashboardView, OnboardingEntryView,
};

fn user(onboarded: bool) -> AuthUserDto {
    AuthUserDto {
        id: "u1".to_string(),
        display_name: "Ada".to_string(),
        email: None,
        image: None,
        onboarded,
    }
}

fn project(id: &str) -> ProjectDto {
    ProjectDto {
        id: id.to_string(),
        name: "site".to_string(),
        slug: "site".to_string(),
        repository_full_name: "ada/site".to_string(),
        repository_owner: "ada".to_string(),
        repository_name: "site".to_string(),
        default_branch: "main".to_string(),
        source_locale: None,
        locales_path: None,
    }
}

#[test]
fn app_view_for_each_state() {
    assert!(matches!(app_view(AuthUserState::Loading), AppView::Loading));
    match app_view(AuthUserState::Guest) {
        AppView::Redirect(path) => assert_eq!(path, "/"),
        _ => panic!("a guest is sent home"),
    }
    match app_view(AuthUserState::Authenticated(user(true))) {
        AppView::Dashboard(u) => assert_eq!(u, user(true)),
        _ => panic!("an onboarded user sees the dashboard"),
    }
    match app_view(AuthUserState::Authenticated(user(false))) {
        AppView::Onboarding(u) => assert_eq!(u, user(false)),
        _ => panic!("a new user is onboarded"),
    }
}

#[test]
fn onboarding_entry_redirects_to_open_project() {
    let loading: Option<Result<Option<ProjectDto>, String>> = None;
    assert!(matches!(onboarding_entry_view(&loading), OnboardingEntryView::Loading));
    let failed: Option<Result<Option<ProjectDto>, String>> = Some(Err("boom".to_string()));
    assert!(matches!(onboarding_entry_view(&failed), OnboardingEntryView::Onboarding));
    let none: Option<Result<Option<ProjectDto>, String>> = Some(Ok(None));
    assert!(matches!(onboarding_entry_view(&none), OnboardingEntryView::Onboarding));
    let open: Option<Result<Option<ProjectDto>, String>> = Some(Ok(Some(project("p42"))));
    match onboarding_entry_view(&open) {
        OnboardingEntryView::Redirect(path) => assert_eq!(path, "/app/onboarding/p42"),
        _ => panic!("an open onboarding project is resumed"),
    }
}

#[test]
fn dashboard_view_states() {
    let loading: Option<Result<Vec<ProjectDto>, String>> = None;
    assert_eq!(dashboard_view(&loading), DashboardView::Loading);
    let failed: Option<Result<Vec<ProjectDto>, String>> = Some(Err("x".to_string()));
    assert_eq!(dashboard_view(&failed), DashboardView::Failed);
    let empty: Option<Result<Vec<ProjectDto>, String>> = Some(Ok(Vec::new()));
    assert_eq!(dashboard_view(&empty), DashboardView::Empty);
    let some: Option<Result<Vec<ProjectDto>, String>> = Some(Ok(vec![project("p1")]));
    assert_eq!(dashboard_view(&some), DashboardView::Projects);
}

#[test]
fn start_redirects_signed_in_users() {
    assert_eq!(start_redirect(&None), None);
    assert_eq!(start_redirect(&Some(None)), None);
    assert_eq!(start_redirect(&Some(Some(user(true)))), Some("/app".to_string()));
}

#[test]
fn page_paths() {
    assert_eq!(project_path("abc"), "/app/projects/abc");
    assert_eq!(onboarding_project_path("abc"), "/app/onboarding/abc");
}
