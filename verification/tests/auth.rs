use bitefluent::auth::{
    auth_user_from_record, avatar_alt, avatar_initial, display_name, AuthUserDto, AuthUserState,
    UserRecord,
};

fn user(onboarded: bool) -> AuthUserDto {
    AuthUserDto {
        id: "u1".to_string(),
        display_name: "Ada".to_string(),
        email: Some("ada@example.com".to_string()),
        image: None,
        onboarded,
    }
}

#[test]
fn auth_state_from_resource_loading() {
    let state = AuthUserState::from_resource(None);
    assert!(state.is_loading());
    assert!(!state.is_guest());
    assert!(!state.is_authenticated());
    assert!(state.user().is_none());
}

#[test]
fn auth_state_from_resource_guest() {
    let state = AuthUserState::from_resource(Some(None));
    assert!(!state.is_loading());
    assert!(state.is_guest());
    assert!(!state.is_authenticated());
    assert!(state.user().is_none());
}

#[test]
fn auth_state_from_resource_authenticated() {
    let state = AuthUserState::from_resource(Some(Some(user(true))));
    assert!(!state.is_loading());
    assert!(!state.is_guest());
    assert!(state.is_authenticated());
    assert_eq!(state.user(), Some(&user(true)));
}

#[test]
fn display_name_prefers_name_then_email() {
    let name = Some("Ada Lovelace".to_string());
    let email = Some("ada@example.com".to_string());
    assert_eq!(display_name(&name, &email), "Ada Lovelace");
    assert_eq!(display_name(&None, &email), "ada@example.com");
    assert_eq!(display_name(&None, &None), "GitHub user");
}

#[test]
fn auth_user_from_record_copies_columns() {
    let record = UserRecord {
        id: "u7".to_string(),
        name: None,
        email: Some("grace@example.com".to_string()),
        image: Some("https://example.com/a.png".to_string()),
        onboarded: false,
    };
    let dto = auth_user_from_record(record);
    assert_eq!(dto.id, "u7");
    assert_eq!(dto.display_name, "grace@example.com");
    assert_eq!(dto.email, Some("grace@example.com".to_string()));
    assert_eq!(dto.image, Some("https://example.com/a.png".to_string()));
    assert!(!dto.onboarded);
}

#[test]
fn avatar_fallbacks() {
    assert_eq!(avatar_initial(Some("Ada")), 'A');
    assert_eq!(avatar_initial(Some("")), '?');
    assert_eq!(avatar_initial(None), '?');
    assert_eq!(avatar_initial(Some("élan")), 'é');
    assert_eq!(avatar_alt(Some("Ada")), "Ada");
    assert_eq!(avatar_alt(None), "User avatar");
}
