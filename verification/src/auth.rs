//! The signed-in user, as the pages see it.
use vstd::prelude::*;

use crate::dto::opt_view;

verus! {

/// The user a session belongs to.
#[derive(Debug, Clone, PartialEq)]
pub struct AuthUserDto {
    pub id: String,
    pub display_name: String,
    pub email: Option<String>,
    pub image: Option<String>,
    pub onboarded: bool,
}

/// What is known of the current user: still loading, nobody signed in, or
/// the signed-in user.
#[derive(Debug, Clone, PartialEq)]
pub enum AuthUserState {
    Loading,
    Guest,
    Authenticated(AuthUserDto),
}

impl AuthUserState {
    /// Whether the session is still being looked up.
    pub fn is_loading(&self) -> (r: bool)
        ensures
            r == (*self is Loading),
    {
        match self {
            AuthUserState::Loading => true,
            _ => false,
        }
    }

    /// Whether nobody is signed in.
    pub fn is_guest(&self) -> (r: bool)
        ensures
            r == (*self is Guest),
    {
        match self {
            AuthUserState::Guest => true,
            _ => false,
        }
    }

    /// Whether a user is signed in.
    pub fn is_authenticated(&self) -> (r: bool)
        ensures
            r == (*self is Authenticated),
    {
        match self {
            AuthUserState::Authenticated(_) => true,
            _ => false,
        }
    }

    /// The signed-in user, if any.
    pub fn user(&self) -> (out: Option<&AuthUserDto>)
        ensures
            match *self {
                AuthUserState::Authenticated(u) => out == Some(&u),
                _ => out is None,
            },
    {
        match self {
            AuthUserState::Authenticated(user) => Some(user),
            _ => None,
        }
    }

    /// The state that a session lookup stands for: `None` while it runs,
    /// `Some(None)` when nobody is signed in.
    pub fn from_resource(value: Option<Option<AuthUserDto>>) -> (out: Self)
        ensures
            match value {
                None => out is Loading,
                Some(None) => out is Guest,
                Some(Some(u)) => out == AuthUserState::Authenticated(u),
            },
    {
        match value {
            None => AuthUserState::Loading,
            Some(None) => AuthUserState::Guest,
            Some(Some(user)) => AuthUserState::Authenticated(user),
        }
    }
}

/// A user as the database stores it, with the columns a session needs.
#[derive(Debug, Clone, PartialEq)]
pub struct UserRecord {
    pub id: String,
    pub name: Option<String>,
    pub email: Option<String>,
    pub image: Option<String>,
    pub onboarded: bool,
}

/// The name shown for a user: the name, else the e-mail address, else a
/// generic label.
pub open spec fn display_name_of(name: Option<Seq<char>>, email: Option<Seq<char>>) -> Seq<char> {
    match name {
        Some(n) => n,
        None => match email {
            Some(e) => e,
            None => "GitHub user"@,
        },
    }
}

/// The name shown for a user with the given name and e-mail address.
pub fn display_name(name: &Option<String>, email: &Option<String>) -> (out: String)
    ensures
        out@ == display_name_of(opt_view(*name), opt_view(*email)),
{
    match name {
        Some(n) => n.clone(),
        None => match email {
            Some(e) => e.clone(),
            None => "GitHub user".to_string(),
        },
    }
}

/// The session's view of a stored user.
pub fn auth_user_from_record(user: UserRecord) -> (out: AuthUserDto)
    ensures
        out.id@ == user.id@,
        out.display_name@ == display_name_of(opt_view(user.name), opt_view(user.email)),
        opt_view(out.email) == opt_view(user.email),
        opt_view(out.image) == opt_view(user.image),
        out.onboarded == user.onboarded,
{
    let display_name = display_name(&user.name, &user.email);
    AuthUserDto {
        id: user.id,
        display_name,
        email: user.email,
        image: user.image,
        onboarded: user.onboarded,
    }
}

/// The character shown in place of a missing avatar: the first of the name,
/// else `?`.
pub open spec fn avatar_initial_of(name: Option<Seq<char>>) -> char {
    match name {
        Some(n) if n.len() > 0 => n[0],
        _ => '?',
    }
}

/// The character shown in place of a missing avatar.
pub fn avatar_initial(name: Option<&str>) -> (c: char)
    ensures
        c == avatar_initial_of(
            match name {
                Some(n) => Some(n@),
                None => None,
            },
        ),
{
    match name {
        Some(n) => {
            let cs = crate::text::chars_of(n);
            if cs.len() > 0 {
                cs[0]
            } else {
                '?'
            }
        },
        None => '?',
    }
}

/// The alternative text of an avatar: the name, else a generic label.
pub fn avatar_alt(name: Option<&str>) -> (out: String)
    ensures
        out@ == match name {
            Some(n) => n@,
            None => "User avatar"@,
        },
{
    match name {
        Some(n) => n.to_string(),
        None => "User avatar".to_string(),
    }
}

} // verus!
