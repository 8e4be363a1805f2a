//! BiteFluent's verified logic: reading GitHub repositories for Fluent
//! files, synchronising their messages, and the decisions of its pages.
pub mod auth;
pub mod components;
pub mod datetime;
pub mod dto;
pub mod fluent;
pub mod github;
pub mod helpers;
pub mod keyed;
pub mod locale;
pub mod onboarding;
pub mod pages;
pub mod project_view;
pub mod scan;
pub mod sort;
pub mod sync;
pub mod text;
pub mod workspace;
