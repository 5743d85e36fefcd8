//! Domain rule violations.

use vstd::prelude::*;

verus! {

/// The closed set of domain validation failures.
#[derive(Debug, Clone, PartialEq, Eq)]
pub enum DomainError {
    CannotPublishEmptyPost,
    AlreadyPublished,
    EmptySlug,
    SlugTooLong { max: usize, actual: usize },
    InvalidSlugCharacters,
    InvalidEmail,
    EmptyTitle,
    TitleTooLong { max: usize, actual: usize },
    EmptyBody,
    PasswordTooShort { min: usize },
    PasswordTooWeak,
    UserAlreadyExists,
    InvalidCredentials,
}

} // verus!
