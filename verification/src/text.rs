//! Post title and body texts.

use vstd::prelude::*;
use vstd::string::StringExecFns;
use vstd::string::StringSliceAdditionalSpecFns;
use vstd::utf8::encode_utf8;

use crate::errors::DomainError;
use crate::strutil::{trim_spec, trim_str};

verus! {

/// The byte limit on a trimmed title.
pub const TITLE_MAX_BYTES: usize = 200;

/// A post title: trimmed, non-empty, at most 200 bytes.
#[derive(Debug, Clone, PartialEq, Eq)]
pub struct Title(String);

impl View for Title {
    type V = Seq<char>;

    closed spec fn view(&self) -> Seq<char> {
        self.0@
    }
}

impl Title {
    /// Trims and validates: the trimmed input must be non-empty and at
    /// most 200 bytes; the first failed rule names the rejection.
    pub fn new(value: &str) -> (r: Result<Title, DomainError>)
        ensures
            ({
                let t = trim_spec(value@);
                if t.len() == 0 {
                    r == Err::<Title, DomainError>(DomainError::EmptyTitle)
                } else if encode_utf8(t).len() > TITLE_MAX_BYTES as int {
                    r == Err::<Title, DomainError>(
                        DomainError::TitleTooLong {
                            max: TITLE_MAX_BYTES,
                            actual: encode_utf8(t).len() as usize,
                        },
                    )
                } else {
                    r matches Ok(v) && v@ == t
                }
            }),
    {
        let trimmed = trim_str(value);
        if trimmed.is_empty() {
            return Err(DomainError::EmptyTitle);
        }
        let byte_len = trimmed.as_bytes().len();
        if byte_len > TITLE_MAX_BYTES {
            return Err(DomainError::TitleTooLong { max: TITLE_MAX_BYTES, actual: byte_len });
        }
        Ok(Title(String::from_str(trimmed)))
    }

    /// Wraps a value known to be valid, as when reading storage back.
    pub fn from_trusted(value: String) -> (r: Title)
        ensures
            r@ == value@,
    {
        Title(value)
    }

    /// The title as text.
    pub fn as_str(&self) -> (r: &str)
        ensures
            r@ == self@,
    {
        self.0.as_str()
    }
}

/// A post body: any text, kept as given.
#[derive(Debug, Clone, PartialEq, Eq)]
pub struct Body(String);

impl View for Body {
    type V = Seq<char>;

    closed spec fn view(&self) -> Seq<char> {
        self.0@
    }
}

impl Body {
    /// Wraps the text unchanged.
    pub fn new(value: &str) -> (r: Body)
        ensures
            r@ == value@,
    {
        Body(String::from_str(value))
    }

    /// Wraps a value known to be valid, as when reading storage back.
    pub fn from_trusted(value: String) -> (r: Body)
        ensures
            r@ == value@,
    {
        Body(value)
    }

    /// The body as text.
    pub fn as_str(&self) -> (r: &str)
        ensures
            r@ == self@,
    {
        self.0.as_str()
    }

    /// True when the body holds only whitespace, if anything.
    pub fn is_empty(&self) -> (r: bool)
        ensures
            r == (trim_spec(self@).len() == 0),
    {
        trim_str(self.0.as_str()).is_empty()
    }

    /// The body's length in bytes.
    pub fn len(&self) -> (r: usize)
        ensures
            r == encode_utf8(self@).len(),
    {
        self.0.as_str().as_bytes().len()
    }
}

} // verus!
