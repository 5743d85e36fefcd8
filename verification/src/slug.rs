//! URL slugs, held normalized: trimmed, lowercased, bounded, and drawn
//! from a safe character set.

use vstd::prelude::*;
use vstd::string::StringSliceAdditionalSpecFns;
use vstd::utf8::encode_utf8;

use crate::errors::DomainError;
use crate::strutil::{lower_of, to_lowercase, trim_spec, trim_str};

verus! {

/// A character a slug may contain: ASCII letters, digits, or a hyphen.
pub open spec fn is_slug_char(c: char) -> bool {
    ('a' <= c && c <= 'z') || ('A' <= c && c <= 'Z') || ('0' <= c && c <= '9') || c == '-'
}

/// The byte limit on a normalized slug.
pub const SLUG_MAX_BYTES: usize = 200;

/// A normalized slug.
#[derive(Debug, Clone, PartialEq, Eq, Hash)]
pub struct Slug(String);

impl View for Slug {
    type V = Seq<char>;

    closed spec fn view(&self) -> Seq<char> {
        self.0@
    }
}

impl Slug {
    /// Normalizes and validates: the trimmed, lowercased input must be
    /// non-empty, at most 200 bytes, and made of letters, digits and
    /// hyphens; the first failed rule names the rejection.
    #[verifier::loop_isolation(false)]
    pub fn new(value: &str) -> (r: Result<Slug, DomainError>)
        ensures
            ({
                let norm = lower_of(trim_spec(value@));
                if norm.len() == 0 {
                    r == Err::<Slug, DomainError>(DomainError::EmptySlug)
                } else if encode_utf8(norm).len() > SLUG_MAX_BYTES as int {
                    r == Err::<Slug, DomainError>(
                        DomainError::SlugTooLong {
                            max: SLUG_MAX_BYTES,
                            actual: encode_utf8(norm).len() as usize,
                        },
                    )
                } else if !(forall|i: int| 0 <= i < norm.len() ==> is_slug_char(#[trigger] norm[i])) {
                    r == Err::<Slug, DomainError>(DomainError::InvalidSlugCharacters)
                } else {
                    r matches Ok(s) && s@ == norm
                }
            }),
    {
        let normalized = to_lowercase(trim_str(value));
        if normalized.as_str().is_empty() {
            return Err(DomainError::EmptySlug);
        }
        let byte_len = normalized.as_str().as_bytes().len();
        if byte_len > SLUG_MAX_BYTES {
            return Err(DomainError::SlugTooLong { max: SLUG_MAX_BYTES, actual: byte_len });
        }
        let n = normalized.as_str().unicode_len();
        let mut i: usize = 0;
        while i < n
            invariant
                i <= n,
                n == normalized@.len(),
                forall|t: int| 0 <= t < i ==> is_slug_char(#[trigger] normalized@[t]),
            decreases n - i,
        {
            let c = normalized.as_str().get_char(i);
            let ok = ('a' <= c && c <= 'z') || ('A' <= c && c <= 'Z') || ('0' <= c && c <= '9')
                || c == '-';
            if !ok {
                return Err(DomainError::InvalidSlugCharacters);
            }
            i = i + 1;
        }
        Ok(Slug(normalized))
    }

    /// Wraps a value known to be valid, as when reading storage back.
    pub fn from_trusted(value: String) -> (r: Slug)
        ensures
            r@ == value@,
    {
        Slug(value)
    }

    /// The slug as text.
    pub fn as_str(&self) -> (r: &str)
        ensures
            r@ == self@,
    {
        self.0.as_str()
    }
}

} // verus!
