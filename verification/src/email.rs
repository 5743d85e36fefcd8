//! Email addresses, held normalized: trimmed and lowercased.

use vstd::prelude::*;
use vstd::string::StringExecFns;

use crate::errors::DomainError;
use crate::strutil::{
    char_index, find_char, has_char, lemma_char_index, lower_of, to_lowercase, trim_spec,
    trim_str,
};

verus! {

/// A normalized email address: the trimmed, lowercased input, accepted
/// only when it contains both `@` and `.`.
#[derive(Debug, Clone, PartialEq, Eq, Hash)]
pub struct Email(String);

impl View for Email {
    type V = Seq<char>;

    closed spec fn view(&self) -> Seq<char> {
        self.0@
    }
}

/// The domain segment an address carries: what stands between the first
/// `@` and the next `@` or the end; empty when there is no `@` at all.
pub open spec fn domain_of(s: Seq<char>) -> Seq<char> {
    let i = char_index(s, '@');
    if i == -1 {
        Seq::empty()
    } else {
        let rest = s.subrange(i + 1, s.len() as int);
        let j = char_index(rest, '@');
        if j == -1 {
            rest
        } else {
            rest.subrange(0, j)
        }
    }
}

impl Email {
    /// Normalizes and validates: the trimmed, lowercased input is
    /// accepted exactly when it contains `@` and `.`, else the address
    /// is rejected as invalid.
    pub fn new(value: &str) -> (r: Result<Email, DomainError>)
        ensures
            ({
                let norm = lower_of(trim_spec(value@));
                if has_char(norm, '@') && has_char(norm, '.') {
                    r matches Ok(e) && e@ == norm
                } else {
                    r == Err::<Email, DomainError>(DomainError::InvalidEmail)
                }
            }),
    {
        let normalized = to_lowercase(trim_str(value));
        let has_at = find_char(normalized.as_str(), '@').is_some();
        let has_dot = find_char(normalized.as_str(), '.').is_some();
        if !has_at || !has_dot {
            return Err(DomainError::InvalidEmail);
        }
        Ok(Email(normalized))
    }

    /// Wraps a value known to be valid, as when reading storage back.
    pub fn from_trusted(value: String) -> (r: Email)
        ensures
            r@ == value@,
    {
        Email(value)
    }

    /// The address as text.
    pub fn as_str(&self) -> (r: &str)
        ensures
            r@ == self@,
    {
        self.0.as_str()
    }

    /// The domain segment of the address.
    pub fn domain(&self) -> (r: &str)
        ensures
            r@ == domain_of(self@),
    {
        proof {
            lemma_char_index(self@, '@');
        }
        let n = self.0.as_str().unicode_len();
        let at = match find_char(self.0.as_str(), '@') {
            Some(i) => i,
            None => {
                return self.0.as_str().substring_char(0, 0);
            },
        };
        let rest = self.0.as_str().substring_char(at + 1, n);
        proof {
            lemma_char_index(rest@, '@');
        }
        match find_char(rest, '@') {
            Some(j) => rest.substring_char(0, j),
            None => rest,
        }
    }
}

} // verus!
