use ferreiro::email::Email;
use ferreiro::errors::DomainError;
use ferreiro::slug::Slug;
use ferreiro::text::{Body, Title};

#[test]
fn email_is_trimmed_and_lowercased() {
    let e = Email::new("  USER@Example.COM  ").unwrap();
    assert_eq!(e.as_str(), "user@example.com");
    assert_eq!(e.domain(), "example.com");
}

#[test]
fn email_requires_at_and_dot() {
    assert_eq!(Email::new("no-at-sign.com"), Err(DomainError::InvalidEmail));
    assert_eq!(Email::new("user@nodot"), Err(DomainError::InvalidEmail));
    assert_eq!(Email::new(""), Err(DomainError::InvalidEmail));
    assert!(Email::new("a@b.c").is_ok());
}

#[test]
fn email_domain_takes_second_segment() {
    let e = Email::new("a@b.c@d").unwrap();
    assert_eq!(e.domain(), "b.c");
    let trusted = Email::from_trusted("plain".to_string());
    assert_eq!(trusted.domain(), "");
    assert_eq!(trusted.as_str(), "plain");
}

#[test]
fn slug_normalizes_and_validates() {
    let s = Slug::new("  Hello-World-42  ").unwrap();
    assert_eq!(s.as_str(), "hello-world-42");
    assert_eq!(Slug::new("   "), Err(DomainError::EmptySlug));
    assert_eq!(
        Slug::new("hello world"),
        Err(DomainError::InvalidSlugCharacters)
    );
    assert_eq!(
        Slug::new("under_score"),
        Err(DomainError::InvalidSlugCharacters)
    );
    let long = "a".repeat(201);
    assert_eq!(
        Slug::new(&long),
        Err(DomainError::SlugTooLong { max: 200, actual: 201 })
    );
    let edge = "b".repeat(200);
    assert!(Slug::new(&edge).is_ok());
    assert_eq!(Slug::from_trusted("kept".to_string()).as_str(), "kept");
}

#[test]
fn title_is_trimmed_and_bounded() {
    let t = Title::new("  A Fine Day  ").unwrap();
    assert_eq!(t.as_str(), "A Fine Day");
    assert_eq!(Title::new("   "), Err(DomainError::EmptyTitle));
    let long = "x".repeat(201);
    assert_eq!(
        Title::new(&long),
        Err(DomainError::TitleTooLong { max: 200, actual: 201 })
    );
    assert!(Title::new(&"y".repeat(200)).is_ok());
    assert_eq!(Title::from_trusted("as is ".to_string()).as_str(), "as is ");
}

#[test]
fn body_keeps_text_and_reports_emptiness_by_content() {
    let b = Body::new("  hello  ");
    assert_eq!(b.as_str(), "  hello  ");
    assert!(!b.is_empty());
    assert_eq!(b.len(), 9);
    assert!(Body::new("   \t\n ").is_empty());
    assert!(Body::new("").is_empty());
    assert_eq!(Body::from_trusted("héllo".to_string()).len(), 6);
}
