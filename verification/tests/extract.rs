use zim::extract::{
    extension_for, link_needs_extension, link_step, missing_extension, namespace_directory,
    relative_url, tries_again, LinkStep,
};
use zim::report::{metadata_text, number_text};
use zim::{MimeType, Namespace};

fn typed(name: &str) -> MimeType {
    MimeType::Type(name.to_string())
}

#[test]
fn extensions_follow_the_type() {
    for (name, extension) in [
        ("text/html", "html"),
        ("image/jpeg", "jpg"),
        ("image/png", "png"),
        ("image/gif", "gif"),
        ("image/svg+xml", "svg"),
        ("application/javascript", "js"),
        ("text/css", "css"),
        ("text/plain", "txt"),
    ] {
        assert_eq!(extension_for(name), Some(extension));
    }
    assert_eq!(extension_for("text/html; charset=utf-8"), None);
    assert_eq!(extension_for("video/webm"), None);
    assert_eq!(extension_for(""), None);
}

#[test]
fn extensions_are_set_where_they_are_missing() {
    assert_eq!(missing_extension(&typed("text/html"), None), Some("html"));
    assert_eq!(
        missing_extension(&typed("text/html"), Some("htm")),
        Some("html")
    );
    assert_eq!(missing_extension(&typed("text/html"), Some("html")), None);
    // one that starts the same is left alone
    assert_eq!(missing_extension(&typed("text/css"), Some("css2")), None);
    assert_eq!(
        missing_extension(&typed("image/jpeg"), Some("jpeg")),
        Some("jpg")
    );
    assert_eq!(missing_extension(&typed("video/webm"), None), None);
    assert_eq!(missing_extension(&MimeType::Redirect, None), None);
    assert_eq!(missing_extension(&MimeType::LinkTarget, Some("x")), None);
}

#[test]
fn absolute_urls_become_relative() {
    assert_eq!(relative_url("/a/b"), "a/b");
    assert_eq!(relative_url("//a"), "a");
    assert_eq!(relative_url("//etc/x"), "etc/x");
    assert_eq!(relative_url("///"), "");
    assert_eq!(relative_url("a//b"), "a//b");
    assert_eq!(relative_url("a/b"), "a/b");
    assert_eq!(relative_url("/"), "");
    assert_eq!(relative_url(""), "");
    assert_eq!(relative_url("/жук"), "жук");
}

#[test]
fn namespaces_have_directories() {
    assert_eq!(namespace_directory(Namespace::UserContent), "C");
    assert_eq!(namespace_directory(Namespace::Layout), "-");
    assert_eq!(namespace_directory(Namespace::Other(0xe9)), "é");
}

#[test]
fn links_are_made_once() {
    assert_eq!(link_step(false, false, false), LinkStep::SourceMissing);
    assert_eq!(link_step(false, true, true), LinkStep::SourceMissing);
    assert_eq!(link_step(true, true, true), LinkStep::Skip);
    assert_eq!(link_step(true, false, true), LinkStep::Copy);
    assert_eq!(link_step(true, false, false), LinkStep::HardLink);
}

#[test]
fn links_take_the_extension_of_what_they_lead_to() {
    assert!(link_needs_extension(Some("html"), None));
    assert!(link_needs_extension(Some("html"), Some("htm")));
    assert!(!link_needs_extension(Some("html"), Some("html")));
    assert!(!link_needs_extension(None, Some("html")));
    assert!(!link_needs_extension(None, None));
}

#[test]
fn creating_a_file_is_tried_three_times() {
    assert!(tries_again(1));
    assert!(tries_again(2));
    assert!(!tries_again(3));
}

#[test]
fn metadata_is_shown_where_it_is_text() {
    assert_eq!(metadata_text("Кніга".as_bytes()), Some("Кніга".to_string()));
    assert_eq!(metadata_text(b""), Some(String::new()));
    assert_eq!(metadata_text(b"\x89PNG"), None);
}

#[test]
fn numbers_are_grouped() {
    for (n, text) in [
        (0u64, "0"),
        (7, "7"),
        (999, "999"),
        (1_000, "1,000"),
        (20_568, "20,568"),
        (1_646_592, "1,646,592"),
        (1_000_000_007, "1,000,000,007"),
        (u64::MAX, "18,446,744,073,709,551,615"),
    ] {
        assert_eq!(number_text(n), text);
    }
}
