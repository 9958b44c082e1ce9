use sitegen::{Blurb, Css, Markdown, PublicPath, SourcePath};

#[test]
fn markdown_renders_headings_and_emphasis() {
    let html = Markdown("# Hi".to_string()).render();
    assert!(html.contains("<h1>"));
    assert!(html.contains("Hi"));
    let strong = Markdown("**bold** word".to_string()).render();
    assert!(strong.contains("<strong>bold</strong>"));
}

#[test]
fn markdown_rendering_is_sanitized() {
    let html = Markdown("<script>alert(1)</script>hello".to_string()).render();
    assert!(!html.contains("<script"));
    assert!(html.contains("hello"));
}

#[test]
fn blurb_wraps_the_text_in_a_paragraph_with_an_ellipsis() {
    assert_eq!(Blurb("Hi".to_string()).render(), "<p>Hi ...</p>");
}

#[test]
fn blurb_escapes_interpolated_text() {
    assert_eq!(Blurb("a & b".to_string()).render(), "<p>a &amp; b ...</p>");
}

#[test]
fn blurb_cuts_long_text_at_byte_140() {
    let long = "a".repeat(200);
    let rendered = Blurb(long).render();
    let expected = format!("<p>{}...</p>", "a".repeat(140));
    assert_eq!(rendered, expected);
}

#[test]
fn blurb_cuts_on_a_multibyte_boundary() {
    // 138 ASCII bytes followed by a two-byte character: byte 140 falls on
    // its end, so the cut lands exactly there.
    let text = format!("{}\u{e9}zzzz", "a".repeat(138));
    let rendered = Blurb(text).render();
    let expected = format!("<p>{}\u{e9}...</p>", "a".repeat(138));
    assert_eq!(rendered, expected);
}

#[test]
fn blurb_keeps_the_text_whole_when_byte_140_splits_a_character() {
    // 139 ASCII bytes followed by a two-byte character: byte 140 falls
    // inside it, so no cut can land there and the text stays whole.
    let text = format!("{}\u{e9}zz", "a".repeat(139));
    let rendered = Blurb(text.clone()).render();
    let expected = format!("<p>{}\u{e9}zz ...</p>", "a".repeat(139));
    assert_eq!(rendered, expected);
}

#[test]
fn css_renders_a_stylesheet_link() {
    assert_eq!(
        Css("/reset.css").render(),
        "<link rel=\"stylesheet\" type=\"text/css\" href=\"/reset.css\">"
    );
}

#[test]
fn source_paths_publish_under_posts_with_an_html_extension() {
    let p = SourcePath("content/foo.md".to_string());
    assert_eq!(p.to_public_path(false).0, "posts/foo.html");
    assert_eq!(p.to_public_path(true).0, "public/posts/foo.html");
}

#[test]
fn paths_without_an_extension_still_gain_html() {
    let p = SourcePath("content/README".to_string());
    assert_eq!(p.to_public_path(false).0, "posts/README.html");
}

#[test]
fn nested_paths_keep_only_the_file_name() {
    let p = SourcePath("content/2024/03/deep.md".to_string());
    assert_eq!(p.to_public_path(false).0, "posts/deep.html");
}

#[test]
fn public_paths_point_back_into_the_content_root() {
    let p = PublicPath("posts/foo.html".to_string());
    assert_eq!(p.to_src_path().0, "content/foo.html");
}
