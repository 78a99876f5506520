use lemons_search::preview::{
    has_suffix, image_preview, preview_of, preview_source, text_preview, PreviewSource,
    PreviewType,
};

#[test]
fn nothing_selected_needs_nothing() {
    assert_eq!(preview_source(None), PreviewSource::Nothing);
}

#[test]
fn markdown_is_read_as_text() {
    assert_eq!(preview_source(Some(&"notes/today.md".to_string())), PreviewSource::FileContent);
    assert_eq!(preview_source(Some(&".md".to_string())), PreviewSource::FileContent);
}

#[test]
fn images_are_shown_from_their_address() {
    for name in ["a.png", "b.jpg", "c.jpeg", "d.gif", "e.webp", "f.svg"] {
        assert_eq!(preview_source(Some(&name.to_string())), PreviewSource::ResourcePath);
    }
}

#[test]
fn image_formats_need_no_dot() {
    assert_eq!(preview_source(Some(&"notapng".to_string())), PreviewSource::ResourcePath);
}

#[test]
fn other_files_have_no_preview() {
    for name in ["main.rs", "md", "README", "photo.PNG", "x.md.bak", ""] {
        assert_eq!(preview_source(Some(&name.to_string())), PreviewSource::Unsupported);
    }
}

#[test]
fn suffix_of_a_text() {
    assert!(has_suffix("größe.md", ".md"));
    assert!(has_suffix("abc", ""));
    assert!(has_suffix("abc", "abc"));
    assert!(!has_suffix("bc", "abc"));
    assert!(!has_suffix("abd", "abc"));
    assert!(has_suffix("maß", "ß"));
}

#[test]
fn text_preview_of_a_file() {
    assert_eq!(text_preview(Some("hello".to_string())), PreviewType::Text("hello".to_string()));
    assert_eq!(text_preview(Some(String::new())), PreviewType::EmptyText);
    assert_eq!(text_preview(None), PreviewType::FileNotFound);
}

#[test]
fn image_preview_of_a_file() {
    assert_eq!(
        image_preview(Some("app://a.png".to_string())),
        PreviewType::Image("app://a.png".to_string())
    );
    assert_eq!(image_preview(None), PreviewType::FileNotFound);
}

#[test]
fn preview_for_each_source() {
    assert_eq!(preview_of(PreviewSource::Nothing, None), PreviewType::NoSelection);
    assert_eq!(preview_of(PreviewSource::Unsupported, None), PreviewType::Unsupported);
    assert_eq!(
        preview_of(PreviewSource::FileContent, Some("x".to_string())),
        PreviewType::Text("x".to_string())
    );
    assert_eq!(preview_of(PreviewSource::FileContent, Some(String::new())), PreviewType::EmptyText);
    assert_eq!(preview_of(PreviewSource::FileContent, None), PreviewType::FileNotFound);
    assert_eq!(
        preview_of(PreviewSource::ResourcePath, Some("p".to_string())),
        PreviewType::Image("p".to_string())
    );
    assert_eq!(preview_of(PreviewSource::ResourcePath, None), PreviewType::FileNotFound);
}
