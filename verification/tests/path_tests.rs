use codexlotus::files::{normalize_path, relative_markdown_path};
use codexlotus::indexer::is_markdown;

#[test]
fn markdown_extensions_are_recognised() {
    assert!(is_markdown("notes.md"));
    assert!(is_markdown("a/b/chapter.markdown"));
    assert!(is_markdown("deck.mdx"));
    assert!(is_markdown("SHOUTY.MD"));
    assert!(is_markdown("a\\b\\win.md"));
}

#[test]
fn non_markdown_paths_are_rejected() {
    assert!(!is_markdown("notes.txt"));
    assert!(!is_markdown("no_extension"));
    assert!(!is_markdown("archive.md.bak"));
    assert!(!is_markdown("dir.md/readme"));
    assert!(!is_markdown(""));
}

#[test]
fn hidden_file_has_no_extension() {
    assert!(!is_markdown(".md"));
    assert!(!is_markdown("a/.md"));
    assert!(is_markdown(".hidden.md"));
}

#[test]
fn normalize_turns_backslashes_into_slashes() {
    assert_eq!(normalize_path("C:\\Users\\me"), "C:/Users/me");
    assert_eq!(normalize_path("plain/path"), "plain/path");
    assert_eq!(normalize_path(""), "");
}

#[test]
fn relative_path_strips_the_root() {
    assert_eq!(
        relative_markdown_path("/home/me/proj", "/home/me/proj/notes/a.md"),
        Some("notes/a.md".to_string())
    );
    assert_eq!(
        relative_markdown_path("/home/me/proj/", "/home/me/proj/a.md"),
        Some("a.md".to_string())
    );
}

#[test]
fn relative_path_folds_ascii_case() {
    assert_eq!(
        relative_markdown_path("/Home/Me/Proj", "/home/me/proj/a.md"),
        Some("a.md".to_string())
    );
}

#[test]
fn relative_path_handles_backslashes() {
    assert_eq!(
        relative_markdown_path("C:\\Docs", "C:\\Docs\\sub\\a.md"),
        Some("sub/a.md".to_string())
    );
}

#[test]
fn relative_path_rejects_foreign_paths() {
    assert_eq!(relative_markdown_path("/home/me/proj", "/etc/a.md"), None);
    assert_eq!(relative_markdown_path("/home/me/proj", "/home/me/proj"), None);
}
