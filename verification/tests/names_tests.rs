use rei_manga::names::{derive_name, is_image_extension, is_supported_image, is_supported_manual_image, join_path};
use rei_manga::text::{
    chars_of, concat2, concat4, find_text, split_chars, split_lines, split_words, starts_with,
    strip_chars,
};

#[test]
fn image_extensions_ignore_case() {
    assert!(is_supported_image("page.PNG"));
    assert!(is_supported_image("scan.tiff"));
    assert!(!is_supported_image("notes.txt"));
    assert!(!is_supported_image(".png"));
    assert!(is_image_extension("a.JpEg"));
    assert!(is_supported_manual_image("x.webp"));
    assert!(!is_supported_manual_image("x"));
}

#[test]
fn derived_names_and_paths() {
    assert_eq!(derive_name("page_001.png", "_R"), "page_001_R.png");
    assert_eq!(derive_name("archive.tar.gz", "_L"), "archive.tar_L.gz");
    assert_eq!(derive_name("README", "_cover"), "README_cover");
    assert_eq!(join_path("/ws", "a.png"), "/ws/a.png");
    assert_eq!(join_path("/ws/", "a.png"), "/ws/a.png");
    assert_eq!(join_path("", "a.png"), "a.png");
}

#[test]
fn text_helpers() {
    assert_eq!(concat2("ab", "cd"), "abcd");
    assert_eq!(concat4("a", "b", "c", "d"), "abcd");
    let lines: Vec<String> = split_lines(&chars_of("a\r\nb\n\nc\n")).iter().map(|l| l.iter().collect()).collect();
    assert_eq!(lines, vec!["a", "b", "", "c"]);
    let words: Vec<String> = split_words(&chars_of("  12  34\tx ")).iter().map(|w| w.iter().collect()).collect();
    assert_eq!(words, vec!["12", "34", "x"]);
}

fn text(v: &[char]) -> String {
    v.iter().collect()
}

#[test]
fn splitting_and_stripping_text() {
    let parts = split_chars(&chars_of("\"a\",\"1\",,x"), ',');
    let parts: Vec<String> = parts.iter().map(|p| text(p)).collect();
    assert_eq!(parts, vec!["\"a\"", "\"1\"", "", "x"]);
    assert_eq!(split_chars(&chars_of(""), ',').len(), 1);
    assert_eq!(text(&strip_chars(&chars_of("\"\"svchost.exe\""), '"')), "svchost.exe");
    assert_eq!(text(&strip_chars(&chars_of("\"\"\""), '"')), "");
    assert!(starts_with(&chars_of("Node,Name"), "Node,"));
    assert!(!starts_with(&chars_of("Nod"), "Node,"));
    assert!(find_text(&chars_of("kill: No such process"), &chars_of("No such process")));
    assert!(!find_text(&chars_of("kill: denied"), &chars_of("No such process")));
}
