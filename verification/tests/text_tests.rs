use mangashelf::text::extension_of;
use mangashelf::text::file_name_of;
use mangashelf::text::file_stem_of;
use mangashelf::text::is_supported_image_ext;
use mangashelf::text::parent_of;
use mangashelf::text::str_eq;
use mangashelf::text::str_starts_with;
use mangashelf::text::_normalize_path;

#[test]
fn file_name_is_final_component() {
    assert_eq!(file_name_of("root/ch2/c.jpg"), "c.jpg");
    assert_eq!(file_name_of("c.jpg"), "c.jpg");
    assert_eq!(file_name_of("a\\b\\c.png"), "c.png");
    assert_eq!(file_name_of("dir/"), "");
}

#[test]
fn parent_is_text_before_last_separator() {
    assert_eq!(parent_of("root/ch2/c.jpg"), "root/ch2");
    assert_eq!(parent_of("c.jpg"), "");
    assert_eq!(parent_of("a\\b"), "a");
}

#[test]
fn extension_rules() {
    assert_eq!(extension_of("a.jpg"), Some(String::from("jpg")));
    assert_eq!(extension_of("dir/archive.tar.gz"), Some(String::from("gz")));
    assert_eq!(extension_of("noext"), None);
    assert_eq!(extension_of(".hidden"), None);
    assert_eq!(extension_of("a.b/c"), None);
}

#[test]
fn stem_rules() {
    assert_eq!(file_stem_of("dir/a.jpg"), "a");
    assert_eq!(file_stem_of("archive.tar.gz"), "archive.tar");
    assert_eq!(file_stem_of(".hidden"), ".hidden");
}

#[test]
fn supported_extensions_are_exact() {
    assert!(is_supported_image_ext("jpg"));
    assert!(is_supported_image_ext("webp"));
    assert!(is_supported_image_ext("apng"));
    assert!(!is_supported_image_ext("JPG"));
    assert!(!is_supported_image_ext("mp4"));
    assert!(!is_supported_image_ext(""));
}

#[test]
fn string_helpers() {
    assert!(str_eq("abc", "abc"));
    assert!(!str_eq("abc", "abd"));
    assert!(!str_eq("abc", "ab"));
    assert!(str_starts_with("root/ch2", "root"));
    assert!(str_starts_with("root", "root"));
    assert!(!str_starts_with("roo", "root"));
    assert!(!str_starts_with("xroot", "root"));
}

#[test]
fn normalize_path_rewrites_both_separators() {
    assert_eq!(_normalize_path("a/b\\c", "/"), "a/b/c");
    assert_eq!(_normalize_path("a/b\\c", "\\"), "a\\b\\c");
    assert_eq!(_normalize_path("plain", "/"), "plain");
}
