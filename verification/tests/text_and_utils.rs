use remote_fs::strings::{i64_to_decimal, same_text, str_slice, trim_start_owned, u64_to_decimal};
use remote_fs::utils_lib::{
    create_options, fake_mode, file_type_convert, get_mode, index_of, index_of_is_defined,
    truncate_buffer, FileType,
};

#[test]
fn index_of_finds_first_occurrence() {
    assert_eq!(index_of("hello world", "world"), Some(6));
    assert_eq!(index_of("abab", "ab"), Some(0));
    assert_eq!(index_of("xxab", "ab"), Some(2));
}

#[test]
fn index_of_empty_needle_is_zero() {
    assert_eq!(index_of("abc", ""), Some(0));
    assert_eq!(index_of("", ""), Some(0));
}

#[test]
fn index_of_missing_needle() {
    assert_eq!(index_of("abc", "d"), None);
    assert_eq!(index_of("abc", "abc"), Some(0));
}

#[test]
fn index_of_text_after_the_match_may_be_any() {
    assert_eq!(index_of("a?é", "?"), Some(1));
    assert!(index_of_is_defined("a?é", "?"));
}

#[test]
fn index_of_definedness() {
    // multi-byte text before the match makes the search slice inside a character
    assert!(!index_of_is_defined("é?", "?"));
    // a needle longer than the haystack
    assert!(!index_of_is_defined("ab", "abc"));
    assert!(!index_of_is_defined("", ":"));
    assert!(index_of_is_defined("", ""));
    assert!(index_of_is_defined("plain", "x"));
}

#[test]
fn truncate_buffer_shortens_longer_buffers() {
    let mut b = vec![1u8, 2, 3, 4];
    truncate_buffer(&mut b, 2);
    assert_eq!(b, vec![1, 2]);
}

#[test]
fn truncate_buffer_keeps_shorter_buffers() {
    let mut b = vec![1u8, 2];
    truncate_buffer(&mut b, 5);
    assert_eq!(b, vec![1, 2]);
    truncate_buffer(&mut b, 2);
    assert_eq!(b, vec![1, 2]);
}

#[test]
fn create_options_one_line_per_entry() {
    let text = create_options(vec![("a", "1".to_string()), ("size", "42".to_string())]);
    assert_eq!(text, "a=\"1\"\nsize=\"42\"\n");
    assert_eq!(create_options(vec![]), "");
}

#[test]
fn file_types_and_their_bits() {
    assert_eq!(file_type_convert(true, false, false), Some(FileType::File));
    assert_eq!(file_type_convert(false, true, false), Some(FileType::Directory));
    assert_eq!(file_type_convert(false, false, true), Some(FileType::Symlink));
    assert_eq!(file_type_convert(true, true, true), Some(FileType::File));
    assert_eq!(file_type_convert(false, false, false), None);
    assert_eq!(FileType::File.bits(), 0x8000);
    assert_eq!(FileType::Directory.bits(), 0x4000);
    assert_eq!(FileType::Symlink.bits(), 0xA000);
}

#[test]
fn mode_without_permission_bits() {
    assert_eq!(fake_mode(), 0o755);
    assert_eq!(get_mode(), 493);
}

#[test]
fn decimal_texts() {
    assert_eq!(u64_to_decimal(0), "0");
    assert_eq!(u64_to_decimal(1234567890), "1234567890");
    assert_eq!(u64_to_decimal(u64::MAX), u64::MAX.to_string());
    assert_eq!(i64_to_decimal(-42), "-42");
    assert_eq!(i64_to_decimal(i64::MIN), i64::MIN.to_string());
    assert_eq!(i64_to_decimal(7), "7");
}

#[test]
fn trimming_and_comparing_text() {
    assert_eq!(trim_start_owned(" \t\u{3000}x y "), "x y ");
    assert_eq!(trim_start_owned("   "), "");
    assert!(same_text("abc", "abc"));
    assert!(!same_text("abc", "abd"));
    assert!(!same_text("ab", "abc"));
}

#[test]
fn slicing_text_by_bytes() {
    assert_eq!(str_slice("héllo", 0, 3), "hé");
    assert_eq!(str_slice("héllo", 3, 6), "llo");
}
