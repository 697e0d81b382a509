use cokacdir::files::format_size;
use cokacdir::files::is_image_file;
use cokacdir::files::is_valid_filename;
use cokacdir::split::split_message;
use cokacdir::text::floor_char_boundary;
use cokacdir::text::normalize_empty_lines;
use cokacdir::text::truncate_str;

#[test]
fn normalize_collapses_blank_runs() {
    assert_eq!(normalize_empty_lines("a\n\n\nb"), "a\n\nb");
    assert_eq!(normalize_empty_lines("a\nb"), "a\nb");
    assert_eq!(normalize_empty_lines(""), "");
}

#[test]
fn normalize_is_idempotent_on_trimmed_text() {
    let once = normalize_empty_lines("x\n\n\n\ny\n\nz");
    let twice = normalize_empty_lines(&once);
    assert_eq!(once, twice);
}

#[test]
fn truncate_keeps_short_text() {
    assert_eq!(truncate_str("hello", 10), "hello");
}

#[test]
fn truncate_backs_up_to_line_break() {
    assert_eq!(truncate_str("abc\ndefghij", 8), "abc");
}

#[test]
fn truncate_never_cuts_a_character() {
    // Two-byte characters: a cut at an odd byte index must move back.
    let s = "ééééé";
    let t = truncate_str(s, 5);
    assert!(t.len() <= 5);
    assert!(s.starts_with(&t));
}

#[test]
fn floor_boundary_of_multibyte() {
    let s = "é";
    assert_eq!(floor_char_boundary(s, 1), 0);
    assert_eq!(floor_char_boundary(s, 2), 2);
    assert_eq!(floor_char_boundary(s, 99), 2);
}

#[test]
fn split_short_message_is_single_chunk() {
    let chunks = split_message("hello world");
    assert_eq!(chunks, vec!["hello world".to_string()]);
}

#[test]
fn split_long_plain_text_fits_limit() {
    let line = "0123456789".repeat(30);
    let mut text = String::new();
    for _ in 0..30 {
        text.push_str(&line);
        text.push('\n');
    }
    let chunks = split_message(&text);
    assert!(chunks.len() > 1);
    for c in &chunks {
        assert!(c.len() <= 2000);
    }
    // Joining the chunks with the consumed newlines restored gives the text.
    let joined = chunks.join("\n");
    assert_eq!(joined, text);
}

#[test]
fn split_reopens_fenced_block_with_language() {
    let mut text = String::from("prefix\n```python\n");
    for _ in 0..500 {
        text.push_str("x = 1\n");
    }
    text.push_str("```\nsuffix");
    let chunks = split_message(&text);
    assert!(chunks.len() > 1);
    for (i, c) in chunks.iter().enumerate() {
        assert!(c.len() <= 2000, "chunk {} too long: {}", i, c.len());
        if i + 1 < chunks.len() {
            assert!(c.ends_with("\n```"), "chunk {} does not close its fence", i);
        }
        if i > 0 {
            assert!(c.starts_with("```python\n"), "chunk {} does not reopen the fence", i);
        }
        if i + 1 < chunks.len() {
            assert!(!c.contains("suffix"));
        }
    }
    assert!(chunks.last().unwrap().contains("suffix"));
}

#[test]
fn format_size_exact_values() {
    assert_eq!(format_size(0), "0B");
    assert_eq!(format_size(1023), "1023B");
    assert_eq!(format_size(1536), "1.5KB");
    assert_eq!(format_size(1048576), "1.0MB");
    assert_eq!(format_size(1073741824), "1.0GB");
}

#[test]
fn filename_validation_errors() {
    assert_eq!(is_valid_filename(""), Err("Filename cannot be empty"));
    assert_eq!(is_valid_filename("   "), Err("Filename cannot be empty"));
    assert_eq!(is_valid_filename("a/b"), Err("Filename cannot contain path separators"));
    assert_eq!(is_valid_filename("a\\b"), Err("Filename cannot contain path separators"));
    assert_eq!(is_valid_filename("a\0b"), Err("Filename cannot contain null bytes"));
    assert_eq!(is_valid_filename("."), Err("Invalid filename"));
    assert_eq!(is_valid_filename(".."), Err("Invalid filename"));
    let long = "x".repeat(256);
    assert_eq!(is_valid_filename(&long), Err("Filename too long (max 255 characters)"));
    assert_eq!(is_valid_filename("a\u{1}b"), Err("Filename cannot contain control characters"));
    assert_eq!(is_valid_filename(" a"), Err("Filename cannot start or end with whitespace"));
    assert_eq!(is_valid_filename("a "), Err("Filename cannot start or end with whitespace"));
    assert_eq!(is_valid_filename("-rf"), Err("Filename cannot start with hyphen"));
    assert_eq!(is_valid_filename("notes.txt"), Ok(()));
}

#[test]
fn image_extension_detection() {
    assert!(is_image_file("/tmp/photo.PNG"));
    assert!(is_image_file("shot.jpeg"));
    assert!(is_image_file("a/b/c.webp"));
    assert!(!is_image_file("archive.tar.gz"));
    assert!(!is_image_file(".png"));
    assert!(!is_image_file("noext"));
    assert!(!is_image_file("dir.png/file"));
}
