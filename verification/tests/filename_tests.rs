use lele_download::filename::{
    filename_candidate, finish_filename, hex_val, is_part_file_name, parse_content_disposition,
    percent_decode, sanitize_filename,
};

#[test]
fn test_sanitize_filename_path_traversal() {
    assert_eq!(sanitize_filename("../../etc/passwd"), "passwd");
    assert_eq!(sanitize_filename("a/b\\c"), "c");
}

#[test]
fn test_sanitize_filename_illegal_chars() {
    let out = sanitize_filename("my:file*name?.txt");
    assert!(!out.contains(':'));
    assert!(!out.contains('*'));
    assert!(!out.contains('?'));
    assert_eq!(out, "myfilename.txt");
}

#[test]
fn test_sanitize_filename_control_and_dots() {
    assert_eq!(sanitize_filename("  .hidden.  "), "hidden");
    assert_eq!(sanitize_filename("abc\x00def"), "abcdef");
}

#[test]
fn test_sanitize_filename_long_truncate() {
    let long = "x".repeat(300);
    let out = sanitize_filename(&long);
    assert!(out.len() <= 200, "len={}", out.len());
}

#[test]
fn sanitize_truncates_to_exactly_200_bytes() {
    let long = "ab".repeat(150);
    let out = sanitize_filename(&long);
    assert_eq!(out.len(), 200);
    assert_eq!(out, long[..200]);
}

#[test]
fn sanitize_keeps_multibyte_names_on_boundary() {
    // 100 two-byte characters = 200 bytes: kept whole
    let name = "é".repeat(100);
    assert_eq!(sanitize_filename(&name), name);
    // 101 two-byte characters: the cut at 200 bytes lands on a boundary
    let name = "é".repeat(101);
    assert_eq!(sanitize_filename(&name), "é".repeat(100));
    // a three-byte character straddling byte 200 is dropped whole
    let name = format!("{}中", "x".repeat(199));
    assert_eq!(sanitize_filename(&name), "x".repeat(199));
    // 67 three-byte characters (201 bytes): the last whole character within 200 bytes
    let name = "中".repeat(67);
    assert_eq!(sanitize_filename(&name), "中".repeat(66));
}

#[test]
fn sanitize_strips_spaces_and_dots_together() {
    assert_eq!(sanitize_filename(". x ."), "x");
    assert_eq!(sanitize_filename(". a ."), "a");
    assert_eq!(sanitize_filename(" . .name.txt. . "), "name.txt");
    assert_eq!(sanitize_filename("dir\\..."), "");
    assert_eq!(sanitize_filename("a|b<c>d\"e"), "abcde");
    assert_eq!(sanitize_filename("tab\there\u{85}x"), "tabherex");
    for name in [". a .", "  ..x.. ", "\u{3000}.y.\u{3000}", "p/ .q. "] {
        let out = sanitize_filename(name);
        assert_eq!(out, out.trim());
        assert!(!out.starts_with('.') && !out.ends_with('.'));
    }
}

#[test]
fn hex_val_digits() {
    assert_eq!(hex_val(b'0'), Some(0));
    assert_eq!(hex_val(b'9'), Some(9));
    assert_eq!(hex_val(b'a'), Some(10));
    assert_eq!(hex_val(b'F'), Some(15));
    assert_eq!(hex_val(b'g'), None);
    assert_eq!(hex_val(b'%'), None);
}

#[test]
fn percent_decode_cases() {
    assert_eq!(percent_decode("%E4%B8%AD%E6%96%87.txt"), "中文.txt");
    assert_eq!(percent_decode("a%20b"), "a b");
    assert_eq!(percent_decode("plain-name.zip"), "plain-name.zip");
    // incomplete or non-hex escapes are kept
    assert_eq!(percent_decode("100%"), "100%");
    assert_eq!(percent_decode("%4"), "%4");
    assert_eq!(percent_decode("%zz"), "%zz");
    // invalid UTF-8 becomes U+FFFD
    assert_eq!(percent_decode("%FF"), "\u{FFFD}");
}

#[test]
fn percent_decode_round_trips_every_byte_escape() {
    for v in 0u8..=127 {
        let enc = format!("%{:02X}", v);
        assert_eq!(percent_decode(&enc).as_bytes(), &[v]);
        let enc = format!("%{:02x}", v);
        assert_eq!(percent_decode(&enc).as_bytes(), &[v]);
    }
}

#[test]
fn content_disposition_prefers_extended_value() {
    let h = "attachment; filename=\"fallback.txt\"; filename*=UTF-8''%E4%B8%AD%E6%96%87.txt";
    assert_eq!(parse_content_disposition(h), Some("中文.txt".to_string()));
    let h = "attachment; FILENAME*=utf-8''report%202024.pdf";
    assert_eq!(parse_content_disposition(h), Some("report 2024.pdf".to_string()));
}

#[test]
fn content_disposition_plain_value() {
    assert_eq!(parse_content_disposition("attachment; filename=\"a.zip\""), Some("a.zip".to_string()));
    assert_eq!(parse_content_disposition("attachment; filename='b.zip'; size=3"), Some("b.zip".to_string()));
    assert_eq!(parse_content_disposition("attachment; filename= c.bin "), Some("c.bin".to_string()));
    // an extended value that decodes to nothing falls back to the plain one
    assert_eq!(
        parse_content_disposition("attachment; filename*=UTF-8''; filename=d.txt"),
        Some("d.txt".to_string())
    );
}

#[test]
fn content_disposition_absent() {
    assert_eq!(parse_content_disposition("inline"), None);
    assert_eq!(parse_content_disposition("attachment; filename=\"\""), None);
    assert_eq!(parse_content_disposition(""), None);
}

#[test]
fn filename_candidate_sources() {
    assert_eq!(
        filename_candidate("http://example.com/x/file.iso", Some("attachment; filename=\"real.iso\"")),
        Ok("real.iso".to_string())
    );
    assert_eq!(filename_candidate("http://example.com/x/file.iso", None), Ok("file.iso".to_string()));
    assert_eq!(filename_candidate("http://example.com/dir/", None), Ok("".to_string()));
    assert_eq!(filename_candidate("mailto:someone@example.com", None), Ok("download".to_string()));
    assert!(filename_candidate("not a url", None).is_err());
    assert_eq!(
        filename_candidate("not a url", None),
        Err(url::Url::parse("not a url").unwrap_err().to_string())
    );
}

#[test]
fn finish_filename_falls_back() {
    assert_eq!(finish_filename(""), "download");
    assert_eq!(finish_filename("..."), "download");
    assert_eq!(finish_filename("../x.bin"), "x.bin");
}

#[test]
fn part_file_names() {
    assert!(is_part_file_name("movie.mkv.part.0", "movie.mkv"));
    assert!(is_part_file_name("movie.mkv.part.15", "movie.mkv"));
    assert!(!is_part_file_name("movie.mkv.part.", "movie.mkv"));
    assert!(!is_part_file_name("movie.mkv.part.1a", "movie.mkv"));
    assert!(!is_part_file_name("movie.mkv.part.bak", "movie.mkv"));
    assert!(!is_part_file_name("movie.mkv", "movie.mkv"));
    assert!(!is_part_file_name("other.mkv.part.1", "movie.mkv"));
}

#[test]
fn percent_decode_undoes_percent_encoding() {
    for s in ["", "a", "中文 名.txt", "%41", "100% done", "é\u{1F600}/\\"] {
        let upper: String = s.bytes().map(|b| format!("%{:02X}", b)).collect();
        let lower: String = s.bytes().map(|b| format!("%{:02x}", b)).collect();
        assert_eq!(percent_decode(&upper), s);
        assert_eq!(percent_decode(&lower), s);
    }
}

#[test]
fn finished_name_is_never_empty() {
    assert_eq!(finish_filename("/"), "download");
    assert_eq!(finish_filename(" . "), "download");
    assert_eq!(finish_filename(&"中".repeat(67)), "中".repeat(66));
}
