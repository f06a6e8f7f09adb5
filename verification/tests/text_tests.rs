use lele_download::folders::{chosen_folder, open_folder_target};
use lele_download::text::is_whitespace;

#[test]
fn white_space_matches_std() {
    for u in 0u32..=0x10FFFF {
        if let Some(c) = char::from_u32(u) {
            assert_eq!(is_whitespace(c), c.is_whitespace(), "U+{:04X}", u);
        }
    }
}

#[test]
fn folder_picker_output() {
    assert_eq!(chosen_folder(b"  D:\\Downloads\r\n"), Ok("D:\\Downloads".to_string()));
    assert_eq!(chosen_folder(b"\r\n"), Err("No folder selected".to_string()));
    assert_eq!(chosen_folder(b""), Err("No folder selected".to_string()));
}

#[test]
fn folder_to_open() {
    assert_eq!(open_folder_target("/home/u/a.zip", Some("/home/u")), Ok("/home/u".to_string()));
    assert_eq!(open_folder_target("a.zip", Some("")), Ok("a.zip".to_string()));
    assert_eq!(open_folder_target("/", None), Ok("/".to_string()));
    assert_eq!(
        open_folder_target("/home/u/../etc", Some("/home/u/..")),
        Err("Path contains invalid characters".to_string())
    );
}

use lele_download::text::{
    chars_to_string, decimal_chars, find_chars, lines_chars, skip_utf8_bytes, split_chars,
    str_equal, str_to_chars, trim_chars,
};

fn texts() -> Vec<&'static str> {
    vec![
        "", "\n", "a", "a\n", "a\r\n", "a\r", "\r\n\r\n", "a\nb", "a\r\nb\r\n", "a\n\nb\n\n",
        "  x  ", "\t\u{3000}mid\u{2028}", "..a..", ";;", "a;b;", "中文;x\r\n", "é\n\r",
    ]
}

#[test]
fn lines_match_std() {
    for t in texts() {
        let cs: Vec<char> = t.chars().collect();
        let ours: Vec<String> = lines_chars(&cs).into_iter().map(|l| l.into_iter().collect()).collect();
        let std: Vec<String> = t.lines().map(|l| l.to_string()).collect();
        assert_eq!(ours, std, "{:?}", t);
    }
}

#[test]
fn split_and_find_match_std() {
    for t in texts() {
        let cs: Vec<char> = t.chars().collect();
        for sep in [';', '\n', 'a'] {
            let ours: Vec<String> = split_chars(&cs, sep).into_iter().map(|l| l.into_iter().collect()).collect();
            let std: Vec<String> = t.split(sep).map(|l| l.to_string()).collect();
            assert_eq!(ours, std, "{:?} on {:?}", t, sep);
        }
        for pat in ["\r\n\r\n", "..", "a", ""] {
            let p: Vec<char> = pat.chars().collect();
            let ours = find_chars(&cs, &p, 0).map(|i| cs[..i].iter().collect::<String>().len());
            assert_eq!(ours, t.find(pat), "{:?} in {:?}", pat, t);
        }
    }
}

#[test]
fn trims_match_std() {
    for t in texts() {
        let cs: Vec<char> = t.chars().collect();
        let ws: String = trim_chars(&cs, None).into_iter().collect();
        assert_eq!(ws, t.trim());
        let dots: String = trim_chars(&cs, Some('.')).into_iter().collect();
        assert_eq!(dots, t.trim_matches('.'));
    }
}

#[test]
fn byte_skips_match_slicing() {
    for t in texts() {
        let cs: Vec<char> = t.chars().collect();
        for n in 0..=t.len() + 1 {
            let ours = skip_utf8_bytes(&cs, n).map(|v| v.into_iter().collect::<String>());
            let std = if n <= t.len() && t.is_char_boundary(n) { Some(t[n..].to_string()) } else { None };
            assert_eq!(ours, std, "{:?} at {}", t, n);
        }
    }
}

#[test]
fn small_helpers() {
    for n in [0u64, 7, 10, 99, 100, 12345, u64::MAX] {
        assert_eq!(decimal_chars(n).into_iter().collect::<String>(), n.to_string());
    }
    assert_eq!(str_to_chars("中x"), vec!['中', 'x']);
    assert_eq!(chars_to_string(&['a', '中']), "a中");
    assert!(str_equal("abc", "abc"));
    assert!(!str_equal("abc", "abd"));
}
