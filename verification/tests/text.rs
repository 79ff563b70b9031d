use amnia_desktop::system_info::parse_sysfs_vram;
use amnia_desktop::text::{chars_of, is_whitespace, line_ranges, trim_bounds};

fn lines_of(s: &str) -> Vec<String> {
    let v = chars_of(s);
    line_ranges(&v).iter().map(|&(a, b)| v[a..b].iter().collect()).collect()
}

#[test]
fn lines_follow_std() {
    for s in ["", "\n", "a", "a\n", "a\r\nb", "foo\nbar\n\r\nbaz\r", "a\r\r\n", "\n\n", "x\ry"] {
        let expected: Vec<String> = s.lines().map(|l| l.to_string()).collect();
        assert_eq!(lines_of(s), expected, "{:?}", s);
    }
}

#[test]
fn trim_follows_std() {
    for s in ["", "  ", " a ", "\u{3000}a b\u{85}", "\t\r\n", "x"] {
        let v = chars_of(s);
        let (lo, hi) = trim_bounds(&v, 0, v.len());
        let got: String = v[lo..hi].iter().collect();
        assert_eq!(got, s.trim(), "{:?}", s);
    }
    assert!(is_whitespace('\u{2009}'));
    assert!(!is_whitespace('\u{200B}'));
}

#[test]
fn u64_parsing_follows_std() {
    for s in ["0", "42", "+7", "+", "-1", "", " 1", "007", "18446744073709551615", "18446744073709551616", "99999999999999999999999", "1a"] {
        assert_eq!(parse_sysfs_vram(s), s.trim().parse::<u64>().ok(), "{:?}", s);
    }
}
