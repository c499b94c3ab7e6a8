use amc::clean::{clean_content, sanitize_bytes, CleanStats};

#[test]
fn removes_nul_and_control_bytes() {
    let input = b"ab\x00c\x01\td\r\n\x1fe\nok\n\x0b";
    let (bytes, stats) = sanitize_bytes(input, true);
    assert_eq!(bytes, b"abc\td\r\ne\nok\n".to_vec());
    assert_eq!(
        stats,
        CleanStats { null_bytes: 1, control_chars: 3, total_bytes: 16, lines_affected: 3 }
    );
}

#[test]
fn without_stats_only_the_total_is_counted() {
    let (bytes, stats) = sanitize_bytes(b"a\x00b\x02\n", false);
    assert_eq!(bytes, b"ab\n".to_vec());
    assert_eq!(
        stats,
        CleanStats { null_bytes: 0, control_chars: 0, total_bytes: 5, lines_affected: 0 }
    );
}

#[test]
fn clean_input_is_unchanged() {
    let (text, stats) = clean_content(b"fn main() {}\n\tx\r\n", true);
    assert_eq!(text, "fn main() {}\n\tx\r\n");
    assert_eq!(stats.null_bytes + stats.control_chars, 0);
    assert_eq!(stats.lines_affected, 0);
}

#[test]
fn empty_input() {
    let (text, stats) = clean_content(b"", true);
    assert_eq!(text, "");
    assert_eq!(
        stats,
        CleanStats { null_bytes: 0, control_chars: 0, total_bytes: 0, lines_affected: 0 }
    );
}

#[test]
fn invalid_utf8_is_replaced() {
    let (text, stats) = clean_content(b"a\xffb\x00", true);
    assert_eq!(text, "a\u{FFFD}b");
    assert_eq!(stats.null_bytes, 1);
    assert_eq!(stats.lines_affected, 1);
}
