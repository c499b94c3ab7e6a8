use amc::output::file_section;

#[test]
fn section_layout() {
    let s = file_section("---", "src/a.rs", "abc123", "1700000000", "fn a() {}");
    assert_eq!(
        s,
        "---\nFile: src/a.rs\nLast commit: abc123\nLast update: 1700000000\n---\nfn a() {}\n\n"
    );
}
