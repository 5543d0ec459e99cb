use spwm_generator::errors::SpwmError;
use spwm_generator::sections::UserSection;
use spwm_generator::text::parse_i32;

fn b(s: &str) -> Vec<u8> {
    s.as_bytes().to_vec()
}

fn lines(v: &[&str]) -> Vec<Vec<u8>> {
    v.iter().map(|s| b(s)).collect()
}

#[test]
fn parse_i32_plain_and_signed() {
    assert_eq!(parse_i32(&b("42")), Some(42));
    assert_eq!(parse_i32(&b("-7")), Some(-7));
    assert_eq!(parse_i32(&b("+9")), Some(9));
    assert_eq!(parse_i32(&b("0003")), Some(3));
}

#[test]
fn parse_i32_rejects_garbage() {
    assert_eq!(parse_i32(&b("")), None);
    assert_eq!(parse_i32(&b("-")), None);
    assert_eq!(parse_i32(&b("12x")), None);
    assert_eq!(parse_i32(&b(" 3")), None);
}

#[test]
fn parse_i32_bounds() {
    assert_eq!(parse_i32(&b("2147483647")), Some(i32::MAX));
    assert_eq!(parse_i32(&b("2147483648")), None);
    assert_eq!(parse_i32(&b("-2147483648")), Some(i32::MIN));
    assert_eq!(parse_i32(&b("-2147483649")), None);
    assert_eq!(parse_i32(&b("99999999999999999999")), None);
}

#[test]
fn scanner_collects_sections() {
    let content = b("computed noise\n// USER SECTION BEGIN 0\nkeep me\nand me\n// USER SECTION END 0\nmore computed output\n  // USER SECTION BEGIN 2\nthird\n  // USER SECTION END 2\n");
    let user = UserSection::read_user_reign(&content).unwrap();
    assert_eq!(user.sections.len(), 2);
    assert_eq!(user.sections[0].0, 0);
    assert_eq!(user.sections[0].1, lines(&["keep me", "and me"]));
    assert_eq!(user.sections[1].0, 2);
    assert_eq!(user.sections[1].1, lines(&["third"]));
}

#[test]
fn scanner_keeps_sections_sorted_by_index() {
    let content = b("// USER SECTION BEGIN 5\nlater\n// USER SECTION END 5\n// USER SECTION BEGIN 1\nearlier\n// USER SECTION END 1\n");
    let user = UserSection::read_user_reign(&content).unwrap();
    assert_eq!(user.sections[0].0, 1);
    assert_eq!(user.sections[1].0, 5);
}

#[test]
fn scanner_ignores_mismatched_end() {
    let content = b("// USER SECTION BEGIN 1\n// USER SECTION END 2\ntail line\n// USER SECTION END 1\n");
    let user = UserSection::read_user_reign(&content).unwrap();
    assert_eq!(user.sections.len(), 1);
    assert_eq!(
        user.sections[0].1,
        lines(&["// USER SECTION END 2", "tail line"])
    );
}

#[test]
fn scanner_reports_unterminated_section() {
    let content = b("// USER SECTION BEGIN 0\ntext\n// USER SECTION END 0\n// USER SECTION BEGIN 3\nlost text\n");
    let out = UserSection::read_user_reign(&content);
    assert_eq!(out.unwrap_err(), SpwmError::UnterminatedSection { index: 3 });
}

#[test]
fn scanner_of_empty_input_is_empty() {
    let user = UserSection::read_user_reign(&Vec::new()).unwrap();
    assert!(user.sections.is_empty());
}

#[test]
fn begin_without_index_is_ordinary_text() {
    let content = b("// USER SECTION BEGIN\nplain\n");
    let user = UserSection::read_user_reign(&content).unwrap();
    assert!(user.sections.is_empty());
}

#[test]
fn write_emits_marker_pair_with_text() {
    let content = b("// USER SECTION BEGIN 1\nhello\n// USER SECTION END 1\n");
    let user = UserSection::read_user_reign(&content).unwrap();
    let mut out: Vec<Vec<u8>> = Vec::new();
    user.write(1, &mut out);
    assert_eq!(
        out,
        lines(&["// USER SECTION BEGIN 1", "hello", "// USER SECTION END 1", ""])
    );
}

#[test]
fn write_emits_empty_pair_when_absent() {
    let user = UserSection::read_user_reign(&Vec::new()).unwrap();
    let mut out: Vec<Vec<u8>> = Vec::new();
    user.write(0, &mut out);
    assert_eq!(
        out,
        lines(&["// USER SECTION BEGIN 0", "// USER SECTION END 0", ""])
    );
}

#[test]
fn write_remains_emits_high_indices_ascending() {
    let content = b("// USER SECTION BEGIN 7\nseven\n// USER SECTION END 7\n// USER SECTION BEGIN 1\none\n// USER SECTION END 1\n// USER SECTION BEGIN 4\nfour\n// USER SECTION END 4\n");
    let user = UserSection::read_user_reign(&content).unwrap();
    let mut out: Vec<Vec<u8>> = Vec::new();
    user.write_remains(4, &mut out);
    assert_eq!(
        out,
        lines(&[
            "// USER SECTION BEGIN 4",
            "four",
            "// USER SECTION END 4",
            "",
            "// USER SECTION BEGIN 7",
            "seven",
            "// USER SECTION END 7",
            "",
        ])
    );
}

#[test]
fn later_section_with_same_index_wins() {
    let content = b("// USER SECTION BEGIN 0\nold\n// USER SECTION END 0\n// USER SECTION BEGIN 0\nnew\n// USER SECTION END 0\n");
    let user = UserSection::read_user_reign(&content).unwrap();
    assert_eq!(user.sections.len(), 1);
    assert_eq!(user.sections[0].1, lines(&["new"]));
}
