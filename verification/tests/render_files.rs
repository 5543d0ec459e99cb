use spwm_generator::ratio::Ratio;
use spwm_generator::render::{CFile, CHexFile, FormatArgs, Raw, RawHex, RustFile, RustHexFile};
use spwm_generator::sections::UserSection;
use spwm_generator::spwm::SPWM;

fn b(s: &str) -> Vec<u8> {
    s.as_bytes().to_vec()
}

fn args(width: usize, sep: &str, inverter: Option<Ratio>) -> FormatArgs {
    FormatArgs { name: b("WAVE"), separator: b(sep), width, inverter }
}

/// A three-entry table: trough, center, peak.
fn small_spwm(top: usize) -> (SPWM, Vec<i64>, u64) {
    let spwm = SPWM::new(Ratio { num: 50, den: 1 }, 3, Ratio { num: 1, den: 100 }, top, 0);
    (spwm, vec![-2i64, 0, 2], 2)
}

#[test]
fn raw_renders_aligned_rows() {
    let (spwm, samples, scale) = small_spwm(255);
    let out = Raw.write(&spwm, &samples, scale, &args(16, ", ", None));
    assert_eq!(String::from_utf8(out).unwrap(), "  0, 127, 255, \n");
}

#[test]
fn raw_wraps_rows_at_width() {
    let (spwm, samples, scale) = small_spwm(255);
    let out = Raw.write(&spwm, &samples, scale, &args(2, ",", None));
    assert_eq!(String::from_utf8(out).unwrap(), "  0,127,\n255,\n");
}

#[test]
fn raw_hex_renders_sections_and_rows() {
    let (spwm, samples, scale) = small_spwm(255);
    let out = RawHex
        .write(&spwm, &samples, scale, &Vec::new(), &args(16, " ", None))
        .unwrap();
    let expected = "// USER SECTION BEGIN 0\n// USER SECTION END 0\n\n0000 007F 00FF \n// USER SECTION BEGIN 1\n// USER SECTION END 1\n\n";
    assert_eq!(String::from_utf8(out).unwrap(), expected);
}

#[test]
fn c_file_has_defines_and_table() {
    let (spwm, samples, scale) = small_spwm(255);
    let out = CFile
        .write(&spwm, &samples, scale, &Vec::new(), &args(16, ", ", None))
        .unwrap();
    let text = String::from_utf8(out).unwrap();
    assert!(text.starts_with("#include <stdint.h>\n"));
    assert!(text.contains("#define  WAVE_50HZ_CARRIER_FREQ    100\n"));
    assert!(text.contains("#define  WAVE_50HZ_LEN             3\n"));
    assert!(text.contains("const uint8_t WAVE_50HZ[WAVE_50HZ_LEN] = {\n"));
    assert!(text.contains("      0, 127, 255, \n"));
    assert!(text.contains("};\n"));
    assert!(!text.contains("_NOT["));
}

#[test]
fn c_file_width_follows_top_value() {
    let (spwm16, samples, scale) = small_spwm(1000);
    let out = CFile
        .write(&spwm16, &samples, scale, &Vec::new(), &args(16, ", ", None))
        .unwrap();
    let text = String::from_utf8(out).unwrap();
    assert!(text.contains("const uint16_t WAVE_50HZ["));

    let (spwm32, samples, scale) = small_spwm(70000);
    let out = CFile
        .write(&spwm32, &samples, scale, &Vec::new(), &args(16, ", ", None))
        .unwrap();
    let text = String::from_utf8(out).unwrap();
    assert!(text.contains("const uint32_t WAVE_50HZ["));
}

#[test]
fn c_file_inverter_table_is_hex() {
    let (spwm, samples, scale) = small_spwm(255);
    let out = CFile
        .write(
            &spwm,
            &samples,
            scale,
            &Vec::new(),
            &args(16, ", ", Some(Ratio { num: 0, den: 1 })),
        )
        .unwrap();
    let text = String::from_utf8(out).unwrap();
    assert!(text.contains("const uint8_t WAVE_50HZ_NOT[WAVE_50HZ_LEN] = {\n"));
    // Zero pad: the complementary table keeps the values, printed in hex
    // zero-padded to the decimal column width.
    assert!(text.contains("    0x000, 0x07F, 0x0FF, \n"));
}

#[test]
fn c_hex_file_renders_hex_cells() {
    let (spwm, samples, scale) = small_spwm(255);
    let out = CHexFile
        .write(&spwm, &samples, scale, &Vec::new(), &args(16, ", ", None))
        .unwrap();
    let text = String::from_utf8(out).unwrap();
    assert!(text.contains("    0x00, 0x7F, 0xFF, \n"));
}

#[test]
fn rust_file_head_and_rows() {
    let (spwm, samples, scale) = small_spwm(255);
    let out = RustFile
        .write(&spwm, &samples, scale, &Vec::new(), &args(16, ", ", None))
        .unwrap();
    let text = String::from_utf8(out).unwrap();
    assert!(text.contains("const WAVE_50HZ[u8; 3] = [\n"));
    assert!(text.contains("      0, 127, 255, \n"));
    assert!(text.contains("];\n"));
}

#[test]
fn rust_hex_file_renders_hex_cells() {
    let (spwm, samples, scale) = small_spwm(255);
    let out = RustHexFile
        .write(&spwm, &samples, scale, &Vec::new(), &args(16, ", ", None))
        .unwrap();
    let text = String::from_utf8(out).unwrap();
    assert!(text.contains("const WAVE_50HZ[u8; 3] = [\n"));
    assert!(text.contains("    0x00, 0x7F, 0xFF, \n"));
}

#[test]
fn regeneration_preserves_user_text() {
    let (spwm, samples, scale) = small_spwm(255);
    let first = CFile
        .write(&spwm, &samples, scale, &Vec::new(), &args(16, ", ", None))
        .unwrap();
    // A user edits section 1 of the generated file.
    let edited = String::from_utf8(first).unwrap().replace(
        "// USER SECTION BEGIN 1\n// USER SECTION END 1\n",
        "// USER SECTION BEGIN 1\nint mine = 1;\nint more = 2;\n// USER SECTION END 1\n",
    );
    // Regenerate with other wave parameters over the edited file.
    let spwm2 = SPWM::new(Ratio { num: 60, den: 1 }, 3, Ratio { num: 1, den: 300 }, 255, 0);
    let second = CFile
        .write(&spwm2, &samples, scale, &edited.into_bytes(), &args(16, ", ", None))
        .unwrap();
    let text = String::from_utf8(second).unwrap();
    // Preserved verbatim at the same insertion point, computed parts renamed.
    assert!(text.contains(
        "// USER SECTION BEGIN 1\nint mine = 1;\nint more = 2;\n// USER SECTION END 1\n"
    ));
    assert!(text.contains("WAVE_60HZ_CARRIER_FREQ    300"));
    assert!(!text.contains("WAVE_50HZ"));
    // And the new file parses back to the same registry entry.
    let reparsed = UserSection::read_user_reign(&text.into_bytes()).unwrap();
    let entry = reparsed.sections.iter().find(|e| e.0 == 1).unwrap();
    assert_eq!(entry.1, vec![b("int mine = 1;"), b("int more = 2;")]);
}

#[test]
fn orphaned_sections_survive_at_the_tail() {
    let old = b("// USER SECTION BEGIN 9\norphan\n// USER SECTION END 9\n");
    let (spwm, samples, scale) = small_spwm(255);
    let out = RawHex
        .write(&spwm, &samples, scale, &old, &args(16, " ", None))
        .unwrap();
    let text = String::from_utf8(out).unwrap();
    assert!(text.ends_with(
        "// USER SECTION BEGIN 9\norphan\n// USER SECTION END 9\n\n"
    ));
}
