use ecc_kernel::text::white_space;
use ecc_kernel::verify::{file_stem_for, output_path, safe_name};

#[test]
fn safe_name_lowercases_and_keeps_letters_and_digits() {
    assert_eq!(safe_name("Build"), "build");
    assert_eq!(safe_name("Test2"), "test2");
    assert_eq!(safe_name("ABCdef123"), "abcdef123");
}

#[test]
fn safe_name_collapses_runs_of_non_alphanumerics() {
    assert_eq!(safe_name("lint - check"), "lint-check");
    assert_eq!(safe_name("cargo test --all"), "cargo-test-all");
    assert_eq!(safe_name("a  /  b"), "a-b");
    assert_eq!(safe_name("a!!-b"), "a-b");
    assert_eq!(safe_name("a-!b"), "a-b");
    assert_eq!(safe_name("lint & fmt"), "lint-fmt");
    assert_eq!(safe_name("unit_tests-2.0"), "unit-tests-2-0");
    assert_eq!(safe_name("a.b_c-d"), "a-b-c-d");
    assert_eq!(safe_name("a._-b"), "a-b");
}

#[test]
fn safe_name_trims_white_space_and_separators() {
    assert_eq!(safe_name("  build  "), "build");
    assert_eq!(safe_name("--build--"), "build");
    assert_eq!(safe_name("!build?"), "build");
    assert_eq!(safe_name(".build."), "build");
    assert_eq!(safe_name("\u{a0}x\u{2003}"), "x");
}

#[test]
fn safe_name_defaults_when_nothing_is_left() {
    assert_eq!(safe_name(""), "command");
    assert_eq!(safe_name("   "), "command");
    assert_eq!(safe_name("///"), "command");
    assert_eq!(safe_name("---"), "command");
    assert_eq!(safe_name("._-"), "command");
    assert_eq!(safe_name("日本語"), "command");
}

#[test]
fn safe_name_follows_unicode_lowercase() {
    assert_eq!(safe_name("\u{212a}elvin"), "kelvin");
    assert_eq!(safe_name("\u{130}x"), "i-x");
    assert_eq!(safe_name("Ünit"), "nit");
}

#[test]
fn safe_name_is_made_of_safe_characters() {
    for name in ["Build", "a  b", "../../x", "", "-.-", "A_B.C", "x\ty\nz", "é1"] {
        let safe = safe_name(name);
        assert!(!safe.is_empty());
        assert!(safe.chars().all(|c| c.is_ascii_alphanumeric() || c == '-'), "{safe}");
        assert!(!safe.starts_with('-') && !safe.ends_with('-'), "{safe}");
        assert!(!safe.contains("--"), "{safe}");
    }
}

#[test]
fn file_stem_takes_text_as_given() {
    assert_eq!(file_stem_for("a b"), "a-b");
    assert_eq!(file_stem_for("ABC"), "ABC");
    assert_eq!(file_stem_for(" x "), "x");
    assert_eq!(file_stem_for("lint - check"), "lint-check");
    assert_eq!(file_stem_for(""), "command");
}

#[test]
fn output_path_is_under_out_dir() {
    assert_eq!(output_path("/out", "Unit Tests"), "/out/unit-tests.txt");
    assert_eq!(output_path("/out/", "lint"), "/out/lint.txt");
    assert_eq!(output_path("out/dir", "!!"), "out/dir/command.txt");
    assert_eq!(output_path("", "x"), "x.txt");
}

#[test]
fn white_space_is_what_the_standard_library_calls_white_space() {
    for code in 0..=0x10ffffu32 {
        if let Some(c) = char::from_u32(code) {
            assert_eq!(white_space(c), c.is_whitespace(), "U+{code:04X}");
        }
    }
}
