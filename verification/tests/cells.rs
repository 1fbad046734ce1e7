use csv_cut::chars::{is_ascii_digit, is_white_space, to_ascii_lower};
use csv_cut::{normalize_cell, process_cell};

/// The cell rules spelled with std's string functions, to hold the library against.
fn clean_with_std(cell: &str) -> String {
    let cell = cell.trim();
    if cell.to_lowercase() == "\\n" || cell.to_lowercase() == "null" {
        return String::new();
    }
    if let Some(digits) = cell.strip_suffix(".0") {
        if !digits.is_empty() && digits.chars().all(|c| c.is_digit(10)) {
            let without_zeros = cell.trim_end_matches('0');
            return without_zeros.strip_suffix('.').unwrap_or(without_zeros).to_string();
        }
    }
    cell.replace('"', "\"\"")
}

fn strings_over(alphabet: &[char], len: usize) -> Vec<String> {
    let mut all = vec![String::new()];
    for _ in 0..len {
        let mut next = Vec::new();
        for prefix in &all {
            for c in alphabet {
                let mut longer = prefix.clone();
                longer.push(*c);
                next.push(longer);
            }
        }
        all = next;
    }
    all
}

#[test]
fn test_process_cell() {
    assert_eq!(process_cell("\\n"), "");
    assert_eq!(process_cell("null"), "");
    assert_eq!(process_cell("123.0"), "123");
    assert_eq!(process_cell("123.45"), "123.45");
    assert_eq!(process_cell("\"Quote\""), "\"\"Quote\"\"");
    assert_eq!(process_cell(" Trimmed "), "Trimmed");
}

#[test]
fn null_markers_in_any_case_are_emptied() {
    for marker in ["null", "NULL", "Null", "nUlL", "\\n", "\\N"] {
        assert_eq!(process_cell(marker), "", "{marker}");
    }
}

#[test]
fn null_markers_are_found_after_trimming() {
    assert_eq!(process_cell("  null  "), "");
    assert_eq!(process_cell("\tNULL\r\n"), "");
    assert_eq!(process_cell(" \\N"), "");
    assert_eq!(process_cell("\u{a0}null\u{3000}"), "");
}

#[test]
fn near_markers_are_kept() {
    assert_eq!(process_cell("nulls"), "nulls");
    assert_eq!(process_cell("nul"), "nul");
    assert_eq!(process_cell("n ull"), "n ull");
    assert_eq!(process_cell("\\nn"), "\\nn");
    assert_eq!(process_cell("\n"), "");
    assert_eq!(process_cell("/n"), "/n");
    assert_eq!(process_cell("none"), "none");
}

#[test]
fn letters_beyond_ascii_make_no_marker() {
    // U+212A, the Kelvin sign, is the one letter beyond ASCII that std folds into ASCII.
    assert_eq!(process_cell("\u{ff2e}\u{ff35}\u{ff2c}\u{ff2c}"), "\u{ff2e}\u{ff35}\u{ff2c}\u{ff2c}");
    assert_eq!(process_cell("nu\u{212a}l"), "nu\u{212a}l");
    assert_eq!(process_cell("\u{130}ull"), "\u{130}ull");
}

#[test]
fn integral_decimals_lose_their_point_zero() {
    assert_eq!(process_cell("0.0"), "0");
    assert_eq!(process_cell("30.0"), "30");
    assert_eq!(process_cell("100.0"), "100");
    assert_eq!(process_cell("1200.0"), "1200");
    assert_eq!(process_cell("007.0"), "007");
    assert_eq!(process_cell("  42.0\t"), "42");
}

#[test]
fn other_trailing_zeros_are_kept() {
    assert_eq!(process_cell("120.00"), "120.00");
    assert_eq!(process_cell("100.00"), "100.00");
    assert_eq!(process_cell("1.50"), "1.50");
    assert_eq!(process_cell("10"), "10");
    assert_eq!(process_cell("1.0e3"), "1.0e3");
}

#[test]
fn decimals_with_other_characters_are_kept() {
    assert_eq!(process_cell("abc.0"), "abc.0");
    assert_eq!(process_cell("-1.0"), "-1.0");
    assert_eq!(process_cell("+1.0"), "+1.0");
    assert_eq!(process_cell("1,000.0"), "1,000.0");
    assert_eq!(process_cell("1 .0"), "1 .0");
    assert_eq!(process_cell("\u{661}.0"), "\u{661}.0");
    assert_eq!(process_cell("\u{ff11}.0"), "\u{ff11}.0");
}

#[test]
fn several_points_make_no_integral_decimal() {
    assert_eq!(process_cell("1.2.0"), "1.2.0");
    assert_eq!(process_cell("1.0.0"), "1.0.0");
    assert_eq!(process_cell("1..0"), "1..0");
    assert_eq!(process_cell("...0"), "...0");
    assert_eq!(process_cell("192.168.0.0"), "192.168.0.0");
}

#[test]
fn point_zero_without_digits_is_kept() {
    assert_eq!(process_cell(".0"), ".0");
    assert_eq!(process_cell("  .0 "), ".0");
}

#[test]
fn no_integral_decimal_is_cleaned_to_the_empty_cell() {
    for cell in ["0.0", "00.0", "000.0", "1.0", "10.0"] {
        assert!(!process_cell(cell).is_empty(), "{cell}");
    }
}

#[test]
fn the_normal_form_keeps_quotes_single() {
    assert_eq!(normalize_cell(" say \"hi\" "), "say \"hi\"");
    assert_eq!(normalize_cell("\""), "\"");
    assert_eq!(normalize_cell("NULL"), "");
    assert_eq!(normalize_cell(" 30.0 "), "30");
    assert_eq!(normalize_cell("1.2.0"), "1.2.0");
    assert_eq!(normalize_cell("plain"), "plain");
}

#[test]
fn cleaning_is_the_normal_form_with_its_quotes_doubled() {
    for cell in ["", " null ", "7.0", "a\"b", "\"\"", " \"1.0\" ", "x,y", "\u{e9}\"\u{1f600}"] {
        assert_eq!(process_cell(cell), normalize_cell(cell).replace('"', "\"\""), "{cell:?}");
    }
}

#[test]
fn cleaning_an_integral_decimal_twice_changes_nothing_more() {
    for cell in ["0.0", "123.0", "100.0", "9.0", ".0", "000.0"] {
        let once = process_cell(cell);
        assert_eq!(process_cell(&once), once, "{cell}");
    }
}

#[test]
fn quotes_are_doubled_and_nothing_else_changes() {
    assert_eq!(process_cell("\""), "\"\"");
    assert_eq!(process_cell("\"\""), "\"\"\"\"");
    assert_eq!(process_cell("say \"hi\", twice"), "say \"\"hi\"\", twice");
    assert_eq!(process_cell("it's"), "it's");
    assert_eq!(process_cell("a\\b"), "a\\b");
    assert_eq!(process_cell("tab\tinside"), "tab\tinside");
    assert_eq!(process_cell("\u{e9}t\u{e9} \"\u{1f600}\""), "\u{e9}t\u{e9} \"\"\u{1f600}\"\"");
}

#[test]
fn quoted_markers_and_numbers_are_only_escaped() {
    assert_eq!(process_cell("\"null\""), "\"\"null\"\"");
    assert_eq!(process_cell("\"1.0\""), "\"\"1.0\"\"");
    assert_eq!(process_cell("1.0\""), "1.0\"\"");
}

#[test]
fn padding_is_removed_before_the_rules_apply() {
    for cell in ["null", "12.0", "a \"b\" c", "", "x", "1.5"] {
        let plain = process_cell(cell);
        for (before, after) in [(" ", ""), ("", " "), ("\t\r\n", "  "), ("\u{2003}", "\u{85}")] {
            let padded = format!("{before}{cell}{after}");
            assert_eq!(process_cell(&padded), plain, "{padded:?}");
        }
    }
}

#[test]
fn white_space_inside_is_kept() {
    assert_eq!(process_cell("  New   York  "), "New   York");
    assert_eq!(process_cell("a\nb"), "a\nb");
}

#[test]
fn blank_cells_are_emptied() {
    assert_eq!(process_cell(""), "");
    assert_eq!(process_cell("   "), "");
    assert_eq!(process_cell("\t\n\r"), "");
}

#[test]
fn white_space_is_what_std_calls_white_space() {
    let mut found = 0;
    for code in 0..=0x10ffffu32 {
        if let Some(c) = char::from_u32(code) {
            assert_eq!(is_white_space(c), c.is_whitespace(), "U+{code:04X}");
            if is_white_space(c) {
                found += 1;
            }
        }
    }
    assert_eq!(found, 25);
}

#[test]
fn digits_are_the_ten_ascii_digits() {
    for code in 0..=0x10ffffu32 {
        if let Some(c) = char::from_u32(code) {
            assert_eq!(is_ascii_digit(c), c.is_digit(10), "U+{code:04X}");
        }
    }
}

#[test]
fn folding_is_std_lowercase_wherever_a_marker_letter_is_at_stake() {
    for code in 0..=0x10ffffu32 {
        if let Some(c) = char::from_u32(code) {
            let folded: String = c.to_lowercase().collect();
            if c.is_ascii() {
                assert_eq!(folded, to_ascii_lower(c).to_string(), "U+{code:04X}");
            } else {
                assert_eq!(to_ascii_lower(c), c);
                assert!(!folded.contains(['n', 'u', 'l', '\\']), "U+{code:04X}");
            }
        }
    }
}

#[test]
fn short_cells_are_cleaned_as_std_would() {
    let alphabet = [
        ' ', '\t', '\u{a0}', '0', '1', '.', '"', 'n', 'N', 'u', 'U', 'l', 'L', '\\', 'a', '\u{e9}',
        '\u{212a}',
    ];
    for len in 0..=4 {
        for cell in strings_over(&alphabet, len) {
            assert_eq!(process_cell(&cell), clean_with_std(&cell), "{cell:?}");
        }
    }
}

#[test]
fn longer_cells_are_cleaned_as_std_would() {
    let alphabet = ['0', '.', '"', ' ', 'n', '7'];
    for len in 5..=7 {
        for cell in strings_over(&alphabet, len) {
            assert_eq!(process_cell(&cell), clean_with_std(&cell), "{cell:?}");
        }
    }
}
