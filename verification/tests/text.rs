use regtree::address::compute_address;
use regtree::address::compute_element_offset;
use regtree::array::expand_array;
use regtree::array::has_labels;
use regtree::model::ArrayDim;
use regtree::model::BuildError;
use regtree::text::decimal_string;
use regtree::text::hex_string;
use regtree::text::is_space_char;
use regtree::text::joined_path;
use regtree::text::rendered_description;
use regtree::text::replace_all;
use regtree::text::rm_white;
use regtree::text::same_text;
use regtree::text::string_of;
use regtree::text::substitute_index;
use regtree::text::to_chars;

#[test]
fn description_runs_of_whitespace_collapse_to_one_space() {
    let text = Some("Control   register\n\n  of the\t\ttimer".to_string());
    assert_eq!(rendered_description(&text), "Control register of the timer");
}

#[test]
fn description_keeps_single_whitespace_characters() {
    let text = Some("one\ntwo\tthree four".to_string());
    assert_eq!(rendered_description(&text), "one\ntwo\tthree four");
}

#[test]
fn description_collapses_unicode_whitespace() {
    let text = Some("a\u{a0}\u{2003}b".to_string());
    assert_eq!(rendered_description(&text), "a b");
}

#[test]
fn description_collapses_leading_and_trailing_runs() {
    let text = Some("  a  ".to_string());
    assert_eq!(rendered_description(&text), " a ");
}

#[test]
fn whitespace_runs_collapse_as_the_pattern_says() {
    assert_eq!(rm_white("a  b"), "a b");
    assert_eq!(rm_white("a \t\n b  c"), "a b c");
    assert_eq!(rm_white("a b"), "a b");
    assert_eq!(rm_white("a\tb"), "a\tb");
    assert_eq!(rm_white(""), "");
    assert_eq!(rm_white("   "), " ");
    assert_eq!(rm_white("$1  $0"), "$1 $0");
    assert_eq!(rm_white("\\s\\s+  x"), "\\s\\s+ x");
}

#[test]
fn missing_description_is_empty() {
    assert_eq!(rendered_description(&None), "");
}

#[test]
fn whitespace_characters_are_those_of_std() {
    for code in 0u32..0x3100 {
        if let Some(c) = char::from_u32(code) {
            assert_eq!(is_space_char(c), c.is_whitespace(), "U+{:04X}", code);
        }
    }
}

#[test]
fn decimal_of_zero_and_of_the_largest_number() {
    assert_eq!(decimal_string(0), "0");
    assert_eq!(decimal_string(7), "7");
    assert_eq!(decimal_string(1234567890), "1234567890");
    assert_eq!(decimal_string(u64::MAX), "18446744073709551615");
}

#[test]
fn hex_is_padded_to_the_width_and_never_cut() {
    assert_eq!(hex_string(0, 2), "00");
    assert_eq!(hex_string(0x1f, 2), "1f");
    assert_eq!(hex_string(0x123, 2), "123");
    assert_eq!(hex_string(0x40000010, 8), "40000010");
    assert_eq!(hex_string(0xabc, 8), "00000abc");
    assert_eq!(hex_string(u64::MAX, 8), "ffffffffffffffff");
    assert_eq!(hex_string(5, 0), "5");
}

#[test]
fn hex_agrees_with_std_formatting() {
    for n in [0u64, 1, 15, 16, 255, 256, 0xdead_beef, 0x1_0000_0000, u64::MAX] {
        assert_eq!(hex_string(n, 8), format!("{:08x}", n));
        assert_eq!(hex_string(n, 2), format!("{:02x}", n));
        assert_eq!(decimal_string(n), format!("{}", n));
    }
}

#[test]
fn paths_are_joined_with_a_dot() {
    assert_eq!(joined_path("TIMER0", "CTRL"), "TIMER0.CTRL");
    assert_eq!(joined_path("", ""), ".");
}

#[test]
fn characters_of_a_text_and_back() {
    let chars = to_chars("héllo");
    assert_eq!(chars, vec!['h', 'é', 'l', 'l', 'o']);
    assert_eq!(string_of(&chars, 1, 4), "éll");
    assert_eq!(string_of(&chars, 2, 2), "");
}

#[test]
fn same_text_compares_by_content() {
    assert!(same_text("abc", "abc"));
    assert!(!same_text("abc", "abd"));
    assert!(!same_text("abc", "ab"));
    assert!(same_text("", ""));
}

#[test]
fn replace_all_replaces_from_the_left_without_overlap() {
    assert_eq!(replace_all("aaa", "aa", "b"), "ba");
    assert_eq!(replace_all("x%sy%s", "%s", "12"), "x12y12");
    assert_eq!(replace_all("abc", "d", "e"), "abc");
    assert_eq!(replace_all("", "d", "e"), "");
    assert_eq!(replace_all("abc", "abcd", "e"), "abc");
}

#[test]
fn replace_all_with_an_empty_pattern_changes_nothing() {
    assert_eq!(replace_all("abc", "", "x"), "abc");
}

#[test]
fn replace_all_agrees_with_std_for_the_placeholders() {
    for template in ["CH%s", "CH[%s]", "%s%s", "[%s", "%s]", "A[%s]B%sC", "%", "s%", "[%s][%s]"] {
        for label in ["0", "A", "", "xy"] {
            assert_eq!(replace_all(template, "%s", label), template.replace("%s", label));
            assert_eq!(replace_all(template, "[%s]", label), template.replace("[%s]", label));
            assert_eq!(
                substitute_index(template, label),
                template.replace("[%s]", label).replace("%s", label)
            );
        }
    }
}

#[test]
fn both_placeholder_forms_are_substituted() {
    assert_eq!(substitute_index("GPIO[%s]", "3"), "GPIO3");
    assert_eq!(substitute_index("GPIO%s", "3"), "GPIO3");
    assert_eq!(substitute_index("GPIO", "3"), "GPIO");
    assert_eq!(substitute_index("Channel %s of [%s]", "B"), "Channel B of B");
}

#[test]
fn address_is_base_plus_offset_plus_steps() {
    assert_eq!(compute_address(0x4000_0000, 0x10, 0, 0), Some(0x4000_0010));
    assert_eq!(compute_address(0x4000_0000, 0x20, 4, 2), Some(0x4000_0028));
    assert_eq!(compute_address(0, 0, 0, 0), Some(0));
    assert_eq!(compute_address(u64::MAX - 0x10, 0x10, 0, 0), Some(u64::MAX));
}

#[test]
fn address_that_does_not_fit_is_none() {
    assert_eq!(compute_address(u64::MAX, 1, 0, 0), None);
    assert_eq!(compute_address(u64::MAX - 7, 0, 4, 2), None);
    assert_eq!(compute_address(u64::MAX - 8, 0, 4, 2), Some(u64::MAX));
}

#[test]
fn element_offset_never_overflows() {
    assert_eq!(compute_element_offset(4, 3), 12);
    assert_eq!(compute_element_offset(u32::MAX, u32::MAX), 0xffff_fffe_0000_0001);
}

#[test]
fn array_expansion_with_generated_labels() {
    let array = ArrayDim { dim: 3, increment: 4, labels: None };
    let elements = expand_array("REG%s", "Register %s", &array).unwrap();
    assert_eq!(elements.len(), 3);
    let names: Vec<&str> = elements.iter().map(|e| e.name.as_str()).collect();
    assert_eq!(names, vec!["REG0", "REG1", "REG2"]);
    let labels: Vec<&str> = elements.iter().map(|e| e.label.as_str()).collect();
    assert_eq!(labels, vec!["0", "1", "2"]);
    let offsets: Vec<u64> = elements.iter().map(|e| e.offset).collect();
    assert_eq!(offsets, vec![0, 4, 8]);
    assert_eq!(elements[1].description, "Register 1");
}

#[test]
fn array_expansion_with_explicit_labels_uses_them_in_order() {
    let array = ArrayDim {
        dim: 2,
        increment: 0x100,
        labels: Some(vec!["A".to_string(), "B".to_string(), "C".to_string()]),
    };
    let elements = expand_array("PORT[%s]", "", &array).unwrap();
    assert_eq!(elements.len(), 2);
    assert_eq!(elements[0].name, "PORTA");
    assert_eq!(elements[1].name, "PORTB");
    assert_eq!(elements[1].offset, 0x100);
}

#[test]
fn array_expansion_of_no_elements() {
    let array = ArrayDim { dim: 0, increment: 4, labels: None };
    assert_eq!(expand_array("R%s", "", &array).unwrap().len(), 0);
}

#[test]
fn array_with_too_few_labels_is_refused() {
    let array = ArrayDim { dim: 3, increment: 4, labels: Some(vec!["A".to_string()]) };
    assert!(!has_labels(&array));
    assert_eq!(expand_array("R%s", "", &array), Err(BuildError::MissingIndexLabel));
}
