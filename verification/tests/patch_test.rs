use gbspacklib::{replace_all_banks, replace_bank, try_replace_all_banks, BankReplacement};

fn object_text() -> String {
    "XL3
H 2 areas 5 global symbols
S b_wait_frames Ref000000
S .__.ABS. Def000000
S _wait_frames Ref000000
S ___bank_SCRIPT_3 Def0000FF
A _CODE size 0 flags 0 addr 0
A _CODE_5 size 5 flags 0 addr 0
A _CODE_255 size 55 flags 0 addr 0
S _SCRIPT_3 Def000000"
        .to_owned()
}

#[test]
fn bank_symbol_and_area_name_are_rewritten() {
    let output = replace_bank(&object_text(), 255, 15);
    assert!(output.contains("S ___bank_SCRIPT_3 Def00000F"));
    assert!(output.contains("A _CODE_15 size 55 flags 0 addr 0"));
    assert!(!output.contains("_CODE_255"));
    assert!(!output.contains("Def0000FF"));
    assert!(output.contains("A _CODE_5 size 5 flags 0 addr 0"));
}

#[test]
fn replacement_made_twice_changes_nothing_more() {
    let once = replace_bank(&object_text(), 255, 15);
    let twice = replace_bank(&once, 255, 15);
    assert_eq!(twice, once);
    let list = vec![
        BankReplacement { from: 5, to: 6 },
        BankReplacement { from: 255, to: 7 },
    ];
    let once = replace_all_banks(&object_text(), list.clone());
    let twice = replace_all_banks(&once, list);
    assert_eq!(twice, once);
}

#[test]
fn text_without_the_bank_is_left_as_it_is() {
    let input = object_text();
    assert_eq!(replace_bank(&input, 9, 10), input);
    assert_eq!(replace_bank(&String::new(), 9, 10), String::new());
}

#[test]
fn no_replacements_leave_the_text() {
    let input = object_text();
    assert_eq!(replace_all_banks(&input, vec![]), input);
    assert_eq!(try_replace_all_banks(&input, vec![]), Some(input));
}

#[test]
fn banked_function_defined_here_is_rewritten() {
    let input = "S b_foo Def0000FF\nS _foo Def000000\nS b_bar Def0000FF\nS _other Def000000\n"
        .to_string();
    let expected = "S b_foo Def00000F\nS _foo Def000000\nS b_bar Def0000FF\nS _other Def000000\n"
        .to_string();
    assert_eq!(replace_bank(&input, 255, 15), expected);
}

#[test]
fn banked_function_with_another_bank_is_left() {
    let input = "S b_foo Def0000FE\nS _foo Def000000\n".to_string();
    assert_eq!(replace_bank(&input, 255, 15), input);
}

#[test]
fn banked_function_with_windows_line_endings() {
    let input = "S b_foo Def0000FF\r\nS _foo Def000000\r\nA _CODE_255 size 1\r\n".to_string();
    let expected = "S b_foo Def000002\r\nS _foo Def000000\r\nA _CODE_2 size 1\r\n".to_string();
    assert_eq!(replace_bank(&input, 255, 2), expected);
}

#[test]
fn bank_symbol_with_more_zeros_is_rewritten() {
    let input = "S ___bank_x Def000000FF\n".to_string();
    assert_eq!(
        replace_bank(&input, 255, 15),
        "S ___bank_x Def00000F\n".to_string()
    );
}

#[test]
fn bank_symbol_with_another_value_is_left() {
    let input = "S ___bank_x Def0001FF\nS ___bank_y Def0000F0\n".to_string();
    assert_eq!(replace_bank(&input, 255, 15), input);
    let input = "S ___bank_x Def0000FF5\nS ___bank_y Def0000FFA".to_string();
    assert_eq!(replace_bank(&input, 255, 15), input);
}

#[test]
fn bank_symbol_at_the_end_of_the_text() {
    assert_eq!(
        replace_bank(&"S ___bank_x Def0000FF".to_string(), 255, 15),
        "S ___bank_x Def00000F".to_string()
    );
    assert_eq!(
        replace_bank(&"S ___bank_x Def0000FF\r\nS ___bank_y Def0000FF next".to_string(), 255, 15),
        "S ___bank_x Def00000F\r\nS ___bank_y Def00000F next".to_string()
    );
}

#[test]
fn numbers_above_six_digits() {
    let input = "S ___bank_x Def1234567\nA _CODE_19088743 size 1\n".to_string();
    assert_eq!(
        replace_bank(&input, 0x1234567, 1),
        "S ___bank_x Def000001\nA _CODE_1 size 1\n".to_string()
    );
    let input = "S ___bank_x Def000001\nA _CODE_1 size 1\n".to_string();
    assert_eq!(
        replace_bank(&input, 1, 0xABCDEF01),
        "S ___bank_x DefABCDEF01\nA _CODE_2882400001 size 1\n".to_string()
    );
}

#[test]
fn every_bank_symbol_of_the_bank_is_rewritten() {
    let input = "S ___bank_a Def000003\nS ___bank_b Def000004\nS ___bank_c Def000003\n"
        .to_string();
    assert_eq!(
        replace_bank(&input, 3, 0x20),
        "S ___bank_a Def000020\nS ___bank_b Def000004\nS ___bank_c Def000020\n".to_string()
    );
}

#[test]
fn later_replacement_sees_the_earlier_one() {
    let input = "S ___bank_a Def000005\nA _CODE_5 size 1\n".to_string();
    let list = vec![
        BankReplacement { from: 5, to: 6 },
        BankReplacement { from: 6, to: 7 },
    ];
    assert_eq!(
        replace_all_banks(&input, list),
        "S ___bank_a Def000007\nA _CODE_7 size 1\n".to_string()
    );
}

#[test]
fn checked_replacing_gives_the_same_text() {
    let list = vec![
        BankReplacement { from: 5, to: 6 },
        BankReplacement { from: 255, to: 7 },
    ];
    assert_eq!(
        try_replace_all_banks(&object_text(), list.clone()),
        Some(replace_all_banks(&object_text(), list))
    );
}

#[test]
fn text_beyond_ascii_is_kept() {
    let input = "; banque n\u{b0} 5 \u{2014} caf\u{e9}\nA _CODE_5 size 1\n".to_string();
    assert_eq!(
        replace_bank(&input, 5, 6),
        "; banque n\u{b0} 5 \u{2014} caf\u{e9}\nA _CODE_6 size 1\n".to_string()
    );
}

#[test]
fn area_of_another_bank_is_left() {
    let input = "A _CODE_55 size 5 flags 0 addr 0".to_string();
    assert_eq!(replace_bank(&input, 5, 6), input);
    let input = "A _CODE_5 size 5 flags 0 addr 0\nA _CODE_55 size 5 flags 0 addr 0\nA _CODE_255 size 1\n"
        .to_string();
    assert_eq!(
        replace_bank(&input, 5, 6),
        "A _CODE_6 size 5 flags 0 addr 0\nA _CODE_55 size 5 flags 0 addr 0\nA _CODE_255 size 1\n"
            .to_string()
    );
    assert_eq!(
        replace_bank(&input, 55, 6),
        "A _CODE_5 size 5 flags 0 addr 0\nA _CODE_6 size 5 flags 0 addr 0\nA _CODE_255 size 1\n"
            .to_string()
    );
    assert_eq!(replace_bank(&input, 25, 3), input);
    assert_eq!(replace_bank(&input, 2, 3), input);
    let list = vec![
        BankReplacement { from: 2, to: 1 },
        BankReplacement { from: 25, to: 1 },
        BankReplacement { from: 255, to: 1 },
    ];
    assert_eq!(
        replace_all_banks(&input, list),
        "A _CODE_5 size 5 flags 0 addr 0\nA _CODE_55 size 5 flags 0 addr 0\nA _CODE_1 size 1\n"
            .to_string()
    );
}

#[test]
fn area_name_at_the_end_of_the_text() {
    assert_eq!(
        replace_bank(&"A _CODE_5".to_string(), 5, 6),
        "A _CODE_6".to_string()
    );
    assert_eq!(
        replace_bank(&"A _CODE_5\nA _CODE_5_x CODE_5x".to_string(), 5, 16),
        "A _CODE_16\nA _CODE_16_x CODE_16x".to_string()
    );
}

#[test]
fn longer_symbol_defines_no_shorter_one() {
    let input = "S b_foo Def0000FF\nS _foobar Def000000\n".to_string();
    assert_eq!(replace_bank(&input, 255, 15), input);
    let input = "S b_foo Def0000FF\nX S _foo Def000000\n".to_string();
    assert_eq!(replace_bank(&input, 255, 15), input);
    let input = "S b_foo Def0000FF\nS _foo".to_string();
    assert_eq!(
        replace_bank(&input, 255, 15),
        "S b_foo Def00000F\nS _foo".to_string()
    );
}

#[test]
fn longer_symbol_is_not_rewritten() {
    let input = "S grab_foo Def0000FF\nS b_foo Def0000FF\nS _foo Def000000\nS b_foobar Def0000FF\n"
        .to_string();
    assert_eq!(
        replace_bank(&input, 255, 15),
        "S grab_foo Def0000FF\nS b_foo Def00000F\nS _foo Def000000\nS b_foobar Def0000FF\n"
            .to_string()
    );
    let input = "X S b_foo Def0000FF\nS _foo Def000000\n".to_string();
    assert_eq!(replace_bank(&input, 255, 15), input);
}

#[test]
fn banked_function_with_a_longer_value_is_left() {
    let input = "S b_foo Def0000FF5\nS _foo Def000000\n".to_string();
    assert_eq!(replace_bank(&input, 255, 15), input);
    let input = "S b_foo Def0000FF more\nS _foo Def000000\n".to_string();
    assert_eq!(
        replace_bank(&input, 255, 15),
        "S b_foo Def00000F more\nS _foo Def000000\n".to_string()
    );
}

#[test]
fn every_line_of_a_defined_function_is_rewritten() {
    let input = "S b_foo Def000003\nS b_foo Def000003\nS b_bar Def000003\nS _bar x\nS _foo x\n"
        .to_string();
    assert_eq!(
        replace_bank(&input, 3, 4),
        "S b_foo Def000004\nS b_foo Def000004\nS b_bar Def000004\nS _bar x\nS _foo x\n"
            .to_string()
    );
}
