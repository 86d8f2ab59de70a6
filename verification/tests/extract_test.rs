use gbspacklib::{parse_size, parse_sizes, ObjectBankData, ParseError};

#[test]
fn area_line_round_trip() {
    let cases: Vec<(u32, u32)> = vec![
        (0, 1),
        (5, 1),
        (255, 15),
        (16384, 255),
        (0xABCDEF, 7),
        (u32::MAX, u32::MAX),
    ];
    for (size, bank) in cases {
        let line = format!("A _CODE_{} size {:X} flags 0 addr 0", bank, size);
        assert_eq!(parse_size(&line), Ok(ObjectBankData { size, bank }));
        let lower = format!("A _CODE_{} size {:x} flags 0 addr 0", bank, size);
        assert_eq!(parse_size(&lower), Ok(ObjectBankData { size, bank }));
    }
}

#[test]
fn area_line_with_plus_signs() {
    let line = "A _CODE_+3 size +1f flags 0 addr 0".to_string();
    assert_eq!(parse_size(&line), Ok(ObjectBankData { size: 31, bank: 3 }));
}

#[test]
fn area_line_with_leading_zeros() {
    let line = "A _CODE_007 size 000000000010 flags 0 addr 0".to_string();
    assert_eq!(parse_size(&line), Ok(ObjectBankData { size: 16, bank: 7 }));
}

#[test]
fn area_line_takes_third_part_of_name() {
    let line = "A _CODE_12_extra size 8".to_string();
    assert_eq!(parse_size(&line), Ok(ObjectBankData { size: 8, bank: 12 }));
}

#[test]
fn area_line_without_enough_words() {
    assert_eq!(parse_size(&"A".to_string()), Err(ParseError::MissingToken));
    assert_eq!(
        parse_size(&"A _CODE_3 size".to_string()),
        Err(ParseError::MissingToken)
    );
    assert_eq!(parse_size(&String::new()), Err(ParseError::MissingToken));
}

#[test]
fn area_line_without_bank_part() {
    assert_eq!(
        parse_size(&"A _CODE size 8 flags 0 addr 0".to_string()),
        Err(ParseError::MissingToken)
    );
}

#[test]
fn area_line_with_bad_size() {
    assert_eq!(
        parse_size(&"A _CODE_3 size zz flags 0 addr 0".to_string()),
        Err(ParseError::InvalidSize)
    );
    assert_eq!(
        parse_size(&"A _CODE_3 size  flags 0 addr 0".to_string()),
        Err(ParseError::InvalidSize)
    );
    assert_eq!(
        parse_size(&"A _CODE_3 size 100000000 flags 0 addr 0".to_string()),
        Err(ParseError::InvalidSize)
    );
    assert_eq!(
        parse_size(&"A _CODE_3 size + flags 0 addr 0".to_string()),
        Err(ParseError::InvalidSize)
    );
    assert_eq!(
        parse_size(&"A _CODE_3 size -1 flags 0 addr 0".to_string()),
        Err(ParseError::InvalidSize)
    );
}

#[test]
fn area_line_with_bad_bank() {
    assert_eq!(
        parse_size(&"A _CODE_x size 8 flags 0 addr 0".to_string()),
        Err(ParseError::InvalidBank)
    );
    assert_eq!(
        parse_size(&"A _CODE_ size 8 flags 0 addr 0".to_string()),
        Err(ParseError::InvalidBank)
    );
    assert_eq!(
        parse_size(&"A _CODE_4294967296 size 8 flags 0 addr 0".to_string()),
        Err(ParseError::InvalidBank)
    );
    assert_eq!(
        parse_size(&"A _CODE_ff size 8 flags 0 addr 0".to_string()),
        Err(ParseError::InvalidBank)
    );
}

#[test]
fn bad_size_is_told_before_bad_bank() {
    assert_eq!(
        parse_size(&"A _CODE_x size zz flags 0 addr 0".to_string()),
        Err(ParseError::InvalidSize)
    );
}

#[test]
fn areas_of_empty_text() {
    assert_eq!(parse_sizes(&String::new()), Ok(vec![]));
    assert_eq!(parse_sizes(&"XL3\nH 2 areas\n".to_string()), Ok(vec![]));
}

#[test]
fn areas_with_windows_line_endings() {
    let text = "XL3\r\nA _CODE_5 size 5\r\nA _CODE_255 size 55\r\n".to_string();
    assert_eq!(
        parse_sizes(&text),
        Ok(vec![
            ObjectBankData { size: 5, bank: 5 },
            ObjectBankData {
                size: 85,
                bank: 255
            },
        ])
    );
}

#[test]
fn carriage_return_alone_ends_no_line() {
    let text = "A _CODE_5 size 5\r".to_string();
    assert_eq!(parse_sizes(&text), Err(ParseError::InvalidSize));
}

#[test]
fn areas_in_the_order_of_the_text() {
    let text = "A _CODE_9 size 1\nS x Def000000\nA _CODE_8 size 2\nA _CODE_9 size 3".to_string();
    assert_eq!(
        parse_sizes(&text),
        Ok(vec![
            ObjectBankData { size: 1, bank: 9 },
            ObjectBankData { size: 2, bank: 8 },
            ObjectBankData { size: 3, bank: 9 },
        ])
    );
}

#[test]
fn first_bad_area_ends_the_reading() {
    let text = "A _CODE_1 size 1\nA _CODE_x size 2\nA _CODE_3 size zz\n".to_string();
    assert_eq!(parse_sizes(&text), Err(ParseError::InvalidBank));
}

#[test]
fn marker_inside_a_line_counts() {
    let text = "xx A _CODE_5 size 5".to_string();
    assert_eq!(parse_sizes(&text), Err(ParseError::InvalidSize));
    let text = "xx A _CODE_5 ff 5".to_string();
    assert_eq!(parse_sizes(&text), Err(ParseError::MissingToken));
}
