use gbspacklib::{pack_object_data, parse_reserve, ObjectBankData, ObjectData, RESERVE_BANKS};

#[test]
fn reserve_list_of_two_banks() {
    let table = parse_reserve(&"1:7F3,2:00F".to_string()).unwrap();
    assert_eq!(table.len(), 2048);
    assert_eq!(RESERVE_BANKS, 2048);
    assert_eq!(table[1], 0x7F3);
    assert_eq!(table[2], 0xF);
    for (bank, bytes) in table.iter().enumerate() {
        if bank != 1 && bank != 2 {
            assert_eq!(*bytes, 0);
        }
    }
}

#[test]
fn empty_reserve_list() {
    let table = parse_reserve(&String::new()).unwrap();
    assert_eq!(table, vec![0u32; 2048]);
}

#[test]
fn last_entry_for_a_bank_counts() {
    let table = parse_reserve(&"3:10,3:20".to_string()).unwrap();
    assert_eq!(table[3], 0x20);
}

#[test]
fn items_that_are_no_entries_are_passed_over() {
    let table = parse_reserve(&"1,2:3:4,,5:a".to_string()).unwrap();
    assert_eq!(table[1], 0);
    assert_eq!(table[2], 0);
    assert_eq!(table[5], 10);
}

#[test]
fn parts_that_are_no_numbers_count_as_zero() {
    let table = parse_reserve(&"x:5".to_string()).unwrap();
    assert_eq!(table[0], 5);
    let table = parse_reserve(&"4:zz".to_string()).unwrap();
    assert_eq!(table[4], 0);
    let table = parse_reserve(&"4:100000000".to_string()).unwrap();
    assert_eq!(table[4], 0);
    let table = parse_reserve(&"1f:5".to_string()).unwrap();
    assert_eq!(table[0], 5);
    assert_eq!(table[1], 0);
}

#[test]
fn bank_beyond_the_table() {
    assert_eq!(parse_reserve(&"2048:1".to_string()), None);
    assert_eq!(parse_reserve(&"1:1,99999999999999999999999999:1".to_string()), None);
    assert_eq!(parse_reserve(&"2047:1".to_string()).unwrap()[2047], 1);
}

#[test]
fn reserved_bytes_count_in_packing() {
    let table = parse_reserve(&"1:3000".to_string()).unwrap();
    let input = vec![ObjectData {
        filename: "a.o".to_string(),
        contents: String::new(),
        banks: vec![
            ObjectBankData { size: 4000, bank: 255 },
            ObjectBankData { size: 4096, bank: 255 },
        ],
    }];
    let output = pack_object_data(input, 0, 1, false, table).unwrap();
    // 0x3000 bytes are reserved in bank 1: 4096 more fill it.
    assert_eq!(output[0].replacements.len(), 2);
    assert_eq!(output[0].replacements[0].to, 1);
    assert_eq!(output[0].replacements[1].to, 2);
}
