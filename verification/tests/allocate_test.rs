use gbspacklib::{
    get_bank_replacements, get_patch_max_bank, is_packable, pack_banks, pack_object_data, Bank,
    BankReplacement, ObjectBankData, ObjectData, ObjectPatch, PackError, BANK_SIZE,
};

fn object(name: &str, banks: Vec<(u32, u32)>) -> ObjectData {
    ObjectData {
        filename: name.to_string(),
        contents: format!("text of {}", name),
        banks: banks
            .into_iter()
            .map(|(size, bank)| ObjectBankData { size, bank })
            .collect(),
    }
}

fn pairs(patch: &ObjectPatch) -> Vec<(u32, u32)> {
    patch.replacements.iter().map(|r| (r.from, r.to)).collect()
}

fn used(bank: &Bank) -> u64 {
    bank.objects.iter().map(|o| o.1.size as u64).sum()
}

fn reserved(reserve: &Vec<u32>, number: usize) -> u64 {
    if number < reserve.len() {
        reserve[number] as u64
    } else {
        0
    }
}

#[test]
fn bank_size_is_16_kib() {
    assert_eq!(BANK_SIZE, 16384);
}

#[test]
fn nothing_to_pack() {
    let output = pack_object_data(vec![], 0, 1, false, vec![]).unwrap();
    assert_eq!(output.len(), 0);
    let output = pack_object_data(vec![object("a.o", vec![])], 255, 1, true, vec![]).unwrap();
    assert_eq!(output.len(), 1);
    assert_eq!(output[0].filename, "a.o");
    assert_eq!(output[0].contents, "text of a.o");
    assert_eq!(output[0].replacements.len(), 0);
}

#[test]
fn names_and_texts_are_kept() {
    let input = vec![object("a.o", vec![(1, 255)]), object("b.o", vec![(2, 255)])];
    let output = pack_object_data(input, 0, 1, false, vec![]).unwrap();
    assert_eq!(output.len(), 2);
    assert_eq!(output[0].filename, "a.o");
    assert_eq!(output[0].contents, "text of a.o");
    assert_eq!(output[1].filename, "b.o");
    assert_eq!(output[1].contents, "text of b.o");
}

#[test]
fn first_fit_from_the_largest_down() {
    let input = vec![
        object("a.o", vec![(6000, 255), (9000, 255)]),
        object("b.o", vec![(8000, 255), (7000, 255), (2000, 255)]),
    ];
    let output = pack_object_data(input, 0, 1, false, vec![]).unwrap();
    // 9000 -> 1, 8000 -> 2, 7000 -> 1, 6000 -> 2, 2000 -> 2
    assert_eq!(pairs(&output[0]), vec![(255, 1), (255, 2)]);
    assert_eq!(pairs(&output[1]), vec![(255, 1), (255, 2), (255, 2)]);
}

#[test]
fn areas_of_one_size_keep_their_order() {
    let input = vec![
        object("a.o", vec![(16384, 7), (16384, 8)]),
        object("b.o", vec![(16384, 9)]),
    ];
    let banks = pack_banks(&input, 0, 1, &vec![]).unwrap();
    assert_eq!(banks.len(), 3);
    assert_eq!(
        banks[0].objects,
        vec![(0, ObjectBankData { size: 16384, bank: 7 })]
    );
    assert_eq!(
        banks[1].objects,
        vec![(0, ObjectBankData { size: 16384, bank: 8 })]
    );
    assert_eq!(
        banks[2].objects,
        vec![(1, ObjectBankData { size: 16384, bank: 9 })]
    );
}

#[test]
fn filter_zero_pins_nothing() {
    let input = vec![object("a.o", vec![(10, 5), (20, 7), (30, 255)])];
    let output = pack_object_data(input, 0, 1, false, vec![]).unwrap();
    assert_eq!(pairs(&output[0]), vec![(255, 1), (7, 1), (5, 1)]);
}

#[test]
fn pinned_areas_stay_in_their_banks() {
    let input = vec![
        object("a.o", vec![(10, 5), (20, 7), (30, 255)]),
        object("b.o", vec![(40, 7), (16384, 255)]),
    ];
    let banks = pack_banks(&input, 255, 1, &vec![]).unwrap();
    for (position, bank) in banks.iter().enumerate() {
        for placed in bank.objects.iter() {
            if placed.1.bank != 255 {
                assert_eq!(placed.1.bank as usize, position + 1);
            }
        }
    }
    let output = pack_object_data(input, 255, 1, false, vec![]).unwrap();
    assert_eq!(pairs(&output[0]), vec![(255, 2), (5, 5), (7, 7)]);
    assert_eq!(pairs(&output[1]), vec![(255, 1), (7, 7)]);
}

#[test]
fn banks_before_the_start_stay_empty() {
    let input = vec![object("a.o", vec![(10, 255), (20, 255)])];
    let banks = pack_banks(&input, 0, 4, &vec![]).unwrap();
    assert_eq!(banks.len(), 4);
    assert!(banks[0].objects.is_empty());
    assert!(banks[1].objects.is_empty());
    assert!(banks[2].objects.is_empty());
    assert_eq!(banks[3].objects.len(), 2);
    let output = pack_object_data(input, 0, 4, false, vec![]).unwrap();
    assert_eq!(pairs(&output[0]), vec![(255, 4), (255, 4)]);
}

#[test]
fn start_bank_zero_is_bank_one() {
    let input = vec![object("a.o", vec![(10, 255)])];
    let output = pack_object_data(input, 0, 0, false, vec![]).unwrap();
    assert_eq!(pairs(&output[0]), vec![(255, 1)]);
}

#[test]
fn unfixed_areas_join_pinned_ones_from_the_start_bank_on() {
    let input = vec![object("a.o", vec![(100, 1), (100, 3), (50, 255)])];
    let output = pack_object_data(input, 255, 2, false, vec![]).unwrap();
    // bank 1 is before the start, bank 2 is empty and takes the area
    assert_eq!(pairs(&output[0]), vec![(1, 1), (255, 2), (3, 3)]);
}

#[test]
fn no_bank_is_over_full() {
    let reserve: Vec<u32> = vec![0, 16000, 0, 384];
    let input = vec![
        object("a.o", vec![(300, 1), (200, 255), (16000, 255), (16384, 255)]),
        object("b.o", vec![(84, 255), (1, 255), (8000, 255), (8384, 255)]),
    ];
    let banks = pack_banks(&input, 255, 1, &reserve).unwrap();
    let mut count = 0;
    for (position, bank) in banks.iter().enumerate() {
        assert!(used(bank) + reserved(&reserve, position + 1) <= 16384);
        count += bank.objects.len();
    }
    assert_eq!(count, 8);
    // 300 is pinned to 1; 16384 -> 2; 16000 -> 3; 8384 -> 4; 8000 -> 4; 200 -> 5; 84 -> 1; 1 -> 5
    let sizes: Vec<Vec<u32>> = banks
        .iter()
        .map(|b| b.objects.iter().map(|o| o.1.size).collect())
        .collect();
    assert_eq!(
        sizes,
        vec![
            vec![300, 84],
            vec![16384],
            vec![16000],
            vec![8384, 8000],
            vec![200, 1],
        ]
    );
}

#[test]
fn area_that_fits_no_new_bank_is_not_moved_on() {
    let reserve: Vec<u32> = vec![0, 16000];
    let input = vec![object("a.o", vec![(385, 255)])];
    assert_eq!(
        pack_banks(&input, 0, 1, &reserve).err(),
        Some(PackError::NoRoom { size: 385 })
    );
    let input = vec![object("a.o", vec![(384, 255)])];
    assert_eq!(pack_banks(&input, 0, 1, &reserve).unwrap().len(), 1);
}

#[test]
fn reserved_bytes_count_against_a_new_bank() {
    let reserve: Vec<u32> = vec![0, 100];
    let input = vec![object("a.o", vec![(16284, 255)])];
    let output = pack_object_data(input, 0, 1, false, reserve.clone()).unwrap();
    assert_eq!(pairs(&output[0]), vec![(255, 1)]);
    let input = vec![object("a.o", vec![(16285, 255)])];
    assert_eq!(
        pack_object_data(input, 0, 1, false, reserve).err(),
        Some(PackError::NoRoom { size: 16285 })
    );
}

#[test]
fn area_larger_than_a_bank() {
    let input = vec![
        object("a.o", vec![(16385, 255), (5, 1)]),
        object("b.o", vec![(20000, 255)]),
    ];
    assert_eq!(
        pack_object_data(input, 255, 1, false, vec![]).err(),
        Some(PackError::AreaTooLarge { size: 20000 })
    );
    let input = vec![object("a.o", vec![(16384, 255)])];
    assert!(pack_object_data(input, 255, 1, false, vec![]).is_ok());
}

#[test]
fn pinned_areas_overflow_their_bank() {
    let input = vec![
        object("a.o", vec![(9000, 2), (5, 255)]),
        object("b.o", vec![(9000, 2)]),
    ];
    assert_eq!(
        pack_object_data(input, 255, 1, false, vec![]).err(),
        Some(PackError::BankOverflow {
            bank: 2,
            used: 18000,
            capacity: 16384
        })
    );
}

#[test]
fn reserved_bytes_overflow_a_pinned_bank() {
    let input = vec![object("a.o", vec![(16000, 1)])];
    assert_eq!(
        pack_object_data(input, 255, 1, false, vec![0, 385]).err(),
        Some(PackError::BankOverflow {
            bank: 1,
            used: 16000,
            capacity: 16384
        })
    );
    let input = vec![object("a.o", vec![(16000, 1)])];
    assert!(pack_object_data(input, 255, 1, false, vec![0, 384]).is_ok());
}

#[test]
fn first_overflowing_bank_is_told() {
    let input = vec![object(
        "a.o",
        vec![(9000, 3), (9000, 3), (10000, 2), (10000, 2)],
    )];
    assert_eq!(
        pack_object_data(input, 255, 1, false, vec![]).err(),
        Some(PackError::BankOverflow {
            bank: 2,
            used: 20000,
            capacity: 16384
        })
    );
}

#[test]
fn hardware_skip_never_gives_an_unusable_bank() {
    let areas: Vec<(u32, u32)> = (0..100).map(|_| (16384, 255)).collect();
    let skipped = pack_object_data(vec![object("a.o", areas.clone())], 0, 1, true, vec![]).unwrap();
    let given: Vec<u32> = skipped[0].replacements.iter().map(|r| r.to).collect();
    assert_eq!(given.len(), 100);
    for to in given.iter() {
        assert!(*to != 0x20 && *to != 0x40 && *to != 0x60);
    }
    assert_eq!(given[30], 31);
    assert_eq!(given[31], 33);
    assert_eq!(given[61], 63);
    assert_eq!(given[62], 65);
    assert_eq!(given[92], 95);
    assert_eq!(given[93], 97);
    assert_eq!(given[99], 103);
    assert_eq!(get_patch_max_bank(&skipped), 103);

    let plain = pack_object_data(vec![object("a.o", areas)], 0, 1, false, vec![]).unwrap();
    let given: Vec<u32> = plain[0].replacements.iter().map(|r| r.to).collect();
    assert_eq!(given, (1..=100).collect::<Vec<u32>>());
}

#[test]
fn empty_bank_takes_an_unusable_number() {
    let banks = vec![
        Bank { objects: vec![] };
        31
    ];
    let mut banks = banks;
    banks.push(Bank { objects: vec![] });
    banks.push(Bank {
        objects: vec![(0, ObjectBankData { size: 1, bank: 9 })],
    });
    // bank 32 is empty and keeps the number 0x20; the next bank is 33
    assert_eq!(
        get_bank_replacements(0, &banks, true),
        vec![BankReplacement { from: 9, to: 33 }]
    );
    assert_eq!(
        get_bank_replacements(0, &banks, false),
        vec![BankReplacement { from: 9, to: 33 }]
    );
}

#[test]
fn replacements_of_one_file_only() {
    let banks = vec![
        Bank {
            objects: vec![
                (0, ObjectBankData { size: 1, bank: 9 }),
                (1, ObjectBankData { size: 2, bank: 8 }),
            ],
        },
        Bank { objects: vec![] },
        Bank {
            objects: vec![
                (1, ObjectBankData { size: 3, bank: 7 }),
                (0, ObjectBankData { size: 4, bank: 6 }),
                (1, ObjectBankData { size: 5, bank: 5 }),
            ],
        },
    ];
    assert_eq!(
        get_bank_replacements(0, &banks, false),
        vec![
            BankReplacement { from: 9, to: 1 },
            BankReplacement { from: 6, to: 3 }
        ]
    );
    assert_eq!(
        get_bank_replacements(1, &banks, true),
        vec![
            BankReplacement { from: 8, to: 1 },
            BankReplacement { from: 7, to: 3 },
            BankReplacement { from: 5, to: 3 }
        ]
    );
    assert_eq!(get_bank_replacements(2, &banks, true), vec![]);
}

#[test]
fn highest_bank_of_no_replacements() {
    assert_eq!(get_patch_max_bank(&vec![]), 0);
    let patches = vec![ObjectPatch {
        filename: "a.o".to_string(),
        contents: String::new(),
        replacements: vec![],
    }];
    assert_eq!(get_patch_max_bank(&patches), 0);
}

#[test]
fn highest_bank_of_some_replacements() {
    let patches = vec![
        ObjectPatch {
            filename: "a.o".to_string(),
            contents: String::new(),
            replacements: vec![
                BankReplacement { from: 255, to: 3 },
                BankReplacement { from: 255, to: 9 },
            ],
        },
        ObjectPatch {
            filename: "b.o".to_string(),
            contents: String::new(),
            replacements: vec![BankReplacement { from: 300, to: 4 }],
        },
    ];
    assert_eq!(get_patch_max_bank(&patches), 9);
}

#[test]
fn packable_inputs() {
    let input = vec![object("a.o", vec![(1, 0), (2, 255)])];
    assert!(is_packable(&input, 0, 1));
    assert!(!is_packable(&input, 255, 1));
    let input = vec![object("a.o", vec![(1, 3), (2, 255)])];
    assert!(is_packable(&input, 255, u32::MAX - 5));
    assert!(!is_packable(&input, 255, u32::MAX - 4));
    assert!(!is_packable(&input, 255, u32::MAX));
    let input = vec![object("a.o", vec![(1, u32::MAX - 4), (2, 255)])];
    assert!(is_packable(&input, u32::MAX - 4, 1));
    assert!(!is_packable(&input, 255, 1));
    let input = vec![object("a.o", vec![(1, u32::MAX - 5), (2, 255)])];
    assert!(is_packable(&input, 255, 1));
    assert!(is_packable(&vec![], 255, u32::MAX - 3));
    assert!(!is_packable(&vec![], 255, u32::MAX - 2));
}

#[test]
fn pinned_area_of_bank_zero() {
    let input = vec![object("a.o", vec![(1, 0), (2, 255)])];
    assert_eq!(
        pack_object_data(input, 255, 1, false, vec![]).err(),
        Some(PackError::BankOutOfRange)
    );
    let input = vec![object("a.o", vec![(1, 0), (2, 255)])];
    assert_eq!(
        pack_banks(&input, 255, 1, &vec![]).err(),
        Some(PackError::BankOutOfRange)
    );
    let input = vec![object("a.o", vec![(1, 0), (2, 255)])];
    let output = pack_object_data(input, 0, 1, false, vec![]).unwrap();
    assert_eq!(pairs(&output[0]), vec![(255, 1), (0, 1)]);
}

#[test]
fn banks_beyond_32_bits() {
    let input = vec![object("a.o", vec![(1, 255)])];
    assert_eq!(
        pack_object_data(input, 0, u32::MAX - 3, false, vec![]).err(),
        Some(PackError::BankOutOfRange)
    );
    let input = vec![object("a.o", vec![(20000, u32::MAX), (1, 255)])];
    assert_eq!(
        pack_object_data(input, 255, 1, true, vec![]).err(),
        Some(PackError::BankOutOfRange)
    );
}
