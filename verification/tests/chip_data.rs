use embedded_template::chipgen::strip_liquid;
use embedded_template::chipmeta::{
    parse_regions, select_memory_config, split_memory_configs, BankMode, MetadataError, RawRegion,
    RegionKind,
};
use embedded_template::memlayout::{compute_memory_layout, extra_region_lines, RAM_BASE};
use embedded_template::memtext::refusal_message;
use embedded_template::partitions::FLASH_BASE;

const SINGLE_CONFIG: &str = r#"
pub static METADATA: Metadata = Metadata {
    name: "STM32L476RG",
    memory: &[&[
        MemoryRegion {
            name: "BANK_1",
            kind: MemoryRegionKind::Flash,
            address: 0x8000000,
            size: 1048576,
            settings: Some(FlashSettings { erase_size: 2048, write_size: 8, erase_value: 255 }),
        },
        MemoryRegion {
            name: "SRAM",
            kind: MemoryRegionKind::Ram,
            address: 0x20000000,
            size: 98304,
            settings: None,
        },
    ]],
    peripherals: &[],
};
"#;

const MULTI_CONFIG: &str = r#"
pub static METADATA: Metadata = Metadata {
    name: "STM32G474RE",
    memory: &[
        &[
            MemoryRegion {
                name: "BANK_1",
                kind: MemoryRegionKind::Flash,
                address: 0x8000000,
                size: 524288,
                settings: Some(FlashSettings { erase_size: 4096, write_size: 8, erase_value: 255 }),
            },
            MemoryRegion {
                name: "SRAM1",
                kind: MemoryRegionKind::Ram,
                address: 0x20000000,
                size: 81920,
                settings: None,
            },
        ],
        &[
            MemoryRegion {
                name: "BANK_1",
                kind: MemoryRegionKind::Flash,
                address: 0x8000000,
                size: 262144,
                settings: Some(FlashSettings { erase_size: 2048, write_size: 8, erase_value: 255 }),
            },
            MemoryRegion {
                name: "BANK_2",
                kind: MemoryRegionKind::Flash,
                address: 0x8040000,
                size: 262144,
                settings: Some(FlashSettings { erase_size: 2048, write_size: 8, erase_value: 255 }),
            },
        ],
    ],
    peripherals: &[],
};
"#;

fn configs(text: &str) -> Vec<Vec<RawRegion>> {
    split_memory_configs(text.as_bytes())
        .expect("карта памяти должна найтись")
        .into_iter()
        .map(|(from, to)| {
            parse_regions(&text.as_bytes()[from..to]).expect("регионы должны разобраться")
        })
        .collect()
}

fn text(bytes: Vec<u8>) -> String {
    String::from_utf8(bytes).expect("UTF-8")
}

#[test]
fn parses_both_metadata_formats() {
    let single = configs(SINGLE_CONFIG);
    assert_eq!(single.len(), 1);
    assert_eq!(single[0].len(), 2);

    let multi = configs(MULTI_CONFIG);
    assert_eq!(multi.len(), 2);
    assert_eq!(multi[0][0].size, 524288);
    assert_eq!(multi[1].len(), 2);
    assert_eq!(multi[1][1].name, b"BANK_2".to_vec());
}

#[test]
fn bank_mode_is_empty_only_for_single_config_chips() {
    let (regions, mode) = select_memory_config(configs(SINGLE_CONFIG)).expect("одна карта");
    assert_eq!(mode.as_str(), "");
    assert_eq!(regions.len(), 2);

    let (regions, mode) = select_memory_config(configs(MULTI_CONFIG)).expect("две карты");
    assert_eq!(mode.as_str(), "single-bank");
    assert_eq!(regions[0].size, 524288);
}

/// One flash region, sizes in bytes.
fn uniform_flash(size: u64, erase_size: u64, write_size: u64) -> Vec<RawRegion> {
    vec![
        RawRegion {
            name: b"BANK_1".to_vec(),
            kind: RegionKind::Flash,
            address: FLASH_BASE,
            size,
            erase_write_size: Some((erase_size, write_size)),
        },
        RawRegion {
            name: b"SRAM".to_vec(),
            kind: RegionKind::Ram,
            address: RAM_BASE,
            size: 64 * 1024,
            erase_write_size: None,
        },
    ]
}

#[test]
fn state_grows_with_active_to_fit_the_swap_journal() {
    let layout = compute_memory_layout(&uniform_flash(1024 * 1024, 2048, 8))
        .expect("раскладка должна посчитаться");
    let ota = layout.ota.expect("OTA должна помещаться");
    assert!(
        ota.bootloader_state_length > 2048,
        "STATE {} — одного сектора мало",
        ota.bootloader_state_length
    );
    assert_eq!(ota.bootloader_state_length, 8192);
}

#[test]
fn chip_with_too_few_sectors_reports_why() {
    let layout = compute_memory_layout(&uniform_flash(512 * 1024, 128 * 1024, 32))
        .expect("раскладка должна посчитаться");
    let note = text(refusal_message(&layout.ota.expect_err("OTA не должна помещаться")));
    assert!(note.contains("512 KiB"), "{note}");
    assert!(note.contains("нужно 3"), "{note}");
    assert_eq!(layout.flash_length, 512 * 1024);
    assert!(layout.persist.is_some());
    assert!(layout.panic.is_some(), "дамп паники живёт рядом с PERSIST");
}

#[test]
fn liquid_conditionals_are_stripped_from_manifests() {
    let manifest = "members = [\"app\", {% if ota == \"true\" %}\"boot\", {% endif %}\"bsp\"]\n";
    assert_eq!(text(strip_liquid(manifest.as_bytes())), "members = [\"app\", \"bsp\"]\n");
    let plain = "members = [\"app\"]\n";
    assert_eq!(text(strip_liquid(plain.as_bytes())), plain);
}

#[test]
fn an_unclosed_liquid_tag_is_left_as_it_is() {
    let manifest = "a {% if x %} b";
    assert_eq!(text(strip_liquid(manifest.as_bytes())), "a {% if x %} b");
    let manifest = "x {% if a %}1{% endif %} y {% if b %}";
    assert_eq!(text(strip_liquid(manifest.as_bytes())), "x  y {% if b %}");
}

#[test]
fn metadata_without_memory_list_is_refused() {
    assert_eq!(split_memory_configs(b"name: \"X\""), Err(MetadataError::NoMemoryList));
    assert_eq!(split_memory_configs(b"memory: &[]"), Err(MetadataError::NoConfigs));
}

#[test]
fn region_with_a_bad_address_is_refused() {
    let block = "MemoryRegion { name: \"A\", kind: MemoryRegionKind::Ram, address: 0xZZ, size: 1, settings: None, }";
    match parse_regions(block.as_bytes()) {
        Err(e) => assert_eq!(
            e,
            MetadataError::BadNumber(embedded_template::chipmeta::RegionField::Address)
        ),
        Ok(_) => panic!("адрес не число"),
    }
}

#[test]
fn chips_with_unrecognised_configurations_are_refused() {
    let region = |name: &str| RawRegion {
        name: name.as_bytes().to_vec(),
        kind: RegionKind::Flash,
        address: FLASH_BASE,
        size: 1024,
        erase_write_size: Some((1024, 8)),
    };
    assert!(matches!(
        select_memory_config(vec![vec![region("X")], vec![region("Y")]]),
        Err(MetadataError::UnknownBankMode)
    ));
    let (_, mode) = select_memory_config(vec![
        vec![region("BANK_1"), region("BANK_2")],
        vec![region("OTHER")],
    ])
    .expect("двухбанковая");
    assert_eq!(mode, BankMode::DualBank);
}

#[test]
fn other_regions_are_listed_and_aliases_commented_out() {
    let mut regions = uniform_flash(512 * 1024, 16 * 1024, 8);
    regions.push(RawRegion {
        name: b"CCMRAM_DCODE".to_vec(),
        kind: RegionKind::Ram,
        address: 0x1000_0000,
        size: 32 * 1024,
        erase_write_size: None,
    });
    regions.push(RawRegion {
        name: b"CCMRAM_ICODE".to_vec(),
        kind: RegionKind::Ram,
        address: 0x2001_8000,
        size: 32 * 1024,
        erase_write_size: None,
    });
    regions.push(RawRegion {
        name: b"FMC_BANK_1".to_vec(),
        kind: RegionKind::Other,
        address: 0x6000_0000,
        size: 262_144_000,
        erase_write_size: None,
    });
    let lines: Vec<String> = extra_region_lines(&regions, FLASH_BASE + 512 * 1024, RAM_BASE + 64 * 1024)
        .into_iter()
        .map(text)
        .collect();
    assert_eq!(lines.len(), 3);
    assert_eq!(lines[0], "    CCMRAM_DCODE      (xrw) : ORIGIN = 0x10000000, LENGTH = 32K");
    assert_eq!(
        lines[1],
        "    /* CCMRAM_ICODE      (xrw) : ORIGIN = 0x20018000, LENGTH = 32K - второе окно того же блока, что CCMRAM_DCODE */"
    );
    assert!(lines[2].starts_with("    /* FMC_BANK_1"));
    assert!(lines[2].ends_with("внешняя шина: памяти нет, пока она не распаяна и не настроен контроллер */"));
}

#[test]
fn ram_is_cut_for_persist_and_panic_only_when_large_enough() {
    let mut small = uniform_flash(64 * 1024, 1024, 8);
    small[1].size = 2 * 1024;
    let layout = compute_memory_layout(&small).expect("раскладка");
    assert_eq!(layout.ram_length, 2 * 1024);
    assert!(layout.persist.is_none() && layout.panic.is_none());

    let layout = compute_memory_layout(&uniform_flash(64 * 1024, 1024, 8)).expect("раскладка");
    assert_eq!(layout.ram_length, 63 * 1024);
    assert_eq!(layout.persist, Some((RAM_BASE + 63 * 1024, 512)));
    assert_eq!(layout.panic, Some((RAM_BASE + 63 * 1024 + 512, 512)));
}

#[test]
fn chips_without_flash_chain_have_no_layout() {
    let mut regions = uniform_flash(64 * 1024, 1024, 8);
    regions[0].address = FLASH_BASE + 4;
    assert!(compute_memory_layout(&regions).is_none());
}
