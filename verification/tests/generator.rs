use embedded_template::chipgen::{
    is_chip_feature, package_candidates, parse_declared_embassy_version, probe_rs_candidate,
    regenerate_block, replace_generated_block, supported_suffixes, BlockError,
};
use embedded_template::chipmeta::BankMode;
use embedded_template::memlayout::{compute_memory_layout, MemoryLayout, RAM_BASE};
use embedded_template::chipmeta::{RawRegion, RegionKind};
use embedded_template::partitions::FLASH_BASE;
use embedded_template::rhai::{
    format_bank_modes, format_chip_list, format_memory_layouts, format_package_choices,
    format_source_stamp, layouts_are_writable, CHIPS_BEGIN, CHIPS_END,
};
use embedded_template::templatecheck::{
    check_steps, default_cases, generate_defines, lock_difference, lock_package_names,
    names_strictly_ascending, parse_args, placeholder_lines, placeholders_allowed, ArgsError, Case, CheckStep, Command,
    Manifest,
};

fn text(bytes: Vec<u8>) -> String {
    String::from_utf8(bytes).expect("UTF-8")
}

fn bytes(list: &[&str]) -> Vec<Vec<u8>> {
    list.iter().map(|s| s.as_bytes().to_vec()).collect()
}

#[test]
fn chip_features_are_told_from_other_features() {
    assert!(is_chip_feature(b"stm32f407ve"));
    assert!(is_chip_feature(b"stm32h745zi-cm7"));
    assert!(is_chip_feature(b"stm32l151c6-a"));
    assert!(!is_chip_feature(b"stm32"));
    assert!(!is_chip_feature(b"stm32-metapac"));
    assert!(!is_chip_feature(b"stm32f4-a-b"));
    assert!(!is_chip_feature(b"stm32F407"));
    assert!(!is_chip_feature(b"time-driver-any"));
    assert!(!is_chip_feature(b"stm32f4-"));
}

#[test]
fn probe_rs_names_a_chip_by_its_base() {
    assert_eq!(text(probe_rs_candidate(b"h745zi-cm7")), "H745ZI");
    assert_eq!(text(probe_rs_candidate(b"f407ve")), "F407VE");
}

#[test]
fn packagings_refine_the_bare_target() {
    let chips = bytes(&["STM32L151C6", "STM32L151C6TxA", "STM32L151C6UxA", "STM32L151C8TxA"]);
    let found: Vec<String> = package_candidates(b"l151c6-a", &chips).into_iter().map(text).collect();
    assert_eq!(found, vec!["STM32L151C6TxA", "STM32L151C6UxA"]);
    assert!(package_candidates(b"h745zi-cm7", &bytes(&["STM32H745ZITxM"])).is_empty());
    assert!(package_candidates(b"f407ve", &chips).is_empty());
}

#[test]
fn only_chips_known_to_probe_rs_are_kept() {
    let features = bytes(&["stm32f407ve", "stm32h745zi-cm7", "stm32x000"]);
    let chips = bytes(&["STM32F407VE", "STM32H745ZI"]);
    let kept: Vec<String> = supported_suffixes(&features, &chips).into_iter().map(text).collect();
    assert_eq!(kept, vec!["f407ve", "h745zi-cm7"]);
}

#[test]
fn the_declared_embassy_version_is_found() {
    let manifest = "[dependencies]\nembassy-sync = \"0.7\"\n  embassy-stm32 = { version = \"0.4.0\", features = [\"rt\"] }\r\n";
    assert_eq!(parse_declared_embassy_version(manifest.as_bytes()).map(text), Some("0.4.0".to_owned()));
    assert_eq!(parse_declared_embassy_version(b"embassy-stm32 = { git = \"x\" }"), None);
    assert_eq!(parse_declared_embassy_version(b"[dependencies]\n"), None);
}

#[test]
fn a_generated_block_replaces_the_old_one() {
    let current = "head\n// BEGIN GENERATED CHIP LIST old\nold\n// END GENERATED CHIP LIST\ntail\n";
    let replaced = replace_generated_block(
        current.as_bytes(),
        CHIPS_BEGIN.as_bytes(),
        CHIPS_END.as_bytes(),
        b"// BEGIN GENERATED CHIP LIST new\n// END GENERATED CHIP LIST",
    )
    .expect("маркеры на месте");
    assert_eq!(
        text(replaced),
        "head\n// BEGIN GENERATED CHIP LIST new\n// END GENERATED CHIP LIST\ntail\n"
    );
    assert_eq!(
        replace_generated_block(b"x", b"A", b"B", b""),
        Err(BlockError::BeginNotFound)
    );
    assert_eq!(
        replace_generated_block(b"B A", b"A", b"B", b""),
        Err(BlockError::EndBeforeBegin)
    );
    assert_eq!(replace_generated_block(b"A", b"A", b"B", b""), Err(BlockError::EndNotFound));
}

#[test]
fn the_chip_list_is_written_with_its_stamp() {
    let stamp = format_source_stamp(b"0.4.0", b"0.31.0");
    assert_eq!(text(stamp.clone()), "// Источник: embassy-stm32 0.4.0 (cross/Cargo.toml), probe-rs 0.31.0\n");
    let list = text(format_chip_list(&bytes(&["f407ve", "g474re"]), &stamp));
    assert_eq!(
        list,
        "// BEGIN GENERATED CHIP LIST (2 шт., cargo run --manifest-path chip-data-gen/Cargo.toml)\n\
         // Источник: embassy-stm32 0.4.0 (cross/Cargo.toml), probe-rs 0.31.0\n\
         const CHIPS = [\n    \"f407ve\",\n    \"g474re\",\n];\n"
    );
}

#[test]
fn package_choices_and_bank_modes_are_written() {
    let choices = vec![(b"l151c6-a".to_vec(), bytes(&["STM32L151C6TxA", "STM32L151C6UxA"]))];
    assert_eq!(
        text(format_package_choices(&choices)),
        "// BEGIN GENERATED PACKAGE CHOICES (1 шт., cargo run --manifest-path chip-data-gen/Cargo.toml)\n\
         const PACKAGE_CHOICES = #{\n    \"l151c6-a\": [\"STM32L151C6TxA\", \"STM32L151C6UxA\"],\n};\n"
    );
    let modes = vec![(b"g474re".to_vec(), BankMode::SingleBank)];
    assert_eq!(
        text(format_bank_modes(&modes)),
        "// BEGIN GENERATED BANK MODE (1 шт., cargo run --manifest-path chip-data-gen/Cargo.toml)\n\
         const BANK_MODE = #{\n    \"g474re\": \"single-bank\",\n};\n"
    );
}

fn layout(flash: u64, erase: u64) -> MemoryLayout {
    let regions = vec![
        RawRegion {
            name: b"BANK_1".to_vec(),
            kind: RegionKind::Flash,
            address: FLASH_BASE,
            size: flash,
            erase_write_size: Some((erase, 8)),
        },
        RawRegion {
            name: b"SRAM".to_vec(),
            kind: RegionKind::Ram,
            address: RAM_BASE,
            size: 128 * 1024,
            erase_write_size: None,
        },
    ];
    compute_memory_layout(&regions).expect("раскладка")
}

#[test]
fn memory_layouts_are_written_with_partitions_or_the_reason() {
    let layouts = vec![
        (b"f407ve".to_vec(), layout(512 * 1024, 16 * 1024)),
        (b"h723ve".to_vec(), layout(512 * 1024, 128 * 1024)),
    ];
    assert!(layouts_are_writable(&layouts));
    let block = text(format_memory_layouts(&layouts));
    assert!(block.starts_with(
        "// BEGIN GENERATED MEMORY LAYOUT (2 шт., из них 1 с OTA, cargo run --manifest-path chip-data-gen/Cargo.toml)\nconst MEMORY_LAYOUT = #{\n    \"f407ve\": #{\n        \"flash_origin\": \"0x08000000\",\n        \"flash_length\": \"512K\",\n"
    ), "{block}");
    assert!(block.contains("        \"ota\": \"true\",\n        \"bootloader_length\": "));
    assert!(block.contains("        \"ota\": \"false\",\n        \"note\": \"flash 512 KiB при секторе 128 KiB"));
    assert!(block.contains("        \"persist_origin\": \"0x2001FC00\",\n        \"persist_length\": \"512\",\n"));
    assert!(block.ends_with("    },\n};\n"));
}

#[test]
fn cases_are_named_for_their_directories() {
    let plain = Case::new(b"stm32f407ve");
    assert_eq!(text(plain.name()), "tc-stm32f407ve");
    assert_eq!(text(plain.label()), "stm32f407ve");
    let variant = Case::new(b"stm32f407ve").variant(b"no-ota", &bytes(&["ota=no"]));
    assert_eq!(text(variant.name()), "tc-stm32f407ve-no-ota");
    assert_eq!(text(variant.label()), "stm32f407ve (no-ota)");
    let defines: Vec<String> = generate_defines(&variant, b"github").into_iter().map(text).collect();
    assert_eq!(defines, vec!["chip_feature=stm32f407ve", "ci=github", "ota=no"]);
}

#[test]
fn default_cases_cover_every_branch() {
    let labels: Vec<String> = default_cases().iter().map(|c| text(c.label())).collect();
    assert_eq!(
        labels,
        vec![
            "stm32f407ve",
            "stm32f407ve (no-ota)",
            "stm32f429zg",
            "stm32h723ve",
            "stm32h745zi-cm7",
            "stm32l011f4",
        ]
    );
}

#[test]
fn the_command_line_of_the_check_is_read() {
    match parse_args(&bytes(&["--quick", "--ci", "gitlab", "stm32g071rb"])) {
        Ok(Command::Check(o)) => {
            assert!(o.quick && !o.keep);
            assert_eq!(o.ci, b"gitlab".to_vec());
            assert_eq!(o.cases.len(), 1);
            assert_eq!(o.cases[0].chip, b"stm32g071rb".to_vec());
        }
        other => panic!("{other:?}"),
    }
    match parse_args(&[]) {
        Ok(Command::Check(o)) => {
            assert_eq!(o.cases.len(), 6);
            assert_eq!(o.ci, b"github".to_vec());
        }
        other => panic!("{other:?}"),
    }
    assert!(matches!(parse_args(&bytes(&["--ci"])), Err(ArgsError::MissingCiValue)));
    assert!(matches!(parse_args(&bytes(&["--help", "--bogus"])), Ok(Command::Help)));
    match parse_args(&bytes(&["--bogus"])) {
        Err(ArgsError::UnknownFlag(f)) => assert_eq!(f, b"--bogus".to_vec()),
        other => panic!("{other:?}"),
    }
}

#[test]
fn each_project_is_checked_in_order() {
    assert_eq!(
        check_steps(true, false, false),
        vec![
            CheckStep::ClearOld,
            CheckStep::Generate,
            CheckStep::CheckPlaceholders,
            CheckStep::ReportLockDrift,
            CheckStep::RemoveProject,
        ]
    );
    let full = check_steps(false, true, true);
    assert_eq!(full.len(), 3 + 3 + 1 + 10 + 1);
    assert_eq!(full[3], CheckStep::Update(Manifest::Root));
    assert_eq!(full[7], CheckStep::Run(0));
    assert_eq!(full[16], CheckStep::Run(9));
    assert_eq!(full[17], CheckStep::KeepProject);
}

#[test]
fn leftover_placeholders_are_found_by_line() {
    let found = placeholder_lines(b"ok\n  x = {{chip}}  \r\nok\n{% if a %}");
    let found: Vec<(usize, String)> = found.into_iter().map(|(n, l)| (n, text(l))).collect();
    assert_eq!(found, vec![(2, "x = {{chip}}".to_owned()), (4, "{% if a %}".to_owned())]);
    let excluded = vec![b"NOTES.md".to_vec()];
    assert!(placeholders_allowed(b"NOTES.md", &excluded));
    assert!(!placeholders_allowed(b"docs/NOTES.md", &excluded));
    assert!(!placeholders_allowed(b"NOTES.md", &[]));
}

#[test]
fn lock_files_are_compared_as_sets_of_packages() {
    let template = "[[package]]\nname = \"b\"\nversion = \"1.0\"\n\n[[package]]\nname = \"a\"\nversion = \"2.0\"\n";
    let generated = "[[package]]\nname = \"a\"\nversion = \"2.0\"\n[[package]]\nname = \"a\"\nversion = \"2.0\"\nname = \"c\"\nversion = \"0.1\"\n";
    let t = lock_package_names(template.as_bytes());
    let g = lock_package_names(generated.as_bytes());
    assert_eq!(t.iter().cloned().map(text).collect::<Vec<_>>(), vec!["a 2.0", "b 1.0"]);
    assert_eq!(g.iter().cloned().map(text).collect::<Vec<_>>(), vec!["a 2.0", "c 0.1"]);
    assert_eq!(lock_difference(&g, &t).into_iter().map(text).collect::<Vec<_>>(), vec!["c 0.1"]);
    assert_eq!(lock_difference(&t, &g).into_iter().map(text).collect::<Vec<_>>(), vec!["b 1.0"]);
}

#[test]
fn sector_sizes_beyond_32_bits_are_laid_out() {
    let page = 1u64 << 33;
    let regions = vec![
        RawRegion {
            name: b"BANK_1".to_vec(),
            kind: RegionKind::Flash,
            address: FLASH_BASE,
            size: 1 << 40,
            erase_write_size: Some((page, 8)),
        },
        RawRegion {
            name: b"SRAM".to_vec(),
            kind: RegionKind::Ram,
            address: RAM_BASE,
            size: 128 * 1024,
            erase_write_size: None,
        },
    ];
    let layout = compute_memory_layout(&regions).expect("раскладка");
    let p = layout.ota.expect("раскладка с загрузчиком");
    assert_eq!(p.bootloader_length, page);
    assert_eq!(p.bootloader_state_length, page);
    assert_eq!(p.active_length % page, 0);
    assert!(p.dfu_length >= p.active_length + page);
}

#[test]
fn chip_tables_are_keyed_in_ascending_order() {
    assert!(names_strictly_ascending(&bytes(&["f407ve", "g474re", "h723ve"])));
    assert!(names_strictly_ascending(&bytes(&[])));
    assert!(!names_strictly_ascending(&bytes(&["g474re", "f407ve"])));
    assert!(!names_strictly_ascending(&bytes(&["f407ve", "f407ve"])));
}

#[test]
fn partitions_start_on_sector_boundaries() {
    let l = layout(512 * 1024, 16 * 1024);
    let p = l.ota.expect("раскладка с загрузчиком");
    let page = 16 * 1024;
    assert!(p.active_length >= page);
    assert_eq!((p.active_origin - FLASH_BASE) % page, 0);
    assert_eq!((p.bootloader_state_origin - FLASH_BASE) % page, 0);
    assert_eq!(p.bootloader_state_length % page, 0);
    // Four uniform pages are too few for the scheme.
    assert!(layout(4 * page, page).ota.is_err());
}

#[test]
fn a_regenerated_block_keeps_both_markers() {
    let current = "head\n// BEGIN GENERATED CHIP LIST old\nold\n// END GENERATED CHIP LIST\ntail\n";
    let replaced = regenerate_block(
        current.as_bytes(),
        CHIPS_BEGIN.as_bytes(),
        CHIPS_END.as_bytes(),
        b"// BEGIN GENERATED CHIP LIST new\n",
    )
    .expect("маркеры на месте");
    assert_eq!(
        text(replaced.clone()),
        "head\n// BEGIN GENERATED CHIP LIST new\n// END GENERATED CHIP LIST\ntail\n"
    );
    // The next run finds the block again.
    let again = regenerate_block(&replaced, CHIPS_BEGIN.as_bytes(), CHIPS_END.as_bytes(), b"// BEGIN GENERATED CHIP LIST x\n")
        .expect("маркеры на месте");
    assert_eq!(text(again), "head\n// BEGIN GENERATED CHIP LIST x\n// END GENERATED CHIP LIST\ntail\n");
}

#[test]
fn the_chip_list_names_the_declared_version() {
    let manifest = b"[dependencies]\nembassy-stm32 = { version = \"0.4.0\", features = [] }\n";
    let version = parse_declared_embassy_version(manifest).expect("версия");
    let stamp = format_source_stamp(&version, b"0.31.0");
    let list = text(format_chip_list(&bytes(&["f407ve"]), &stamp));
    assert!(list.contains("// Источник: embassy-stm32 0.4.0 (cross/Cargo.toml)"));
}
