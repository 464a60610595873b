use embedded_template::chipgen::{
    metadata_error_message, probe_rs_chip_names, probe_rs_version, resolve_cargo_metadata,
    CargoMetadataError, PackageFacts,
};
use embedded_template::linker::{ota_env, Region};

fn b(s: &str) -> Vec<u8> {
    s.as_bytes().to_vec()
}

fn package(name: &str, features: Option<&[&str]>, manifest: Option<&str>) -> PackageFacts {
    PackageFacts {
        name: b(name),
        features: features.map(|fs| fs.iter().map(|f| b(f)).collect()),
        manifest_path: manifest.map(b),
    }
}

#[test]
fn declared_chip_features_are_taken_sorted_and_once() {
    let packages = vec![
        package("cortex-m", Some(&["inline-asm"]), Some("/r/cortex-m/Cargo.toml")),
        package(
            "embassy-stm32",
            Some(&["stm32h745zi-cm7", "rt", "stm32f407ve", "stm32f407ve", "time-driver-any"]),
            Some("/r/embassy-stm32/Cargo.toml"),
        ),
        package("stm32-metapac", Some(&["metadata"]), Some("/r/stm32-metapac-18/Cargo.toml")),
    ];
    let m = resolve_cargo_metadata(&packages).expect("всё найдено");
    assert_eq!(m.embassy_chip_features, vec![b("stm32f407ve"), b("stm32h745zi-cm7")]);
    assert_eq!(m.stm32_metapac_manifest, b("/r/stm32-metapac-18/Cargo.toml"));
}

#[test]
fn missing_pieces_of_the_dependency_graph_are_named() {
    let no_embassy = vec![package("stm32-metapac", None, Some("/m"))];
    assert_eq!(resolve_cargo_metadata(&no_embassy).err(), Some(CargoMetadataError::NoEmbassy));
    let no_features = vec![package("embassy-stm32", None, None)];
    assert_eq!(resolve_cargo_metadata(&no_features).err(), Some(CargoMetadataError::NoFeatures));
    let no_chips = vec![package("embassy-stm32", Some(&["rt", "stm32"]), None)];
    assert_eq!(resolve_cargo_metadata(&no_chips).err(), Some(CargoMetadataError::NoChipFeatures));
    let no_metapac = vec![package("embassy-stm32", Some(&["stm32f407ve"]), None)];
    assert_eq!(resolve_cargo_metadata(&no_metapac).err(), Some(CargoMetadataError::NoMetapac));
    let no_path = vec![
        package("embassy-stm32", Some(&["stm32f407ve"]), None),
        package("stm32-metapac", None, None),
    ];
    assert_eq!(resolve_cargo_metadata(&no_path).err(), Some(CargoMetadataError::NoManifestPath));
    assert_eq!(
        String::from_utf8(metadata_error_message(&CargoMetadataError::NoMetapac)).unwrap(),
        "stm32-metapac не найден среди зависимостей cross/Cargo.toml"
    );
}

#[test]
fn probe_rs_chip_list_gives_indented_stm32_chips() {
    let out = "STM32F4 Series\n    STM32F407VGTx\n    STM32F401CCUx\r\n  STM32F407VGTx\nnRF52 Series\n    nRF52840_xxAA\nSTM32G0\n";
    let chips = probe_rs_chip_names(out.as_bytes()).expect("есть чипы");
    assert_eq!(chips, vec![b("STM32F401CCUx"), b("STM32F407VGTx")]);
    assert!(probe_rs_chip_names(b"nRF52 Series\n    nRF52840_xxAA\n").is_none());
    assert!(probe_rs_chip_names(b"").is_none());
}

#[test]
fn probe_rs_version_is_read_from_its_first_line() {
    assert_eq!(probe_rs_version(b"probe-rs 0.31.0 (git commit: abc)\nmore\n"), b("0.31.0"));
    assert_eq!(probe_rs_version(b"  probe-rs   0.30.0\n"), b("0.30.0"));
    assert_eq!(probe_rs_version(b"something else\n"), b("something else"));
    assert_eq!(probe_rs_version(b"probe-rs \n"), b("probe-rs"));
    assert_eq!(probe_rs_version(b""), b(""));
}

#[test]
fn the_update_cycle_test_gets_partition_addresses() {
    let active = Region { origin: 0x0802_0000, length: 0x1_0000 };
    let dfu = Region { origin: 0x0803_0000, length: 0x1_1000 };
    let state = Region { origin: 0x0800_8000, length: 0x4000 };
    let ram = Region { origin: 0x2000_0000, length: 0x2_0000 };
    let vars: Vec<(String, String)> =
        ota_env(Some(active), Some(dfu), Some(state), Some(ram), b"4", b"16384")
            .into_iter()
            .map(|(n, v)| (String::from_utf8(n).unwrap(), String::from_utf8(v).unwrap()))
            .collect();
    let expected: Vec<(String, String)> = [
        ("HOST_TARGET_ACTIVE_ADDR", "0x8020000"),
        ("HOST_TARGET_DFU_ADDR", "0x8030000"),
        ("HOST_TARGET_STATE_ADDR", "0x8008000"),
        ("HOST_TARGET_STATE_LEN", "16384"),
        ("HOST_TARGET_RAM_END", "0x20020000"),
        ("HOST_TARGET_WRITE_SIZE", "4"),
        ("HOST_TARGET_PAGE_SIZE", "16384"),
    ]
    .iter()
    .map(|(n, v)| (n.to_string(), v.to_string()))
    .collect();
    assert_eq!(vars, expected);
    assert!(ota_env(Some(active), Some(dfu), Some(state), Some(ram), b"4", b"").is_empty());
    assert!(ota_env(Some(active), None, Some(state), Some(ram), b"4", b"2048").is_empty());
    let odd = Region { origin: 0xABC, length: 0 };
    let vars = ota_env(Some(odd), Some(dfu), Some(state), Some(ram), b"4", b"2048");
    assert_eq!(vars[0].1, b("0xabc"));
}
