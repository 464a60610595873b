use embedded_template::chipgen::package_choices;
use embedded_template::chipmeta::{RawRegion, RegionKind};
use embedded_template::memlayout::regions_fit;
use embedded_template::templatecheck::{
    check_command, manifest_path, substitution_excludes, Manifest, CHECK_COMMAND_COUNT,
};

fn b(s: &str) -> Vec<u8> {
    s.as_bytes().to_vec()
}

fn words(v: Vec<Vec<u8>>) -> Vec<String> {
    v.into_iter().map(|w| String::from_utf8(w).unwrap()).collect()
}

#[test]
fn generated_projects_run_the_commands_of_the_readme() {
    assert_eq!(words(check_command(0)), vec!["xtask", "lint"]);
    assert_eq!(words(check_command(6)), vec!["xtask", "pins", "I2C1", "--snippet"]);
    assert_eq!(
        words(check_command(CHECK_COMMAND_COUNT - 1)),
        vec!["clippy", "--manifest-path", "chip-info/Cargo.toml", "--all-targets", "--", "-D", "warnings"]
    );
    assert_eq!(manifest_path(Manifest::Root), None);
    assert_eq!(manifest_path(Manifest::Cross), Some("cross/Cargo.toml"));
    assert_eq!(manifest_path(Manifest::ChipInfo), Some("chip-info/Cargo.toml"));
}

#[test]
fn files_kept_from_substitution_are_read_from_the_generator_config() {
    let config = "[template]\ncargo_generate_version = \">=0.21\"\n  exclude = [\"NOTES.md\", \"docs/raw.md\"]\nignore = [\"target\"]\n";
    assert_eq!(words(substitution_excludes(config.as_bytes())), vec!["NOTES.md", "docs/raw.md"]);
    assert!(substitution_excludes(b"[template]\nignore = [\"target\"]\n").is_empty());
}

#[test]
fn package_choices_keep_only_suffixes_with_candidates() {
    let chips = vec![b("STM32L151C6"), b("STM32L151C6TxA"), b("STM32L151C6UxA"), b("STM32F407VE")];
    let suffixes = vec![b("f407ve"), b("l151c6-a"), b("h745zi-cm7")];
    let choices = package_choices(&suffixes, &chips);
    assert_eq!(choices.len(), 1);
    assert_eq!(choices[0].0, b("l151c6-a"));
    assert_eq!(words(choices[0].1.clone()), vec!["STM32L151C6TxA", "STM32L151C6UxA"]);
}

#[test]
fn regions_beyond_64_bit_addresses_are_seen() {
    let flash = RawRegion {
        name: b("BANK_1"),
        kind: RegionKind::Flash,
        address: 0x0800_0000,
        size: 0x8_0000,
        erase_write_size: Some((0x4000, 4)),
    };
    assert!(regions_fit(&[flash.clone()]));
    let wrapping = RawRegion { address: u64::MAX - 1, ..flash.clone() };
    assert!(!regions_fit(&[flash.clone(), wrapping]));
    // Sector and write sizes are not bounded: only addresses are.
    let huge_erase = RawRegion { erase_write_size: Some((1 << 33, 1 << 33)), ..flash };
    assert!(regions_fit(&[huge_erase]));
}
