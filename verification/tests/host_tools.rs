use embedded_template::image::{
    image_from_headers, image_from_segments, raw_image_from_elf, ElfImageError, ImageError,
    ProgramHeader, PT_LOAD,
};
use embedded_template::linker::{
    dump_bytes, image_size_report, memory_text_fits, panic_dump_plan, parse_hex,
    parse_memory_regions, parse_size, region, PanicPlan, PartitionName, Region, PANIC_MAGIC,
};
use embedded_template::memtext::{format_addr, format_size, region_line};
use embedded_template::signing::{
    check_raw_image, image_signature, key_action, new_key_pair, public_key_listing,
    public_key_matches, public_key_of, seed_from_bytes, KeyAction, RawImageError,
};

fn text(bytes: Vec<u8>) -> String {
    String::from_utf8(bytes).expect("UTF-8")
}

#[test]
fn packs_segments_and_fills_gaps_with_erased_flash() {
    let segments = vec![(0x0800_0000, vec![1, 2]), (0x0800_0006, vec![3])];

    let image = image_from_segments(&segments).expect("сегменты укладываются");

    assert_eq!(image, vec![1, 2, 0xFF, 0xFF, 0xFF, 0xFF, 3]);
}

#[test]
fn refuses_overlapping_segments() {
    let segments = vec![(0x0800_0000, vec![1, 2, 3]), (0x0800_0002, vec![4])];

    image_from_segments(&segments).expect_err("наложение должно отвергаться");
}

#[test]
fn overlap_names_the_first_shared_address() {
    let segments = vec![(0x0800_0000, vec![1, 2, 3]), (0x0800_0002, vec![4])];
    assert_eq!(
        image_from_segments(&segments),
        Err(ImageError::Overlap { address: 0x0800_0002 })
    );
}

#[test]
fn an_elf_without_segments_has_no_image() {
    assert_eq!(image_from_segments(&[]), Err(ImageError::NoSegments));
}

#[test]
fn segments_given_out_of_order_are_laid_out_by_address() {
    let segments = vec![(0x0800_0004, vec![9]), (0x0800_0000, vec![1])];
    assert_eq!(
        image_from_segments(&segments),
        Ok(vec![1, 0xFF, 0xFF, 0xFF, 9])
    );
}

#[test]
fn linker_sizes_and_addresses_are_read() {
    assert_eq!(parse_size(b"128K"), Some(128 * 1024));
    assert_eq!(parse_size(b"1M"), Some(1024 * 1024));
    assert_eq!(parse_size(b" 528, "), Some(528));
    assert_eq!(parse_size(b"0x08020000"), Some(0x0802_0000));
    assert_eq!(parse_size(b"0X10"), Some(16));
    assert_eq!(parse_size(b"12 k"), Some(12 * 1024));
    assert_eq!(parse_size(b""), None);
    assert_eq!(parse_size(b"K"), None);
    assert_eq!(parse_size(b"abc"), None);
}

#[test]
fn what_the_generator_writes_is_read_back() {
    for v in [0u64, 1, 1023, 1024, 0x0802_0000, 512 * 1024, u64::MAX] {
        assert_eq!(parse_size(&format_size(v)), Some(v));
        assert_eq!(parse_size(&format_addr(v)), Some(v));
    }
    assert_eq!(text(format_addr(0x0800_0000)), "0x08000000");
    assert_eq!(text(format_size(128 * 1024)), "128K");
    assert_eq!(text(format_size(1000)), "1000");
}

const MEMORY_X: &str = "MEMORY
{
    FLASH             (rx)  : ORIGIN = 0x08020000, LENGTH = 128K
    DFU               (rx)  : ORIGIN = 0x08040000, LENGTH = 256K
    /* OTP               (r)   : ORIGIN = 0x1FFF7800, LENGTH = 528 */
    RAM               (xrw) : ORIGIN = 0x20000000, LENGTH = 127K
    PANIC             (xrw) : ORIGIN = 0x2001FE00, LENGTH = 512
}
";

#[test]
fn memory_regions_are_read_from_a_linker_script() {
    assert!(memory_text_fits(MEMORY_X.as_bytes()));
    let regions = parse_memory_regions(MEMORY_X.as_bytes());
    let names: Vec<String> = regions.iter().map(|(n, _)| text(n.clone())).collect();
    assert_eq!(names, vec!["FLASH", "DFU", "RAM", "PANIC"]);
    assert_eq!(
        region(&regions, b"DFU"),
        Some(Region { origin: 0x0804_0000, length: 256 * 1024 })
    );
    assert_eq!(region(&regions, b"OTP"), None);
}

#[test]
fn lines_written_by_the_generator_are_read_back() {
    let line = text(region_line(b"ACTIVE", b"rx", 0x0802_0000, 128 * 1024));
    assert_eq!(line, "    ACTIVE            (rx)  : ORIGIN = 0x08020000, LENGTH = 128K");
    let regions = parse_memory_regions(line.as_bytes());
    assert_eq!(regions.len(), 1);
    assert_eq!(regions[0].0, b"ACTIVE".to_vec());
    assert_eq!(regions[0].1, Region { origin: 0x0802_0000, length: 128 * 1024 });
}

#[test]
fn a_memory_x_of_generated_lines_reads_back_in_order() {
    let mut memory_x = b"MEMORY\n{\n".to_vec();
    memory_x.extend(region_line(b"BOOTLOADER_STATE", b"rw", 0x0800_6000, 8 * 1024));
    memory_x.extend(b"\n    /* FMC_BANK1 (rw) : ORIGIN = 0x60000000, LENGTH = 256M - no memory */\n");
    memory_x.extend(region_line(b"RAM", b"xrw", 0x2000_0000, 127 * 1024));
    memory_x.extend(b"\n}\n");
    let regions = parse_memory_regions(&memory_x);
    assert_eq!(regions.len(), 2);
    assert_eq!(regions[0].0, b"BOOTLOADER_STATE".to_vec());
    assert_eq!(regions[0].1, Region { origin: 0x0800_6000, length: 8 * 1024 });
    assert_eq!(regions[1].0, b"RAM".to_vec());
    assert_eq!(regions[1].1, Region { origin: 0x2000_0000, length: 127 * 1024 });
}

#[test]
fn numbers_beyond_64_bits_are_flagged() {
    let script = "    FLASH (rx) : ORIGIN = 0, LENGTH = 18014398509481984K\n";
    assert!(!memory_text_fits(script.as_bytes()));
    let unreadable = "    FLASH (rx) : ORIGIN = 0, LENGTH = 99999999999999999999K\n";
    assert!(memory_text_fits(unreadable.as_bytes()));
    assert!(parse_memory_regions(unreadable.as_bytes()).is_empty());
}

#[test]
fn flash_of_a_partitioned_project_is_reported_as_active() {
    let regions = parse_memory_regions(MEMORY_X.as_bytes());
    let report = image_size_report(&regions, 120 * 1024).expect("раздел есть");
    assert_eq!(report.name, PartitionName::Active);
    assert_eq!(report.capacity, 128 * 1024);
    assert_eq!(report.percent, 93);
    assert!(report.near_limit);

    let plain = parse_memory_regions(b"FLASH (rx) : ORIGIN = 0x08000000, LENGTH = 512K");
    let report = image_size_report(&plain, 1024).expect("раздел есть");
    assert_eq!(report.name, PartitionName::Flash);
    assert_eq!(report.percent, 0);
    assert!(!report.near_limit);

    assert!(image_size_report(&[], 10).is_none());
}

#[test]
fn panic_dump_header_is_judged() {
    let panic = Region { origin: 0x2001_FE00, length: 512 };
    assert_eq!(
        panic_dump_plan(panic, b"0facade0 0000000c"),
        PanicPlan::Read { start: 0x2001_FE08, length: 12 }
    );
    assert_eq!(
        panic_dump_plan(panic, b"deadbeef 0000000c"),
        PanicPlan::NoDump { magic: 0xDEAD_BEEF }
    );
    assert_eq!(
        panic_dump_plan(panic, b"0facade0 00000200"),
        PanicPlan::Corrupt { length: 512, available: 504 }
    );
    assert_eq!(panic_dump_plan(panic, b""), PanicPlan::NoDump { magic: 0 });
    assert_eq!(PANIC_MAGIC, 0x0FAC_ADE0);
    assert_eq!(parse_hex(b"zz"), 0);
    assert_eq!(parse_hex(b"1ff"), 0x1FF);
}

#[test]
fn dump_bytes_are_read_word_by_word() {
    assert_eq!(dump_bytes(b"68 69\n 21 1ff"), vec![0x68, 0x69, 0x21, 0xFF]);
    assert_eq!(text(dump_bytes(b"70 61 6e 69 63")), "panic");
}

#[test]
fn a_new_pair_is_made_only_when_neither_file_exists() {
    assert_eq!(key_action(false, false), KeyAction::CreatePair);
    assert_eq!(key_action(false, true), KeyAction::RefuseWithoutPrivate);
    assert_eq!(key_action(true, false), KeyAction::RestorePublic);
    assert_eq!(key_action(true, true), KeyAction::CheckPublic);
}

#[test]
fn a_seed_is_exactly_32_bytes() {
    assert_eq!(seed_from_bytes(&[7u8; 32]), Some([7u8; 32]));
    assert_eq!(seed_from_bytes(&[7u8; 31]), None);
    assert_eq!(seed_from_bytes(&[7u8; 33]), None);
}

#[test]
fn the_public_key_matches_only_its_own_seed() {
    let seed = [7u8; 32];
    let public = public_key_of(&seed);
    assert!(public_key_matches(&public, &seed));
    assert!(!public_key_matches(&[1u8; 32], &seed));
    assert_ne!(public, public_key_of(&[8u8; 32]));
    assert_ne!(public, [7u8; 32]);
}

#[test]
fn signatures_depend_on_the_image_and_the_key() {
    let seed = [7u8; 32];
    let a = image_signature(b"image", &seed);
    assert_eq!(a, image_signature(b"image", &seed));
    assert_ne!(a, image_signature(b"imagf", &seed));
    assert_ne!(a, image_signature(b"image", &[8u8; 32]));
}

#[test]
fn only_raw_images_are_signed() {
    assert_eq!(check_raw_image(b""), Err(RawImageError::Empty));
    assert_eq!(check_raw_image(b"\x7fELF\x01"), Err(RawImageError::Elf));
    assert_eq!(check_raw_image(b"\x00\x01"), Ok(()));
}

#[test]
fn the_public_key_is_listed_eight_bytes_a_row() {
    let key: Vec<u8> = (0u8..32).collect();
    let listing = text(public_key_listing(&key));
    let lines: Vec<&str> = listing.lines().collect();
    assert_eq!(lines.len(), 6);
    assert_eq!(lines[0], "pub const PUBLIC_KEY: [u8; 32] = [");
    assert_eq!(lines[1], "    0x00, 0x01, 0x02, 0x03, 0x04, 0x05, 0x06, 0x07,");
    assert_eq!(lines[4], "    0x18, 0x19, 0x1A, 0x1B, 0x1C, 0x1D, 0x1E, 0x1F,");
    assert_eq!(lines[5], "];");
}

/// A little-endian 32-bit ELF file with the program headers `headers`
/// (type, offset, virtual address, physical address, size in the file) and
/// `payload` right after them.
fn elf32(headers: &[(u32, u32, u32, u32, u32)], payload: &[u8]) -> Vec<u8> {
    let mut out = vec![0x7F, b'E', b'L', b'F', 1, 1, 1, 0, 0, 0, 0, 0, 0, 0, 0, 0];
    let half = |out: &mut Vec<u8>, v: u16| out.extend_from_slice(&v.to_le_bytes());
    let word = |out: &mut Vec<u8>, v: u32| out.extend_from_slice(&v.to_le_bytes());
    half(&mut out, 2); // executable
    half(&mut out, 40); // ARM
    word(&mut out, 1);
    word(&mut out, 0); // entry
    word(&mut out, 52); // program headers right after this header
    word(&mut out, 0); // no section headers
    word(&mut out, 0);
    half(&mut out, 52);
    half(&mut out, 32);
    half(&mut out, headers.len() as u16);
    half(&mut out, 40);
    half(&mut out, 0);
    half(&mut out, 0);
    for &(kind, offset, vaddr, paddr, size) in headers {
        for v in [kind, offset, vaddr, paddr, size, size, 0, 4] {
            word(&mut out, v);
        }
    }
    out.extend_from_slice(payload);
    out
}

fn payload_offset(headers: usize) -> u32 {
    52 + 32 * headers as u32
}

#[test]
fn an_elf_image_is_its_load_segments_at_physical_addresses() {
    let at = payload_offset(3);
    let file = elf32(
        &[
            (PT_LOAD, at, 0x0800_0000, 0x0800_0000, 4),
            (4, at, 0, 0, 2), // a note: not written
            (PT_LOAD, at + 4, 0x2000_0000, 0x0800_0008, 2), // `.data`: runs from RAM, stored in flash
        ],
        &[1, 2, 3, 4, 5, 6],
    );

    let image = raw_image_from_elf(&file).expect("образ");

    assert_eq!(image, vec![1, 2, 3, 4, 0xFF, 0xFF, 0xFF, 0xFF, 5, 6]);
}

#[test]
fn a_file_that_is_not_elf_is_unreadable() {
    assert!(matches!(raw_image_from_elf(&[1, 2, 3, 4, 5, 6, 7, 8]), Err(ElfImageError::Unreadable(_))));
    assert!(matches!(raw_image_from_elf(&[]), Err(ElfImageError::Unreadable(_))));
}

#[test]
fn a_load_segment_beyond_the_file_is_refused() {
    let at = payload_offset(1);
    let file = elf32(&[(PT_LOAD, at, 0x0800_0000, 0x0800_0000, 64)], &[1, 2, 3, 4]);

    assert!(matches!(raw_image_from_elf(&file), Err(ElfImageError::SegmentOutsideFile)));
}

#[test]
fn segments_without_file_bytes_and_other_types_are_skipped() {
    let headers = vec![
        ProgramHeader { kind: PT_LOAD, paddr: 0x100, data: Some(vec![]) },
        ProgramHeader { kind: 6, paddr: 0x0, data: None },
        ProgramHeader { kind: PT_LOAD, paddr: 0x102, data: Some(vec![7, 8]) },
    ];

    assert_eq!(image_from_headers(&headers).expect("образ"), vec![7, 8]);
}

#[test]
fn headers_without_a_loadable_segment_have_no_image() {
    let headers = vec![ProgramHeader { kind: 6, paddr: 0x0, data: Some(vec![1]) }];

    assert!(matches!(
        image_from_headers(&headers),
        Err(ElfImageError::Layout(ImageError::NoSegments))
    ));
    assert!(matches!(
        image_from_headers(&[
            ProgramHeader { kind: PT_LOAD, paddr: 0x10, data: Some(vec![1, 2]) },
            ProgramHeader { kind: PT_LOAD, paddr: 0x11, data: Some(vec![3]) },
        ]),
        Err(ElfImageError::Layout(ImageError::Overlap { address: 0x11 }))
    ));
    assert!(matches!(
        image_from_headers(&[ProgramHeader { kind: PT_LOAD, paddr: 0x10, data: None }]),
        Err(ElfImageError::SegmentOutsideFile)
    ));
}

#[test]
fn a_new_key_pair_is_consistent() {
    let pair = new_key_pair().expect("случайные байты");

    assert_eq!(pair.public, public_key_of(&pair.seed));
    assert!(public_key_matches(&pair.public, &pair.seed));
}
