use embedded_template::adapters::{
    dfu_is_busy, millicelsius_from_raw, prepare_plan, BootState, Link, Lm75, PrepareRefusal,
    DEFAULT_ADDRESS,
};

#[test]
fn main_test_works() {
    assert!(true);
}

#[test]
fn lib_test_works() {
    assert!(true);
}

#[test]
fn reads_positive_temperature() {
    let sensor = Lm75::new((), DEFAULT_ADDRESS);
    assert_eq!(sensor.address, 0x48);
    assert_eq!(millicelsius_from_raw([0x19, 0x00]), 25_000);
}

#[test]
fn reads_negative_temperature() {
    assert_eq!(millicelsius_from_raw([0xE7, 0x00]), -25_000);
}

#[test]
fn temperature_keeps_the_half_degree_and_the_extremes() {
    assert_eq!(millicelsius_from_raw([0x19, 0x80]), 25_500);
    assert_eq!(millicelsius_from_raw([0xFF, 0x80]), -500);
    assert_eq!(millicelsius_from_raw([0x7F, 0xFF]), 127_500);
    assert_eq!(millicelsius_from_raw([0x80, 0x00]), -128_000);
    assert_eq!(millicelsius_from_raw([0x19, 0x7F]), 25_000);
}

#[test]
fn prepare_erases_only_the_pages_the_image_needs() {
    assert_eq!(prepare_plan(false, 257, 768, 256), Ok(512));
}

#[test]
fn prepare_refuses_zero_and_oversized_lengths_before_erasing() {
    for len in [0, 769] {
        assert_eq!(
            prepare_plan(false, len, 768, 256),
            Err(PrepareRefusal::OutOfBounds),
            "{len}"
        );
    }
}

#[test]
fn write_and_prepare_refuse_while_the_partition_holds_a_rollback_image() {
    for state in [BootState::Swap, BootState::Revert] {
        assert!(dfu_is_busy(state), "{state:?}");
        assert_eq!(
            prepare_plan(dfu_is_busy(state), 8, 768, 256),
            Err(PrepareRefusal::BadState)
        );
    }
}

#[test]
fn a_booted_state_is_not_busy() {
    assert!(!dfu_is_busy(BootState::Boot));
    assert!(!dfu_is_busy(BootState::DfuDetach));
}

#[test]
fn mark_updated_makes_the_partition_busy_and_mark_booted_frees_it() {
    // `mark_updated` leaves the state at Swap, `mark_booted` at Boot.
    assert!(dfu_is_busy(BootState::Swap));
    assert!(!dfu_is_busy(BootState::Boot));
}

#[test]
fn prepare_rounds_up_to_whole_pages_and_saturates() {
    assert_eq!(prepare_plan(false, 768, 768, 256), Ok(768));
    assert_eq!(prepare_plan(false, 1, 768, 256), Ok(256));
    assert_eq!(prepare_plan(false, u32::MAX, u32::MAX, 0x1_0000), Ok(u32::MAX));
    assert_eq!(prepare_plan(true, 0, 768, 256), Err(PrepareRefusal::BadState));
}

#[test]
fn a_board_without_transport_has_a_link() {
    let link = Link;
    let _copy = link;
}
