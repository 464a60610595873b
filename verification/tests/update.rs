use embedded_template::firmware::{is_upgrade, pack, VERSION_BYTES};
use embedded_template::ota::{busy_rejection, download_rejection, update_rejection};
use embedded_template::ports::{
    DownloadError, FirmwareUpdate, Recorded, Rejection, SignedFirmwareUpdate, UpdateError,
    VerifyError,
};
use embedded_template::update::{apply_signed, judge_update, version_from_tail};

const KEY: [u8; 32] = [7; 32];
const SIGNATURE: [u8; 64] = [9; 64];

/// A partition holding an image and the settings of a device; records what
/// it was asked.
#[derive(Clone)]
struct Fake {
    memory: Vec<u8>,
    capacity: u32,
    busy: bool,
    version: u32,
    key: [u8; 32],
    verify: Result<(), VerifyError<&'static str>>,
    verified: Vec<([u8; 64], u32)>,
}

impl Fake {
    /// A partition with an image of `len` bytes whose tail holds `incoming`,
    /// and a capacity below the partition, as with a real swap scheme.
    fn with_image(len: u32, incoming: u32) -> Self {
        let mut memory = vec![0xFF; 256];
        memory[(len - VERSION_BYTES) as usize..len as usize].copy_from_slice(&incoming.to_le_bytes());
        Self {
            memory,
            capacity: 128,
            busy: false,
            version: pack(1, 2, 3),
            key: KEY,
            verify: Ok(()),
            verified: Vec::new(),
        }
    }
}

impl FirmwareUpdate for Fake {
    type Error = &'static str;

    fn write_granularity(&mut self) -> u32 {
        8
    }
    fn capacity(&mut self) -> Result<u32, Self::Error> {
        Ok(self.capacity)
    }
    fn is_busy(&mut self) -> Result<bool, Self::Error> {
        Ok(self.busy)
    }
    fn prepare(&mut self, _len: u32) -> Result<(), Self::Error> {
        Ok(())
    }
    fn write(&mut self, _offset: u32, _data: &[u8]) -> Result<(), Self::Error> {
        Ok(())
    }
    fn read(&mut self, offset: u32, buf: &mut [u8]) -> Result<(), Self::Error> {
        let start = offset as usize;
        buf.copy_from_slice(&self.memory[start..start + buf.len()]);
        Ok(())
    }
    fn mark_booted(&mut self) -> Result<(), Self::Error> {
        Ok(())
    }
    fn mark_updated(&mut self) -> Result<(), Self::Error> {
        Ok(())
    }
}

impl SignedFirmwareUpdate for Fake {
    fn running_version(&self) -> u32 {
        self.version
    }
    fn public_key(&self) -> [u8; 32] {
        self.key
    }
    fn verify_and_mark_updated(
        &mut self,
        signature: &[u8; 64],
        len: u32,
    ) -> Result<(), VerifyError<Self::Error>> {
        self.verified.push((*signature, len));
        self.verify
    }
}

/// Applies through the partition as the library takes it, and gives the
/// partition back.
fn apply(flash: &mut Fake, signature: &[u8; 64], len: u32) -> Result<(), UpdateError<&'static str>> {
    let mut recorded = Recorded::new(flash.clone());
    let result = apply_signed(&mut recorded, signature, len);
    *flash = recorded.into_inner();
    result
}

#[test]
fn accepts_a_newer_signed_image() {
    let mut flash = Fake::with_image(64, pack(1, 2, 4));

    apply(&mut flash, &SIGNATURE, 64).expect("образ новее и подписан");

    assert_eq!(flash.verified, vec![(SIGNATURE, 64)]);
}

#[test]
fn refuses_a_length_beyond_capacity_before_anything_else() {
    let mut flash = Fake::with_image(64, pack(1, 2, 4));
    flash.busy = true;
    flash.key = [0; 32];

    let refused = apply(&mut flash, &SIGNATURE, 129);

    assert_eq!(refused, Err(UpdateError::TooLong { len: 129, capacity: 128 }));
    assert!(flash.verified.is_empty());
}

#[test]
fn refuses_a_busy_partition_instead_of_calling_it_a_rollback() {
    let mut flash = Fake::with_image(64, pack(0, 0, 1));
    flash.busy = true;

    assert_eq!(apply(&mut flash, &SIGNATURE, 64), Err(UpdateError::Busy));
}

#[test]
fn refuses_an_image_shorter_than_its_version_tail() {
    let mut flash = Fake::with_image(64, pack(1, 2, 4));

    assert_eq!(apply(&mut flash, &SIGNATURE, 3), Err(UpdateError::Truncated { len: 3 }));
}

#[test]
fn refuses_an_older_or_equal_image_before_the_key() {
    for incoming in [pack(1, 2, 3), pack(1, 1, 9)] {
        let mut flash = Fake::with_image(64, incoming);
        flash.key = [0; 32];

        assert_eq!(
            apply(&mut flash, &SIGNATURE, 64),
            Err(UpdateError::Rollback { current: pack(1, 2, 3), incoming })
        );
    }
}

#[test]
fn refuses_a_zero_key_before_cryptography() {
    let mut flash = Fake::with_image(64, pack(1, 2, 4));
    flash.key = [0; 32];

    assert_eq!(apply(&mut flash, &SIGNATURE, 64), Err(UpdateError::NoPublicKey));
    assert!(flash.verified.is_empty(), "до криптографии дойти не должно");
}

#[test]
fn passes_a_signature_failure_through() {
    let mut flash = Fake::with_image(64, pack(1, 2, 4));
    flash.verify = Err(VerifyError::Flash("подпись не сошлась"));

    assert_eq!(
        apply(&mut flash, &SIGNATURE, 64),
        Err(UpdateError::Flash("подпись не сошлась"))
    );
}

#[test]
fn a_bad_signature_is_told_apart() {
    let mut flash = Fake::with_image(64, pack(1, 2, 4));
    flash.verify = Err(VerifyError::BadSignature);

    assert_eq!(apply(&mut flash, &SIGNATURE, 64), Err(UpdateError::BadSignature));
}

#[test]
fn versions_pack_and_compare() {
    assert_eq!(pack(1, 2, 3), 0x0001_0203);
    assert!(is_upgrade(pack(1, 2, 3), pack(1, 2, 4)));
    assert!(!is_upgrade(pack(1, 2, 3), pack(1, 2, 3)));
    assert!(!is_upgrade(pack(1, 2, 3), pack(1, 1, 9)));
    assert_eq!(version_from_tail(&[0x03, 0x02, 0x01, 0x00]), pack(1, 2, 3));
}

#[test]
fn checks_come_in_their_order() {
    let zero = [0u8; 32];
    assert_eq!(
        judge_update::<()>(200, 128, true, 1, 2, &zero),
        Err(UpdateError::TooLong { len: 200, capacity: 128 })
    );
    assert_eq!(judge_update::<()>(2, 128, true, 1, 2, &zero), Err(UpdateError::Busy));
    assert_eq!(judge_update::<()>(2, 128, false, 1, 2, &zero), Err(UpdateError::Truncated { len: 2 }));
    assert_eq!(
        judge_update::<()>(8, 128, false, 1, 2, &zero),
        Err(UpdateError::Rollback { current: 2, incoming: 1 })
    );
    assert_eq!(judge_update::<()>(8, 128, false, 3, 2, &zero), Err(UpdateError::NoPublicKey));
    assert_eq!(judge_update::<()>(8, 128, false, 3, 2, &KEY), Ok(()));
}

#[test]
fn refusals_are_reported_by_cause() {
    assert_eq!(download_rejection::<(), ()>(DownloadError::Empty), Ok(Rejection::Length));
    assert_eq!(
        download_rejection::<(), ()>(DownloadError::TooLong { announced: 65, capacity: 64 }),
        Ok(Rejection::Length)
    );
    assert_eq!(
        download_rejection::<(), ()>(DownloadError::TooMuchData { announced: 1, received: 2 }),
        Ok(Rejection::Transfer)
    );
    assert_eq!(
        download_rejection::<(), &str>(DownloadError::Flash("флеш")),
        Ok(Rejection::Device)
    );
    assert_eq!(
        download_rejection::<&str, ()>(DownloadError::Source("канал")),
        Err("канал")
    );
    assert_eq!(update_rejection::<()>(&UpdateError::Busy), Rejection::Busy);
    assert_eq!(
        update_rejection::<()>(&UpdateError::Rollback { current: 2, incoming: 1 }),
        Rejection::Rollback
    );
    assert_eq!(update_rejection::<()>(&UpdateError::NoPublicKey), Rejection::Signature);
    assert_eq!(busy_rejection::<()>(&Ok(true)), Some(Rejection::Busy));
    assert_eq!(busy_rejection::<()>(&Ok(false)), None);
    assert_eq!(busy_rejection::<()>(&Err(())), Some(Rejection::Device));
}
