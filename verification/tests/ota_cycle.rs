use embedded_template::ota::Cycle;
use embedded_template::ports::{Announce, FirmwareUpdate, Recorded, Rejection};

/// A channel scripted by a test: the headers it announces, the chunks of
/// the image, where it breaks, and what it answers to the report.
struct FakeLink {
    headers: Vec<Announce>,
    chunks: Vec<Vec<u8>>,
    next: usize,
    fail_at: Option<usize>,
    finish: Result<(), &'static str>,
    finished: Vec<Result<(), Rejection>>,
}

impl FakeLink {
    fn of(chunks: impl IntoIterator<Item = Vec<u8>>) -> Self {
        Self {
            headers: Vec::new(),
            chunks: chunks.into_iter().collect(),
            next: 0,
            fail_at: None,
            finish: Ok(()),
            finished: Vec::new(),
        }
    }

    fn announcing(mut self, headers: impl IntoIterator<Item = Announce>) -> Self {
        self.headers = headers.into_iter().collect();
        self
    }

    fn begin(&mut self) -> Result<Announce, &'static str> {
        if self.headers.is_empty() {
            return Err("канал закрыт");
        }
        Ok(self.headers.remove(0))
    }

    fn next_chunk(&mut self) -> Result<Option<Vec<u8>>, &'static str> {
        if self.fail_at == Some(self.next) {
            return Err("обрыв канала");
        }
        let i = self.next;
        self.next += 1;
        Ok(self.chunks.get(i).cloned())
    }

    fn report(&mut self, outcome: Result<(), Rejection>) -> Result<(), &'static str> {
        self.finished.push(outcome);
        self.finish
    }
}

#[derive(Clone)]
struct FakeFlash {
    memory: Vec<u8>,
    word: u32,
    busy: bool,
    prepared: Option<u32>,
    updated: usize,
    mark_updated: Result<(), &'static str>,
}

impl FakeFlash {
    fn new(capacity: usize, word: u32) -> Self {
        Self { memory: vec![0xFF; capacity], word, busy: false, prepared: None, updated: 0, mark_updated: Ok(()) }
    }
}

impl FirmwareUpdate for FakeFlash {
    type Error = &'static str;

    fn write_granularity(&mut self) -> u32 {
        self.word
    }
    fn capacity(&mut self) -> Result<u32, Self::Error> {
        Ok(self.memory.len() as u32)
    }
    fn is_busy(&mut self) -> Result<bool, Self::Error> {
        Ok(self.busy)
    }
    fn prepare(&mut self, len: u32) -> Result<(), Self::Error> {
        self.prepared = Some(len);
        Ok(())
    }
    fn write(&mut self, offset: u32, data: &[u8]) -> Result<(), Self::Error> {
        let start = offset as usize;
        self.memory[start..start + data.len()].copy_from_slice(data);
        Ok(())
    }
    fn read(&mut self, offset: u32, buf: &mut [u8]) -> Result<(), Self::Error> {
        let start = offset as usize;
        buf.copy_from_slice(&self.memory[start..start + buf.len()]);
        Ok(())
    }
    fn mark_booted(&mut self) -> Result<(), Self::Error> {
        Ok(())
    }
    fn mark_updated(&mut self) -> Result<(), Self::Error> {
        self.mark_updated?;
        self.updated += 1;
        Ok(())
    }
}

/// One cycle of the node as a board runs it: the channel is read between
/// the steps of the cycle; a channel failure ends it without a report.
fn cycle(link: &mut FakeLink, flash: &mut FakeFlash) -> Result<(), &'static str> {
    let mut recorded = Recorded::new(flash.clone());
    let result = cycle_on(link, &mut recorded);
    *flash = recorded.into_inner();
    result
}

fn cycle_on(link: &mut FakeLink, flash: &mut Recorded<FakeFlash>) -> Result<(), &'static str> {
    let announce = link.begin()?;
    let outcome = match Cycle::open(flash, announce) {
        Err(rejection) => Err(rejection),
        Ok(mut cycle) => loop {
            match link.next_chunk()? {
                Some(chunk) => {
                    if let Some(rejection) = cycle.feed(flash, &chunk) {
                        break Err(rejection);
                    }
                }
                None => break cycle.close(flash),
            }
        },
    };
    link.report(outcome)
}

fn announce(len: usize) -> Announce {
    Announce { len: len as u32, signature: None }
}

fn image(len: usize) -> Vec<u8> {
    (0..len).map(|i| (i * 3) as u8).collect()
}

#[test]
fn applies_an_unsigned_image_and_reports_success() {
    let image = image(64);
    let mut link = FakeLink::of(image.chunks(13).map(<[u8]>::to_vec)).announcing([announce(64)]);
    let mut flash = FakeFlash::new(1024, 8);

    cycle(&mut link, &mut flash).expect("канал жив");

    assert_eq!(flash.prepared, Some(64));
    assert_eq!(&flash.memory[..64], &image[..]);
    assert_eq!(flash.updated, 1, "обмен разделов запрошен один раз");
    assert_eq!(link.finished, vec![Ok(())]);
}

#[test]
fn reports_busy_before_touching_the_partition_or_the_link() {
    let mut link = FakeLink::of([vec![0; 8]]).announcing([announce(8)]);
    let mut flash = FakeFlash::new(64, 8);
    flash.busy = true;

    cycle(&mut link, &mut flash).expect("канал жив");

    assert_eq!(link.finished, vec![Err(Rejection::Busy)]);
    assert_eq!(flash.prepared, None, "раздел не должен быть стёрт");
    assert_eq!(link.next, 0, "куски не читались");
}

#[test]
fn maps_a_bad_length_to_length_without_erasing() {
    let mut link = FakeLink::of([]).announcing([announce(65)]);
    let mut flash = FakeFlash::new(64, 8);

    cycle(&mut link, &mut flash).expect("канал жив");

    assert_eq!(link.finished, vec![Err(Rejection::Length)]);
    assert_eq!(flash.prepared, None);
}

#[test]
fn maps_excess_data_to_transfer() {
    let mut link = FakeLink::of([vec![0; 16], vec![0; 8]]).announcing([announce(16)]);
    let mut flash = FakeFlash::new(64, 8);

    cycle(&mut link, &mut flash).expect("канал жив");

    assert_eq!(link.finished, vec![Err(Rejection::Transfer)]);
    assert_eq!(flash.updated, 0, "обмен не запрашивался");
}

#[test]
fn maps_a_flash_failure_on_apply_to_device() {
    let mut link = FakeLink::of([vec![0; 8]]).announcing([announce(8)]);
    let mut flash = FakeFlash::new(64, 8);
    flash.mark_updated = Err("флеш отказал");

    cycle(&mut link, &mut flash).expect("канал жив");

    assert_eq!(link.finished, vec![Err(Rejection::Device)]);
}

#[test]
fn a_link_failure_while_receiving_ends_the_cycle_without_a_report() {
    let mut link = FakeLink::of([vec![0; 8], vec![0; 8]]).announcing([announce(16)]);
    link.fail_at = Some(1);
    let mut flash = FakeFlash::new(64, 8);

    let failed = cycle(&mut link, &mut flash);

    assert_eq!(failed, Err("обрыв канала"));
    assert!(link.finished.is_empty(), "сообщать некому");
}

#[test]
fn a_link_failure_on_finish_ends_the_cycle() {
    let mut link = FakeLink::of([vec![0; 8]]).announcing([announce(8)]);
    link.finish = Err("обрыв при отчёте");
    let mut flash = FakeFlash::new(64, 8);

    let failed = cycle(&mut link, &mut flash);

    assert_eq!(failed, Err("обрыв при отчёте"));
}

#[test]
fn an_incomplete_image_is_a_transfer_failure() {
    let mut link = FakeLink::of([vec![0; 8]]).announcing([announce(16)]);
    let mut flash = FakeFlash::new(64, 8);

    cycle(&mut link, &mut flash).expect("канал жив");

    assert_eq!(link.finished, vec![Err(Rejection::Transfer)]);
    assert_eq!(flash.updated, 0);
}

#[test]
fn a_zero_length_is_refused_before_erasing() {
    let mut link = FakeLink::of([]).announcing([announce(0)]);
    let mut flash = FakeFlash::new(64, 8);

    cycle(&mut link, &mut flash).expect("канал жив");

    assert_eq!(link.finished, vec![Err(Rejection::Length)]);
    assert_eq!(flash.prepared, None);
}
