use embedded_template::download::{Receiver, MAX_WORD};
use embedded_template::ports::{DownloadError, FirmwareUpdate, Recorded};

/// A channel that hands out prepared chunks and fails at call `fail_at`.
struct Chunks {
    chunks: Vec<Vec<u8>>,
    next: usize,
    fail_at: Option<usize>,
}

impl Chunks {
    fn of(chunks: impl IntoIterator<Item = Vec<u8>>) -> Self {
        Self { chunks: chunks.into_iter().collect(), next: 0, fail_at: None }
    }

    fn next_chunk(&mut self) -> Result<Option<Vec<u8>>, &'static str> {
        if self.fail_at == Some(self.next) {
            return Err("обрыв канала");
        }
        let i = self.next;
        self.next += 1;
        Ok(self.chunks.get(i).cloned())
    }
}

/// A flash in memory, as strict about words as a real one.
#[derive(Clone)]
struct FakeFlash {
    memory: Vec<u8>,
    word: u32,
    prepared: Option<u32>,
    writes: Vec<(u32, usize)>,
}

impl FakeFlash {
    fn new(capacity: usize, word: u32) -> Self {
        Self { memory: vec![0xFF; capacity], word, prepared: None, writes: Vec::new() }
    }
}

impl FirmwareUpdate for FakeFlash {
    type Error = &'static str;

    fn write_granularity(&mut self) -> u32 {
        self.word
    }

    fn capacity(&mut self) -> Result<u32, Self::Error> {
        Ok(self.memory.len() as u32)
    }

    fn is_busy(&mut self) -> Result<bool, Self::Error> {
        Ok(false)
    }

    fn prepare(&mut self, len: u32) -> Result<(), Self::Error> {
        if len == 0 || len > self.memory.len() as u32 {
            return Err("негодная длина");
        }
        self.prepared = Some(len);
        self.memory.fill(0xFF);
        Ok(())
    }

    fn write(&mut self, offset: u32, data: &[u8]) -> Result<(), Self::Error> {
        if self.prepared.is_none() {
            return Err("запись без подготовки раздела");
        }
        if data.len() as u32 % self.word != 0 {
            return Err("длина записи не кратна слову");
        }
        if offset % self.word != 0 {
            return Err("смещение не кратно слову");
        }
        let start = offset as usize;
        self.memory[start..start + data.len()].copy_from_slice(data);
        self.writes.push((offset, data.len()));
        Ok(())
    }

    fn read(&mut self, offset: u32, buf: &mut [u8]) -> Result<(), Self::Error> {
        let start = offset as usize;
        buf.copy_from_slice(&self.memory[start..start + buf.len()]);
        Ok(())
    }

    fn mark_booted(&mut self) -> Result<(), Self::Error> {
        Ok(())
    }

    fn mark_updated(&mut self) -> Result<(), Self::Error> {
        Ok(())
    }
}

/// A flash that says it prepared but did not: the first write fails.
#[derive(Clone)]
struct NoPrepare(FakeFlash);

impl FirmwareUpdate for NoPrepare {
    type Error = &'static str;
    fn write_granularity(&mut self) -> u32 {
        self.0.write_granularity()
    }
    fn capacity(&mut self) -> Result<u32, Self::Error> {
        self.0.capacity()
    }
    fn is_busy(&mut self) -> Result<bool, Self::Error> {
        self.0.is_busy()
    }
    fn prepare(&mut self, _len: u32) -> Result<(), Self::Error> {
        Ok(())
    }
    fn write(&mut self, offset: u32, data: &[u8]) -> Result<(), Self::Error> {
        self.0.write(offset, data)
    }
    fn read(&mut self, offset: u32, buf: &mut [u8]) -> Result<(), Self::Error> {
        self.0.read(offset, buf)
    }
    fn mark_booted(&mut self) -> Result<(), Self::Error> {
        self.0.mark_booted()
    }
    fn mark_updated(&mut self) -> Result<(), Self::Error> {
        self.0.mark_updated()
    }
}

/// The reception loop as a board runs it, with the channel read in place.
fn receive<F: FirmwareUpdate<Error = &'static str> + Clone>(
    source: &mut Chunks,
    flash: &mut F,
    announced: u32,
) -> Result<u32, DownloadError<&'static str, &'static str>> {
    let mut recorded = Recorded::new(flash.clone());
    let result = receive_into(source, &mut recorded, announced);
    *flash = recorded.into_inner();
    result
}

fn receive_into<F: FirmwareUpdate<Error = &'static str>>(
    source: &mut Chunks,
    flash: &mut Recorded<F>,
    announced: u32,
) -> Result<u32, DownloadError<&'static str, &'static str>> {
    let mut rx = Receiver::begin::<&'static str, F>(flash, announced)?;
    while let Some(chunk) = source.next_chunk().map_err(DownloadError::Source)? {
        rx.feed::<&'static str, F>(flash, &chunk)?;
    }
    rx.complete::<&'static str, F>(flash)
}

fn image(len: u32, seed: u32) -> Vec<u8> {
    (0..len).map(|i| (i * seed) as u8).collect()
}

#[test]
fn reassembles_an_image_from_single_byte_chunks() {
    let image = image(100, 1);
    let mut source = Chunks::of(image.iter().map(|b| vec![*b]));
    let mut flash = FakeFlash::new(1024, 8);

    let len = receive(&mut source, &mut flash, image.len() as u32).expect("приём должен завершиться");

    assert_eq!(len, image.len() as u32);
    assert_eq!(&flash.memory[..image.len()], &image[..]);
}

#[test]
fn reassembles_an_image_from_ragged_chunks() {
    let image = image(200, 7);
    let mut source = Chunks::of(image.chunks(13).map(<[u8]>::to_vec));
    let mut flash = FakeFlash::new(1024, 8);

    receive(&mut source, &mut flash, image.len() as u32).expect("приём");

    assert_eq!(&flash.memory[..image.len()], &image[..]);
    assert!(flash.writes.len() > 1, "запись должна идти по мере приёма");
}

#[test]
fn pads_the_last_word_of_an_unaligned_image() {
    let image = image(70, 1);
    let mut source = Chunks::of([image.clone()]);
    let mut flash = FakeFlash::new(1024, MAX_WORD as u32);

    receive(&mut source, &mut flash, image.len() as u32).expect("приём");

    assert_eq!(&flash.memory[..image.len()], &image[..]);
    assert_eq!(&flash.memory[image.len()..96], &[0xFF; 26][..]);
}

#[test]
fn refuses_an_empty_image_before_touching_the_partition() {
    let mut source = Chunks::of([]);
    let mut flash = FakeFlash::new(64, 8);
    flash.memory.fill(0xA5);

    let refused = receive(&mut source, &mut flash, 0);

    assert_eq!(refused, Err(DownloadError::Empty));
    assert_eq!(flash.prepared, None, "раздел не должен быть подготовлен");
    assert!(flash.memory.iter().all(|b| *b == 0xA5), "раздел не должен быть стёрт");
}

#[test]
fn refuses_an_image_longer_than_the_partition_without_erasing() {
    let mut source = Chunks::of([]);
    let mut flash = FakeFlash::new(64, 8);
    flash.memory.fill(0xA5);

    let refused = receive(&mut source, &mut flash, 65);

    assert_eq!(refused, Err(DownloadError::TooLong { announced: 65, capacity: 64 }));
    assert_eq!(flash.prepared, None);
    assert!(flash.memory.iter().all(|b| *b == 0xA5));
}

#[test]
fn refuses_more_data_than_announced() {
    let mut source = Chunks::of([vec![0; 16], vec![0; 1], vec![0; 100]]);
    let mut flash = FakeFlash::new(1024, 8);

    let refused = receive(&mut source, &mut flash, 16);

    assert_eq!(refused, Err(DownloadError::TooMuchData { announced: 16, received: 17 }));
    assert_eq!(source.next, 2, "после лишнего куска канал больше не читается");
}

#[test]
fn refuses_an_incomplete_transfer() {
    let mut source = Chunks::of([vec![0; 20]]);
    let mut flash = FakeFlash::new(1024, 8);

    let refused = receive(&mut source, &mut flash, 32);

    assert_eq!(refused, Err(DownloadError::Incomplete { announced: 32, received: 20 }));
}

#[test]
fn refuses_an_unusable_write_granularity() {
    for word in [0, MAX_WORD as u32 + 1] {
        let mut source = Chunks::of([]);
        let mut flash = FakeFlash::new(1024, word.max(1));
        flash.word = word;

        let refused = receive(&mut source, &mut flash, 32);

        assert_eq!(refused, Err(DownloadError::UnusableGranularity(word)));
        assert_eq!(flash.prepared, None);
    }
}

#[test]
fn refuses_an_image_whose_padded_length_overflows() {
    let mut source = Chunks::of([]);
    let mut flash = FakeFlash::new(100, 32);

    let refused = receive(&mut source, &mut flash, 100);

    assert_eq!(refused, Err(DownloadError::TooLong { announced: 100, capacity: 100 }));
}

#[test]
fn passes_a_flash_failure_through() {
    let mut source = Chunks::of([vec![0; 8]]);
    let mut flash = NoPrepare(FakeFlash::new(1024, 8));

    let failed = receive(&mut source, &mut flash, 8);

    assert_eq!(failed, Err(DownloadError::Flash("запись без подготовки раздела")));
}

#[test]
fn passes_a_source_failure_through() {
    let mut source = Chunks::of([vec![0; 8], vec![0; 8]]);
    source.fail_at = Some(1);
    let mut flash = FakeFlash::new(1024, 8);

    let failed = receive(&mut source, &mut flash, 16);

    assert_eq!(failed, Err(DownloadError::Source("обрыв канала")));
}

#[test]
fn the_receiver_turns_chunks_into_word_writes() {
    let mut rx = Receiver::start::<(), ()>(10, 64, 4).expect("заголовок годен");
    let w = rx.accept::<(), ()>(&[1, 2, 3]).expect("кусок");
    assert!(w.is_empty());
    let w = rx.accept::<(), ()>(&[4, 5, 6, 7, 8, 9, 10]).expect("кусок");
    assert_eq!(w.len(), 2);
    assert_eq!((w[0].offset, w[0].data.clone()), (0, vec![1, 2, 3, 4]));
    assert_eq!((w[1].offset, w[1].data.clone()), (4, vec![5, 6, 7, 8]));
    let (last, len) = rx.finish::<(), ()>().expect("конец");
    assert_eq!(len, 10);
    let last = last.expect("хвост");
    assert_eq!((last.offset, last.data), (8, vec![9, 10, 0xFF, 0xFF]));
}
