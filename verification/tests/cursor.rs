use proton_stream::cursor::{
    ReadOutcome, ReadStep, StreamCursor, READ_ERROR, SEEK_ERROR, SIZE_UNKNOWN,
};


/// Non-uniform on purpose, with a short tail.
const CONTENT_BLOCKS: [usize; 4] = [4096, 4096, 4096, 1000];

/// Set once, for as long as the stream lives.
#[derive(Default)]
struct CancelLatch(std::cell::Cell<bool>);

impl CancelLatch {
    fn cancel(&self) {
        self.0.set(true);
    }
}

/// A cursor over bytes that count up to 250 and start again.
struct Cursor(StreamCursor);

impl Cursor {
    fn size(&self) -> i64 {
        self.0.size()
    }

    fn position(&self) -> u64 {
        self.0.position()
    }

    fn seek(&mut self, offset: i64) -> i64 {
        self.0.seek(offset)
    }

    /// Reads no further than the end of the block it starts in.
    fn read(&mut self, buf: &mut [u8], cancel: &CancelLatch) -> i64 {
        match self.0.begin_read(buf.len(), cancel.0.get()) {
            ReadStep::Return(value) => value,
            ReadStep::ReadAt(offset) => {
                let mut end = 0_u64;
                for block in CONTENT_BLOCKS {
                    end += block as u64;
                    if end > offset {
                        break;
                    }
                }
                let read = buf.len().min((end - offset) as usize);
                for (i, byte) in buf[..read].iter_mut().enumerate() {
                    *byte = ((offset as usize + i) % 251) as u8;
                }
                self.0.end_read(ReadOutcome::Read(read))
            }
        }
    }
}

fn cursor() -> (Cursor, CancelLatch) {
    (Cursor(StreamCursor::new(total())), CancelLatch::default())
}

fn total() -> u64 {
    CONTENT_BLOCKS.iter().sum::<usize>() as u64
}

#[test]
fn the_cursor_reports_the_whole_revision_size() {
    let (cursor, _) = cursor();
    assert_eq!(cursor.size(), total() as i64);
}

#[test]
fn sequential_reads_walk_the_file_and_stop_at_eof() {
    let (mut cursor, cancel) = cursor();
    let mut got = Vec::new();
    let mut buf = [0_u8; 700];

    loop {
        let read = cursor.read(&mut buf, &cancel);
        assert!(read >= 0, "read failed at {}", cursor.position());
        if read == 0 {
            break;
        }
        got.extend_from_slice(&buf[..read as usize]);
    }

    assert_eq!(got.len() as u64, total());
    assert!(got.iter().enumerate().all(|(i, b)| *b == (i % 251) as u8));
    assert_eq!(cursor.position(), total());
}

#[test]
fn a_seek_moves_where_the_next_read_starts() {
    let (mut cursor, cancel) = cursor();
    let offset = 5_000_i64;
    assert_eq!(cursor.seek(offset), offset);

    let mut buf = [0_u8; 16];
    let read = cursor.read(&mut buf, &cancel);
    assert_eq!(read, 16);
    assert_eq!(buf[0], (offset as usize % 251) as u8);
    assert_eq!(cursor.position(), offset as u64 + 16);
}

#[test]
fn a_read_crossing_a_block_boundary_is_allowed_to_come_up_short() {
    // mpv reads again rather than treating a short read as EOF, so this is
    // not a bug to paper over — but the bytes it does return must be right.
    let (mut cursor, cancel) = cursor();
    let boundary = CONTENT_BLOCKS[0] as i64;
    cursor.seek(boundary - 8);

    let mut buf = [0_u8; 64];
    let read = cursor.read(&mut buf, &cancel);
    assert!(read > 0 && read <= 64);
    let start = boundary as usize - 8;
    assert!(
        buf[..read as usize]
            .iter()
            .enumerate()
            .all(|(i, b)| *b == ((start + i) % 251) as u8)
    );
}

#[test]
fn seeking_exactly_to_eof_is_allowed_and_reads_zero() {
    let (mut cursor, cancel) = cursor();
    let end = total() as i64;
    assert_eq!(cursor.seek(end), end);

    let mut buf = [0_u8; 16];
    assert_eq!(cursor.read(&mut buf, &cancel), 0);
}

#[test]
fn seeking_past_the_end_or_before_the_start_is_an_error() {
    let (mut cursor, _) = cursor();
    assert_eq!(cursor.seek(total() as i64 + 1), SEEK_ERROR);
    assert_eq!(cursor.seek(-1), SEEK_ERROR);
    // And the position is untouched by a refused seek.
    assert_eq!(cursor.position(), 0);
}

#[test]
fn mpvs_seekability_probe_to_zero_succeeds() {
    // mpv issues a seek to 0 immediately after open purely to find out
    // whether the stream is seekable. Failing it would cost every seek bar.
    let (mut cursor, _) = cursor();
    assert_eq!(cursor.seek(0), 0);
}

#[test]
fn a_cancelled_stream_fails_its_reads_instead_of_serving_them() {
    let (mut cursor, cancel) = cursor();
    cancel.cancel();

    let mut buf = [0_u8; 16];
    assert_eq!(cursor.read(&mut buf, &cancel), READ_ERROR);
    // And stays cancelled — the latch is the stream's lifetime, not one op.
    assert_eq!(cursor.read(&mut buf, &cancel), READ_ERROR);
}

#[test]
fn an_empty_buffer_reads_nothing_rather_than_failing() {
    let (mut cursor, cancel) = cursor();
    assert_eq!(cursor.read(&mut [], &cancel), 0);
}

#[test]
fn a_read_that_fails_moves_nothing() {
    let mut cursor = StreamCursor::new(10);
    assert_eq!(cursor.seek(4), 4);
    assert_eq!(cursor.end_read(ReadOutcome::Failed), READ_ERROR);
    assert_eq!(cursor.end_read(ReadOutcome::Abandoned), READ_ERROR);
    assert_eq!(cursor.position(), 4);
    assert_eq!(StreamCursor::new(u64::MAX).size(), SIZE_UNKNOWN);
}
