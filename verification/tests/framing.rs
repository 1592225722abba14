use uhttp_chunked_write::audited::counted;
use uhttp_chunked_write::chunked::settle;
use uhttp_chunked_write::hex::digit_byte;
use uhttp_chunked_write::sink::{advance, write_all};
use uhttp_chunked_write::wire::SizeLine;
use uhttp_chunked_write::{Audited, ChunkedWrite, Sink, SliceSink, VecSink, WriteError, Writer};

/// A writer that keeps what it is given, takes at most `step` bytes per call,
/// and fails from the call numbered `fail_at` on (calls count from one).
struct Scripted {
    taken: Vec<u8>,
    step: usize,
    calls: usize,
    fail_at: usize,
    flushes: usize,
    flush_fails: bool,
}

impl Scripted {
    fn new(step: usize, fail_at: usize) -> Self {
        Scripted { taken: Vec::new(), step, calls: 0, fail_at, flushes: 0, flush_fails: false }
    }
}

impl Writer for Scripted {
    type Error = String;

    fn write(&mut self, buf: &[u8]) -> Result<usize, String> {
        self.calls += 1;
        if self.calls >= self.fail_at {
            return Err(format!("write {} refused", self.calls));
        }
        let n = buf.len().min(self.step);
        self.taken.extend_from_slice(&buf[..n]);
        Ok(n)
    }

    fn flush(&mut self) -> Result<(), String> {
        self.flushes += 1;
        if self.flush_fails {
            Err(String::from("flush refused"))
        } else {
            Ok(())
        }
    }
}

#[test]
fn test_chunked_write() {
    let mut buf = [0; 32];

    {
        let mut w = ChunkedWrite::new(SliceSink::new(&mut buf[..]));
        w.write(b"abc def").unwrap();
        w.write(b"gh\nijklmno").unwrap();
        w.finish();
    }

    assert_eq!(&buf[..], b"7\r\nabc def\r\na\r\ngh\nijklmno\r\n0\r\n\r\n");
}

#[test]
fn hello_then_number() {
    let mut buf = [0; 25];

    {
        let mut body = ChunkedWrite::new(SliceSink::new(&mut buf[..]));
        assert_eq!(body.write(b"hello ").unwrap(), 6);
        assert_eq!(body.write(b"1337").unwrap(), 4);
        let (sink, outcome) = body.close();
        assert!(outcome.is_ok());
        assert_eq!(sink.len(), 25);
    }

    assert_eq!(&buf[..], &b"6\r\nhello \r\n4\r\n1337\r\n0\r\n\r\n"[..]);
}

#[test]
fn no_writes_gives_terminator_only() {
    let sink = ChunkedWrite::new(VecSink::new()).finish();
    assert_eq!(sink.as_slice(), b"0\r\n\r\n");
}

#[test]
fn empty_write_gives_a_terminator_in_place() {
    let mut w = ChunkedWrite::new(VecSink::new());
    w.send(b"ab").unwrap();
    w.send(b"").unwrap();
    w.send(b"c").unwrap();
    let bytes = w.finish().into_inner();
    assert_eq!(bytes, b"2\r\nab\r\n0\r\n\r\n1\r\nc\r\n0\r\n\r\n".to_vec());
}

#[test]
fn size_lines_are_lowercase_hex_without_leading_zeros() {
    assert_eq!(SizeLine::new(0).as_slice(), b"0\r\n");
    assert_eq!(SizeLine::new(9).as_slice(), b"9\r\n");
    assert_eq!(SizeLine::new(10).as_slice(), b"a\r\n");
    assert_eq!(SizeLine::new(15).as_slice(), b"f\r\n");
    assert_eq!(SizeLine::new(16).as_slice(), b"10\r\n");
    assert_eq!(SizeLine::new(255).as_slice(), b"ff\r\n");
    assert_eq!(SizeLine::new(4096).as_slice(), b"1000\r\n");
    assert_eq!(SizeLine::new(0xdead_beef).as_slice(), b"deadbeef\r\n");
    assert_eq!(SizeLine::new(usize::MAX).as_slice(), format!("{:x}\r\n", usize::MAX).as_bytes());
}

#[test]
fn size_line_agrees_with_std_formatting() {
    let mut n: usize = 0;
    while n < 70_000 {
        assert_eq!(SizeLine::new(n).as_slice(), format!("{:x}\r\n", n).as_bytes());
        n += 1;
    }
}

#[test]
fn digits_are_lowercase() {
    let digits: Vec<u8> = (0..16).map(digit_byte).collect();
    assert_eq!(digits, b"0123456789abcdef".to_vec());
}

#[test]
fn payload_of_4096_bytes() {
    let data = vec![b'x'; 4096];
    let mut w = ChunkedWrite::new(VecSink::new());
    assert_eq!(w.write(&data).unwrap(), 4096);
    let bytes = w.finish().into_inner();
    let mut expected = b"1000\r\n".to_vec();
    expected.extend_from_slice(&data);
    expected.extend_from_slice(b"\r\n0\r\n\r\n");
    assert_eq!(bytes, expected);
}

#[test]
fn payload_bytes_pass_unchanged() {
    let data: Vec<u8> = (0..=255u8).collect();
    let mut w = ChunkedWrite::new(VecSink::new());
    w.send(&data).unwrap();
    let bytes = w.finish().into_inner();
    assert_eq!(&bytes[..5], b"100\r\n");
    assert_eq!(&bytes[5..261], &data[..]);
    assert_eq!(&bytes[261..], b"\r\n0\r\n\r\n");
}

#[test]
fn full_slice_gives_write_zero_and_keeps_the_prefix() {
    let mut buf = [0u8; 4];
    {
        let mut w = ChunkedWrite::new(SliceSink::new(&mut buf[..]));
        let r = w.send(b"he");
        assert!(matches!(r, Err(WriteError::WriteZero)));
        let sink = w.finish();
        assert_eq!(sink.as_slice(), b"2\r\nh");
        assert_eq!(sink.len(), 4);
    }
    assert_eq!(&buf[..], b"2\r\nh");
}

#[test]
fn close_reports_a_terminator_that_did_not_fit() {
    let mut buf = [0u8; 9];
    let mut w = ChunkedWrite::new(SliceSink::new(&mut buf[..]));
    w.send(b"he").unwrap();
    let (sink, outcome) = w.close();
    assert!(matches!(outcome, Err(WriteError::WriteZero)));
    assert_eq!(sink.as_slice(), b"2\r\nhe\r\n0\r");
}

#[test]
fn short_writes_are_drained() {
    let mut w = ChunkedWrite::new(Audited::new(Scripted::new(1, usize::MAX)));
    w.send(b"abc def").unwrap();
    let (sink, outcome) = w.close();
    assert!(outcome.is_ok());
    let inner = sink.into_inner();
    assert_eq!(inner.taken, b"7\r\nabc def\r\n0\r\n\r\n".to_vec());
    assert_eq!(inner.calls, 17);
    assert_eq!(inner.flushes, 1);
}

#[test]
fn each_part_of_a_chunk_is_one_write_when_the_sink_takes_all() {
    let mut w = ChunkedWrite::new(Audited::new(Scripted::new(usize::MAX, usize::MAX)));
    w.send(b"abc").unwrap();
    let inner = w.finish().into_inner();
    assert_eq!(inner.taken, b"3\r\nabc\r\n0\r\n\r\n".to_vec());
    // size line, payload, line end; then size line and line end of the terminator
    assert_eq!(inner.calls, 5);
}

#[test]
fn failure_on_the_nth_write_is_returned_and_nothing_follows() {
    let whole = b"3\r\nabc\r\n".to_vec();
    let mut fail_at: usize = 1;
    while fail_at <= 8 {
        let mut w = ChunkedWrite::new(Audited::new(Scripted::new(1, fail_at)));
        let r = w.send(b"abc");
        match r {
            Err(WriteError::Sink(e)) => assert_eq!(e, format!("write {} refused", fail_at)),
            _ => panic!("the write numbered {} should have failed", fail_at),
        }
        let inner = w.finish().into_inner();
        assert_eq!(inner.taken, whole[..fail_at - 1].to_vec());
        fail_at += 1;
    }
    let mut w = ChunkedWrite::new(Audited::new(Scripted::new(1, 9)));
    assert!(w.send(b"abc").is_ok());
}

#[test]
fn failed_write_through_the_writer_trait() {
    let mut w = ChunkedWrite::new(Audited::new(Scripted::new(2, 2)));
    let r = w.write(b"abc");
    assert!(matches!(r, Err(WriteError::Sink(_))));
    let inner = w.finish().into_inner();
    assert_eq!(inner.taken, b"3\r".to_vec());
}

#[test]
fn flush_passes_the_sinks_answer_on() {
    let mut w = ChunkedWrite::new(Audited::new(Scripted::new(8, usize::MAX)));
    assert!(w.flush().is_ok());
    let mut inner = w.finish().into_inner();
    assert_eq!(inner.flushes, 2);
    inner.flush_fails = true;
    inner.taken.clear();
    let mut w = ChunkedWrite::new(Audited::new(inner));
    match w.flush() {
        Err(WriteError::Sink(e)) => assert_eq!(e, "flush refused"),
        _ => panic!("the flush should have failed"),
    }
    let inner = w.finish().into_inner();
    assert_eq!(inner.taken, Vec::<u8>::new().iter().chain(b"0\r\n\r\n").cloned().collect::<Vec<u8>>());
}

#[test]
fn close_flushes_even_after_a_failed_terminator() {
    let mut w = ChunkedWrite::new(Audited::new(Scripted::new(8, 2)));
    let (sink, outcome) = {
        let r = w.send(b"");
        assert!(r.is_err());
        w.close()
    };
    assert!(matches!(outcome, Err(WriteError::Sink(_))));
    let inner = sink.into_inner();
    assert_eq!(inner.flushes, 1);
    assert_eq!(inner.taken, b"0\r\n".to_vec());
}

#[test]
fn close_reports_a_failed_flush() {
    let mut script = Scripted::new(8, usize::MAX);
    script.flush_fails = true;
    let w = ChunkedWrite::new(Audited::new(script));
    let (sink, outcome) = w.close();
    match outcome {
        Err(WriteError::Sink(e)) => assert_eq!(e, "flush refused"),
        _ => panic!("the flush should have failed"),
    }
    assert_eq!(sink.into_inner().taken, b"0\r\n\r\n".to_vec());
}

#[test]
fn finish_drops_failures() {
    let mut script = Scripted::new(8, 1);
    script.flush_fails = true;
    let inner = ChunkedWrite::new(Audited::new(script)).finish().into_inner();
    assert_eq!(inner.taken, Vec::<u8>::new());
    assert_eq!(inner.calls, 1);
    assert_eq!(inner.flushes, 1);
}

#[test]
fn advance_says_what_each_answer_means() {
    assert!(matches!(advance::<u8>(0, 10, Ok(4)), Ok(4)));
    assert!(matches!(advance::<u8>(4, 10, Ok(6)), Ok(10)));
    assert!(matches!(advance::<u8>(4, 10, Ok(0)), Err(WriteError::WriteZero)));
    assert!(matches!(advance::<u8>(4, 10, Err(9)), Err(WriteError::Sink(9))));
}

#[test]
fn write_all_stops_when_nothing_is_taken() {
    let mut sink = Audited::new(Scripted::new(0, usize::MAX));
    let r = write_all(&mut sink, b"abc");
    assert!(matches!(r, Err(WriteError::WriteZero)));
    assert_eq!(sink.into_inner().calls, 1);
}

#[test]
fn write_all_of_nothing_writes_nothing() {
    let mut sink = Audited::new(Scripted::new(8, 1));
    assert!(write_all(&mut sink, b"").is_ok());
    assert_eq!(sink.into_inner().calls, 0);
}

/// A writer that claims to have taken more than it was given.
struct Boastful {
    taken: Vec<u8>,
}

impl Writer for Boastful {
    type Error = ();

    fn write(&mut self, buf: &[u8]) -> Result<usize, ()> {
        self.taken.extend_from_slice(buf);
        Ok(buf.len() + 7)
    }

    fn flush(&mut self) -> Result<(), ()> {
        Ok(())
    }
}

#[test]
fn a_count_beyond_the_buffer_is_the_whole_buffer() {
    let mut w = ChunkedWrite::new(Audited::new(Boastful { taken: Vec::new() }));
    w.send(b"abc").unwrap();
    let inner = w.finish().into_inner();
    assert_eq!(inner.taken, b"3\r\nabc\r\n0\r\n\r\n".to_vec());
}

#[test]
fn slice_sink_takes_what_fits() {
    let mut buf = [0u8; 3];
    let mut sink = SliceSink::new(&mut buf[..]);
    assert_eq!(sink.write(b"ab").unwrap(), 2);
    assert_eq!(sink.write(b"cd").unwrap(), 1);
    assert_eq!(sink.write(b"e").unwrap(), 0);
    assert!(sink.flush().is_ok());
    assert_eq!(sink.as_slice(), b"abc");
}

#[test]
fn vec_sink_grows() {
    let mut sink = VecSink::new();
    assert_eq!(sink.write(b"ab").unwrap(), 2);
    assert_eq!(sink.write(b"").unwrap(), 0);
    assert_eq!(sink.write(b"cde").unwrap(), 3);
    assert!(sink.flush().is_ok());
    assert_eq!(sink.as_slice(), b"abcde");
}

#[test]
fn settle_gives_the_first_failure() {
    assert!(matches!(settle::<u8>(Ok(()), Ok(())), Ok(())));
    assert!(matches!(settle::<u8>(Ok(()), Err(3)), Err(WriteError::Sink(3))));
    assert!(matches!(settle::<u8>(Err(WriteError::Sink(2)), Err(3)), Err(WriteError::Sink(2))));
    assert!(matches!(settle::<u8>(Err(WriteError::WriteZero), Err(3)), Err(WriteError::WriteZero)));
    assert!(matches!(settle::<u8>(Err(WriteError::Sink(2)), Ok(())), Err(WriteError::Sink(2))));
}

#[test]
fn counted_caps_the_count_at_what_was_offered() {
    assert!(matches!(counted::<u8>(5, Ok(0)), Ok(0)));
    assert!(matches!(counted::<u8>(5, Ok(3)), Ok(3)));
    assert!(matches!(counted::<u8>(5, Ok(5)), Ok(5)));
    assert!(matches!(counted::<u8>(5, Ok(6)), Ok(5)));
    assert!(matches!(counted::<u8>(5, Err(9)), Err(9)));
}

#[test]
fn write_does_not_flush() {
    let mut w = ChunkedWrite::new(Audited::new(Scripted::new(8, usize::MAX)));
    w.write(b"abc").unwrap();
    w.send(b"de").unwrap();
    let (sink, outcome) = w.close();
    assert!(outcome.is_ok());
    assert_eq!(sink.into_inner().flushes, 1);
}
