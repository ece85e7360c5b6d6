use log_merge::line::{compare_bytes, find_line_end};
use log_merge::output::{header_lead, write_all_vectored, WritePos};
use log_merge::source::{ReadStep, Source};
use std::cmp::Ordering;

#[test]
fn compare_bytes_orders_byte_by_byte() {
    assert_eq!(compare_bytes(b"a\n", b"b\n"), Ordering::Less);
    assert_eq!(compare_bytes(b"b\n", b"a\n"), Ordering::Greater);
    assert_eq!(compare_bytes(b"x\n", b"x\n"), Ordering::Equal);
    assert_eq!(compare_bytes(b"ab", b"abc"), Ordering::Less);
    assert_eq!(compare_bytes(b"", b""), Ordering::Equal);
    assert_eq!(compare_bytes(b"\xff", b"a"), Ordering::Greater);
}

#[test]
fn find_line_end_stops_after_the_first_delimiter() {
    assert_eq!(find_line_end(b"ab\ncd\n", 0, 6), Some(3));
    assert_eq!(find_line_end(b"ab\ncd\n", 3, 6), Some(6));
    assert_eq!(find_line_end(b"ab\ncd\n", 3, 5), None);
    assert_eq!(find_line_end(b"", 0, 0), None);
}

#[test]
fn write_position_advances_across_buffers() {
    let lens = vec![3usize, 0, 2, 4];
    let start = write_all_vectored(&lens, WritePos { index: 0, offset: 0 }, 0);
    assert_eq!(start, WritePos { index: 0, offset: 0 });
    assert_eq!(write_all_vectored(&lens, start, 3), WritePos { index: 2, offset: 0 });
    assert_eq!(write_all_vectored(&lens, start, 4), WritePos { index: 2, offset: 1 });
    assert_eq!(write_all_vectored(&lens, WritePos { index: 2, offset: 1 }, 2), WritePos { index: 3, offset: 1 });
    assert_eq!(write_all_vectored(&lens, start, 9), WritePos { index: 4, offset: 0 });
}

#[test]
fn write_position_skips_empty_buffers_at_the_start() {
    let lens = vec![0usize, 0, 5];
    assert_eq!(write_all_vectored(&lens, WritePos { index: 0, offset: 0 }, 0), WritePos { index: 2, offset: 0 });
    let empty: Vec<usize> = Vec::new();
    assert_eq!(write_all_vectored(&empty, WritePos { index: 0, offset: 0 }, 0), WritePos { index: 0, offset: 0 });
}

#[test]
fn header_leads() {
    assert_eq!(header_lead(true), b">>> ".to_vec());
    assert_eq!(header_lead(false), b"\n>>> ".to_vec());
}

#[test]
fn absorb_finds_the_first_line() {
    let mut s = Source::new(b"p".to_vec(), 16);
    assert_eq!(s.free_space(), 16);
    assert_eq!(s.absorb(b"ab"), ReadStep::NeedMore);
    assert_eq!(s.absorb(b"c\nd\n"), ReadStep::Line(4));
    assert_eq!(&s.buffer[..s.read], b"abc\nd\n");
    s.discard_consumed(4);
    assert_eq!(&s.buffer[..s.read], b"d\n");
    assert_eq!(s.buffer.len(), 16);
}

#[test]
fn absorb_adds_a_missing_final_delimiter() {
    let mut s = Source::new(b"p".to_vec(), 8);
    assert_eq!(s.absorb(b"tail"), ReadStep::NeedMore);
    assert_eq!(s.absorb(b""), ReadStep::Line(5));
    assert_eq!(&s.buffer[..s.read], b"tail\n");
    s.discard_consumed(5);
    assert_eq!(s.absorb(b""), ReadStep::Exhausted);
    assert_eq!(s.read, 0);
}

#[test]
fn absorb_reports_an_empty_stream() {
    let mut s = Source::new(b"p".to_vec(), 8);
    assert_eq!(s.absorb(b""), ReadStep::Exhausted);
    assert_eq!(s.read, 0);
    assert_eq!(s.buffer.len(), 8);
}

#[test]
fn absorb_doubles_when_little_space_is_left() {
    let mut s = Source::new(b"p".to_vec(), 8);
    assert_eq!(s.absorb(b"abcdef"), ReadStep::NeedMore);
    assert_eq!(s.buffer.len(), 8);
    assert_eq!(s.absorb(b"g"), ReadStep::NeedMore);
    assert_eq!(s.buffer.len(), 16);
    assert_eq!(&s.buffer[..s.read], b"abcdefg");
}

#[test]
fn absorb_doubles_when_the_buffer_fills() {
    let mut t = Source::new(b"q".to_vec(), 4);
    assert_eq!(t.absorb(b"abc"), ReadStep::NeedMore);
    assert_eq!(t.buffer.len(), 4);
    assert_eq!(t.absorb(b"d"), ReadStep::NeedMore);
    assert_eq!(t.buffer.len(), 8);
    assert_eq!(t.absorb(b""), ReadStep::Line(5));
    assert_eq!(&t.buffer[..t.read], b"abcd\n");
}
