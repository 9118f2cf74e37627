use tracectl::codec::u64_to_string;
use tracectl::errors::TraceError;
use tracectl::memory::MemoryImage;
use tracectl::stack::{push_string, push_word, push_words, StackCursor};

#[test]
fn word_write_read_round_trip() {
    let mut m = MemoryImage::new(0x1000, 4);
    m.write_word(0x1008, 0xdead_beef_0102_0304).unwrap();
    assert_eq!(m.read_word(0x1008).unwrap(), 0xdead_beef_0102_0304);
    // The other words keep their value.
    assert_eq!(m.read_word(0x1000).unwrap(), 0);
    assert_eq!(m.read_word(0x1018).unwrap(), 0);
}

#[test]
fn unmapped_and_unaligned_access_fail() {
    let mut m = MemoryImage::new(0x1000, 2);
    assert_eq!(m.read_word(0x0ff8).unwrap_err(), TraceError::MemoryAccessFailure);
    assert_eq!(m.read_word(0x1010).unwrap_err(), TraceError::MemoryAccessFailure);
    assert_eq!(m.read_word(0x1004).unwrap_err(), TraceError::MemoryAccessFailure);
    assert_eq!(m.write_word(0x1010, 1).unwrap_err(), TraceError::MemoryAccessFailure);
    assert_eq!(m.write_word(0x1004, 1).unwrap_err(), TraceError::MemoryAccessFailure);
}

#[test]
fn push_word_decrements_and_writes() {
    let mut m = MemoryImage::new(0x7ffe_ff80, 16);
    let mut c = StackCursor::new(0x7fff_0000);
    let a = push_word(&mut c, &mut m, 0x1122_3344_5566_7788).unwrap();
    assert_eq!(a, 0x7ffe_fff8);
    assert_eq!(c.sp, 0x7ffe_fff8);
    assert_eq!(m.read_word(a).unwrap(), 0x1122_3344_5566_7788);
}

#[test]
fn push_words_monotonic() {
    // After n pushes the stack pointer is exactly 8n lower and the returned
    // addresses strictly decrease.
    let mut m = MemoryImage::new(0x7ffe_ff80, 16);
    let mut c = StackCursor::new(0x7fff_0000);
    let addrs = push_words(&mut c, &mut m, &vec![10, 20, 30]).unwrap();
    assert_eq!(c.sp, 0x7fff_0000 - 24);
    assert_eq!(addrs, vec![0x7ffe_fff8, 0x7ffe_fff0, 0x7ffe_ffe8]);
    assert!(addrs[1] < addrs[0] && addrs[2] < addrs[1]);
    assert_eq!(m.read_word(addrs[0]).unwrap(), 10);
    assert_eq!(m.read_word(addrs[1]).unwrap(), 20);
    assert_eq!(m.read_word(addrs[2]).unwrap(), 30);
}

#[test]
fn push_below_image_fails_unchanged() {
    let mut m = MemoryImage::new(0x7ffe_fff0, 2);
    let mut c = StackCursor::new(0x7fff_0000);
    // Three words do not fit in the two mapped slots.
    let e = push_words(&mut c, &mut m, &vec![1, 2, 3]).unwrap_err();
    assert_eq!(e, TraceError::MemoryAccessFailure);
    assert_eq!(c.sp, 0x7fff_0000);
    assert_eq!(m.read_word(0x7ffe_fff0).unwrap(), 0);
    assert_eq!(m.read_word(0x7ffe_fff8).unwrap(), 0);
}

#[test]
fn cursor_reset_returns_to_base() {
    let mut m = MemoryImage::new(0x7ffe_ff80, 16);
    let mut c = StackCursor::new(0x7fff_0000);
    push_word(&mut c, &mut m, 1).unwrap();
    push_word(&mut c, &mut m, 2).unwrap();
    assert_eq!(c.sp, 0x7fff_0000 - 16);
    c.reset();
    assert_eq!(c.sp, 0x7fff_0000);
}

#[test]
fn push_string_lays_text_forward() {
    // Pushing "hi" onto a stack at 0x7fff0000 yields the eight bytes
    // 68 69 00 00 00 00 00 00 at 0x7ffefff8.
    let mut m = MemoryImage::new(0x7ffe_ff80, 16);
    let mut c = StackCursor::new(0x7fff_0000);
    let a = push_string(&mut c, &mut m, &b"hi".to_vec()).unwrap();
    assert_eq!(a, 0x7ffe_fff8);
    assert_eq!(c.sp, a);
    assert_eq!(m.read_word(a).unwrap(), 0x6968);
    assert_eq!(u64_to_string(m.read_word(a).unwrap()), "hi");
}

#[test]
fn push_string_round_trip_multiword() {
    // A text longer than one word reads forward, word by word, from the
    // returned address: the text, one null, then null padding.
    let mut m = MemoryImage::new(0x7ffe_ff80, 16);
    let mut c = StackCursor::new(0x7fff_0000);
    let text = b"ls -l -a this/dir".to_vec(); // 17 bytes: three words padded
    let a = push_string(&mut c, &mut m, &text).unwrap();
    assert_eq!(a, 0x7fff_0000 - 24);
    let words = m.read_words(a, 3).unwrap();
    let mut read_back: Vec<u8> = Vec::new();
    for w in words {
        for b in 0..8u64 {
            read_back.push(((w >> (8 * b)) & 0xff) as u8);
        }
    }
    let mut expected = text.clone();
    while expected.len() % 8 != 0 {
        expected.push(0);
    }
    assert_eq!(read_back, expected);
}

#[test]
fn push_empty_string_is_one_null_word() {
    let mut m = MemoryImage::new(0x7ffe_ff80, 16);
    let mut c = StackCursor::new(0x7fff_0000);
    let a = push_string(&mut c, &mut m, &Vec::new()).unwrap();
    assert_eq!(a, 0x7ffe_fff8);
    assert_eq!(m.read_word(a).unwrap(), 0);
}

#[test]
fn u64_to_string_decodes_until_null() {
    assert_eq!(u64_to_string(0x6f6c_6c65_68), "hello");
    assert_eq!(u64_to_string(0), "");
    // A byte after the first null is not shown.
    assert_eq!(u64_to_string(0x4100_41), "A");
    // A byte outside the ASCII range is shown as a question mark.
    assert_eq!(u64_to_string(0x41ff_41), "A?A");
}
