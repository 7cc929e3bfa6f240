use sms_tg::linebuf::trim_carriage_return;
use sms_tg::linebuf::LineIterator;
use sms_tg::linebuf::RingBuffer;

#[test]
fn test_line_iterator() {
    let buffer = b"hello\n\nworld\nfoo";

    // Lines
    let mut iter = LineIterator::new(buffer, 4);
    assert_eq!(iter.next(), Some(0..5)); // "hello"
    assert_eq!(iter.next(), Some(6..6));
    assert_eq!(iter.next(), Some(7..12)); // "world"
    assert_eq!(iter.next(), None);
}

#[test]
fn test_empty_buffer() {
    let buffer = b"";
    let mut iter = LineIterator::new(buffer, 0);
    assert_eq!(iter.next(), None);
}

#[test]
fn test_ring_buffer() {
    let mut mem = [0_u8; 5];
    let mut rbuf = RingBuffer::new(&mut mem);

    // >> Write 3 bytes
    // [r..w.]
    {
        let buf = rbuf.writable();
        assert_eq!(buf.len(), 5); // the whole mem is available
        buf[0..3].copy_from_slice(&[1, 2, 3]);
        rbuf.has_written(3);
    }
    assert_eq!(rbuf.wpos(), 3);
    assert_eq!(rbuf.unread(), 3);
    assert_eq!(rbuf.mem(), &[1, 2, 3, 0, 0]);

    // >> Write 2 bytes (until the end)
    // [w.r...]
    {
        let buf = rbuf.writable();
        assert_eq!(buf.len(), 2); // only 2 bytes left this time
        buf[0..2].copy_from_slice(&[4, 5]);
        rbuf.has_written(2);
    }
    assert_eq!(rbuf.wpos(), 0);
    assert_eq!(rbuf.mem(), &[1, 2, 3, 4, 5]);
    assert_eq!(rbuf.unread(), 5);

    // >> Read 2 bytes
    // [..r.w.]
    {
        let buf = rbuf.readable();
        assert_eq!(buf, &[1, 2, 3, 4, 5]);
        rbuf.has_read(2);
    }
    assert_eq!(rbuf.rpos(), 2);
    assert_eq!(rbuf.unread(), 3);

    // >> Write 2 more (catch up with rpos)
    // [..w/r...]
    {
        let buf = rbuf.writable();
        assert_eq!(buf.len(), 2); // until rpos
        buf[0..2].copy_from_slice(&[6, 7]);
        rbuf.has_written(2);
    }
    assert_eq!(rbuf.wpos(), 2);
    assert_eq!(rbuf.mem(), &[6, 7, 3, 4, 5]);
    assert_eq!(rbuf.unread(), 5);

    // ### READER CATCHES UP

    // >> Read until the end (wrapped around)
    // [r.w..]
    {
        let buf = rbuf.readable();
        assert_eq!(buf, &[3, 4, 5]);
        rbuf.has_read(3);
    }
    assert_eq!(rbuf.rpos(), 0);
    assert_eq!(rbuf.unread(), 2);

    // >> Read until wpos (caught up)
    // [..r/w..]
    {
        let buf = rbuf.readable();
        assert_eq!(buf, &[6, 7]);
        rbuf.has_read(2);
    }
    assert_eq!(rbuf.rpos(), 2);
    assert_eq!(rbuf.unread(), 0);

    // >> Read again? nothing to read
    {
        let buf = rbuf.readable();
        assert_eq!(buf.len(), 0); // nothing to read
    }

    // ### WRITER OVERRUN

    // >> Write 3 bytes (wrapped around)
    // [w.r...]
    {
        let buf = rbuf.writable();
        assert_eq!(buf.len(), 3); // until end
        buf[0..3].copy_from_slice(&[9, 9, 9]);
        rbuf.has_written(3);
    }
    assert_eq!(rbuf.wpos(), 0);
    assert_eq!(rbuf.mem(), &[6, 7, 9, 9, 9]);
    assert_eq!(rbuf.unread(), 3);

    // >> Write 2 bytes (caught up with rpos)
    // [..w/r...]
    {
        let buf = rbuf.writable();
        assert_eq!(buf.len(), 2); // until rpos
        buf[0..2].copy_from_slice(&[8, 8]);
        rbuf.has_written(2);
    }
    assert_eq!(rbuf.wpos(), 2);
    assert_eq!(rbuf.mem(), &[8, 8, 9, 9, 9]);
    assert_eq!(rbuf.unread(), 5);

    // Write again. OVERRUN. (wrapped around)
    // [w.r...]
    {
        let buf = rbuf.writable();
        assert_eq!(buf.len(), 3); // until end
        buf[0..3].copy_from_slice(&[7, 7, 7]);
        rbuf.has_written(3);
    }
    assert_eq!(rbuf.wpos(), 0);
    assert_eq!(rbuf.mem(), &[8, 8, 7, 7, 7]);
    assert_eq!(rbuf.unread(), 3);
}

#[test]
fn test_ring_buffer_newlines() {
    let mut mem = [0_u8; 16];
    mem.copy_from_slice("aaa\n\nbbb\nccc\nddd".as_bytes());
    let mut rbuf = RingBuffer::new(&mut mem);
    rbuf.has_written(10); // in the middle of ccc

    // >>> Read: aaa
    let mut linebuf = [0_u8; 16];
    let line = rbuf.read_line(&mut linebuf);
    assert_eq!(line.unwrap(), &[97, 97, 97]); // aaa

    // >>> Read: ""
    let line = rbuf.read_line(&mut linebuf);
    println!("line: {:?}", line);
    assert_eq!(line.unwrap(), &[]); // ''

    // >>> Read: bbb
    let line = rbuf.read_line(&mut linebuf);
    assert_eq!(line.unwrap(), &[98, 98, 98]); // bbb

    // >>> Read: ccc -- can't; it's incomplete
    let line = rbuf.read_line(&mut linebuf);
    assert_eq!(line, None);

    // >>> Write more. Wrap around.
    rbuf.has_written(5);
    rbuf.has_written(7);

    // >>> Read: ccc -- yes
    let line = rbuf.read_line(&mut linebuf);
    assert_eq!(line.unwrap(), &[99, 99, 99]); // ccc

    // >>> Read: ddd + aaa
    let line = rbuf.read_line(&mut linebuf);
    assert_eq!(line.unwrap(), &[100, 100, 100, 97, 97, 97]); // ddd + aaa
}

// What is written comes back in order, after what was unread, across the wrap.
#[test]
fn written_bytes_are_read_back_in_order() {
    let mut mem = [0_u8; 4];
    let mut rbuf = RingBuffer::new(&mut mem);
    {
        let buf = rbuf.writable();
        buf[0..3].copy_from_slice(&[1, 2, 3]);
        rbuf.has_written(3);
    }
    rbuf.has_read(2);
    {
        let buf = rbuf.writable();
        assert_eq!(buf.len(), 1);
        buf[0] = 4;
        rbuf.has_written(1);
    }
    {
        let buf = rbuf.writable();
        assert_eq!(buf.len(), 2);
        buf[0..2].copy_from_slice(&[5, 6]);
        rbuf.has_written(2);
    }
    assert_eq!(rbuf.unread(), 4);
    assert!(rbuf.is_overrun());
    assert_eq!(rbuf.readable(), &[3, 4]);
    rbuf.has_read(2);
    assert_eq!(rbuf.readable(), &[5, 6]);
    rbuf.has_read(2);
    assert_eq!(rbuf.readable().len(), 0);
    assert!(!rbuf.is_overrun());
}

// A full ring is overrun by the next writable(): its unread bytes are dropped.
#[test]
fn overrun_drops_unread_bytes() {
    let mut mem = [0_u8; 3];
    let mut rbuf = RingBuffer::new(&mut mem);
    assert!(!rbuf.is_overrun());
    {
        let buf = rbuf.writable();
        buf.copy_from_slice(&[1, 2, 3]);
        rbuf.has_written(3);
    }
    assert!(rbuf.is_overrun());
    assert_eq!(rbuf.unread(), 3);
    {
        let buf = rbuf.writable();
        assert_eq!(buf.len(), 3);
    }
    assert_eq!(rbuf.unread(), 0);
    assert!(!rbuf.is_overrun());
    assert_eq!(rbuf.readable().len(), 0);
}

#[test]
fn reset_starts_over() {
    let mut mem = [0_u8; 4];
    let mut rbuf = RingBuffer::new(&mut mem);
    rbuf.has_written(3);
    rbuf.has_read(1);
    rbuf.reset();
    assert_eq!(rbuf.wpos(), 0);
    assert_eq!(rbuf.rpos(), 0);
    assert_eq!(rbuf.unread(), 0);
    assert_eq!(rbuf.readable().len(), 0);
    assert_eq!(rbuf.writable().len(), 4);
}

#[test]
fn copy_line_leaves_the_line_unread() {
    let mut mem = [0_u8; 8];
    mem.copy_from_slice(b"ab\ncd\nxy");
    let mut rbuf = RingBuffer::new(&mut mem);
    rbuf.has_written(8);
    let mut line = [9_u8; 4];
    assert_eq!(rbuf.copy_line_into_slice(&mut line), Some(2));
    assert_eq!(line, [b'a', b'b', 9, 9]);
    assert_eq!(rbuf.unread(), 8);
    assert_eq!(rbuf.rpos(), 0);
    rbuf.has_read(3);
    assert_eq!(rbuf.copy_line_into_slice(&mut line), Some(2));
    assert_eq!(line, [b'c', b'd', 9, 9]);
    rbuf.has_read(3);
    assert_eq!(rbuf.copy_line_into_slice(&mut line), None);
    assert_eq!(line, [b'c', b'd', 9, 9]);
}

#[test]
fn read_line_on_an_empty_ring() {
    let mut mem = [0_u8; 4];
    let mut rbuf = RingBuffer::new(&mut mem);
    let mut line = [0_u8; 4];
    assert_eq!(rbuf.read_line(&mut line), None);
    assert_eq!(rbuf.unread(), 0);
}

#[test]
fn read_line_across_the_end_of_the_memory() {
    let mut mem = [0_u8; 5];
    let mut rbuf = RingBuffer::new(&mut mem);
    {
        let buf = rbuf.writable();
        buf.copy_from_slice(b"zzabc");
        rbuf.has_written(5);
    }
    rbuf.has_read(2);
    {
        let buf = rbuf.writable();
        assert_eq!(buf.len(), 2);
        buf.copy_from_slice(b"d\n");
        rbuf.has_written(2);
    }
    let mut line = [0_u8; 8];
    assert_eq!(rbuf.read_line(&mut line), Some(&b"abcd"[..]));
    assert_eq!(rbuf.unread(), 0);
    assert_eq!(rbuf.rpos(), 2);
    assert_eq!(rbuf.wpos(), 2);
}

#[test]
fn empty_memory_has_nothing_to_read_or_write() {
    let mut mem: [u8; 0] = [];
    let mut rbuf = RingBuffer::new(&mut mem);
    assert_eq!(rbuf.readable().len(), 0);
    assert!(!rbuf.is_overrun());
    assert_eq!(rbuf.writable().len(), 0);
    let mut line = [0_u8; 2];
    assert_eq!(rbuf.read_line(&mut line), None);
}

#[test]
fn line_iterator_from_start_and_with_hint_agree() {
    let buffer = b"abc\nde\n";
    let mut a = LineIterator::new(buffer, 0);
    let mut b = LineIterator::new(buffer, 2);
    assert_eq!(a.next(), Some(0..3));
    assert_eq!(b.next(), Some(0..3));
    assert_eq!(a.next(), Some(4..6));
    assert_eq!(b.next(), Some(4..6));
    assert_eq!(a.next(), None);
    assert_eq!(b.next(), None);
    assert_eq!(a.next(), None);
}

#[test]
fn line_iterator_without_newline() {
    let buffer = b"no newline";
    let mut iter = LineIterator::new(buffer, 0);
    assert_eq!(iter.next(), None);
    assert_eq!(iter.next(), None);
}

#[test]
fn carriage_return_is_trimmed() {
    assert_eq!(trim_carriage_return(b"abc\r"), b"abc");
    assert_eq!(trim_carriage_return(b"abc"), b"abc");
    assert_eq!(trim_carriage_return(b"\r"), b"");
    assert_eq!(trim_carriage_return(b""), b"");
    assert_eq!(trim_carriage_return(b"a\rb"), b"a\rb");
}

#[test]
fn nonempty_lines_skip_empty_ones() {
    let mut mem = [0_u8; 16];
    mem[..11].copy_from_slice(b"ab\r\ncd\n\nef\n");
    let mut rbuf = RingBuffer::new(&mut mem);
    rbuf.has_written(11);
    let mut line = [0_u8; 16];
    assert_eq!(rbuf.read_nonempty_line(&mut line), Some(&b"ab"[..]));
    assert_eq!(rbuf.read_nonempty_line(&mut line), Some(&b"cd"[..]));
    // The empty line is read and skipped
    assert_eq!(rbuf.read_nonempty_line(&mut line), Some(&b"ef"[..]));
    assert_eq!(rbuf.unread(), 0);
    // Nothing left: the ring stays as it is
    assert_eq!(rbuf.read_nonempty_line(&mut line), None);
    assert_eq!(rbuf.unread(), 0);
}

#[test]
fn empty_lines_before_an_incomplete_one_are_read() {
    let mut mem = [0_u8; 8];
    let mut rbuf = RingBuffer::new(&mut mem);
    {
        let buf = rbuf.writable();
        buf[..5].copy_from_slice(b"\n\nab\n");
        rbuf.has_written(4);
    }
    let mut line = [0_u8; 8];
    assert_eq!(rbuf.read_nonempty_line(&mut line), None);
    assert_eq!(rbuf.unread(), 2);
    assert_eq!(rbuf.readable(), b"ab");
    rbuf.has_written(1);
    assert_eq!(rbuf.read_nonempty_line(&mut line), Some(&b"ab"[..]));
}

#[test]
fn copy_line_twice_gives_the_same_line() {
    let mut mem = [0_u8; 6];
    mem.copy_from_slice(b"xy\nzz\n");
    let mut rbuf = RingBuffer::new(&mut mem);
    rbuf.has_written(6);
    let mut first = [0_u8; 4];
    let mut second = [7_u8; 4];
    let r1 = rbuf.copy_line_into_slice(&mut first);
    let r2 = rbuf.copy_line_into_slice(&mut second);
    assert_eq!(r1, Some(2));
    assert_eq!(r1, r2);
    assert_eq!(first[..2], second[..2]);
}

#[test]
fn line_iterator_yields_every_terminated_line() {
    let buffer = b"\nab\n\ncde\nrest";
    let mut iter = LineIterator::new(buffer, 0);
    let mut lines = Vec::new();
    while let Some(r) = iter.next() {
        lines.push(r);
    }
    assert_eq!(lines, vec![0..0, 1..3, 4..4, 5..8]);
}
