//! Line buffers and friends for reading lines from serial.
//!
//! `RingBuffer` is a byte ring over borrowed memory: a writer fills the part that
//! `writable` hands out and reports how much it wrote with `has_written`; a reader
//! takes what `readable` shows, or whole lines with `read_line`, and reports what it
//! consumed with `has_read`. A slow reader can be overrun by the writer.
//!
//! `LineIterator` walks a plain byte buffer and yields the ranges of its
//! newline-terminated lines.

use vstd::prelude::*;

use crate::arith::lemma_mod_shift;
use crate::arith::lemma_wrap;
use core::ops::Range;

verus! {

/// The byte that ends a line.
pub const NEWLINE: u8 = 10u8;

/// The byte that a line may carry before its newline, from a terminal.
pub const CARRIAGE_RETURN: u8 = 13u8;

/// `s` without the carriage return that ends it, if it ends with one.
pub open spec fn without_carriage_return(s: Seq<u8>) -> Seq<u8> {
    if s.len() > 0 && s.last() == CARRIAGE_RETURN {
        s.drop_last()
    } else {
        s
    }
}

/// `k` is the index of the first newline in `s`.
pub open spec fn is_first_newline(s: Seq<u8>, k: int) -> bool {
    &&& 0 <= k < s.len()
    &&& s[k] == NEWLINE
    &&& forall|j: int| 0 <= j < k ==> s[j] != NEWLINE
}

/// `s` holds a newline somewhere.
pub open spec fn has_newline(s: Seq<u8>) -> bool {
    exists|j: int| 0 <= j < s.len() && s[j] == NEWLINE
}

/// The first newline of `s` is its first byte 10, and `s` holds a newline
/// exactly when it holds a byte 10.
pub proof fn lemma_newline_is_byte_10(s: Seq<u8>, k: int)
    ensures
        is_first_newline(s, k) <==> (0 <= k < s.len() && s[k] == 10u8 && forall|j: int|
            0 <= j < k ==> s[j] != 10u8),
        has_newline(s) <==> exists|j: int| 0 <= j < s.len() && s[j] == 10u8,
{
}

/// The abstract state of a `RingBuffer`: the memory it manages, the write and
/// read positions in it, and how many bytes are written but not yet read.
#[verifier::ext_equal]
pub struct RingBufferView {
    pub mem: Seq<u8>,
    pub wpos: nat,
    pub rpos: nat,
    pub unread: nat,
}

impl RingBufferView {
    /// The number of bytes the ring can hold.
    pub open spec fn capacity(self) -> nat {
        self.mem.len()
    }

    /// The memory's length fits a `usize`; the positions are inside the memory, at
    /// most `capacity` bytes are unread, and the unread bytes run from the read
    /// position up to the write position, wrapping around the end of the memory.
    pub open spec fn wf(self) -> bool {
        &&& self.capacity() <= usize::MAX
        &&& if self.capacity() == 0 {
            self.rpos == 0 && self.wpos == 0 && self.unread == 0
        } else {
            &&& self.rpos < self.capacity()
            &&& self.wpos < self.capacity()
            &&& self.unread <= self.capacity()
            &&& self.wpos == (self.rpos + self.unread) % self.capacity()
        }
    }

    /// The bytes `p, p + 1, ..., p + n - 1` of the memory, each position taken
    /// modulo the capacity.
    pub open spec fn ring_segment(self, p: nat, n: nat) -> Seq<u8> {
        Seq::new(n, |i: int| self.mem[(p + i) % (self.capacity() as int)])
    }

    /// The bytes written and not yet read, oldest first.
    pub open spec fn pending(self) -> Seq<u8> {
        self.ring_segment(self.rpos, self.unread)
    }

    /// The writer has caught up with the reader: every byte of the ring is unread,
    /// and the next write overruns the reader.
    pub open spec fn is_full(self) -> bool {
        self.rpos == self.wpos && self.unread != 0
    }

    /// The end (exclusive) of the region that `writable` hands out; it starts at
    /// the write position.
    pub open spec fn write_end(self) -> nat {
        if self.rpos <= self.wpos {
            self.capacity()
        } else {
            self.rpos
        }
    }

    /// The length of the region that `writable` hands out.
    pub open spec fn writable_len(self) -> nat {
        (self.write_end() - self.wpos) as nat
    }

    /// The length of the region that `readable` shows: the unread bytes up to the
    /// end of the memory.
    pub open spec fn readable_len(self) -> nat {
        if self.unread <= self.capacity() - self.rpos {
            self.unread
        } else {
            (self.capacity() - self.rpos) as nat
        }
    }

    /// The first complete unread line, if there is one, is at most `n` bytes long
    /// without its newline.
    pub open spec fn first_line_fits(self, n: nat) -> bool {
        forall|k: int| is_first_newline(self.pending(), k) ==> k <= n
    }

    /// The first complete unread line after the empty lines that come first, if
    /// there is one, is at most `n` bytes long without its newline.
    pub open spec fn first_nonempty_line_fits(self, n: nat) -> bool {
        forall|k: int|
            is_first_newline(self.pending().skip(leading_newlines(self.pending()) as int), k) ==> k
                <= n
    }

    /// The state after `writable`: an overrun drops every unread byte.
    pub open spec fn opened_for_write(self) -> Self {
        RingBufferView { unread: if self.is_full() { 0 } else { self.unread }, ..self }
    }

    /// The memory with the writable region replaced by `window`.
    pub open spec fn with_window(self, window: Seq<u8>) -> Self {
        RingBufferView {
            mem: self.mem.subrange(0, self.wpos as int) + window + self.mem.subrange(
                self.write_end() as int,
                self.capacity() as int,
            ),
            ..self
        }
    }

    /// The state after `has_written(n)`.
    pub open spec fn committed(self, n: nat) -> Self {
        RingBufferView {
            wpos: (self.wpos + n) % self.capacity(),
            unread: self.unread + n,
            ..self
        }
    }

    /// The state after `has_read(n)`.
    pub open spec fn consumed(self, n: nat) -> Self {
        RingBufferView {
            rpos: (self.rpos + n) % self.capacity(),
            unread: (self.unread - n) as nat,
            ..self
        }
    }

    /// The empty ring over the same memory.
    pub open spec fn emptied(self) -> Self {
        RingBufferView { wpos: 0, rpos: 0, unread: 0, ..self }
    }
}

/// The `i`-th unread byte sits at `rpos + i`, or at `rpos + i - capacity` once
/// that passes the end of the memory.
pub proof fn lemma_pending_index(v: RingBufferView, i: int)
    requires
        v.wf(),
        0 <= i < v.unread,
    ensures
        v.pending()[i] == v.mem[if v.rpos + i < v.capacity() {
            v.rpos + i
        } else {
            v.rpos + i - v.capacity()
        }],
{
    lemma_wrap(v.rpos + i, v.capacity() as int);
}

/// Where the write position stands relative to the read position.
pub proof fn lemma_wpos(v: RingBufferView)
    requires
        v.wf(),
        v.capacity() > 0,
    ensures
        v.wpos == if v.rpos + v.unread < v.capacity() {
            (v.rpos + v.unread) as int
        } else {
            v.rpos + v.unread - v.capacity()
        },
        v.unread == 0 ==> v.wpos == v.rpos,
        v.rpos < v.wpos ==> v.unread == v.wpos - v.rpos,
        v.wpos <= v.rpos && v.unread > 0 ==> v.unread == v.capacity() - v.rpos + v.wpos,
{
    lemma_wrap((v.rpos + v.unread) as int, v.capacity() as int);
}

/// Reporting `n` written bytes appends the `n` bytes that follow the write
/// position to the unread bytes.
pub proof fn lemma_committed(v: RingBufferView, n: nat)
    requires
        v.wf(),
        v.capacity() > 0,
        v.unread + n <= v.capacity(),
    ensures
        v.committed(n).wf(),
        v.committed(n).pending() == v.pending() + v.ring_segment(v.wpos, n),
{
    let c = v.capacity() as int;
    let w = v.committed(n);
    lemma_wpos(v);
    lemma_mod_shift((v.rpos + v.unread) as int, n as int, c);
    vstd::arithmetic::div_mod::lemma_mod_bound((v.wpos + n) as int, c);
    assert(w.pending() =~= v.pending() + v.ring_segment(v.wpos, n)) by {
        assert forall|i: int| 0 <= i < w.unread implies w.pending()[i] == (v.pending()
            + v.ring_segment(v.wpos, n))[i] by {
            if i >= v.unread {
                lemma_mod_shift((v.rpos + v.unread) as int, i - v.unread, c);
            }
        }
    }
}

/// Reporting `n` read bytes drops the first `n` unread bytes.
pub proof fn lemma_consumed(v: RingBufferView, n: nat)
    requires
        v.wf(),
        v.capacity() > 0,
        n <= v.unread,
    ensures
        v.consumed(n).wf(),
        v.consumed(n).pending() == v.pending().skip(n as int),
{
    let c = v.capacity() as int;
    let r = v.consumed(n);
    lemma_mod_shift((v.rpos + n) as int, (v.unread - n) as int, c);
    vstd::arithmetic::div_mod::lemma_mod_bound((v.rpos + n) as int, c);
    assert(r.pending() =~= v.pending().skip(n as int)) by {
        assert forall|i: int| 0 <= i < r.unread implies r.pending()[i] == v.pending().skip(
            n as int,
        )[i] by {
            lemma_mod_shift((v.rpos + n) as int, i, c);
        }
    }
}

/// What `writable` does to the counters keeps the ring well formed, leaves room
/// for the whole writable region, and keeps the unread bytes unless the ring was
/// full, in which case they are dropped.
pub proof fn lemma_opened_for_write(v: RingBufferView)
    requires
        v.wf(),
    ensures
        v.opened_for_write().wf(),
        !v.opened_for_write().is_full(),
        v.opened_for_write().writable_len() == v.writable_len(),
        v.opened_for_write().unread + v.writable_len() <= v.capacity(),
        v.opened_for_write().pending() == if v.is_full() {
            Seq::<u8>::empty()
        } else {
            v.pending()
        },
{
    let o = v.opened_for_write();
    if v.capacity() > 0 {
        lemma_wpos(v);
        lemma_wrap(v.rpos as int, v.capacity() as int);
        lemma_wpos(o);
    }
    assert(o.pending() =~= if v.is_full() {
        Seq::<u8>::empty()
    } else {
        v.pending()
    });
}

/// Whatever is written into the writable region leaves the unread bytes as they
/// were, as long as the ring is not full.
pub proof fn lemma_window_keeps_pending(v: RingBufferView, window: Seq<u8>)
    requires
        v.wf(),
        !v.is_full(),
        window.len() == v.writable_len(),
    ensures
        v.with_window(window).wf(),
        v.with_window(window).pending() == v.pending(),
{
    let m = v.with_window(window);
    if v.capacity() > 0 {
        lemma_wpos(v);
        assert(m.mem.len() == v.mem.len());
        assert forall|i: int| 0 <= i < v.unread implies m.pending()[i] == v.pending()[i] by {
            lemma_pending_index(v, i);
            lemma_pending_index(m, i);
        }
    }
    assert(m.pending() =~= v.pending());
}

/// Bytes placed at the start of the writable region and then reported with
/// `has_written` are read back after the bytes that were unread before, in the
/// order they were written; where the writer overran the reader, they are all that
/// is unread.
pub proof fn lemma_written_bytes_are_read_back(v: RingBufferView, window: Seq<u8>, n: nat)
    requires
        v.wf(),
        v.capacity() > 0,
        window.len() == v.writable_len(),
        n <= window.len(),
    ensures
        ({
            let o = v.opened_for_write();
            let w = o.with_window(window).committed(n);
            &&& w.wf()
            &&& w.pending() == o.pending() + window.take(n as int)
            &&& o.pending() == if v.is_full() {
                Seq::<u8>::empty()
            } else {
                v.pending()
            }
        }),
{
    let o = v.opened_for_write();
    lemma_opened_for_write(v);
    lemma_window_keeps_pending(o, window);
    let m = o.with_window(window);
    lemma_committed(m, n);
    let c = v.capacity() as int;
    assert forall|j: int| 0 <= j < n implies m.ring_segment(m.wpos, n)[j] == window[j] by {
        lemma_wrap(m.wpos + j, c);
    }
    assert(m.ring_segment(m.wpos, n) =~= window.take(n as int));
}

/// What `copy_line_into_slice` returns, and leaves in a line buffer that held
/// `before`, over a ring in state `v`: None, leaving the buffer alone, where no
/// newline is unread; else the length `n` of the first unread line, whose bytes
/// now start the buffer.
pub open spec fn copies_first_line(
    v: RingBufferView,
    before: Seq<u8>,
    r: Option<usize>,
    after: Seq<u8>,
) -> bool {
    match r {
        None => {
            &&& !has_newline(v.pending())
            &&& after == before
        },
        Some(n) => {
            &&& is_first_newline(v.pending(), n as int)
            &&& after == v.pending().take(n as int) + before.skip(n as int)
        },
    }
}

/// A sequence has at most one first newline.
pub proof fn lemma_first_newline_unique(s: Seq<u8>, k1: int, k2: int)
    requires
        is_first_newline(s, k1),
        is_first_newline(s, k2),
    ensures
        k1 == k2,
{
}

/// `copy_line_into_slice` leaves the ring as it was, so a second call before any
/// `has_read` finds the same line: the same length, and the same bytes at the
/// start of the buffer, whatever the buffer held before.
pub proof fn lemma_copy_line_repeats(
    v: RingBufferView,
    before1: Seq<u8>,
    r1: Option<usize>,
    after1: Seq<u8>,
    before2: Seq<u8>,
    r2: Option<usize>,
    after2: Seq<u8>,
)
    requires
        copies_first_line(v, before1, r1, after1),
        copies_first_line(v, before2, r2, after2),
    ensures
        r1 == r2,
        r1 matches Some(n) ==> after1.take(n as int) == after2.take(n as int),
{
    if let Some(n1) = r1 {
        if let Some(n2) = r2 {
            lemma_first_newline_unique(v.pending(), n1 as int, n2 as int);
            assert(after1.take(n1 as int) =~= after2.take(n1 as int));
        } else {
            assert(v.pending()[n1 as int] == NEWLINE);
        }
    } else if let Some(n2) = r2 {
        assert(v.pending()[n2 as int] == NEWLINE);
    }
}

/// The number of newlines that `s` starts with.
pub open spec fn leading_newlines(s: Seq<u8>) -> nat
    decreases s.len(),
{
    if s.len() > 0 && s[0] == NEWLINE {
        1 + leading_newlines(s.drop_first())
    } else {
        0
    }
}

/// `s` starts with `leading_newlines(s)` newlines and no more.
pub proof fn lemma_leading_newlines(s: Seq<u8>)
    ensures
        leading_newlines(s) <= s.len(),
        forall|j: int| 0 <= j < leading_newlines(s) ==> s[j] == NEWLINE,
        leading_newlines(s) < s.len() ==> s[leading_newlines(s) as int] != NEWLINE,
    decreases s.len(),
{
    if s.len() > 0 && s[0] == NEWLINE {
        let t = s.drop_first();
        lemma_leading_newlines(t);
        assert forall|j: int| 0 <= j < leading_newlines(s) implies s[j] == NEWLINE by {
            if j > 0 {
                assert(s[j] == t[j - 1]);
            }
        }
        if leading_newlines(s) < s.len() {
            assert(s[leading_newlines(s) as int] == t[leading_newlines(t) as int]);
        }
    }
}

/// Reading `a` bytes and then `b` more is reading `a + b` bytes.
pub proof fn lemma_consumed_twice(v: RingBufferView, a: nat, b: nat)
    requires
        v.wf(),
        v.capacity() > 0,
        a + b <= v.unread,
    ensures
        v.consumed(a).consumed(b) == v.consumed(a + b),
{
    lemma_mod_shift((v.rpos + a) as int, b as int, v.capacity() as int);
}

/// Trimming keeps every byte of `s` but a final carriage return (byte 13): the
/// result is the start of `s`, at most one byte shorter, and shorter exactly when
/// `s` ends with byte 13.
pub proof fn lemma_only_a_final_carriage_return_is_dropped(s: Seq<u8>)
    ensures
        without_carriage_return(s) == s.take(without_carriage_return(s).len() as int),
        without_carriage_return(s).len() <= s.len() <= without_carriage_return(s).len() + 1,
        without_carriage_return(s).len() < s.len() <==> (s.len() > 0 && s[s.len() - 1] == 13u8),
{
    assert(without_carriage_return(s) =~= s.take(without_carriage_return(s).len() as int));
}

/// `writable` hands out every free byte from the write position on: as many
/// bytes as are free (the capacity less what stays unread) or as remain before
/// the end of the memory, whichever is fewer.
pub proof fn lemma_writable_takes_all_free_space(v: RingBufferView)
    requires
        v.wf(),
    ensures
        ({
            let free = v.capacity() - v.opened_for_write().unread;
            let to_end = v.capacity() - v.wpos;
            v.writable_len() == if free <= to_end {
                free
            } else {
                to_end
            }
        }),
        v.wpos + v.writable_len() <= v.capacity(),
{
    if v.capacity() > 0 {
        lemma_wpos(v);
    }
}

/// `readable` shows every unread byte that lies in one piece from the read
/// position: all of them, or those up to the end of the memory, whichever are
/// fewer; and it shows them as they lie in the memory.
pub proof fn lemma_readable_takes_all_contiguous(v: RingBufferView)
    requires
        v.wf(),
    ensures
        v.readable_len() == if v.rpos + v.unread <= v.capacity() {
            v.unread as int
        } else {
            v.capacity() - v.rpos
        },
        v.pending().take(v.readable_len() as int) == v.mem.subrange(
            v.rpos as int,
            (v.rpos + v.readable_len()) as int,
        ),
{
    assert forall|i: int| 0 <= i < v.readable_len() implies v.pending()[i] == v.mem[v.rpos + i] by {
        lemma_pending_index(v, i);
    }
    assert(v.pending().take(v.readable_len() as int) =~= v.mem.subrange(
        v.rpos as int,
        (v.rpos + v.readable_len()) as int,
    ));
}

/// After `reset` the ring is empty and starts over at the start of the memory,
/// whatever its state before, so the next `writable` hands out the whole memory.
pub proof fn lemma_reset_starts_over(v: RingBufferView)
    requires
        v.capacity() <= usize::MAX,
    ensures
        v.emptied().mem == v.mem,
        v.emptied().rpos == 0,
        v.emptied().wpos == 0,
        v.emptied().unread == 0,
        v.emptied().wf(),
        v.emptied().writable_len() == v.capacity(),
        v.emptied().pending().len() == 0,
{
    if v.capacity() > 0 {
        lemma_wrap(0, v.capacity() as int);
    }
}

/// A ring buffer over borrowed memory.
///
/// The reader may lag behind the writer; a reader that is too slow is overrun.
pub struct RingBuffer<'a> {
    // The memory the ring manages.
    mem: &'a mut [u8],
    // Where the next byte is written.
    wpos: usize,
    // Where the next byte is read.
    rpos: usize,
    // How many bytes are written and not yet read. This tells the two meanings of
    // `rpos == wpos` apart: nothing to read, or the writer caught up with the reader.
    unread: usize,
}

impl<'a> View for RingBuffer<'a> {
    type V = RingBufferView;

    closed spec fn view(&self) -> RingBufferView {
        RingBufferView {
            mem: self.mem@,
            wpos: self.wpos as nat,
            rpos: self.rpos as nat,
            unread: self.unread as nat,
        }
    }
}

impl<'a> RingBuffer<'a> {
    /// An empty ring over `mem`.
    pub fn new(mem: &'a mut [u8]) -> (r: Self)
        ensures
            r@ == (RingBufferView { mem: old(mem)@, wpos: 0, rpos: 0, unread: 0 }),
            r@.wf(),
    {
        proof {
            assert(mem@.len() == mem.len());
            if mem@.len() > 0 {
                lemma_wrap(0, mem@.len() as int);
            }
        }
        RingBuffer { mem, rpos: 0, wpos: 0, unread: 0 }
    }

    /// Forgets every unread byte and starts over at the start of the memory.
    pub fn reset(&mut self)
        ensures
            final(self)@ == old(self)@.emptied(),
            final(self)@.mem == old(self)@.mem,
            final(self)@.rpos == 0,
            final(self)@.wpos == 0,
            final(self)@.unread == 0,
            final(self)@.wf(),
            final(self)@.pending().len() == 0,
    {
        proof {
            assert(self.mem@.len() == self.mem.len());
            if self.mem@.len() > 0 {
                lemma_wrap(0, self.mem@.len() as int);
            }
        }
        self.rpos = 0;
        self.wpos = 0;
        self.unread = 0;
    }

    /// Whether the writer has caught up with the reader, so that the next write
    /// overruns it. Check this before writing.
    pub fn is_overrun(&self) -> (b: bool)
        ensures
            b == self@.is_full(),
            self@.wf() ==> (b <==> (self@.capacity() > 0 && self@.pending().len()
                == self@.capacity())),
    {
        proof {
            if self@.wf() && self@.capacity() > 0 {
                lemma_wpos(self@);
            }
        }
        self.rpos == self.wpos && self.unread != 0
    }

    /// The part of the memory that can be written next: from the write position
    /// up to the end of the memory, or up to the read position where that lies
    /// ahead. Where the writer has caught up with the reader, every unread byte is
    /// dropped first (an overrun).
    pub fn writable(&mut self) -> (w: &mut [u8])
        requires
            old(self)@.wf(),
        ensures
            w@ == old(self)@.mem.subrange(old(self)@.wpos as int, old(self)@.write_end() as int),
            w@.len() == old(self)@.writable_len(),
            old(self)@.rpos <= old(self)@.wpos ==> w@.len() == old(self)@.capacity()
                - old(self)@.wpos,
            old(self)@.rpos > old(self)@.wpos ==> w@.len() == old(self)@.rpos - old(self)@.wpos,
            final(self)@ == old(self)@.opened_for_write().with_window(final(w)@),
            old(self)@.opened_for_write().wf(),
            old(self)@.opened_for_write().unread + w@.len() <= old(self)@.capacity(),
            old(self)@.opened_for_write().pending() == if old(self)@.is_full() {
                Seq::<u8>::empty()
            } else {
                old(self)@.pending()
            },
    {
        proof {
            lemma_opened_for_write(self@);
            if self@.capacity() > 0 {
                lemma_wpos(self@);
            }
        }
        if self.rpos == self.wpos && self.unread != 0 {
            // Overrun: the unread bytes are lost.
            self.unread = 0;
        }
        let wpos = self.wpos;
        let rpos = self.rpos;
        if rpos <= wpos {
            let (_head, tail) = self.mem.split_at_mut(wpos);
            tail
        } else {
            let (_head, tail) = self.mem.split_at_mut(wpos);
            let (window, _rest) = tail.split_at_mut(rpos - wpos);
            window
        }
    }

    /// Reports that `n` bytes were written at the write position: they become
    /// unread, after those already unread.
    pub fn has_written(&mut self, n: usize)
        requires
            old(self)@.wf(),
            old(self)@.capacity() > 0,
            old(self)@.unread + n <= old(self)@.capacity(),
        ensures
            final(self)@ == old(self)@.committed(n as nat),
            final(self)@.wf(),
            final(self)@.pending() == old(self)@.pending() + old(self)@.ring_segment(
                old(self)@.wpos,
                n as nat,
            ),
    {
        proof {
            lemma_committed(self@, n as nat);
            lemma_wrap(self.wpos + n, self.mem@.len() as int);
        }
        let len = self.mem.len();
        // (wpos + n) % len, where wpos < len and n <= len
        if n >= len - self.wpos {
            self.wpos = n - (len - self.wpos);
        } else {
            self.wpos = self.wpos + n;
        }
        self.unread = self.unread + n;
    }

    /// Reports that `n` unread bytes were read: they are dropped.
    pub fn has_read(&mut self, n: usize)
        requires
            old(self)@.wf(),
            old(self)@.capacity() > 0,
            n <= old(self)@.unread,
        ensures
            final(self)@ == old(self)@.consumed(n as nat),
            final(self)@.wf(),
            final(self)@.pending() == old(self)@.pending().skip(n as int),
    {
        proof {
            lemma_consumed(self@, n as nat);
            lemma_wrap(self.rpos + n, self.mem@.len() as int);
        }
        let len = self.mem.len();
        // (rpos + n) % len, where rpos < len and n <= len
        if n >= len - self.rpos {
            self.rpos = n - (len - self.rpos);
        } else {
            self.rpos = self.rpos + n;
        }
        self.unread = self.unread - n;
    }

    /// The two ranges of the memory that hold the first complete line among the
    /// unread bytes, without its newline: two, because the unread bytes may wrap
    /// around the end of the memory. None where no newline is unread.
    fn find_complete_line_range(&self) -> (r: Option<(Range<usize>, Range<usize>)>)
        requires
            self@.wf(),
        ensures
            match r {
                None => !has_newline(self@.pending()),
                Some((a, b)) => {
                    let n = (a.end - a.start) + (b.end - b.start);
                    &&& a.start == self@.rpos
                    &&& a.start <= a.end <= self@.capacity()
                    &&& b.start == 0
                    &&& b.start <= b.end <= self@.capacity()
                    &&& is_first_newline(self@.pending(), n)
                    &&& a.end == a.start + if n <= self@.capacity() - self@.rpos {
                        n
                    } else {
                        self@.capacity() - self@.rpos
                    }
                    &&& b.end == n - (a.end - a.start)
                    &&& b.end > 0 ==> a.end == self@.capacity()
                    &&& self@.mem.subrange(a.start as int, a.end as int) + self@.mem.subrange(
                        b.start as int,
                        b.end as int,
                    ) == self@.pending().take(n)
                },
            },
    {
        let ghost v = self@;
        if self.unread == 0 {
            proof {
                assert(v.pending().len() == 0);
            }
            return None;
        }
        proof {
            lemma_wpos(v);
        }
        let len = self.mem.len();
        // The unread bytes lie in mem[first_start..first_end] and then in
        // mem[0..second_end].
        let first_start = self.rpos;
        let first_end;
        let second_end;
        if self.rpos < self.wpos {
            first_end = self.wpos;
            second_end = 0;
        } else {
            first_end = len;
            second_end = self.wpos;
        }
        proof {
            assert(first_end - first_start + second_end == v.unread);
            assert forall|j: int| 0 <= j < v.unread implies v.pending()[j] == v.mem[if j < first_end
                - first_start {
                first_start + j
            } else {
                j - (first_end - first_start)
            }] by {
                lemma_pending_index(v, j);
            }
        }
        // Look for the newline in the first range
        let mut i: usize = first_start;
        while i < first_end
            invariant
                v == self@,
                v.wf(),
                first_start == v.rpos,
                first_end - first_start + second_end == v.unread,
                forall|j: int|
                    0 <= j < v.unread ==> v.pending()[j] == v.mem[if j < first_end - first_start {
                        first_start + j
                    } else {
                        j - (first_end - first_start)
                    }],
                first_start <= i <= first_end <= len,
                len == v.capacity(),
                forall|j: int| first_start <= j < i ==> v.mem[j] != NEWLINE,
            decreases first_end - i,
        {
            if self.mem[i] == NEWLINE {
                proof {
                    let k = i - first_start;
                    assert(v.pending()[k] == v.mem[i as int]);
                    assert forall|j: int| 0 <= j < k implies v.pending()[j] != NEWLINE by {
                        assert(v.pending()[j] == v.mem[first_start + j]);
                    }
                    assert(v.mem.subrange(first_start as int, i as int) + v.mem.subrange(0, 0)
                        =~= v.pending().take(k));
                }
                return Some((first_start..i, 0..0));
            }
            i = i + 1;
        }
        // Then in the second
        let mut i: usize = 0;
        while i < second_end
            invariant
                v == self@,
                i <= second_end,
                first_start <= first_end <= len,
                second_end > 0 ==> first_end == len,
                v.wf(),
                first_start == v.rpos,
                first_end - first_start + second_end == v.unread,
                forall|j: int|
                    0 <= j < v.unread ==> v.pending()[j] == v.mem[if j < first_end - first_start {
                        first_start + j
                    } else {
                        j - (first_end - first_start)
                    }],

                second_end <= len,
                len == v.capacity(),
                forall|j: int| first_start <= j < first_end ==> v.mem[j] != NEWLINE,
                forall|j: int| 0 <= j < i ==> v.mem[j] != NEWLINE,
            decreases second_end - i,
        {
            if self.mem[i] == NEWLINE {
                proof {
                    let d = first_end - first_start;
                    let k = d + i;
                    assert(v.pending()[k] == v.mem[i as int]);
                    assert forall|j: int| 0 <= j < k implies v.pending()[j] != NEWLINE by {
                        if j < d {
                            assert(v.pending()[j] == v.mem[first_start + j]);
                        } else {
                            assert(v.pending()[j] == v.mem[j - d]);
                        }
                    }
                    assert(v.mem.subrange(first_start as int, first_end as int) + v.mem.subrange(
                        0,
                        i as int,
                    ) =~= v.pending().take(k));
                }
                return Some((first_start..first_end, 0..i));
            }
            i = i + 1;
        }
        // Nothing found
        proof {
            let d = first_end - first_start;
            assert forall|j: int| 0 <= j < v.unread implies v.pending()[j] != NEWLINE by {
                if j < d {
                    assert(v.pending()[j] == v.mem[first_start + j]);
                } else {
                    assert(v.pending()[j] == v.mem[j - d]);
                }
            }
        }
        None
    }

    /// Copies the first complete unread line, without its newline, to the start
    /// of `line`, and returns its length; None where no complete line is unread.
    /// The line stays unread: report it with `has_read(n + 1)` afterwards.
    pub fn copy_line_into_slice(&mut self, line: &mut [u8]) -> (r: Option<usize>)
        requires
            old(self)@.wf(),
            old(self)@.first_line_fits(old(line)@.len()),
        ensures
            final(self)@ == old(self)@,
            copies_first_line(old(self)@, old(line)@, r, final(line)@),
            final(line)@.len() == old(line)@.len(),
            r is None <==> (forall|j: int|
                0 <= j < old(self)@.pending().len() ==> old(self)@.pending()[j] != 10u8),
            r matches Some(n) ==> {
                &&& n < old(self)@.pending().len()
                &&& old(self)@.pending()[n as int] == 10u8
                &&& forall|j: int| 0 <= j < n ==> old(self)@.pending()[j] != 10u8
                &&& forall|j: int| 0 <= j < n ==> final(line)@[j] == old(self)@.pending()[j]
                &&& forall|j: int| n <= j < old(line)@.len() ==> final(line)@[j] == old(line)@[j]
            },
    {
        let ghost v = self@;
        let ghost line0 = line@;
        let line_len: usize = line.len();
        if let Some((first, second)) = self.find_complete_line_range() {
            let n1 = first.end - first.start;
            let n2 = second.end - second.start;
            let ghost k = n1 + n2;
            let ghost text = v.mem.subrange(first.start as int, first.end as int) + v.mem.subrange(
                second.start as int,
                second.end as int,
            );
            // Copy
            let mut j: usize = 0;
            while j < n1
                invariant
                    v == self@,
                    j <= n1,
                    first.start <= first.end <= v.capacity(),
                    second.start <= second.end <= v.capacity(),
                    n1 + n2 == k,
                    k <= line0.len(),
                    first.start + n1 <= v.capacity(),
                    text == v.mem.subrange(first.start as int, first.end as int) + v.mem.subrange(
                        second.start as int,
                        second.end as int,
                    ),
                    n1 == first.end - first.start,
                    line@.len() == line0.len(),
                    forall|t: int| 0 <= t < j ==> line@[t] == text[t],
                    forall|t: int| j <= t < line0.len() ==> line@[t] == line0[t],
                decreases n1 - j,
            {
                line[j] = self.mem[first.start + j];
                j = j + 1;
            }
            let mut j: usize = 0;
            while j < n2
                invariant
                    v == self@,
                    j <= n2,
                    first.start <= first.end <= v.capacity(),
                    second.start <= second.end <= v.capacity(),
                    n1 + n2 <= line_len,
                    line_len == line0.len(),
                    n1 + n2 == k,
                    k <= line0.len(),
                    second.start + n2 <= v.capacity(),
                    n2 == second.end - second.start,
                    n1 == first.end - first.start,
                    text == v.mem.subrange(first.start as int, first.end as int) + v.mem.subrange(
                        second.start as int,
                        second.end as int,
                    ),
                    line@.len() == line0.len(),
                    forall|t: int| 0 <= t < n1 + j ==> line@[t] == text[t],
                    forall|t: int| n1 + j <= t < line0.len() ==> line@[t] == line0[t],
                decreases n2 - j,
            {
                line[n1 + j] = self.mem[second.start + j];
                j = j + 1;
            }
            proof {
                assert(line@ =~= v.pending().take(k as int) + line0.skip(k as int));
            }
            Some(n1 + n2)
        } else {
            None
        }
    }

    /// Reads the first complete unread line: copies it, without its newline, to
    /// the start of `line`, drops it and its newline from the unread bytes, and
    /// returns the copy. None where no complete line is unread.
    pub fn read_line<'s>(&mut self, line: &'s mut [u8]) -> (r: Option<&'s [u8]>)
        requires
            old(self)@.wf(),
            old(self)@.first_line_fits(old(line)@.len()),
        ensures
            final(self)@.wf(),
            match r {
                None => {
                    &&& !has_newline(old(self)@.pending())
                    &&& final(self)@ == old(self)@
                    &&& final(line)@ == old(line)@
                },
                Some(s) => {
                    &&& is_first_newline(old(self)@.pending(), s@.len() as int)
                    &&& s@ == old(self)@.pending().take(s@.len() as int)
                    &&& final(self)@ == old(self)@.consumed(s@.len() + 1)
                    &&& final(self)@.pending() == old(self)@.pending().skip(s@.len() + 1 as int)
                    &&& final(line)@ == s@ + old(line)@.skip(s@.len() as int)
                },
            },
    {
        if let Some(n) = self.copy_line_into_slice(line) {
            self.has_read(n + 1);
            let copied: &'s [u8] = line;
            Some(vstd::slice::slice_subrange(copied, 0, n))
        } else {
            None
        }
    }

    /// The next line to show, for a reader that reads every complete line: reads
    /// and drops the empty lines that come first, then reads the first complete
    /// line after them and returns it without a carriage return at its end. None
    /// where no complete line follows those empty lines, which are still read.
    pub fn read_nonempty_line<'s>(&mut self, line: &'s mut [u8]) -> (r: Option<&'s [u8]>)
        requires
            old(self)@.wf(),
            old(self)@.first_nonempty_line_fits(old(line)@.len()),
        ensures
            final(self)@.wf(),
            ({
                let p = old(self)@.pending();
                let e = leading_newlines(p);
                let rest = p.skip(e as int);
                match r {
                    None => {
                        &&& !has_newline(rest)
                        &&& e == 0 ==> final(self)@ == old(self)@
                        &&& e > 0 ==> final(self)@ == old(self)@.consumed(e)
                        &&& final(line)@ == old(line)@
                    },
                    Some(s) => exists|k: int|
                        {
                            &&& is_first_newline(rest, k)
                            &&& s@ == without_carriage_return(rest.take(k))
                            &&& final(self)@ == old(self)@.consumed(e + k as nat + 1)
                            &&& final(line)@ == rest.take(k) + old(line)@.skip(k)
                        },
                }
            }),
    {
        let ghost v0 = self@;
        let ghost p0 = v0.pending();
        let ghost e = leading_newlines(p0);
        let ghost line0 = line@;
        proof {
            lemma_leading_newlines(p0);
        }
        let ghost mut i: nat = 0;
        loop
            invariant
                v0 == old(self)@,
                line0 == old(line)@,
                v0.wf(),
                p0 == v0.pending(),
                e == leading_newlines(p0),
                e <= p0.len(),
                forall|j: int| 0 <= j < e ==> p0[j] == NEWLINE,
                e < p0.len() ==> p0[e as int] != NEWLINE,
                v0.first_nonempty_line_fits(line0.len()),
                self@.wf(),
                line@ == line0,
                i <= e,
                self@.pending() == p0.skip(i as int),
                i == 0 ==> self@ == v0,
                i > 0 ==> self@ == v0.consumed(i),
            decreases self@.unread,
        {
            let ghost cur = self@;
            proof {
                assert forall|k: int| is_first_newline(cur.pending(), k) implies k <= line@.len() by {
                    if i < e {
                        assert(cur.pending()[0] == p0[i as int]);
                        lemma_first_newline_unique(cur.pending(), k, 0);
                    } else {
                        assert(cur.pending() =~= p0.skip(e as int));
                    }
                }
            }
            match self.copy_line_into_slice(line) {
                None => {
                    proof {
                        if i < e {
                            assert(cur.pending()[0] == p0[i as int]);
                        }
                        assert(cur.pending() =~= p0.skip(e as int));
                    }
                    return None;
                },
                Some(n) => {
                    proof {
                        assert(cur.pending()[n as int] == NEWLINE);
                        assert(cur.pending()[0] == p0[i as int]);
                        if i > 0 {
                            lemma_consumed_twice(v0, i, (n + 1) as nat);
                        }
                    }
                    if n == 0 {
                        self.has_read(1);
                        proof {
                            if i == e {
                                assert(false);
                            }
                            i = i + 1;
                            assert(self@.pending() =~= p0.skip(i as int));
                        }
                    } else {
                        proof {
                            if i < e {
                                lemma_first_newline_unique(cur.pending(), n as int, 0);
                            }
                            assert(cur.pending() =~= p0.skip(e as int));
                        }
                        self.has_read(n + 1);
                        let copied: &'s [u8] = line;
                        return Some(trim_carriage_return(vstd::slice::slice_subrange(copied, 0, n)));
                    }
                },
            }
        }
    }

    /// The part of the unread bytes that lies in one piece: from the read position
    /// up to the write position, or up to the end of the memory where the unread
    /// bytes wrap around.
    pub fn readable(&self) -> (r: &[u8])
        requires
            self@.wf(),
        ensures
            r@ == self@.pending().take(self@.readable_len() as int),
            r@.len() == if self@.rpos + self@.unread <= self@.capacity() {
                self@.unread as int
            } else {
                self@.capacity() - self@.rpos
            },
            r@ == self@.mem.subrange(self@.rpos as int, (self@.rpos + r@.len()) as int),
            r@.len() == 0 <==> self@.unread == 0,
    {
        proof {
            if self@.capacity() > 0 {
                lemma_wpos(self@);
            }
        }
        let len = self.mem.len();
        let mem: &[u8] = self.mem;
        let r = if self.rpos == self.wpos && self.unread == 0 {
            vstd::slice::slice_subrange(mem, 0, 0)
        } else if self.rpos < self.wpos {
            vstd::slice::slice_subrange(mem, self.rpos, self.wpos)
        } else {
            vstd::slice::slice_subrange(mem, self.rpos, len)
        };
        proof {
            assert forall|i: int| 0 <= i < r@.len() implies r@[i] == self@.pending()[i] by {
                lemma_pending_index(self@, i);
            }
            assert(r@ =~= self@.pending().take(self@.readable_len() as int));
        }
        r
    }

    /// The write position.
    pub fn wpos(&self) -> (r: usize)
        ensures
            r == self@.wpos,
    {
        self.wpos
    }

    /// The read position.
    pub fn rpos(&self) -> (r: usize)
        ensures
            r == self@.rpos,
    {
        self.rpos
    }

    /// How many bytes are written and not yet read.
    pub fn unread(&self) -> (r: usize)
        ensures
            r == self@.unread,
    {
        self.unread
    }

    /// The whole memory the ring manages.
    pub fn mem(&self) -> (r: &[u8])
        ensures
            r@ == self@.mem,
    {
        self.mem
    }
}

/// The abstract state of a `LineIterator`: the buffer, where the search for the
/// next newline starts, and where the next line starts.
#[verifier::ext_equal]
pub struct LineIteratorView {
    pub buf: Seq<u8>,
    pub pos: nat,
    pub line_starts_at: nat,
}

/// Where the search starts does not matter while no newline comes before it: the
/// first newline from there is the first newline of the whole buffer.
pub proof fn lemma_search_start(buf: Seq<u8>, p: nat)
    requires
        p <= buf.len(),
        !has_newline(buf.take(p as int)),
    ensures
        forall|k: int| is_first_newline(buf.skip(p as int), k) <==> is_first_newline(buf, p + k),
        has_newline(buf.skip(p as int)) <==> has_newline(buf),
{
    assert forall|j: int| 0 <= j < p implies buf[j] != NEWLINE by {
        assert(buf.take(p as int)[j] == buf[j]);
    }
    assert forall|k: int| is_first_newline(buf.skip(p as int), k) implies is_first_newline(
        buf,
        p + k,
    ) by {
        assert forall|j: int| 0 <= j < p + k implies buf[j] != NEWLINE by {
            if j >= p {
                assert(buf.skip(p as int)[j - p] == buf[j]);
            }
        }
    }
    assert forall|k: int| is_first_newline(buf, p + k) implies is_first_newline(
        buf.skip(p as int),
        k,
    ) by {
        if k < 0 {
            assert(buf[p + k] != NEWLINE);
        }
        assert forall|j: int| 0 <= j < k implies buf.skip(p as int)[j] != NEWLINE by {
            assert(buf.skip(p as int)[j] == buf[p + j]);
        }
    }
    if has_newline(buf) {
        let j = choose|j: int| 0 <= j < buf.len() && buf[j] == NEWLINE;
        assert(buf.skip(p as int)[j - p] == buf[j]);
    }
    if has_newline(buf.skip(p as int)) {
        let j = choose|j: int| 0 <= j < buf.len() - p && buf.skip(p as int)[j] == NEWLINE;
        assert(buf[p + j] == buf.skip(p as int)[j]);
    }
}

/// The number of newlines among the first `i` bytes of `s`.
pub open spec fn newlines_before(s: Seq<u8>, i: int) -> nat
    decreases i,
{
    if i <= 0 {
        0
    } else {
        newlines_before(s, i - 1) + if s[i - 1] == NEWLINE {
            1nat
        } else {
            0nat
        }
    }
}

/// The number of newlines in `s`.
pub open spec fn newline_count(s: Seq<u8>) -> nat {
    newlines_before(s, s.len() as int)
}

/// A stretch without newlines adds none to the count.
proof fn lemma_no_newlines_between(s: Seq<u8>, a: int, b: int)
    requires
        0 <= a <= b <= s.len(),
        forall|j: int| a <= j < b ==> s[j] != NEWLINE,
    ensures
        newlines_before(s, b) == newlines_before(s, a),
    decreases b - a,
{
    if a < b {
        lemma_no_newlines_between(s, a, b - 1);
    }
}

/// What `next` returns, and the state it leaves, from state `v`: the range from
/// where the line starts to the first newline at or after the search position,
/// with the search and the next line starting just after that newline; or None,
/// with the state unchanged, where no newline follows the search position.
pub open spec fn next_outcome(
    v: LineIteratorView,
    r: Option<Range<usize>>,
    after: LineIteratorView,
) -> bool {
    &&& after.pos <= after.buf.len()
    &&& match r {
        None => {
            &&& !has_newline(v.buf.skip(v.pos as int))
            &&& after == v
        },
        Some(line) => {
            &&& line.start == v.line_starts_at
            &&& is_first_newline(v.buf.skip(v.pos as int), line.end - v.pos)
            &&& after == (LineIteratorView {
                buf: v.buf,
                pos: (line.end + 1) as nat,
                line_starts_at: (line.end + 1) as nat,
            })
        },
    }
}

/// Where the `i`-th range of `results` starts when lines follow one another:
/// at 0 for the first, just after the previous newline for the others.
pub open spec fn line_start(results: Seq<Option<Range<usize>>>, i: int) -> int {
    if i == 0 {
        0
    } else {
        results[i - 1]->0.end + 1
    }
}

/// The calls `views[i] -> views[i + 1]` of `next`, returning `results[i]`, from
/// a fresh iterator over `buf` started at 0, up to and including the first None.
#[verifier::opaque]
pub open spec fn iterates_from_start(
    buf: Seq<u8>,
    views: Seq<LineIteratorView>,
    results: Seq<Option<Range<usize>>>,
) -> bool {
    &&& results.len() > 0
    &&& views.len() == results.len() + 1
    &&& views[0] == (LineIteratorView { buf, pos: 0, line_starts_at: 0 })
    &&& forall|i: int|
        #![trigger results[i]]
        0 <= i < results.len() ==> next_outcome(views[i], results[i], views[i + 1])
    &&& forall|i: int| #![trigger results[i]] 0 <= i < results.len() - 1 ==> results[i] is Some
    &&& results.last() is None
}

/// One call of an iteration from the start: its outcome, and that it returned a
/// line unless it is the last.
proof fn lemma_iteration_step(
    buf: Seq<u8>,
    views: Seq<LineIteratorView>,
    results: Seq<Option<Range<usize>>>,
    i: int,
)
    requires
        iterates_from_start(buf, views, results),
        0 <= i < results.len(),
    ensures
        results.len() > 0,
        views.len() == results.len() + 1,
        views[0] == (LineIteratorView { buf, pos: 0, line_starts_at: 0 }),
        next_outcome(views[i], results[i], views[i + 1]),
        i < results.len() - 1 ==> results[i] is Some,
        results[results.len() - 1] is None,
{
    reveal(iterates_from_start);
}

/// The `k`-th result is a line: it starts where the `k`-th line starts, ends at a
/// newline inside the buffer, and holds no newline.
pub open spec fn yields_line(buf: Seq<u8>, results: Seq<Option<Range<usize>>>, k: int) -> bool {
    let r = results[k]->0;
    &&& results[k] is Some
    &&& r.start == line_start(results, k)
    &&& r.start <= r.end < buf.len()
    &&& buf[r.end as int] == NEWLINE
    &&& forall|j: int| r.start <= j < r.end ==> buf[j] != NEWLINE
}

/// Before the `i`-th call the iterator searches from where the `i`-th line
/// starts, and every earlier result is a line.
proof fn lemma_lines_so_far(
    buf: Seq<u8>,
    views: Seq<LineIteratorView>,
    results: Seq<Option<Range<usize>>>,
    i: int,
)
    requires
        iterates_from_start(buf, views, results),
        0 <= i < results.len(),
    ensures
        views[i].buf == buf,
        views[i].pos == line_start(results, i),
        views[i].line_starts_at == line_start(results, i),
        views[i].pos <= buf.len(),
        forall|k: int| 0 <= k < i ==> #[trigger] yields_line(buf, results, k),
        newlines_before(buf, line_start(results, i)) == i,
    decreases i,
{
    lemma_iteration_step(buf, views, results, i);
    if i > 0 {
        lemma_lines_so_far(buf, views, results, i - 1);
        lemma_iteration_step(buf, views, results, i - 1);
        let v = views[i - 1];
        let r = results[i - 1]->0;
        let rest = v.buf.skip(v.pos as int);
        let k = r.end - v.pos;
        assert(rest[k] == buf[r.end as int]);
        assert forall|j: int| r.start <= j < r.end implies buf[j] != NEWLINE by {
            assert(rest[j - v.pos] == buf[j]);
        }
        assert(yields_line(buf, results, i - 1));
        lemma_no_newlines_between(buf, r.start as int, r.end as int);
    }
}

/// Where the first `i` results are lines, every newline before the start of the
/// `i`-th line ends one of them.
proof fn lemma_newlines_covered(buf: Seq<u8>, results: Seq<Option<Range<usize>>>, i: int)
    requires
        0 <= i <= results.len(),
        forall|k: int| 0 <= k < i ==> #[trigger] yields_line(buf, results, k),
    ensures
        forall|j: int|
            0 <= j < line_start(results, i) && buf[j] == NEWLINE ==> exists|k: int|
                0 <= k < i && #[trigger] results[k]->0.end == j,
    decreases i,
{
    if i > 0 {
        lemma_newlines_covered(buf, results, i - 1);
        assert(yields_line(buf, results, i - 1));
        assert forall|j: int|
            0 <= j < line_start(results, i) && buf[j] == NEWLINE implies exists|k: int|
                0 <= k < i && #[trigger] results[k]->0.end == j by {
            if j >= line_start(results, i - 1) {
                assert(results[i - 1]->0.end == j);
            } else {
                let k = choose|k: int| 0 <= k < i - 1 && #[trigger] results[k]->0.end == j;
                assert(0 <= k < i && results[k]->0.end == j);
            }
        }
    }
}

/// Started at 0 and called until it returns None, `next` yields exactly the
/// newline-terminated lines of the buffer, in order: the first starts at 0, each
/// later one just after the previous newline; each ends at a newline and holds
/// none; every newline ends one of them, so there are as many lines as
/// newlines; the bytes after the last newline are never yielded.
pub proof fn lemma_lines_of_buffer(
    buf: Seq<u8>,
    views: Seq<LineIteratorView>,
    results: Seq<Option<Range<usize>>>,
)
    requires
        iterates_from_start(buf, views, results),
    ensures
        ({
            let m = results.len() - 1;
            &&& forall|k: int| 0 <= k < m ==> #[trigger] yields_line(buf, results, k)
            &&& forall|j: int| line_start(results, m) <= j < buf.len() ==> buf[j] != NEWLINE
            &&& forall|j: int|
                0 <= j < buf.len() && buf[j] == NEWLINE ==> exists|k: int|
                    0 <= k < m && #[trigger] results[k]->0.end == j
            &&& m == newline_count(buf)
        }),
{
    assert(results.len() > 0) by {
        reveal(iterates_from_start);
    }
    let m = results.len() - 1;
    lemma_lines_so_far(buf, views, results, m);
    lemma_iteration_step(buf, views, results, m);
    lemma_newlines_covered(buf, results, m);
    let v = views[m];
    assert forall|j: int| line_start(results, m) <= j < buf.len() implies buf[j] != NEWLINE by {
        assert(v.buf.skip(v.pos as int)[j - v.pos] == buf[j]);
    }
    lemma_no_newlines_between(buf, line_start(results, m), buf.len() as int);
}

/// From any state whose line so far holds no newline (as after `new` with a
/// hint before which the buffer holds no newline, or after any earlier call),
/// `next` yields a range that starts where the line starts, ends at a newline and
/// holds none, and leaves a state of the same kind; it returns None only where no
/// newline follows the start of the line.
pub proof fn lemma_next_yields_a_line(
    v: LineIteratorView,
    r: Option<Range<usize>>,
    after: LineIteratorView,
)
    requires
        v.line_starts_at <= v.pos <= v.buf.len(),
        forall|j: int| v.line_starts_at <= j < v.pos ==> v.buf[j] != 10u8,
        next_outcome(v, r, after),
    ensures
        after.buf == v.buf,
        after.line_starts_at <= after.pos <= after.buf.len(),
        forall|j: int| after.line_starts_at <= j < after.pos ==> after.buf[j] != 10u8,
        match r {
            None => forall|j: int| v.line_starts_at <= j < v.buf.len() ==> v.buf[j] != 10u8,
            Some(line) => {
                &&& line.start == v.line_starts_at
                &&& line.start <= line.end < v.buf.len()
                &&& v.buf[line.end as int] == 10u8
                &&& forall|j: int| line.start <= j < line.end ==> v.buf[j] != 10u8
                &&& after.line_starts_at == line.end + 1
            },
        },
{
    let rest = v.buf.skip(v.pos as int);
    match r {
        None => {
            assert forall|j: int| v.line_starts_at <= j < v.buf.len() implies v.buf[j] != 10u8 by {
                if j >= v.pos {
                    assert(rest[j - v.pos] == v.buf[j]);
                }
            }
        },
        Some(line) => {
            assert(rest[line.end - v.pos] == v.buf[line.end as int]);
            assert forall|j: int| line.start <= j < line.end implies v.buf[j] != 10u8 by {
                if j >= v.pos {
                    assert(rest[j - v.pos] == v.buf[j]);
                }
            }
        },
    }
}

/// A search-start hint `p` before which the buffer holds no newline changes
/// nothing: the first `next` of `new(buf, p)` returns the range from 0 to the
/// first newline of the whole buffer, or None exactly when the buffer holds no
/// newline, as `new(buf, 0)` does.
pub proof fn lemma_hint_finds_the_first_line(
    buf: Seq<u8>,
    p: nat,
    r: Option<Range<usize>>,
    after: LineIteratorView,
)
    requires
        p <= buf.len(),
        forall|j: int| 0 <= j < p ==> buf[j] != 10u8,
        next_outcome(LineIteratorView { buf, pos: p, line_starts_at: 0 }, r, after),
    ensures
        match r {
            None => forall|j: int| 0 <= j < buf.len() ==> buf[j] != 10u8,
            Some(line) => {
                &&& line.start == 0
                &&& line.end < buf.len()
                &&& buf[line.end as int] == 10u8
                &&& forall|j: int| 0 <= j < line.end ==> buf[j] != 10u8
            },
        },
{
    lemma_next_yields_a_line(LineIteratorView { buf, pos: p, line_starts_at: 0 }, r, after);
}

/// Finds the lines (newline-separated) of a buffer, one after the other.
pub struct LineIterator<'a> {
    // The buffer to read from.
    buf: &'a [u8],
    // Where the search for the next newline starts: the current parsing position.
    // Initially 0, unless no newline comes before a certain index: then that index.
    pos: usize,
    // Where the next line starts: initially 0, then just after the last newline.
    line_starts_at: usize,
}

impl<'a> View for LineIterator<'a> {
    type V = LineIteratorView;

    closed spec fn view(&self) -> LineIteratorView {
        LineIteratorView {
            buf: self.buf@,
            pos: self.pos as nat,
            line_starts_at: self.line_starts_at as nat,
        }
    }
}

impl<'a> LineIterator<'a> {
    /// Lines of `buf`, searching for the first newline from `from_pos`: give 0,
    /// or an index before which the buffer is known to hold no newline.
    pub fn new(buf: &'a [u8], from_pos: usize) -> (r: Self)
        ensures
            r@ == (LineIteratorView { buf: buf@, pos: from_pos as nat, line_starts_at: 0 }),
    {
        Self { buf, pos: from_pos, line_starts_at: 0 }
    }

    /// The range of the next line, without its newline: from where the line
    /// starts up to the first newline from the search position. None, leaving the
    /// iterator as it was, where no newline follows.
    pub fn next(&mut self) -> (r: Option<Range<usize>>)
        requires
            old(self)@.pos <= old(self)@.buf.len(),
        ensures
            next_outcome(old(self)@, r, final(self)@),
    {
        let ghost v = self@;
        let len = self.buf.len();
        let mut i: usize = self.pos;
        while i < len
            invariant
                v == self@,
                v == old(self)@,
                len == v.buf.len(),
                v.pos <= i <= len,
                forall|j: int| v.pos <= j < i ==> v.buf[j] != NEWLINE,
            decreases len - i,
        {
            if self.buf[i] == NEWLINE {
                // \n found: we've got a line!
                let line = Range { start: self.line_starts_at, end: i };
                proof {
                    let rest = v.buf.skip(v.pos as int);
                    assert(rest[i - v.pos] == v.buf[i as int]);
                    assert forall|j: int| 0 <= j < i - v.pos implies rest[j] != NEWLINE by {
                        assert(rest[j] == v.buf[v.pos + j]);
                    }
                }
                // Next time, the line starts just after the newline
                self.line_starts_at = i + 1;
                self.pos = i + 1;
                return Some(line);
            }
            i = i + 1;
        }
        proof {
            let rest = v.buf.skip(v.pos as int);
            assert forall|j: int| 0 <= j < rest.len() implies rest[j] != NEWLINE by {
                assert(rest[j] == v.buf[v.pos + j]);
            }
        }
        None
    }
}

/// `line` without the carriage return that ends it, if it ends with one.
pub fn trim_carriage_return(line: &[u8]) -> (r: &[u8])
    ensures
        r@ == without_carriage_return(line@),
        r@ == line@.take(r@.len() as int),
        r@.len() <= line@.len() <= r@.len() + 1,
        r@.len() < line@.len() <==> (line@.len() > 0 && line@[line@.len() - 1] == 13u8),
{
    let n = line.len();
    if n > 0 && line[n - 1] == CARRIAGE_RETURN {
        vstd::slice::slice_subrange(line, 0, n - 1)
    } else {
        line
    }
}

} // verus!
