use vstd::prelude::*;

use crate::io::{IoError, Reader};
use crate::rjiter_error::{Error, ErrorType, LinePosition};

verus! {

/// The line and column reached after the bytes `s`, both counted from 0: a
/// newline starts a new line at column 0, any other byte advances the column.
pub open spec fn line_col(s: Seq<u8>) -> (nat, nat)
    decreases s.len(),
{
    if s.len() == 0 {
        (0, 0)
    } else {
        let p = line_col(s.drop_last());
        if s.last() == 10u8 {
            ((p.0 + 1) as nat, 0)
        } else {
            (p.0, (p.1 + 1) as nat)
        }
    }
}

/// Line and column never exceed the number of bytes.
pub proof fn lemma_line_col_bound(s: Seq<u8>)
    ensures
        line_col(s).0 <= s.len(),
        line_col(s).1 <= s.len(),
    decreases s.len(),
{
    if s.len() > 0 {
        lemma_line_col_bound(s.drop_last());
    }
}

proof fn lemma_cancel_prefix(a: Seq<u8>, x: Seq<u8>, y: Seq<u8>)
    requires
        a + x == a + y,
    ensures
        x == y,
{
    assert(x =~= (a + x).subrange(a.len() as int, (a + x).len() as int));
    assert(y =~= (a + y).subrange(a.len() as int, (a + y).len() as int));
}

/// Whether every byte of `removed` from `from` on is one that `predicate` accepts.
pub open spec fn shifted_over_accepted<F: Fn(u8) -> bool>(predicate: F, removed: Seq<u8>, from: int) -> bool {
    &&& removed.len() >= from
    &&& forall|k: int| from <= k < removed.len() ==> predicate.ensures((#[trigger] removed[k],), true)
}

/// Shifting out `j` accepted bytes keeps every shifted-out byte from `from` on accepted.
proof fn lemma_shift_accepted<F: Fn(u8) -> bool>(
    predicate: F,
    rbefore: Seq<u8>,
    before: Seq<u8>,
    after: Seq<u8>,
    j: int,
    from: int,
    c: int,
)
    requires
        0 <= from,
        0 <= c <= j <= before.len(),
        rbefore.len() + c == from || (c == 0 && shifted_over_accepted(predicate, rbefore, from)),
        forall|k: int| c <= k < j ==> predicate.ensures((#[trigger] before[k],), true),
        after == rbefore + before.subrange(0, j),
    ensures
        shifted_over_accepted(predicate, after, from),
{
    assert forall|k: int| from <= k < after.len() implies predicate.ensures((#[trigger] after[k],), true) by {
        if k >= rbefore.len() {
            assert(after[k] == before[k - rbefore.len()]);
        } else {
            assert(after[k] == rbefore[k]);
        }
    }
}

/// The bookkeeping of `skip_spaces`: the bytes before `pos`, the dropped whitespace,
/// the valid bytes from `pos` and the pending bytes make up what there was at the start.
spec fn skip_relation(
    data0: Seq<u8>,
    pending0: Seq<u8>,
    pos: int,
    ws: Seq<u8>,
    d: Seq<u8>,
    p: Seq<u8>,
) -> bool {
    &&& pos <= d.len()
    &&& d.subrange(0, pos) == data0.subrange(0, pos)
    &&& data0.subrange(0, pos) + ws + d.subrange(pos, d.len() as int) + p == data0 + pending0
}

proof fn lemma_skip_after_read(
    data0: Seq<u8>,
    pending0: Seq<u8>,
    pos: int,
    ws: Seq<u8>,
    d1: Seq<u8>,
    p1: Seq<u8>,
    d2: Seq<u8>,
    p2: Seq<u8>,
)
    requires
        0 <= pos,
        skip_relation(data0, pending0, pos, ws, d1, p1),
        d1 + p1 == d2 + p2,
        d1.len() <= d2.len(),
    ensures
        skip_relation(data0, pending0, pos, ws, d2, p2),
{
    let t = d1 + p1;
    assert(d1 =~= t.subrange(0, d1.len() as int));
    assert(d2.subrange(0, d1.len() as int) =~= (d2 + p2).subrange(0, d1.len() as int));
    assert(d2.subrange(0, pos) =~= d1.subrange(0, pos));
    assert(d2.subrange(pos, d2.len() as int) + p2 =~= (d2 + p2).subrange(pos, t.len() as int));
    assert(d1.subrange(pos, d1.len() as int) + p1 =~= t.subrange(pos, t.len() as int));
    let a = data0.subrange(0, pos);
    assert(a + ws + d2.subrange(pos, d2.len() as int) + p2 =~= a + ws + (d2.subrange(
        pos,
        d2.len() as int,
    ) + p2));
    assert(a + ws + d1.subrange(pos, d1.len() as int) + p1 =~= a + ws + (d1.subrange(
        pos,
        d1.len() as int,
    ) + p1));
}

proof fn lemma_skip_after_shift(
    data0: Seq<u8>,
    pending0: Seq<u8>,
    pos: int,
    ws: Seq<u8>,
    d: Seq<u8>,
    p: Seq<u8>,
    end: int,
)
    requires
        0 <= pos <= end <= d.len(),
        skip_relation(data0, pending0, pos, ws, d, p),
    ensures
        skip_relation(
            data0,
            pending0,
            pos,
            ws + d.subrange(pos, end),
            d.subrange(0, pos) + d.subrange(end, d.len() as int),
            p,
        ),
{
    let d3 = d.subrange(0, pos) + d.subrange(end, d.len() as int);
    assert(d3.subrange(0, pos) =~= d.subrange(0, pos));
    assert(d3.subrange(pos, d3.len() as int) =~= d.subrange(end, d.len() as int));
    assert(d.subrange(pos, d.len() as int) =~= d.subrange(pos, end) + d.subrange(end, d.len() as int));
    let a = data0.subrange(0, pos);
    assert(a + (ws + d.subrange(pos, end)) + d.subrange(end, d.len() as int) + p =~= a + ws + (
    d.subrange(pos, end) + d.subrange(end, d.len() as int)) + p);
}

/// Whether `b` is ASCII whitespace: space, tab, line feed, form feed or carriage return.
pub open spec fn spec_is_ascii_whitespace(b: u8) -> bool {
    b == 32u8 || b == 9u8 || b == 10u8 || b == 12u8 || b == 13u8
}

/// Whether `b` is ASCII whitespace: space, tab, line feed, form feed or carriage return.
pub fn is_ascii_whitespace(b: u8) -> (r: bool)
    ensures
        r == spec_is_ascii_whitespace(b),
{
    b == 32u8 || b == 9u8 || b == 10u8 || b == 12u8 || b == 13u8
}

/// A working buffer filled from a reader.
///
/// The valid bytes are the first `n_bytes` of `buf`. Bytes dropped from the front
/// by shifting are counted, and the line and column they span are remembered, so
/// that positions in the buffer can be mapped back to positions in the stream.
pub struct Buffer<'buf, R: Reader> {
    reader: &'buf mut R,
    buf: &'buf mut [u8],
    n_bytes: usize,
    n_shifted_out: usize,
    pos_shifted: LinePosition,
    removed: Ghost<Seq<u8>>,
}

impl<'buf, R: Reader> Buffer<'buf, R> {
    /// The valid bytes of the buffer.
    pub closed spec fn data(&self) -> Seq<u8> {
        self.buf@.subrange(0, self.n_bytes as int)
    }

    /// The bytes shifted out of the buffer so far, in order.
    pub closed spec fn removed(&self) -> Seq<u8> {
        self.removed@
    }

    /// Whether the reader always succeeds.
    pub closed spec fn reader_never_fails(&self) -> bool {
        self.reader.never_fails()
    }

    /// The bytes the reader has not delivered yet.
    pub closed spec fn pending(&self) -> Seq<u8> {
        self.reader.stream()
    }

    /// The size of the working buffer.
    pub closed spec fn capacity(&self) -> nat {
        self.buf@.len()
    }

    /// Everything that is known of the stream: what was shifted out, what is in
    /// the buffer and what the reader still holds.
    pub open spec fn input(&self) -> Seq<u8> {
        self.removed() + self.data() + self.pending()
    }

    /// The number of bytes of the stream that the buffer accounts for: shifted out,
    /// valid, and still with the reader.
    pub open spec fn total_len(&self) -> int {
        (self.removed().len() + self.data().len() + self.pending().len()) as int
    }

    /// The internal invariant.
    pub closed spec fn wf(&self) -> bool {
        &&& self.n_bytes <= self.buf@.len()
        &&& self.removed@.len() == self.n_shifted_out
        &&& self.pos_shifted.line == line_col(self.removed@).0
        &&& self.pos_shifted.column == line_col(self.removed@).1
        &&& self.n_shifted_out + self.n_bytes + self.reader.stream().len() < usize::MAX
    }

    /// The counters and the reader's remaining bytes fit in a `usize`.
    pub proof fn lemma_bounds(&self)
        requires
            self.wf(),
        ensures
            self.removed().len() + self.data().len() + self.pending().len() < usize::MAX,
            self.data().len() <= self.capacity(),
    {
    }

    /// Number of valid bytes.
    pub fn n_bytes(&self) -> (r: usize)
        requires
            self.wf(),
        ensures
            r == self.data().len(),
    {
        self.n_bytes
    }

    /// Number of bytes shifted out of the buffer.
    pub fn n_shifted_out(&self) -> (r: usize)
        requires
            self.wf(),
        ensures
            r == self.removed().len(),
    {
        self.n_shifted_out
    }

    /// Line and column (from 0) reached by the bytes shifted out.
    pub fn pos_shifted(&self) -> (r: LinePosition)
        requires
            self.wf(),
        ensures
            r.line == line_col(self.removed()).0,
            r.column == line_col(self.removed()).1,
    {
        self.pos_shifted
    }

    /// Size of the working buffer.
    pub fn capacity_len(&self) -> (r: usize)
        ensures
            r == self.capacity(),
    {
        self.buf.len()
    }

    /// The valid bytes.
    pub fn valid_bytes(&self) -> (r: &[u8])
        requires
            self.wf(),
        ensures
            r@ == self.data(),
    {
        let n = self.n_bytes;
        &self.buf[0..n]
    }

    /// The valid byte at `i`.
    pub fn byte_at(&self, i: usize) -> (r: u8)
        requires
            self.wf(),
            i < self.data().len(),
        ensures
            r == self.data()[i as int],
    {
        self.buf[i]
    }

    /// A buffer over `buf`, empty, reading from `reader`.
    pub fn new(reader: &'buf mut R, buf: &'buf mut [u8]) -> (r: Self)
        requires
            old(reader).stream().len() < usize::MAX,
        ensures
            r.wf(),
            r.data() == Seq::<u8>::empty(),
            r.removed() == Seq::<u8>::empty(),
            r.pending() == old(reader).stream(),
            r.capacity() == old(buf)@.len(),
            r.reader_never_fails() == old(reader).never_fails(),
    {
        let r = Buffer {
            reader,
            buf,
            n_bytes: 0,
            n_shifted_out: 0,
            pos_shifted: LinePosition::new(0, 0),
            removed: Ghost(Seq::empty()),
        };
        assert(r.data() =~= Seq::<u8>::empty());
        r
    }

    /// Reads from the reader into the free part of the buffer and returns the
    /// number of bytes read. An I/O error leaves the buffer as it was and is
    /// reported at the index `n_bytes`.
    pub fn read_more(&mut self) -> (r: Result<usize, Error>)
        requires
            old(self).wf(),
        ensures
            final(self).reader_never_fails() == old(self).reader_never_fails(),
            old(self).reader_never_fails() ==> r is Ok,
            final(self).wf(),
            final(self).removed() == old(self).removed(),
            final(self).capacity() == old(self).capacity(),
            final(self).input() == old(self).input(),
            final(self).total_len() == old(self).total_len(),
            r matches Ok(n) ==> {
                &&& n <= old(self).capacity() - old(self).data().len()
                &&& n <= old(self).pending().len()
                &&& final(self).data() == old(self).data() + old(self).pending().subrange(0, n as int)
                &&& final(self).pending() == old(self).pending().skip(n as int)
                &&& (n == 0 && old(self).data().len() < old(self).capacity() ==> old(self).pending().len() == 0)
            },
            r matches Err(e) ==> {
                &&& e.error_type == ErrorType::IoError(IoError)
                &&& e.index == old(self).data().len()
                &&& final(self).data() == old(self).data()
                &&& final(self).pending() == old(self).pending()
            },
    {
        let n_bytes = self.n_bytes;
        let ghost old_buf = self.buf@;
        let ghost old_stream = self.reader.stream();
        let (head, tail) = self.buf.split_at_mut(n_bytes);
        let res = self.reader.read(tail);
        assert(self.buf@.subrange(0, n_bytes as int) =~= old_buf.subrange(0, n_bytes as int));
        match res {
            Ok(n) => {
                self.n_bytes = n_bytes + n;
                assert(self.data() =~= old_buf.subrange(0, n_bytes as int) + old_stream.subrange(
                    0,
                    n as int,
                )) by {
                    assert forall|q: int| 0 <= q < n_bytes + n implies self.data()[q] == (
                    old_buf.subrange(0, n_bytes as int) + old_stream.subrange(0, n as int))[q] by {
                        if q >= n_bytes {
                            assert(self.buf@[q] == self.buf@.subrange(
                                n_bytes as int,
                                self.buf@.len() as int,
                            ).subrange(0, n as int)[q - n_bytes]);
                        }
                    }
                }
                assert(old_stream =~= old_stream.subrange(0, n as int) + old_stream.skip(n as int));
                Ok(n)
            },
            Err(e) => {
                assert(self.buf@ =~= old_buf);
                Err(Error { error_type: ErrorType::IoError(e), index: n_bytes })
            },
        }
    }

    /// Drops the valid bytes from `to_pos` up to `from_pos` (or to the end of the valid
    /// bytes), moving the bytes after them down to `to_pos`, and accounts for the
    /// dropped bytes in the shift counters. Nothing happens if that range is empty.
    pub fn shift_buffer(&mut self, to_pos: usize, from_pos: usize)
        requires
            old(self).wf(),
        ensures
            final(self).reader_never_fails() == old(self).reader_never_fails(),
            final(self).wf(),
            final(self).capacity() == old(self).capacity(),
            final(self).pending() == old(self).pending(),
            final(self).total_len() == old(self).total_len(),
            final(self).removed().len() >= old(self).removed().len(),
            final(self).removed().subrange(0, old(self).removed().len() as int) == old(self).removed(),
            ({
                let d = old(self).data();
                let sf = if from_pos < d.len() {
                    from_pos as int
                } else {
                    d.len() as int
                };
                if to_pos < sf {
                    &&& final(self).data() == d.subrange(0, to_pos as int) + d.subrange(
                        sf,
                        d.len() as int,
                    )
                    &&& final(self).removed() == old(self).removed() + d.subrange(to_pos as int, sf)
                } else {
                    &&& final(self).data() == d
                    &&& final(self).removed() == old(self).removed()
                }
            }),
    {
        let n = self.n_bytes;
        let safe_from_pos = if from_pos < n {
            from_pos
        } else {
            n
        };
        if to_pos < safe_from_pos {
            let ghost old_buf = self.buf@;
            let ghost old_removed = self.removed@;
            let ghost old_stream = self.reader.stream();
            let mut k: usize = to_pos;
            while k < safe_from_pos
                invariant
                    self.reader_never_fails() == old(self).reader_never_fails(),
                    to_pos <= k <= safe_from_pos,
                    safe_from_pos <= n,
                    n <= self.buf@.len(),
                    self.buf@ == old_buf,
                    self.n_bytes == n,
                    self.n_shifted_out == old_removed.len(),
                    self.reader.stream() == old_stream,
                    old_removed.len() + n + old_stream.len() < usize::MAX,
                    self.removed@ == old_removed + old_buf.subrange(to_pos as int, k as int),
                    self.pos_shifted.line == line_col(self.removed@).0,
                    self.pos_shifted.column == line_col(self.removed@).1,
                    old_removed.len() + n <= usize::MAX,
                decreases safe_from_pos - k,
            {
                let ch = self.buf[k];
                let ghost prev = self.removed@;
                proof {
                    self.removed@ = prev.push(ch);
                    assert(self.removed@.drop_last() =~= prev);
                    lemma_line_col_bound(prev);
                }
                if ch == 10u8 {
                    self.pos_shifted.line = self.pos_shifted.line + 1;
                    self.pos_shifted.column = 0;
                } else {
                    self.pos_shifted.column = self.pos_shifted.column + 1;
                }
                k = k + 1;
                assert(self.removed@ =~= old_removed + old_buf.subrange(to_pos as int, k as int));
            }
            let mut j: usize = from_pos;
            if j < n {
                let mut w: usize = to_pos;
                while j < n
                    invariant
                        self.reader_never_fails() == old(self).reader_never_fails(),
                        to_pos < safe_from_pos,
                        safe_from_pos == from_pos,
                        from_pos <= j <= n,
                        n <= self.buf@.len(),
                        self.buf@.len() == old_buf.len(),
                        self.n_bytes == n,
                        self.n_shifted_out == old_removed.len(),
                        self.reader.stream() == old_stream,
                        old_removed.len() + n + old_stream.len() < usize::MAX,
                        self.removed@ == old_removed + old_buf.subrange(to_pos as int, safe_from_pos as int),
                        self.pos_shifted.line == line_col(self.removed@).0,
                        self.pos_shifted.column == line_col(self.removed@).1,
                        w == to_pos + (j - from_pos),
                        forall|q: int| 0 <= q < to_pos ==> #[trigger] self.buf@[q] == old_buf[q],
                        forall|q: int|
                            to_pos <= q < w ==> #[trigger] self.buf@[q] == old_buf[q + (from_pos
                                - to_pos)],
                        forall|q: int| w <= q < self.buf@.len() && q >= j ==> #[trigger] self.buf@[q] == old_buf[q],
                    decreases n - j,
                {
                    let b = self.buf[j];
                    self.buf[w] = b;
                    j = j + 1;
                    w = w + 1;
                }
            }
            let shifted = safe_from_pos - to_pos;
            self.n_bytes = n - shifted;
            self.n_shifted_out = self.n_shifted_out + shifted;
            let ghost d = old_buf.subrange(0, n as int);
            assert(self.removed@ =~= old_removed + d.subrange(to_pos as int, safe_from_pos as int));
            assert(self.data() =~= d.subrange(0, to_pos as int) + d.subrange(
                safe_from_pos as int,
                n as int,
            )) by {
                assert forall|q: int| 0 <= q < n - shifted implies self.data()[q] == (d.subrange(
                    0,
                    to_pos as int,
                ) + d.subrange(safe_from_pos as int, n as int))[q] by {
                    if q >= to_pos {
                        assert(self.buf@[q] == old_buf[q + (from_pos - to_pos)]);
                    }
                }
            }
        }
    }

    /// Scans the valid bytes from `start_pos` while `predicate` accepts them, reading
    /// more from the reader as needed. Returns the offset of the first rejected byte,
    /// or the end of the valid bytes at the end of the stream.
    ///
    /// When the buffer is full and every byte is accepted: without `allow_shift` the
    /// result is a `BufferFull` error; with it, the buffer is shifted to drop every
    /// byte scanned so far (those before `start_pos` too) and reading goes on. After
    /// such a shift, the accepted bytes before the rejected one are dropped as well and
    /// the buffer is refilled, so the result is 0; and if the stream ends with every
    /// byte accepted, the result is a `BufferFull` error. A `BufferFull` error is at the
    /// index of the number of shifted-out bytes.
    pub fn collect_while<F: Fn(u8) -> bool>(
        &mut self,
        predicate: F,
        start_pos: usize,
        allow_shift: bool,
    ) -> (r: Result<usize, Error>)
        requires
            old(self).wf(),
            forall|b: u8| predicate.requires((b,)),
        ensures
            final(self).reader_never_fails() == old(self).reader_never_fails(),
            old(self).reader_never_fails() ==> !(r matches Err(e) && e.error_type is IoError),
            final(self).wf(),
            final(self).capacity() == old(self).capacity(),
            final(self).input() == old(self).input(),
            final(self).removed().len() >= old(self).removed().len(),
            final(self).removed().subrange(0, old(self).removed().len() as int) == old(self).removed(),
            !allow_shift ==> final(self).removed() == old(self).removed(),
            final(self).removed() == old(self).removed() ==> final(self).data().len() >= old(self).data().len(),
            final(self).removed() != old(self).removed() ==> shifted_over_accepted(
                predicate,
                final(self).removed(),
                old(self).removed().len() + start_pos,
            ),
            r matches Ok(e) ==> {
                &&& e <= final(self).data().len()
                &&& final(self).removed() == old(self).removed() ==> {
                    &&& (start_pos <= old(self).data().len() ==> start_pos <= e)
                    &&& forall|k: int|
                        start_pos <= k < e ==> predicate.ensures((#[trigger] final(self).data()[k],), true)
                }
                &&& final(self).removed() != old(self).removed() ==> e == 0
                &&& e < final(self).data().len() ==> predicate.ensures(
                    (final(self).data()[e as int],),
                    false,
                )
                &&& e == final(self).data().len() ==> (final(self).pending().len() == 0
                    || final(self).capacity() == 0)
            },
            r matches Err(err) ==> {
                ||| err.error_type == ErrorType::IoError(IoError)
                ||| {
                    &&& err.error_type == ErrorType::BufferFull
                    &&& err.index == final(self).removed().len()
                    &&& !allow_shift ==> final(self).data().len() == final(self).capacity() && forall|k: int|
                        start_pos <= k < final(self).data().len() ==> predicate.ensures(
                            (#[trigger] final(self).data()[k],),
                            true,
                        )
                    &&& allow_shift && final(self).removed() == old(self).removed() ==> start_pos
                        > final(self).capacity() || final(self).capacity() == 0
                    &&& allow_shift && final(self).removed() != old(self).removed() ==> {
                        &&& final(self).pending().len() == 0 || final(self).capacity() == 0
                        &&& forall|k: int|
                            0 <= k < final(self).data().len() ==> predicate.ensures(
                                (#[trigger] final(self).data()[k],),
                                true,
                            )
                    }
                }
            },
    {
        let ghost removed0 = self.removed();
        let ghost data0 = self.data();
        let ghost input0 = self.input();
        let ghost cap = self.capacity();
        let mut i: usize = start_pos;
        let mut shifted = false;
        loop
            invariant
                self.reader_never_fails() == old(self).reader_never_fails(),
                self.wf(),
                cap == old(self).capacity(),
                input0 == old(self).input(),
                removed0 == old(self).removed(),
                data0 == old(self).data(),
                self.capacity() == cap,
                self.input() == input0,
                forall|b: u8| predicate.requires((b,)),
                self.removed().len() >= removed0.len(),
                self.removed().subrange(0, removed0.len() as int) == removed0,
                !shifted ==> self.removed() == removed0 && self.data().len() >= data0.len(),
                shifted ==> allow_shift && self.removed() != removed0
                    && shifted_over_accepted(predicate, self.removed(), removed0.len() + start_pos),
                (if shifted {
                    0
                } else {
                    start_pos
                }) <= i,
                i <= self.data().len() || (!shifted && i == start_pos),
                forall|k: int|
                    (if shifted {
                        0
                    } else {
                        start_pos as int
                    }) <= k < i && k < self.data().len() ==> predicate.ensures(
                        (#[trigger] self.data()[k],),
                        true,
                    ),
            decreases self.pending().len(),
        {
            let n = self.n_bytes;
            let ghost pend_start = self.pending();
            let ghost cs: int = if shifted {
                0
            } else {
                start_pos as int
            };
            while i < n
                invariant
                    self.reader_never_fails() == old(self).reader_never_fails(),
                self.reader_never_fails() == old(self).reader_never_fails(),
                    self.wf(),
                    n == self.data().len(),
                    cap == old(self).capacity(),
                    input0 == old(self).input(),
                    removed0 == old(self).removed(),
                    data0 == old(self).data(),
                    self.capacity() == cap,
                    self.input() == input0,
                    self.removed().len() >= removed0.len(),
                    self.removed().subrange(0, removed0.len() as int) == removed0,
                    !shifted ==> self.removed() == removed0 && self.data().len() >= data0.len()
                        && cs == start_pos,
                    shifted ==> allow_shift && cs == 0 && self.removed() != removed0
                        && shifted_over_accepted(predicate, self.removed(), removed0.len() + start_pos),
                    cs <= i,
                    i <= n || (!shifted && i == cs),
                    self.pending() == pend_start,
                    forall|b: u8| predicate.requires((b,)),
                    forall|k: int|
                        cs <= k < i && k < self.data().len() ==> predicate.ensures(
                            (#[trigger] self.data()[k],),
                            true,
                        ),
                decreases n - i,
            {
                let b = self.buf[i];
                let ok = predicate(b);
                if !ok {
                    if shifted {
                        let ghost before = self.data();
                        let ghost rbefore = self.removed();
                        self.shift_buffer(0, i);
                        proof {
                            if i > 0 {
                                lemma_shift_accepted(predicate, rbefore, before, self.removed(), i as int, removed0.len() + start_pos, 0);
                            }
                            assert(self.data()[0] == before[i as int]);
                        }
                        let ghost d1 = self.data();
                        match self.read_more() {
                            Ok(_) => {},
                            Err(e) => {
                                return Err(e);
                            },
                        }
                        proof {
                            assert(self.data()[0] == d1[0]);
                        }
                        return Ok(0);
                    }
                    return Ok(i);
                }
                i = i + 1;
            }
            if self.n_bytes >= self.buf.len() {
                if !allow_shift || i > self.n_bytes || self.n_bytes == 0 {
                    return Err(Error { error_type: ErrorType::BufferFull, index: self.n_shifted_out });
                }
                let ghost before = self.data();
                let ghost rbefore = self.removed();
                let j = i;
                self.shift_buffer(0, j);
                proof {
                    lemma_shift_accepted(predicate, rbefore, before, self.removed(), j as int, removed0.len() + start_pos, cs);
                }
                shifted = true;
                i = 0;
            }
            let ghost pend = self.pending();
            let n_new = match self.read_more() {
                Ok(n_new) => n_new,
                Err(e) => {
                    return Err(e);
                },
            };
            assert(self.pending().len() == pend.len() - n_new);
            if n_new == 0 {
                if shifted {
                    return Err(Error { error_type: ErrorType::BufferFull, index: self.n_shifted_out });
                }
                return Ok(self.n_bytes);
            }
        }
    }

    /// Makes `count` bytes from `start_pos` valid, reading more from the reader as
    /// needed. Returns `(start, end)` with `end == start + count`, or `end` the end of
    /// the valid bytes if the stream ends first; `start` is `start_pos`, or 0 after a
    /// shift.
    ///
    /// When the buffer is full, it may be shifted once, dropping the bytes before
    /// `start_pos`, if `allow_shift` is set, `start_pos` is not 0 and `count` fits in
    /// the buffer; otherwise the result is a `BufferFull` error at the index of the
    /// number of shifted-out bytes.
    pub fn collect_count(&mut self, count: usize, start_pos: usize, allow_shift: bool) -> (r: Result<
        (usize, usize),
        Error,
    >)
        requires
            old(self).wf(),
            start_pos + count <= usize::MAX,
        ensures
            final(self).reader_never_fails() == old(self).reader_never_fails(),
            old(self).reader_never_fails() ==> !(r matches Err(e) && e.error_type is IoError),
            final(self).wf(),
            final(self).capacity() == old(self).capacity(),
            final(self).input() == old(self).input(),
            old(self).removed().len() <= final(self).removed().len() <= old(self).removed().len()
                + start_pos,
            !allow_shift ==> final(self).removed() == old(self).removed(),
            r matches Ok((cs, e)) ==> {
                &&& cs == start_pos || (allow_shift && cs == 0)
                &&& (cs == start_pos && start_pos > 0 ==> final(self).removed() == old(self).removed())
                &&& e <= final(self).data().len()
                &&& e <= cs + count
                &&& e < cs + count ==> e == final(self).data().len() && (final(self).pending().len()
                    == 0 || final(self).capacity() == 0)
            },
            r matches Err(err) ==> {
                ||| err.error_type == ErrorType::IoError(IoError)
                ||| {
                    &&& err.error_type == ErrorType::BufferFull
                    &&& err.index == final(self).removed().len()
                    &&& final(self).data().len() == final(self).capacity()
                }
            },
    {
        let ghost removed0 = self.removed();
        let ghost input0 = self.input();
        let ghost cap = self.capacity();
        let mut target: usize = start_pos + count;
        let mut current_start: usize = start_pos;
        let mut shifted = false;
        loop
            invariant
                self.reader_never_fails() == old(self).reader_never_fails(),
                self.wf(),
                cap == old(self).capacity(),
                input0 == old(self).input(),
                removed0 == old(self).removed(),
                self.capacity() == cap,
                self.input() == input0,
                removed0.len() <= self.removed().len() <= removed0.len() + start_pos,
                target == current_start + count,
                !shifted ==> self.removed() == removed0 && current_start == start_pos,
                shifted ==> allow_shift && current_start == 0 && start_pos > 0,
            decreases (if shifted {
                0int
            } else {
                1int
            }), self.pending().len(),
        {
            if self.n_bytes >= target {
                return Ok((current_start, target));
            }
            if self.n_bytes >= self.buf.len() {
                if !allow_shift || shifted || current_start == 0 {
                    return Err(Error { error_type: ErrorType::BufferFull, index: self.n_shifted_out });
                }
                let available_after_shift = self.buf.len();
                if count > available_after_shift {
                    return Err(Error { error_type: ErrorType::BufferFull, index: self.n_shifted_out });
                }
                let ghost before = self.data();
                self.shift_buffer(0, current_start);
                proof {
                    let sf = if start_pos < before.len() {
                        start_pos as int
                    } else {
                        before.len() as int
                    };
                    assert(before =~= before.subrange(0, sf) + before.subrange(sf, before.len() as int));
                    assert(before.subrange(0, 0) + before.subrange(sf, before.len() as int) =~= before.subrange(sf, before.len() as int));
                }
                shifted = true;
                target = target - current_start;
                current_start = 0;
            }
            let n_new = match self.read_more() {
                Ok(n_new) => n_new,
                Err(e) => {
                    return Err(e);
                },
            };
            if n_new == 0 {
                return Ok((current_start, self.n_bytes));
            }
        }
    }

    /// Drops the ASCII whitespace at `pos`, reading more from the reader as needed,
    /// until a non-whitespace byte is at `pos` or the stream ends. The bytes before
    /// `pos`, read first if they are not in the buffer yet, stay as they are; the dropped
    /// bytes are counted as shifted out.
    pub fn skip_spaces(&mut self, pos: usize) -> (r: Result<(), Error>)
        requires
            old(self).wf(),
            pos < old(self).capacity(),
        ensures
            final(self).reader_never_fails() == old(self).reader_never_fails(),
            old(self).reader_never_fails() ==> !(r matches Err(e) && e.error_type is IoError),
            final(self).wf(),
            final(self).capacity() == old(self).capacity(),
            old(self).removed().len() <= final(self).removed().len(),
            final(self).total_len() == old(self).total_len(),
            final(self).removed().subrange(0, old(self).removed().len() as int) == old(self).removed(),
            forall|k: int|
                old(self).removed().len() <= k < final(self).removed().len()
                    ==> spec_is_ascii_whitespace(#[trigger] final(self).removed()[k]),
            ({
                let s0 = old(self).data() + old(self).pending();
                let dropped = final(self).removed().subrange(
                    old(self).removed().len() as int,
                    final(self).removed().len() as int,
                );
                &&& pos <= final(self).data().len() ==> {
                    &&& final(self).data().subrange(0, pos as int) == s0.subrange(0, pos as int)
                    &&& s0.subrange(0, pos as int) + dropped + final(self).data().subrange(
                        pos as int,
                        final(self).data().len() as int,
                    ) + final(self).pending() == s0
                }
                &&& pos > final(self).data().len() ==> {
                    &&& dropped.len() == 0
                    &&& final(self).data() + final(self).pending() == s0
                }
            }),
            r is Ok ==> {
                &&& final(self).data().len() > pos ==> !spec_is_ascii_whitespace(
                    final(self).data()[pos as int],
                )
                &&& final(self).data().len() <= pos ==> final(self).pending().len() == 0
            },
            r matches Err(e) ==> e.error_type == ErrorType::IoError(IoError),
    {
        let ghost removed0 = self.removed();
        let ghost s0 = self.data() + self.pending();
        let ghost cap = self.capacity();
        while self.n_bytes < pos
            invariant
                self.reader_never_fails() == old(self).reader_never_fails(),
                self.wf(),
                self.capacity() == cap,
                cap == old(self).capacity(),
                pos < cap,
                self.removed() == removed0,
                removed0 == old(self).removed(),
                s0 == old(self).data() + old(self).pending(),
                self.data() + self.pending() == s0,
                self.total_len() == old(self).total_len(),
            decreases self.pending().len(),
        {
            let ghost d1 = self.data();
            let ghost p1 = self.pending();
            match self.read_more() {
                Err(e) => {
                    proof {
                        assert(self.removed().subrange(0, removed0.len() as int) =~= removed0);
                        assert(self.removed().subrange(removed0.len() as int, self.removed().len() as int) =~= Seq::<u8>::empty());
                    }
                    return Err(e);
                },
                Ok(k) => {
                    proof {
                        assert(self.data() + self.pending() =~= d1 + p1) by {
                            assert(p1 =~= p1.subrange(0, k as int) + p1.skip(k as int));
                        }
                    }
                    if k == 0 {
                        proof {
                            assert(self.removed().subrange(0, removed0.len() as int) =~= removed0);
                            assert(self.removed().subrange(removed0.len() as int, self.removed().len() as int) =~= Seq::<u8>::empty());
                        }
                        return Ok(());
                    }
                },
            }
        }
        let ghost d1 = self.data();
        let ghost p1 = self.pending();
        let r = self.skip_spaces_in_data(pos);
        proof {
            assert(d1.subrange(0, pos as int) =~= s0.subrange(0, pos as int));
        }
        r
    }

    /// `skip_spaces` for a position within the valid bytes.
    fn skip_spaces_in_data(&mut self, pos: usize) -> (r: Result<(), Error>)
        requires
            old(self).wf(),
            pos <= old(self).data().len(),
            pos < old(self).capacity(),
        ensures
            final(self).reader_never_fails() == old(self).reader_never_fails(),
            old(self).reader_never_fails() ==> !(r matches Err(e) && e.error_type is IoError),
            final(self).wf(),
            final(self).capacity() == old(self).capacity(),
            old(self).removed().len() <= final(self).removed().len(),
            final(self).total_len() == old(self).total_len(),
            final(self).removed().subrange(0, old(self).removed().len() as int) == old(self).removed(),
            forall|k: int|
                old(self).removed().len() <= k < final(self).removed().len()
                    ==> spec_is_ascii_whitespace(#[trigger] final(self).removed()[k]),
            pos <= final(self).data().len(),
            final(self).data().subrange(0, pos as int) == old(self).data().subrange(0, pos as int),
            old(self).data().subrange(0, pos as int) + final(self).removed().subrange(
                old(self).removed().len() as int,
                final(self).removed().len() as int,
            ) + final(self).data().subrange(pos as int, final(self).data().len() as int) + final(self).pending() == old(self).data() + old(self).pending(),
            r is Ok ==> {
                &&& final(self).data().len() > pos ==> !spec_is_ascii_whitespace(
                    final(self).data()[pos as int],
                )
                &&& final(self).data().len() == pos ==> final(self).pending().len() == 0
            },
            r matches Err(e) ==> e.error_type == ErrorType::IoError(IoError),
    {
        let ghost removed0 = self.removed();
        let ghost data0 = self.data();
        let ghost pending0 = self.pending();
        let ghost cap = self.capacity();
        proof {
            assert(data0.subrange(0, pos as int) + Seq::<u8>::empty() + data0.subrange(pos as int, data0.len() as int) + pending0 =~= data0 + pending0);
            assert(self.removed().subrange(removed0.len() as int, self.removed().len() as int) =~= Seq::<u8>::empty());
            assert(self.removed().subrange(0, removed0.len() as int) =~= removed0);
        }
        loop
            invariant
                self.reader_never_fails() == old(self).reader_never_fails(),
                self.wf(),
                cap == old(self).capacity(),
                removed0 == old(self).removed(),
                data0 == old(self).data(),
                pending0 == old(self).pending(),
                self.capacity() == cap,
                self.total_len() == old(self).total_len(),
                pos < cap,
                removed0.len() <= self.removed().len(),
                self.removed().subrange(0, removed0.len() as int) == removed0,
                forall|k: int|
                    removed0.len() <= k < self.removed().len() ==> spec_is_ascii_whitespace(
                        #[trigger] self.removed()[k],
                    ),
                skip_relation(
                    data0,
                    pending0,
                    pos as int,
                    self.removed().subrange(removed0.len() as int, self.removed().len() as int),
                    self.data(),
                    self.pending(),
                ),
            decreases self.data().len() + self.pending().len(),
        {
            let ghost d1 = self.data();
            let ghost p1 = self.pending();
            let ghost r1 = self.removed();
            let res = self.collect_while(is_ascii_whitespace, pos, false);
            proof {
                assert(self.input().len() == r1.len() + d1.len() + p1.len());
                assert(d1 + p1 == self.data() + self.pending()) by {
                    assert(r1 + d1 + p1 =~= r1 + (d1 + p1));
                    assert(self.removed() + self.data() + self.pending() =~= self.removed() + (
                    self.data() + self.pending()));
                    lemma_cancel_prefix(r1, d1 + p1, self.data() + self.pending());
                }
                assert(d1.len() + p1.len() == self.data().len() + self.pending().len()) by {
                    assert((d1 + p1).len() == (self.data() + self.pending()).len());
                }
                lemma_skip_after_read(
                    data0,
                    pending0,
                    pos as int,
                    r1.subrange(removed0.len() as int, r1.len() as int),
                    d1,
                    p1,
                    self.data(),
                    self.pending(),
                );
            }
            let (end, full) = match res {
                Ok(end) => (end, false),
                Err(e) => {
                    match e.error_type {
                        ErrorType::BufferFull => (self.n_bytes, true),
                        _ => {
                            return Err(e);
                        },
                    }
                },
            };
            let ghost d_end = self.data();
            let ghost p_end = self.pending();
            proof {
                if !full && end < d_end.len() {
                    assert(!spec_is_ascii_whitespace(d_end[end as int]));
                }
            }
            if end > pos {
                let ghost d2 = self.data();
                let ghost r2 = self.removed();
                self.shift_buffer(pos, end);
                proof {
                    assert(self.data() == d2.subrange(0, pos as int) + d2.subrange(end as int, d2.len() as int));
                    if end < d2.len() {
                        assert(self.data()[pos as int] == d2.subrange(end as int, d2.len() as int)[0]);
                    }
                    lemma_skip_after_shift(
                        data0,
                        pending0,
                        pos as int,
                        r2.subrange(removed0.len() as int, r2.len() as int),
                        d2,
                        self.pending(),
                        end as int,
                    );
                    assert(self.removed().subrange(removed0.len() as int, self.removed().len() as int)
                        =~= r2.subrange(removed0.len() as int, r2.len() as int) + d2.subrange(
                        pos as int,
                        end as int,
                    ));
                    assert(self.removed().subrange(0, removed0.len() as int) =~= r2.subrange(
                        0,
                        removed0.len() as int,
                    ));
                    assert forall|k: int|
                        removed0.len() <= k < self.removed().len() implies spec_is_ascii_whitespace(
                        #[trigger] self.removed()[k],
                    ) by {
                        if k >= r2.len() {
                            assert(self.removed()[k] == d2[pos + (k - r2.len())]);
                        }
                    }
                }
            }
            proof {
                if full {
                    assert(self.data().len() + self.pending().len() < d1.len() + p1.len());
                }
            }
            if !full {
                proof {
                    if end < d_end.len() {
                        assert(self.data()[pos as int] == d_end[end as int]);
                    }
                }
                return Ok(());
            }
        }
    }
}

/// A record of a buffer's counters, to tell whether the buffer has changed since.
pub struct ChangeFlag {
    n_shifted: usize,
    n_bytes: usize,
}

impl ChangeFlag {
    /// The recorded number of shifted-out bytes.
    pub closed spec fn shifted_count(&self) -> nat {
        self.n_shifted as nat
    }

    /// The recorded number of valid bytes.
    pub closed spec fn byte_count(&self) -> nat {
        self.n_bytes as nat
    }

    /// Whether this record is of the counters of `buf`.
    pub open spec fn records<R: Reader>(&self, buf: &Buffer<R>) -> bool {
        self.shifted_count() == buf.removed().len() && self.byte_count() == buf.data().len()
    }

    /// The counters of `buf` now.
    pub fn new<R: Reader>(buf: &Buffer<R>) -> (r: Self)
        requires
            buf.wf(),
        ensures
            r.records(buf),
    {
        ChangeFlag { n_shifted: buf.n_shifted_out(), n_bytes: buf.n_bytes() }
    }

    /// Whether the counters of `buf` differ from the recorded ones.
    pub fn is_changed<R: Reader>(&self, buf: &Buffer<R>) -> (r: bool)
        requires
            buf.wf(),
        ensures
            r == !self.records(buf),
    {
        self.n_shifted != buf.n_shifted_out() || self.n_bytes != buf.n_bytes()
    }
}

} // verus!
