use vstd::prelude::*;

verus! {

/// An I/O operation failed.
#[derive(Debug, Clone, Copy, PartialEq, Eq, Structural)]
pub struct IoError;

/// A source of bytes, modelled as the finite sequence of bytes it will still deliver.
pub trait Reader {
    /// The bytes this reader will deliver, in order.
    spec fn stream(&self) -> Seq<u8>;

    /// Whether reading from this source always succeeds, as it does for one in memory.
    spec fn never_fails(&self) -> bool;

    /// Reads the next bytes of the stream into the front of `buf`. Returns the number
    /// of bytes read; 0 for a non-empty `buf` means the stream is exhausted.
    fn read(&mut self, buf: &mut [u8]) -> (r: Result<usize, IoError>)
        ensures
            final(buf)@.len() == old(buf)@.len(),
            r matches Ok(n) ==> {
                &&& n <= old(buf)@.len()
                &&& n <= old(self).stream().len()
                &&& final(buf)@.subrange(0, n as int) == old(self).stream().subrange(0, n as int)
                &&& final(buf)@.subrange(n as int, old(buf)@.len() as int) == old(buf)@.subrange(
                    n as int,
                    old(buf)@.len() as int,
                )
                &&& final(self).stream() == old(self).stream().skip(n as int)
                &&& (n == 0 && old(buf)@.len() > 0 ==> old(self).stream().len() == 0)
            },
            r is Err ==> final(self).stream() == old(self).stream() && final(buf)@ == old(buf)@,
            old(self).never_fails() ==> r is Ok,
            final(self).never_fails() == old(self).never_fails(),
    ;
}

/// A reader over bytes held in memory, delivering at most `max_read` bytes per read.
pub struct SliceReader<'a> {
    data: &'a [u8],
    position: usize,
    max_read: usize,
}

impl<'a> SliceReader<'a> {
    #[verifier::type_invariant]
    spec fn inv(&self) -> bool {
        &&& self.position <= self.data@.len()
        &&& self.max_read > 0
    }

    /// A reader of `data` that fills as much of the buffer as it can on each read.
    pub fn new(data: &'a [u8]) -> (r: Self)
        ensures
            r.stream() == data@,
            r.chunk() == usize::MAX,
    {
        let r = Self { data, position: 0, max_read: usize::MAX };
        assert(data@.skip(0) =~= data@);
        r
    }

    /// A reader of `data` that delivers at most `max_read` bytes per read, as a slow
    /// source such as a network connection may.
    pub fn with_max_read(data: &'a [u8], max_read: usize) -> (r: Self)
        requires
            max_read > 0,
        ensures
            r.stream() == data@,
            r.chunk() == max_read,
    {
        let r = Self { data, position: 0, max_read };
        assert(data@.skip(0) =~= data@);
        r
    }

    /// The most bytes one read delivers.
    pub closed spec fn chunk(&self) -> nat {
        self.max_read as nat
    }
}

/// The smallest of three numbers.
pub open spec fn min3(a: nat, b: nat, c: nat) -> nat {
    if a <= b && a <= c {
        a
    } else if b <= c {
        b
    } else {
        c
    }
}

impl<'a> Reader for SliceReader<'a> {
    closed spec fn stream(&self) -> Seq<u8> {
        self.data@.skip(self.position as int)
    }

    open spec fn never_fails(&self) -> bool {
        true
    }

    /// Never fails: it delivers as many bytes as the buffer, the per-read limit and
    /// the rest of the data allow.
    fn read(&mut self, buf: &mut [u8]) -> (r: Result<usize, IoError>)
        ensures
            r matches Ok(n) && n == min3(
                old(self).stream().len(),
                old(buf)@.len(),
                old(self).chunk(),
            ),
            final(self).chunk() == old(self).chunk(),
    {
        proof {
            use_type_invariant(&*self);
        }
        let len = self.data.len();
        let avail = len - self.position;
        let room = if buf.len() < self.max_read {
            buf.len()
        } else {
            self.max_read
        };
        let n = if avail < room {
            avail
        } else {
            room
        };
        let ghost old_buf = buf@;
        let mut k: usize = 0;
        while k < n
            invariant
                n <= avail,
                n <= old_buf.len(),
                len == self.data@.len(),
                avail == self.data@.len() - self.position,
                self.position <= self.data@.len(),
                buf@.len() == old_buf.len(),
                0 <= k <= n,
                forall|q: int| 0 <= q < k ==> #[trigger] buf@[q] == self.data@[self.position + q],
                forall|q: int| k <= q < old_buf.len() ==> #[trigger] buf@[q] == old_buf[q],
            decreases n - k,
        {
            buf[k] = self.data[self.position + k];
            k = k + 1;
        }
        let ghost old_stream = self.stream();
        assert(buf@.subrange(0, n as int) =~= old_stream.subrange(0, n as int));
        assert(buf@.subrange(n as int, old_buf.len() as int) =~= old_buf.subrange(
            n as int,
            old_buf.len() as int,
        ));
        self.position = self.position + n;
        assert(self.stream() =~= old_stream.skip(n as int));
        Ok(n)
    }
}

/// A sink of bytes, modelled as the sequence of bytes written so far.
pub trait Writer {
    /// The bytes written so far.
    spec fn written(&self) -> Seq<u8>;

    /// Whether writing to this sink always succeeds, as it does for one in memory.
    spec fn never_fails(&self) -> bool;

    /// Writes all of `bytes`.
    fn write_all(&mut self, bytes: &[u8]) -> (r: Result<(), IoError>)
        ensures
            r is Ok ==> final(self).written() == old(self).written() + bytes@,
            old(self).never_fails() ==> r is Ok,
            final(self).never_fails() == old(self).never_fails(),
    ;
}

/// A writer that collects the written bytes in a vector.
pub struct VecWriter {
    pub bytes: Vec<u8>,
}

impl VecWriter {
    pub fn new() -> (r: Self)
        ensures
            r.written() == Seq::<u8>::empty(),
            r.never_fails(),
    {
        VecWriter { bytes: Vec::new() }
    }
}

impl Writer for VecWriter {
    open spec fn written(&self) -> Seq<u8> {
        self.bytes@
    }

    open spec fn never_fails(&self) -> bool {
        true
    }

    /// Never fails.
    fn write_all(&mut self, bytes: &[u8]) -> (r: Result<(), IoError>)
        ensures
            r is Ok,
    {
        let mut k: usize = 0;
        let ghost start = self.bytes@;
        while k < bytes.len()
            invariant
                0 <= k <= bytes@.len(),
                self.bytes@ == start + bytes@.subrange(0, k as int),
            decreases bytes@.len() - k,
        {
            self.bytes.push(bytes[k]);
            k = k + 1;
            assert(self.bytes@ =~= start + bytes@.subrange(0, k as int));
        }
        assert(bytes@.subrange(0, bytes@.len() as int) =~= bytes@);
        Ok(())
    }
}

/// A writer that discards what it is given; it records the bytes only in its model.
pub struct Sink {
    pub count: Ghost<Seq<u8>>,
}

impl Sink {
    pub fn new() -> (r: Self)
        ensures
            r.written() == Seq::<u8>::empty(),
            r.never_fails(),
    {
        Sink { count: Ghost(Seq::empty()) }
    }
}

impl Writer for Sink {
    open spec fn written(&self) -> Seq<u8> {
        self.count@
    }

    open spec fn never_fails(&self) -> bool {
        true
    }

    /// Never fails.
    fn write_all(&mut self, bytes: &[u8]) -> (r: Result<(), IoError>)
        ensures
            r is Ok,
    {
        self.count = Ghost(self.count@ + bytes@);
        Ok(())
    }
}

} // verus!
