//! Copy JSON input to output, retaining the original structure and collapsing
//! whitespace: an example of `scan` with actions that keep state between events.
use vstd::prelude::*;

use crate::io::{IoError, Reader, Writer};
use crate::matcher::{array_name, bytes_eq, top_name, StreamOp, StructuralPseudoname};
use crate::rjiter::{
    long_copy, long_result, long_tail, ok_here, segs_bytes, segs_out, took_here, Op, Outcome, RJiter, token_step,
};
use crate::rjiter_error::{Error as RJiterError, ErrorType};
use crate::scan::{is_basic_peek, scan, top_entry, Options, ScanActions, ScanChoices, ScanEvent};
use crate::scan_error::Error as ScanError;
use crate::stack::ContextIter;
use crate::tokenizer::{jiter_next_number_bytes, Peeked};
use crate::u8pool::U8Pool;

verus! {

/// Whether the tokenizer reads the number `b` at `start` of `data`.
pub open spec fn number_bytes_at(data: Seq<u8>, start: int, b: Seq<u8>) -> bool {
    &&& 0 <= start <= data.len()
    &&& jiter_next_number_bytes(data.subrange(start, data.len() as int)).0 == Ok::<
        Seq<u8>,
        crate::rjiter_error::TokenError,
    >(b)
}

/// The bytes of `null`.
pub open spec fn null_bytes() -> Seq<u8> {
    seq![110u8, 117u8, 108u8, 108u8]
}

/// The bytes of `true`.
pub open spec fn true_bytes() -> Seq<u8> {
    seq![116u8, 114u8, 117u8, 101u8]
}

/// The bytes of `false`.
pub open spec fn false_bytes() -> Seq<u8> {
    seq![102u8, 97u8, 108u8, 115u8, 101u8]
}

/// Whether `after` is `before` followed by the atom whose first byte is `peeked`,
/// as `copy_atom` writes it, the tokenizer having read it from `data`. A string is
/// written with its quotes around exactly its raw bytes as the tokenizer reads them:
/// the pieces shifted out of the buffer after `prefix` (the stream before the
/// string), which `removed` ends with, then the rest read from `data`.
pub open spec fn copied_atom(
    peeked: Peeked,
    prefix: Seq<u8>,
    removed: Seq<u8>,
    data: Seq<u8>,
    before: Seq<u8>,
    after: Seq<u8>,
) -> bool {
    if peeked == Peeked::spec_null() {
        after == before + null_bytes()
    } else if peeked == Peeked::spec_true() {
        after == before + true_bytes()
    } else if peeked == Peeked::spec_false() {
        after == before + false_bytes()
    } else if peeked == Peeked::spec_string() {
        &&& after.len() > before.len()
        &&& after.last() == 34u8
        &&& exists|segs: Seq<(u8, Seq<u8>)>, start: int, tail: Seq<u8>|
            #[trigger] long_copy(false, prefix, removed, data, before.push(34u8), after.drop_last(), segs, start, tail)
    } else {
        exists|start: int, b: Seq<u8>|
            #[trigger] number_bytes_at(data, start, b) && after == before + b
    }
}

/// Copying pieces of a string without decoding writes their raw bytes.
proof fn lemma_segs_out_raw(segs: Seq<(u8, Seq<u8>)>)
    ensures
        segs_out(false, segs) == segs_bytes(segs),
        segs.len() == 0 ==> segs_bytes(segs).len() == 0,
    decreases segs.len(),
{
    if segs.len() > 0 {
        lemma_segs_out_raw(segs.drop_last());
    }
}

/// A string atom is copied as exactly its raw bytes between quotes: the bytes
/// shifted out of the buffer after the stream before the string (`prefix`), then
/// the rest of the string as the tokenizer reads it at some position of `data`.
pub proof fn lemma_copied_string(prefix: Seq<u8>, removed: Seq<u8>, data: Seq<u8>, before: Seq<u8>, after: Seq<u8>)
    requires
        copied_atom(Peeked::spec_string(), prefix, removed, data, before, after),
    ensures
        exists|raw: Seq<u8>, start: int, tail: Seq<u8>|
            #![trigger long_tail(false, data, start, tail), prefix + raw]
            long_tail(false, data, start, tail) && after == before + seq![34u8] + raw + tail + seq![34u8]
                && (raw.len() > 0 ==> removed == prefix + raw),
{
    Peeked::lemma_peek_bytes();
    let (segs, start, tail) = choose|segs: Seq<(u8, Seq<u8>)>, start: int, tail: Seq<u8>|
        #[trigger] long_copy(false, prefix, removed, data, before.push(34u8), after.drop_last(), segs, start, tail);
    lemma_segs_out_raw(segs);
    let raw = segs_bytes(segs);
    assert(after =~= after.drop_last().push(after.last()));
    assert(after =~= before + seq![34u8] + raw + tail + seq![34u8]);
    assert(long_tail(false, data, start, tail));
    assert(raw.len() > 0 ==> removed == prefix + raw);
}

/// Writes `bytes`, mapping a failure to an `IOError`.
fn write_bytes<W: Writer>(writer: &mut W, bytes: &[u8]) -> (r: Result<(), ScanError>)
    ensures
        r is Ok ==> final(writer).written() == old(writer).written() + bytes@,
        r matches Err(e) ==> e == ScanError::IOError(IoError),
        old(writer).never_fails() ==> r is Ok,
        final(writer).never_fails() == old(writer).never_fails(),
{
    match writer.write_all(bytes) {
        Ok(()) => Ok(()),
        Err(_) => Err(ScanError::IOError(IoError)),
    }
}

/// Copies a JSON atom (string, number, boolean or null) whose first byte is
/// `peeked` from the tokenizer to `writer`, consuming it. A string is copied with
/// its quotes and its escapes as they are; a number with the bytes it has in the input.
pub fn copy_atom<R: Reader, W: Writer>(peeked: Peeked, rjiter: &mut RJiter<R>, writer: &mut W) -> (r:
    Result<(), ScanError>)
    requires
        old(rjiter).wf(),
    ensures
        final(rjiter).wf(),
        final(rjiter).reader_never_fails() == old(rjiter).reader_never_fails(),
        old(rjiter).reader_never_fails() && old(writer).never_fails() ==> match r {
            Err(ScanError::IOError(_)) => false,
            Err(ScanError::RJiterError(e)) => !(e.error_type is IoError),
            _ => true,
        },
        final(rjiter).capacity() == old(rjiter).capacity(),
        final(rjiter).total_len() == old(rjiter).total_len(),
        final(rjiter).spec_current_index() >= old(rjiter).spec_current_index(),
        r is Ok ==> final(rjiter).spec_current_index() > old(rjiter).spec_current_index(),
        r is Ok ==> copied_atom(
            peeked,
            old(rjiter).removed() + old(rjiter).data().subrange(0, old(rjiter).pos()),
            final(rjiter).removed(),
            final(rjiter).data(),
            old(writer).written(),
            final(writer).written(),
        ),
        r matches Err(e) ==> match e {
            ScanError::IOError(_) | ScanError::RJiterError(_) => true,
            ScanError::UnhandledPeek { peek, position } => {
                &&& peek == peeked
                &&& peeked != Peeked::spec_null() && peeked != Peeked::spec_true()
                &&& peeked != Peeked::spec_false() && peeked != Peeked::spec_string()
                &&& position == final(rjiter).spec_current_index()
                &&& final(writer).written() == old(writer).written()
                &&& exists|e: RJiterError| #[trigger] crate::rjiter::error_step(Op::NextNumberBytes, final(rjiter).data(), e)
            },
            _ => false,
        },
        !is_basic_peek(peeked) ==> !(r matches Err(ScanError::RJiterError(_))),
        final(writer).never_fails() == old(writer).never_fails(),
        old(writer).never_fails() ==> ({
            let data = old(rjiter).data();
            let pos = old(rjiter).pos();
            &&& peeked == Peeked::spec_null() && ok_here(Op::KnownNull, false, data, pos) ==> r is Ok
            &&& (peeked == Peeked::spec_true() || peeked == Peeked::spec_false()) && ok_here(
                Op::KnownBool(peeked),
                false,
                data,
                pos,
            ) ==> r is Ok
            &&& peeked == Peeked::spec_string() && long_result(false, data.subrange(pos, data.len() as int))
                is Ok ==> r is Ok && final(writer).written() == old(writer).written() + seq![34u8]
                + long_result(false, data.subrange(pos, data.len() as int))->Ok_0 + seq![34u8]
            &&& !is_basic_peek(peeked) && ok_here(Op::NextNumberBytes, true, data, pos) ==> r is Ok
                && exists|v: Vec<u8>|
                #![trigger took_here(Op::NextNumberBytes, data, pos, final(rjiter).pos(), Ok(Outcome::Bytes(v)))]
                took_here(Op::NextNumberBytes, data, pos, final(rjiter).pos(), Ok(Outcome::Bytes(v)))
                    && final(writer).written() == old(writer).written() + v@
        }),
{
    proof {
        Peeked::lemma_peek_bytes();
    }
    if peeked == Peeked::string() {
        let quote: Vec<u8> = vec![34u8];
        write_bytes(writer, quote.as_slice())?;
        let ghost w1 = writer.written();
        match rjiter.write_long_bytes(writer) {
            Ok(()) => {},
            Err(e) => {
                return Err(ScanError::RJiterError(e));
            },
        }
        let ghost w2 = writer.written();
        write_bytes(writer, quote.as_slice())?;
        proof {
            let prefix = old(rjiter).removed() + old(rjiter).data().subrange(0, old(rjiter).pos());
            let (segs, start, tail) = choose|segs: Seq<(u8, Seq<u8>)>, start: int, tail: Seq<u8>|
                #[trigger] long_copy(false, prefix, rjiter.removed(), rjiter.data(), w1, w2, segs, start, tail);
            let w = writer.written();
            assert(w1 =~= old(writer).written().push(34u8));
            assert(w == w2 + quote@);
            assert(w.drop_last() =~= w2);
            assert(long_copy(false, prefix, rjiter.removed(), rjiter.data(), old(writer).written().push(34u8), w.drop_last(), segs, start, tail));
        }
        return Ok(());
    }
    if peeked == Peeked::null() {
        match rjiter.known_null() {
            Ok(()) => {},
            Err(e) => {
                return Err(ScanError::RJiterError(e));
            },
        }
        let text: Vec<u8> = vec![110u8, 117u8, 108u8, 108u8];
        assert(text@ =~= null_bytes());
        return write_bytes(writer, text.as_slice());
    }
    if peeked == Peeked::true_value() {
        match rjiter.known_bool(peeked) {
            Ok(_) => {},
            Err(e) => {
                return Err(ScanError::RJiterError(e));
            },
        }
        let text: Vec<u8> = vec![116u8, 114u8, 117u8, 101u8];
        assert(text@ =~= true_bytes());
        return write_bytes(writer, text.as_slice());
    }
    if peeked == Peeked::false_value() {
        match rjiter.known_bool(peeked) {
            Ok(_) => {},
            Err(e) => {
                return Err(ScanError::RJiterError(e));
            },
        }
        let text: Vec<u8> = vec![102u8, 97u8, 108u8, 115u8, 101u8];
        assert(text@ =~= false_bytes());
        return write_bytes(writer, text.as_slice());
    }
    match rjiter.next_number_bytes() {
        Ok(number) => {
            let r = write_bytes(writer, number.as_slice());
            proof {
                if r is Ok {
                    let (start, idx) = choose|start: int, idx: usize|
                        0 <= start <= rjiter.data().len() && crate::rjiter::op_result(
                            Op::NextNumberBytes,
                            rjiter.data().subrange(start, rjiter.data().len() as int),
                            Ok(Outcome::Bytes(number)),
                            idx,
                        ) && rjiter.pos() == crate::rjiter::clamp(start + idx, rjiter.data().len() as int);
                    assert(number_bytes_at(rjiter.data(), start, number@));
                }
            }
            r
        },
        Err(_) => Err(ScanError::UnhandledPeek { peek: peeked, position: rjiter.current_index() }),
    }
}


/// Where the output stands in the current array or object, and the key that waits
/// to be written before the next value.
enum IdtSequencePos {
    AtBeginning,
    InMiddle,
    AtBeginningKey(Vec<u8>),
    InMiddleKey(Vec<u8>),
    AfterKey,
}

/// What `write_seqpos` writes before the next value at `seqpos`: a separator in the
/// middle of a sequence (a space at the top level, a comma elsewhere) and a pending
/// key in quotes followed by a colon.
spec fn seqpos_prefix(seqpos: IdtSequencePos, top: bool) -> Seq<u8> {
    match seqpos {
        IdtSequencePos::AtBeginning => Seq::empty(),
        IdtSequencePos::InMiddle => if top {
            seq![32u8]
        } else {
            seq![44u8]
        },
        IdtSequencePos::AtBeginningKey(key) => seq![34u8] + key@ + seq![34u8, 58u8],
        IdtSequencePos::InMiddleKey(key) => seq![44u8, 34u8] + key@ + seq![34u8, 58u8],
        IdtSequencePos::AfterKey => Seq::empty(),
    }
}

/// Where the output stands once `write_seqpos` has written its prefix: right after
/// a key it stays there, otherwise it is in the middle of the sequence.
spec fn seqpos_next(seqpos: IdtSequencePos) -> IdtSequencePos {
    match seqpos {
        IdtSequencePos::AfterKey => IdtSequencePos::AfterKey,
        _ => IdtSequencePos::InMiddle,
    }
}

/// The state of the transformation, shared by its actions.
struct IdTransform<'a, W: Writer> {
    writer: &'a mut W,
    seqpos: IdtSequencePos,
    is_top_level: bool,
    io_error: Option<IoError>,
    rjiter_error: Option<RJiterError>,
    scan_error: Option<ScanError>,
    log: Ghost<Seq<ScanEvent>>,
}

/// The begin actions of the transformation.
#[derive(Clone, Copy)]
pub enum IdtAction {
    Key,
    Atom,
    Object,
    Array,
}

/// The end actions of the transformation.
#[derive(Clone, Copy)]
pub enum IdtEndAction {
    Object,
    Array,
}

/// Writes `bytes`; on failure records the I/O error and returns `message`.
fn write_store<W: Writer>(
    writer: &mut W,
    io_error: &mut Option<IoError>,
    bytes: &[u8],
    message: &'static str,
) -> (r: Result<(), &'static str>)
    ensures
        r is Ok ==> final(writer).written() == old(writer).written() + bytes@,
        r is Ok ==> *final(io_error) == *old(io_error),
        r matches Err(m) ==> m == message && *final(io_error) == Some(IoError),
{
    match writer.write_all(bytes) {
        Ok(()) => Ok(()),
        Err(e) => {
            *io_error = Some(e);
            Err(message)
        },
    }
}

impl<'a, W: Writer> IdTransform<'a, W> {
    fn new(writer: &'a mut W) -> (r: Self)
        ensures
            *r.writer == *old(writer),
            r.seqpos == IdtSequencePos::AtBeginning,
            r.is_top_level,
            r.io_error is None,
            r.rjiter_error is None,
            r.scan_error is None,
            r.log@ == Seq::<ScanEvent>::empty(),
    {
        IdTransform {
            writer,
            seqpos: IdtSequencePos::AtBeginning,
            is_top_level: true,
            io_error: None,
            rjiter_error: None,
            scan_error: None,
            log: Ghost(Seq::empty()),
        }
    }

    /// Writes what has to come before the next value: a separator in the middle of
    /// a sequence (a space at the top level, a comma inside arrays and objects), and
    /// the pending key.
    fn write_seqpos(&mut self) -> (r: Result<(), &'static str>)
        ensures
            final(self).log == old(self).log,
            final(self).is_top_level == old(self).is_top_level,
            final(self).rjiter_error == old(self).rjiter_error,
            final(self).scan_error == old(self).scan_error,
            r is Ok ==> final(self).writer.written() == old(self).writer.written() + seqpos_prefix(
                old(self).seqpos,
                old(self).is_top_level,
            ),
            r is Ok ==> final(self).seqpos == seqpos_next(old(self).seqpos),
            r is Ok ==> final(self).io_error == old(self).io_error,
            r is Err ==> final(self).io_error == Some(IoError),
    {
        match &self.seqpos {
            IdtSequencePos::AtBeginning => {},
            IdtSequencePos::InMiddle => {
                let sep: Vec<u8> = if self.is_top_level {
                    vec![32u8]
                } else {
                    vec![44u8]
                };
                write_store(
                    self.writer,
                    &mut self.io_error,
                    sep.as_slice(),
                    "IO error writing sequence position",
                )?;
            },
            IdtSequencePos::AtBeginningKey(key) => {
                let open: Vec<u8> = vec![34u8];
                let close: Vec<u8> = vec![34u8, 58u8];
                write_store(self.writer, &mut self.io_error, open.as_slice(), "IO error writing key quote")?;
                write_store(self.writer, &mut self.io_error, key.as_slice(), "IO error writing key")?;
                write_store(
                    self.writer,
                    &mut self.io_error,
                    close.as_slice(),
                    "IO error writing key suffix",
                )?;
            },
            IdtSequencePos::InMiddleKey(key) => {
                let open: Vec<u8> = vec![44u8, 34u8];
                let close: Vec<u8> = vec![34u8, 58u8];
                write_store(self.writer, &mut self.io_error, open.as_slice(), "IO error writing key prefix")?;
                write_store(self.writer, &mut self.io_error, key.as_slice(), "IO error writing key")?;
                write_store(
                    self.writer,
                    &mut self.io_error,
                    close.as_slice(),
                    "IO error writing key suffix",
                )?;
            },
            IdtSequencePos::AfterKey => {
                return Ok(());
            },
        }
        self.seqpos = IdtSequencePos::InMiddle;
        Ok(())
    }

    /// Begin of an array or object: the separator or key, then `bytes`.
    fn on_struct(&mut self, bytes: &[u8]) -> (r: StreamOp)
        ensures
            final(self).log == old(self).log,
            r is Continue || r is Error,
            final(self).is_top_level == old(self).is_top_level,
            final(self).rjiter_error == old(self).rjiter_error,
            final(self).scan_error == old(self).scan_error,
            r is Continue ==> final(self).writer.written() == old(self).writer.written()
                + seqpos_prefix(old(self).seqpos, old(self).is_top_level) + bytes@,
            r is Continue ==> final(self).seqpos == IdtSequencePos::AtBeginning,
            r is Continue ==> final(self).io_error == old(self).io_error,
            r is Error ==> final(self).io_error == Some(IoError),
    {
        if let Err(message) = self.write_seqpos() {
            return StreamOp::Error(message);
        }
        if let Err(message) = write_store(self.writer, &mut self.io_error, bytes, "IO error writing struct") {
            return StreamOp::Error(message);
        }
        self.seqpos = IdtSequencePos::AtBeginning;
        StreamOp::Continue
    }

    /// End of an array or object: `bytes`.
    fn on_struct_end(&mut self, bytes: &[u8]) -> (r: Result<(), &'static str>)
        ensures
            final(self).log == old(self).log,
            final(self).seqpos == IdtSequencePos::InMiddle,
            final(self).is_top_level == old(self).is_top_level,
            final(self).rjiter_error == old(self).rjiter_error,
            final(self).scan_error == old(self).scan_error,
            r is Ok ==> final(self).writer.written() == old(self).writer.written() + bytes@,
            r is Ok ==> final(self).io_error == old(self).io_error,
            r is Err ==> final(self).io_error == Some(IoError),
    {
        self.seqpos = IdtSequencePos::InMiddle;
        write_store(self.writer, &mut self.io_error, bytes, "IO error writing struct end")
    }

    /// An atom: the separator or key, then the atom copied; errors are kept for
    /// `idtransform` to report.
    fn on_atom<R: Reader>(&mut self, rjiter: &mut RJiter<R>) -> (r: StreamOp)
        requires
            old(rjiter).wf(),
        ensures
            final(self).log == old(self).log,
            final(rjiter).wf(),
            final(rjiter).reader_never_fails() == old(rjiter).reader_never_fails(),
            final(rjiter).capacity() == old(rjiter).capacity(),
            final(rjiter).total_len() == old(rjiter).total_len(),
            final(rjiter).spec_current_index() >= old(rjiter).spec_current_index(),
            r is ValueIsConsumed ==> final(rjiter).spec_current_index() > old(
                rjiter,
            ).spec_current_index(),
            r is ValueIsConsumed || r is Error,
            final(self).is_top_level == old(self).is_top_level,
            r is ValueIsConsumed ==> final(self).seqpos == seqpos_next(old(self).seqpos),
            r is ValueIsConsumed ==> exists|p: Peeked, prefix: Seq<u8>|
                #[trigger] copied_atom(
                    p,
                    prefix,
                    final(rjiter).removed(),
                    final(rjiter).data(),
                    old(self).writer.written() + seqpos_prefix(old(self).seqpos, old(self).is_top_level),
                    final(self).writer.written(),
                ),
            r is Error ==> final(self).io_error is Some || final(self).rjiter_error is Some
                || final(self).scan_error is Some,
    {
        if let Err(message) = self.write_seqpos() {
            return StreamOp::Error(message);
        }
        match rjiter.peek() {
            Ok(peeked) => match copy_atom(peeked, rjiter, self.writer) {
                Ok(()) => StreamOp::ValueIsConsumed,
                Err(e) => {
                    match e {
                        ScanError::IOError(kind) => {
                            self.io_error = Some(kind);
                        },
                        ScanError::RJiterError(rjiter_error) => {
                            if let ErrorType::IoError(kind) = rjiter_error.error_type {
                                self.io_error = Some(kind);
                            }
                            self.rjiter_error = Some(rjiter_error);
                        },
                        other_error => {
                            self.scan_error = Some(other_error);
                        },
                    }
                    StreamOp::Error("Error copying atom (stored in idt)")
                },
            },
            Err(e) => {
                if let ErrorType::IoError(kind) = e.error_type {
                    self.io_error = Some(kind);
                }
                self.rjiter_error = Some(e);
                StreamOp::Error("RJiter error (stored in idt)")
            },
        }
    }
}

impl<'a, W: Writer> IdTransform<'a, W> {
    /// The bytes written to the output so far.
    pub closed spec fn out(&self) -> Seq<u8> {
        self.writer.written()
    }

    /// Whether the current value is at the top level.
    pub closed spec fn top_level(&self) -> bool {
        self.is_top_level
    }

    /// What is written before the next value: a separator and a pending key.
    pub closed spec fn pending(&self) -> Seq<u8> {
        seqpos_prefix(self.seqpos, self.is_top_level)
    }

    /// Whether the output is right after a key.
    pub closed spec fn after_key(&self) -> bool {
        self.seqpos is AfterKey
    }

    /// Whether the output is at the beginning of an array or object.
    pub closed spec fn at_beginning(&self) -> bool {
        self.seqpos is AtBeginning
    }

    /// Whether the output is in the middle of a sequence, with no key pending.
    pub closed spec fn in_middle(&self) -> bool {
        self.seqpos is InMiddle
    }

    /// Whether a key waits to be written.
    pub closed spec fn key_pending(&self) -> bool {
        self.seqpos is AtBeginningKey || self.seqpos is InMiddleKey
    }

    /// Whether `self` and `other` stand at the same place of the output.
    pub closed spec fn same_place(&self, other: &Self) -> bool {
        self.seqpos == other.seqpos
    }

    /// The errors kept for `idtransform` to report.
    pub closed spec fn kept(&self) -> (Option<IoError>, Option<RJiterError>, Option<ScanError>) {
        (self.io_error, self.rjiter_error, self.scan_error)
    }

    /// Whether an error was kept.
    pub closed spec fn failure_kept(&self) -> bool {
        self.io_error is Some || self.rjiter_error is Some || self.scan_error is Some
    }
}

impl<'a, W: Writer> IdTransform<'a, W> {
    /// Every atom, array and object gets an action, noting whether it is at the top
    /// level; a key gets one unless it is the name of the top level or of an array,
    /// and then becomes the pending key.
    fn choose_begin(&mut self, kind: StructuralPseudoname, context: ContextIter) -> (r: Option<IdtAction>)
        requires
            context.valid(),
        ensures
            final(self).log == old(self).log,
            final(self).out() == old(self).out(),
            final(self).kept() == old(self).kept(),
            kind != StructuralPseudoname::Key ==> {
                &&& final(self).top_level() == (context.items().len() < 2)
                &&& final(self).same_place(old(self))
                &&& r == Some(
                    match kind {
                        StructuralPseudoname::Atom => IdtAction::Atom,
                        StructuralPseudoname::Object => IdtAction::Object,
                        _ => IdtAction::Array,
                    },
                )
            },
            kind == StructuralPseudoname::Key ==> {
                let names = context.names();
                &&& final(self).top_level() == old(self).top_level()
                &&& if names.len() > 0 && names[0] != top_name() && names[0] != array_name() {
                    &&& r == Some(IdtAction::Key)
                    &&& final(self).key_pending()
                    &&& final(self).pending() == if old(self).at_beginning() {
                        seq![34u8] + names[0] + seq![34u8, 58u8]
                    } else {
                        seq![44u8, 34u8] + names[0] + seq![34u8, 58u8]
                    }
                } else {
                    r is None && final(self).same_place(old(self))
                }
            },
    {
        let mut context = context;
        let context_count = context.len();
        match kind {
            StructuralPseudoname::Atom => {
                self.is_top_level = context_count < 2;
                Some(IdtAction::Atom)
            },
            StructuralPseudoname::Object => {
                self.is_top_level = context_count < 2;
                Some(IdtAction::Object)
            },
            StructuralPseudoname::Array => {
                self.is_top_level = context_count < 2;
                Some(IdtAction::Array)
            },
            StructuralPseudoname::Key => {
                match context.next() {
                    Some(key_bytes) => {
                        let top: Vec<u8> = vec![35u8, 116u8, 111u8, 112u8];
                        let array: Vec<u8> = vec![35u8, 97u8, 114u8, 114u8, 97u8, 121u8];
                        if !bytes_eq(key_bytes, top.as_slice()) && !bytes_eq(key_bytes, array.as_slice()) {
                            let mut key: Vec<u8> = Vec::new();
                            let mut i: usize = 0;
                            while i < key_bytes.len()
                                invariant
                                    i <= key_bytes@.len(),
                                    key@ == key_bytes@.subrange(0, i as int),
                                decreases key_bytes@.len() - i,
                            {
                                key.push(key_bytes[i]);
                                i = i + 1;
                                assert(key@ =~= key_bytes@.subrange(0, i as int));
                            }
                            assert(key@ =~= key_bytes@);
                            self.seqpos = match &self.seqpos {
                                IdtSequencePos::AtBeginning => IdtSequencePos::AtBeginningKey(key),
                                _ => IdtSequencePos::InMiddleKey(key),
                            };
                            Some(IdtAction::Key)
                        } else {
                            None
                        }
                    },
                    None => None,
                }
            },
        }
    }

    /// Arrays and objects get an end action, nothing else does.
    fn choose_end(&self, kind: StructuralPseudoname) -> (r: Option<IdtEndAction>)
        ensures
            r == match kind {
                StructuralPseudoname::Object => Some(IdtEndAction::Object),
                StructuralPseudoname::Array => Some(IdtEndAction::Array),
                _ => None,
            },
    {
        match kind {
            StructuralPseudoname::Object => Some(IdtEndAction::Object),
            StructuralPseudoname::Array => Some(IdtEndAction::Array),
            _ => None,
        }
    }

    /// Writes the closing bracket of the object or array.
    fn run_end(&mut self, action: IdtEndAction) -> (r: Result<(), &'static str>)
        ensures
            final(self).log == old(self).log,
            final(self).in_middle(),
            final(self).top_level() == old(self).top_level(),
            r is Ok ==> final(self).out() == old(self).out() + seq![
                if action is Object {
                    125u8
                } else {
                    93u8
                },
            ],
            r is Err ==> final(self).kept().0 == Some(IoError),
    {
        match action {
            IdtEndAction::Object => {
                let b: Vec<u8> = vec![125u8];
                self.on_struct_end(b.as_slice())
            },
            IdtEndAction::Array => {
                let b: Vec<u8> = vec![93u8];
                self.on_struct_end(b.as_slice())
            },
        }
    }

    /// A key writes its separator and itself; an atom is copied (`on_atom`); an
    /// array or object writes its separator or key and its opening bracket.
    fn run_begin<R: Reader>(&mut self, action: IdtAction, rjiter: &mut RJiter<R>) -> (r: StreamOp)
        requires
            old(rjiter).wf(),
        ensures
            final(self).log == old(self).log,
            final(rjiter).wf(),
            final(rjiter).reader_never_fails() == old(rjiter).reader_never_fails(),
            final(rjiter).capacity() == old(rjiter).capacity(),
            final(rjiter).total_len() == old(rjiter).total_len(),
            final(rjiter).spec_current_index() >= old(rjiter).spec_current_index(),
            r is ValueIsConsumed ==> final(rjiter).spec_current_index() > old(
                rjiter,
            ).spec_current_index(),
            r is Error ==> final(self).failure_kept(),
            final(self).top_level() == old(self).top_level(),
            match action {
                IdtAction::Key => {
                    &&& r is Continue || r is Error
                    &&& *final(rjiter) == *old(rjiter)
                    &&& r is Continue ==> final(self).out() == old(self).out() + old(self).pending()
                    &&& r is Continue ==> final(self).after_key()
                },
                IdtAction::Atom => {
                    &&& r is ValueIsConsumed || r is Error
                    &&& r is ValueIsConsumed ==> if old(self).after_key() {
                        final(self).after_key()
                    } else {
                        final(self).in_middle()
                    }
                    &&& r is ValueIsConsumed ==> exists|p: Peeked, prefix: Seq<u8>|
                        #[trigger] copied_atom(
                            p,
                            prefix,
                            final(rjiter).removed(),
                            final(rjiter).data(),
                            old(self).out() + old(self).pending(),
                            final(self).out(),
                        )
                },
                IdtAction::Object | IdtAction::Array => {
                    &&& r is Continue || r is Error
                    &&& *final(rjiter) == *old(rjiter)
                    &&& r is Continue ==> final(self).out() == old(self).out() + old(self).pending()
                        + seq![
                        if action is Object {
                            123u8
                        } else {
                            91u8
                        },
                    ]
                    &&& r is Continue ==> final(self).at_beginning()
                },
            },
    {
        match action {
            IdtAction::Key => {
                if let Err(message) = self.write_seqpos() {
                    return StreamOp::Error(message);
                }
                self.seqpos = IdtSequencePos::AfterKey;
                StreamOp::Continue
            },
            IdtAction::Atom => {
                let r = self.on_atom(rjiter);
                proof {
                    if r is ValueIsConsumed {
                        let (p, prefix) = choose|p: Peeked, prefix: Seq<u8>|
                            #[trigger] copied_atom(
                                p,
                                prefix,
                                rjiter.removed(),
                                rjiter.data(),
                                old(self).writer.written() + seqpos_prefix(
                                    old(self).seqpos,
                                    old(self).is_top_level,
                                ),
                                self.writer.written(),
                            );
                        assert(copied_atom(p, prefix, rjiter.removed(), rjiter.data(), old(self).out() + old(self).pending(), self.out()));
                    }
                }
                r
            },
            IdtAction::Object => {
                let b: Vec<u8> = vec![123u8];
                self.on_struct(b.as_slice())
            },
            IdtAction::Array => {
                let b: Vec<u8> = vec![91u8];
                self.on_struct(b.as_slice())
            },
        }
    }
}

impl<'a, W: Writer> ScanChoices for IdTransform<'a, W> {
    type Action = IdtAction;

    type EndAction = IdtEndAction;

    closed spec fn log(&self) -> Seq<ScanEvent> {
        self.log@
    }

    /// Every atom, array and object gets an action, noting whether it is at the top
    /// level; a key gets one unless it is the name of the top level or of an array,
    /// and then becomes the pending key.
    fn find_action(&mut self, kind: StructuralPseudoname, context: ContextIter) -> (r: Option<IdtAction>)
        ensures
            final(self).out() == old(self).out(),
            final(self).kept() == old(self).kept(),
            kind != StructuralPseudoname::Key ==> {
                &&& final(self).top_level() == (context.items().len() < 2)
                &&& final(self).same_place(old(self))
                &&& r == Some(
                    match kind {
                        StructuralPseudoname::Atom => IdtAction::Atom,
                        StructuralPseudoname::Object => IdtAction::Object,
                        _ => IdtAction::Array,
                    },
                )
            },
            kind == StructuralPseudoname::Key ==> {
                let names = context.names();
                &&& final(self).top_level() == old(self).top_level()
                &&& if names.len() > 0 && names[0] != top_name() && names[0] != array_name() {
                    &&& r == Some(IdtAction::Key)
                    &&& final(self).key_pending()
                    &&& final(self).pending() == if old(self).at_beginning() {
                        seq![34u8] + names[0] + seq![34u8, 58u8]
                    } else {
                        seq![44u8, 34u8] + names[0] + seq![34u8, 58u8]
                    }
                } else {
                    r is None && final(self).same_place(old(self))
                }
            },
    {
        let ghost names = context.names();
        let r = self.choose_begin(kind, context);
        self.log = Ghost(self.log@.push(ScanEvent::Find(kind, names, r is Some)));
        r
    }

    /// Arrays and objects get an end action, nothing else does.
    fn find_end_action(&mut self, kind: StructuralPseudoname, context: ContextIter) -> (r: Option<IdtEndAction>)
        ensures
            final(self).out() == old(self).out(),
            final(self).kept() == old(self).kept(),
            final(self).top_level() == old(self).top_level(),
            final(self).same_place(old(self)),
            r == match kind {
                StructuralPseudoname::Object => Some(IdtEndAction::Object),
                StructuralPseudoname::Array => Some(IdtEndAction::Array),
                _ => None,
            },
    {
        let r = self.choose_end(kind);
        self.log = Ghost(self.log@.push(ScanEvent::FindEnd(kind, context.names(), r is Some)));
        r
    }

    /// Writes the closing bracket of the object or array.
    fn call_end_action(&mut self, action: IdtEndAction) -> (r: Result<(), &'static str>)
        ensures
            final(self).in_middle(),
            final(self).top_level() == old(self).top_level(),
            r is Ok ==> final(self).out() == old(self).out() + seq![
                if action is Object {
                    125u8
                } else {
                    93u8
                },
            ],
            r is Err ==> final(self).kept().0 == Some(IoError),
    {
        let r = self.run_end(action);
        self.log = Ghost(self.log@.push(ScanEvent::End(r)));
        r
    }
}

impl<'a, R: Reader, W: Writer> ScanActions<R> for IdTransform<'a, W> {
    /// A key writes its separator and itself; an atom is copied (`on_atom`); an
    /// array or object writes its separator or key and its opening bracket.
    fn call_action(&mut self, action: IdtAction, rjiter: &mut RJiter<R>) -> (r: StreamOp)
        ensures
            r is Error ==> final(self).failure_kept(),
            final(self).top_level() == old(self).top_level(),
            match action {
                IdtAction::Key => {
                    &&& r is Continue || r is Error
                    &&& *final(rjiter) == *old(rjiter)
                    &&& r is Continue ==> final(self).out() == old(self).out() + old(self).pending()
                    &&& r is Continue ==> final(self).after_key()
                },
                IdtAction::Atom => {
                    &&& r is ValueIsConsumed || r is Error
                    &&& r is ValueIsConsumed ==> if old(self).after_key() {
                        final(self).after_key()
                    } else {
                        final(self).in_middle()
                    }
                    &&& r is ValueIsConsumed ==> exists|p: Peeked, prefix: Seq<u8>|
                        #[trigger] copied_atom(
                            p,
                            prefix,
                            final(rjiter).removed(),
                            final(rjiter).data(),
                            old(self).out() + old(self).pending(),
                            final(self).out(),
                        )
                },
                IdtAction::Object | IdtAction::Array => {
                    &&& r is Continue || r is Error
                    &&& *final(rjiter) == *old(rjiter)
                    &&& r is Continue ==> final(self).out() == old(self).out() + old(self).pending()
                        + seq![
                        if action is Object {
                            123u8
                        } else {
                            91u8
                        },
                    ]
                    &&& r is Continue ==> final(self).at_beginning()
                },
            },
    {
        let r = self.run_begin(action, rjiter);
        proof {
            crate::rjiter::lemma_ws_skipped_none(old(rjiter).remaining(), None);
        }
        let ghost mid = *self;
        self.log = Ghost(self.log@.push(ScanEvent::Begin(r)));
        proof {
            assert(self.out() == mid.out());
            if action is Atom && r is ValueIsConsumed {
                let (p, prefix) = choose|p: Peeked, prefix: Seq<u8>|
                    #[trigger] copied_atom(p, prefix, rjiter.removed(), rjiter.data(), old(self).out() + old(self).pending(), mid.out());
                assert(copied_atom(p, prefix, rjiter.removed(), rjiter.data(), old(self).out() + old(self).pending(), self.out()));
            }
        }
        r
    }
}

/// Copies the JSON value of `rjiter` to `writer`, retaining its structure and
/// collapsing whitespace. `working_buffer` holds the context stack of `scan`.
///
/// Fails with `scan`'s error (malformed JSON, nesting too deep, ...); an I/O error
/// while writing is reported as such, before other errors.
pub fn idtransform<R: Reader, W: Writer>(
    rjiter: &mut RJiter<R>,
    writer: &mut W,
    working_buffer: &mut U8Pool,
) -> (r: Result<(), ScanError>)
    requires
        old(rjiter).wf(),
        old(working_buffer).wf(),
    ensures
        final(rjiter).wf(),
        final(working_buffer).wf(),
        final(rjiter).capacity() == old(rjiter).capacity(),
        final(rjiter).total_len() == old(rjiter).total_len(),
        r is Ok ==> final(working_buffer)@ == old(working_buffer)@.push(top_entry()),
        r is Ok ==> final(rjiter).spec_current_index() >= old(rjiter).spec_current_index(),
        !old(working_buffer).assoc_fits(1, 1, top_name().len() as int) ==> r == Err::<(), ScanError>(
            ScanError::MaxNestingExceeded {
                position: old(rjiter).spec_current_index() as usize,
                level: 0,
            },
        ),
{
    let mut idt = IdTransform::new(writer);
    let options = Options { sse_tokens: &[], stop_early: true };
    let scan_result = scan(&mut idt, rjiter, working_buffer, &options);
    if let Err(scan_error) = scan_result {
        if let Some(io_error_kind) = idt.io_error {
            return Err(ScanError::IOError(io_error_kind));
        }
        if let Some(rjiter_error) = idt.rjiter_error {
            return Err(ScanError::RJiterError(rjiter_error));
        }
        if let Some(stored_scan_error) = idt.scan_error {
            return Err(stored_scan_error);
        }
        return Err(scan_error);
    }
    Ok(())
}
} // verus!
