use vstd::prelude::*;

use crate::assoc::AssocValue;
use crate::io::{Reader, Sink};
use crate::matcher::{array_name, top_name, StreamOp, StructuralPseudoname};
use crate::pool_error::U8PoolError;
use crate::rjiter::{
    error_step, finish_ok_at, lemma_ws_skipped_none, long_error, long_tail, stream_step, token_step, ws_skipped, Op,
    Outcome, RJiter,
};
use crate::rjiter_error::{ErrorType, JsonErrorKind};
use crate::scan_error::Error as ScanError;
use crate::stack::{spec_context_names, ContextIter};
use crate::tokenizer::Peeked;
use crate::u8pool::{spec_assoc_items, spec_get_assoc, U8Pool};

verus! {

/// Options for configuring the scan behavior.
#[derive(Debug)]
pub struct Options<'options> {
    /// Slice of SSE tokens to ignore at the top level.
    pub sse_tokens: &'options [&'options [u8]],
    /// Whether to stop scanning as soon as possible, or scan the complete JSON stream.
    pub stop_early: bool,
}

impl<'options> Options<'options> {
    /// Default options: no SSE tokens, scan the whole stream.
    pub fn new() -> (r: Self)
        ensures
            r.sse_tokens@.len() == 0,
            !r.stop_early,
    {
        Self { sse_tokens: &[], stop_early: false }
    }

    /// Options with the given SSE tokens, scanning the whole stream.
    pub fn with_sse_tokens(tokens: &'options [&'options [u8]]) -> (r: Self)
        ensures
            r.sse_tokens == tokens,
            !r.stop_early,
    {
        Self { sse_tokens: tokens, stop_early: false }
    }
}

/// Position in the JSON structure during scanning.
#[derive(Debug, Clone, Copy, PartialEq, Eq, Structural)]
pub enum StructurePosition {
    /// At the top level of the JSON document.
    Top,
    /// At the beginning of an object (just opened).
    ObjectBegin,
    /// In the middle of an object.
    ObjectMiddle,
    /// Between key and value in an object.
    ObjectBetweenKV,
    /// At the beginning of an array (just opened).
    ArrayBegin,
    /// In the middle of an array.
    ArrayMiddle,
}

/// The one-byte code of a position in a context stack.
pub open spec fn position_code(p: StructurePosition) -> u8 {
    match p {
        StructurePosition::Top => 0,
        StructurePosition::ObjectBegin => 1,
        StructurePosition::ObjectMiddle => 2,
        StructurePosition::ObjectBetweenKV => 3,
        StructurePosition::ArrayBegin => 4,
        StructurePosition::ArrayMiddle => 5,
    }
}

/// The position of a one-byte code; unknown codes read as `Top`.
pub open spec fn position_of_code(b: u8) -> StructurePosition {
    if b == 1 {
        StructurePosition::ObjectBegin
    } else if b == 2 {
        StructurePosition::ObjectMiddle
    } else if b == 3 {
        StructurePosition::ObjectBetweenKV
    } else if b == 4 {
        StructurePosition::ArrayBegin
    } else if b == 5 {
        StructurePosition::ArrayMiddle
    } else {
        StructurePosition::Top
    }
}

impl AssocValue for StructurePosition {
    open spec fn spec_size() -> nat {
        1
    }

    open spec fn spec_align() -> nat {
        1
    }

    open spec fn spec_encode(&self) -> Seq<u8> {
        seq![position_code(*self)]
    }

    open spec fn spec_decode(bytes: Seq<u8>) -> StructurePosition {
        position_of_code(bytes[0])
    }

    fn assoc_size() -> (r: usize) {
        1
    }

    fn assoc_align() -> (r: usize) {
        1
    }

    fn encoded_byte(&self, i: usize) -> (r: u8) {
        match self {
            StructurePosition::Top => 0,
            StructurePosition::ObjectBegin => 1,
            StructurePosition::ObjectMiddle => 2,
            StructurePosition::ObjectBetweenKV => 3,
            StructurePosition::ArrayBegin => 4,
            StructurePosition::ArrayMiddle => 5,
        }
    }

    fn decode(bytes: &[u8]) -> (r: StructurePosition) {
        let b = bytes[0];
        if b == 1 {
            StructurePosition::ObjectBegin
        } else if b == 2 {
            StructurePosition::ObjectMiddle
        } else if b == 3 {
            StructurePosition::ObjectBetweenKV
        } else if b == 4 {
            StructurePosition::ArrayBegin
        } else if b == 5 {
            StructurePosition::ArrayMiddle
        } else {
            StructurePosition::Top
        }
    }

    proof fn lemma_encode_decode(v: StructurePosition) {
    }
}


/// The entry of a context stack for `p` and `name`: the position's code, then the name.
pub open spec fn entry(p: StructurePosition, name: Seq<u8>) -> Seq<u8> {
    seq![position_code(p)] + name
}

/// The entry that `scan` pushes first.
pub open spec fn top_entry() -> Seq<u8> {
    entry(StructurePosition::Top, top_name())
}

/// An entry of a key inside an object.
pub open spec fn is_object_frame(f: Seq<u8>) -> bool {
    f.len() >= 1 && f[0] == position_code(StructurePosition::ObjectMiddle)
}

/// The entry of an array.
pub open spec fn is_array_frame(f: Seq<u8>) -> bool {
    f == entry(StructurePosition::ArrayMiddle, array_name())
}

/// The context stack of `scan`: the caller's entries `base`, the top-level entry,
/// then one entry per open array or object key; `position` agrees with the top entry.
pub open spec fn stack_ok(pool: Seq<Seq<u8>>, base: Seq<Seq<u8>>, position: StructurePosition) -> bool {
    &&& pool.len() > base.len()
    &&& pool.subrange(0, base.len() as int) == base
    &&& pool[base.len() as int] == top_entry()
    &&& forall|i: int|
        base.len() < i < pool.len() ==> is_object_frame(#[trigger] pool[i]) || is_array_frame(
            pool[i],
        )
    &&& match position {
        StructurePosition::Top => pool.len() == base.len() + 1,
        StructurePosition::ObjectMiddle | StructurePosition::ObjectBetweenKV => pool.len()
            > base.len() + 1 && is_object_frame(pool.last()),
        StructurePosition::ArrayMiddle => pool.len() > base.len() + 1 && is_array_frame(
            pool.last(),
        ),
        _ => true,
    }
}

/// The rank of a position in the progress measure of `scan`: an array or object
/// about to be entered comes before everything else.
pub open spec fn position_rank(p: StructurePosition) -> int {
    match p {
        StructurePosition::ObjectBegin | StructurePosition::ArrayBegin => 0,
        _ => 1,
    }
}

/// What happened between `scan` and its callbacks, in the order it happened.
pub enum ScanEvent {
    /// A begin action was looked up for this kind of event in this context (the
    /// names of the context stack, the innermost first), and one was found or not.
    Find(StructuralPseudoname, Seq<Seq<u8>>, bool),
    /// An end action was looked up for this kind of event in this context, and one
    /// was found or not.
    FindEnd(StructuralPseudoname, Seq<Seq<u8>>, bool),
    /// A begin action ran and returned this.
    Begin(StreamOp),
    /// An end action ran and returned this.
    End(Result<(), &'static str>),
}

/// The names of the context stack `pool`, the innermost first, as a `ContextIter`
/// returns them.
pub open spec fn ctx_names(pool: Seq<Seq<u8>>) -> Seq<Seq<u8>> {
    spec_context_names(spec_assoc_items::<StructurePosition>(pool).reverse())
}

/// Whether `e` reports an error of a callback, with the message `m`.
pub open spec fn error_event(e: ScanEvent, m: &'static str) -> bool {
    ||| e matches ScanEvent::Begin(StreamOp::Error(x)) && x == m
    ||| e matches ScanEvent::End(Err(x)) && x == m
}

/// Whether `e` reports an error of a callback.
pub open spec fn is_error_event(e: ScanEvent) -> bool {
    ||| e matches ScanEvent::Begin(StreamOp::Error(_))
    ||| e matches ScanEvent::End(Err(_))
}

/// The lookup of a begin action (`begin`) or of an end action for `kind` in
/// `names`, which found one or not.
pub open spec fn find_event(begin: bool, kind: StructuralPseudoname, names: Seq<Seq<u8>>, found: bool) -> ScanEvent {
    if begin {
        ScanEvent::Find(kind, names, found)
    } else {
        ScanEvent::FindEnd(kind, names, found)
    }
}

/// Whether the events `ext` are the lookup of a begin action (`begin`) or of an end
/// action for `kind` in `names`, followed by the run of the action exactly when one
/// was found.
pub open spec fn lookup_then(ext: Seq<ScanEvent>, begin: bool, kind: StructuralPseudoname, names: Seq<Seq<u8>>) -> bool {
    ||| ext.len() == 1 && ext[0] == find_event(begin, kind, names, false)
    ||| ext.len() == 2 && ext[0] == find_event(begin, kind, names, true) && (if begin {
        ext[1] is Begin
    } else {
        ext[1] is End
    })
}

/// Whether `ext` is the lookup of the begin action of `kind` in `names`, perhaps
/// followed by that action returning `StreamOp::Continue`: the structure is entered.
pub open spec fn opened(ext: Seq<ScanEvent>, kind: StructuralPseudoname, names: Seq<Seq<u8>>) -> bool {
    &&& lookup_then(ext, true, kind, names)
    &&& ext.len() == 2 ==> ext[1] == ScanEvent::Begin(StreamOp::Continue)
}

/// Whether `ext` is the lookup of the begin action of `kind` in `names` followed by
/// that action consuming the value.
pub open spec fn consumed(ext: Seq<ScanEvent>, kind: StructuralPseudoname, names: Seq<Seq<u8>>) -> bool {
    &&& ext.len() == 2
    &&& ext[0] == ScanEvent::Find(kind, names, true)
    &&& ext[1] == ScanEvent::Begin(StreamOp::ValueIsConsumed)
}

/// Whether `ext` is the lookup of the end action of `kind` in `names`, perhaps
/// followed by that action succeeding.
pub open spec fn closed_ok(ext: Seq<ScanEvent>, kind: StructuralPseudoname, names: Seq<Seq<u8>>) -> bool {
    &&& lookup_then(ext, false, kind, names)
    &&& ext.len() == 2 ==> (ext[1] matches ScanEvent::End(res) && res is Ok)
}

/// Whether no event of `ext` reports an error of a callback.
pub open spec fn no_error_events(ext: Seq<ScanEvent>) -> bool {
    forall|k: int| 0 <= k < ext.len() ==> !is_error_event(#[trigger] ext[k])
}

/// Whether the events `ext` agree with the result `r` on errors of callbacks:
/// `r` is an `ActionError` with a message exactly when the last event reports an
/// error with that message, and no other event reports one.
pub open spec fn errors_agree<T>(ext: Seq<ScanEvent>, r: Result<T, ScanError>) -> bool {
    match r {
        Err(ScanError::ActionError { message, .. }) => ext.len() > 0 && error_event(ext.last(), message)
            && no_error_events(ext.drop_last()),
        _ => no_error_events(ext),
    }
}

/// The events `log` has after its first `n`.
pub open spec fn events_after(log: Seq<ScanEvent>, n: int) -> Seq<ScanEvent> {
    log.subrange(n, log.len() as int)
}

/// Events appended one after the other.
proof fn lemma_events_concat(l0: Seq<ScanEvent>, l1: Seq<ScanEvent>, l2: Seq<ScanEvent>)
    requires
        l0.len() <= l1.len() <= l2.len(),
        l1.subrange(0, l0.len() as int) == l0,
        l2.subrange(0, l1.len() as int) == l1,
    ensures
        l2.subrange(0, l0.len() as int) == l0,
        events_after(l2, l0.len() as int) == events_after(l1, l0.len() as int) + events_after(
            l2,
            l1.len() as int,
        ),
{
    assert(l2.subrange(0, l0.len() as int) =~= l1.subrange(0, l0.len() as int));
    assert(events_after(l2, l0.len() as int) =~= events_after(l1, l0.len() as int) + events_after(
        l2,
        l1.len() as int,
    )) by {
        assert forall|k: int| 0 <= k < l1.len() - l0.len() implies #[trigger] l2[l0.len() + k] == l1[l0.len() + k] by {
            assert(l2.subrange(0, l1.len() as int)[l0.len() + k] == l2[l0.len() + k]);
        }
    }
}

/// The number of begin lookups among `ext` made in the context `names`.
pub open spec fn lookups_in(ext: Seq<ScanEvent>, names: Seq<Seq<u8>>) -> nat
    decreases ext.len(),
{
    if ext.len() == 0 {
        0
    } else {
        lookups_in(ext.drop_last(), names) + if ext.last() matches ScanEvent::Find(_, n, _) && n == names {
            1nat
        } else {
            0nat
        }
    }
}

/// The context names of the top level of `scan` over a working buffer that held
/// `base`: `#top`, then the names of the caller's entries.
pub open spec fn top_names(base: Seq<Seq<u8>>) -> Seq<Seq<u8>> {
    ctx_names(base.push(top_entry()))
}

/// Lookups count over concatenated events.
proof fn lemma_lookups_concat(a: Seq<ScanEvent>, b: Seq<ScanEvent>, names: Seq<Seq<u8>>)
    ensures
        lookups_in(a + b, names) == lookups_in(a, names) + lookups_in(b, names),
    decreases b.len(),
{
    if b.len() == 0 {
        assert(a + b =~= a);
    } else {
        lemma_lookups_concat(a, b.drop_last(), names);
        assert((a + b).drop_last() =~= a + b.drop_last());
        assert((a + b).last() == b.last());
    }
}

/// The lookups of one lookup and the run of what it found.
proof fn lemma_lookups_of_lookup(
    ext: Seq<ScanEvent>,
    begin: bool,
    kind: StructuralPseudoname,
    n: Seq<Seq<u8>>,
    names: Seq<Seq<u8>>,
)
    requires
        lookup_then(ext, begin, kind, n),
    ensures
        lookups_in(ext, names) == if begin && n == names {
            1nat
        } else {
            0nat
        },
{
    let e1 = ext.subrange(0, 1);
    assert(e1.drop_last().len() == 0);
    assert(lookups_in(e1.drop_last(), names) == 0);
    assert(e1.last() == ext[0]);
    if begin {
        assert(ext[0] matches ScanEvent::Find(_, m, _) && m == n);
    } else {
        assert(ext[0] is FindEnd);
    }
    assert(lookups_in(e1, names) == if begin && n == names {
        1nat
    } else {
        0nat
    });
    if ext.len() == 2 {
        assert(ext.drop_last() =~= e1);
    } else {
        assert(ext =~= e1);
    }
}

/// Whether the events `ext` are one begin lookup for `kind` in `n` followed by the
/// end lookup for `kind` in `n` (each perhaps with the run of what it found), or
/// just the begin lookup consuming the value.
proof fn lemma_lookups_open_close(ext: Seq<ScanEvent>, j: int, kind: StructuralPseudoname, n: Seq<Seq<u8>>, names: Seq<Seq<u8>>)
    requires
        0 <= j <= ext.len(),
        opened(ext.subrange(0, j), kind, n),
        closed_ok(ext.subrange(j, ext.len() as int), kind, n),
    ensures
        lookups_in(ext, names) == if n == names {
            1nat
        } else {
            0nat
        },
{
    lemma_lookups_of_lookup(ext.subrange(0, j), true, kind, n, names);
    lemma_lookups_of_lookup(ext.subrange(j, ext.len() as int), false, kind, n, names);
    lemma_lookups_concat(ext.subrange(0, j), ext.subrange(j, ext.len() as int), names);
    assert(ext =~= ext.subrange(0, j) + ext.subrange(j, ext.len() as int));
}

/// The context names of a stack of `scan` over `base` count one name per entry
/// above the top-level one, before those of the top level.
proof fn lemma_ctx_names_len(pool: Seq<Seq<u8>>, base: Seq<Seq<u8>>, position: StructurePosition)
    requires
        stack_ok(pool, base, position),
    ensures
        ctx_names(pool).len() == top_names(base).len() + pool.len() - base.len() - 1,
        pool.len() == base.len() + 1 ==> pool == base.push(top_entry()),
        ctx_names(pool) == top_names(base) ==> pool.len() == base.len() + 1,
{
    let items = spec_assoc_items::<StructurePosition>(pool).reverse();
    let d = pool.len() - base.len() - 1;
    let q = pool.subrange(0, base.len() + 1 as int);
    assert(q =~= base.push(top_entry())) by {
        assert forall|i: int| 0 <= i < base.len() implies q[i] == base[i] by {
            assert(pool.subrange(0, base.len() as int)[i] == pool[i]);
        }
    }
    assert forall|i: int| 0 <= i < d implies #[trigger] items[i] is Some by {
        let k = pool.len() - 1 - i;
        assert(base.len() < k < pool.len());
        assert(is_object_frame(pool[k]) || is_array_frame(pool[k]));
        assert(pool[k].len() >= 1);
    }
    assert(items.skip(d) =~= spec_assoc_items::<StructurePosition>(q).reverse()) by {
        assert forall|k: int| 0 <= k < items.len() - d implies #[trigger] items.skip(d)[k]
            == spec_assoc_items::<StructurePosition>(q).reverse()[k] by {
            let idx = pool.len() - 1 - (d + k);
            assert(idx == q.len() - 1 - k);
            assert(q[idx] == pool[idx]);
        }
    }
    lemma_names_prefix(items, d);
    if pool.len() == base.len() + 1 {
        assert(pool =~= q);
    }
}

/// One successful step of `handle_object` makes a begin lookup in the top-level
/// context only when it enters an object at the top level, and never leaves `scan`
/// about to enter a structure at the top level.
proof fn lemma_object_lookups(
    ctx0: Seq<Seq<u8>>,
    position: StructurePosition,
    ctx: Seq<Seq<u8>>,
    p: StructurePosition,
    ext: Seq<ScanEvent>,
    base: Seq<Seq<u8>>,
)
    requires
        position == StructurePosition::ObjectBegin || position == StructurePosition::ObjectMiddle,
        stack_ok(ctx0, base, position),
        stack_ok(ctx, base, p),
        object_step(ctx0, position, ctx, p),
        object_events(ctx0, position, ctx, p, ext),
    ensures
        lookups_in(ext, top_names(base)) <= if position == StructurePosition::ObjectBegin && ctx0.len()
            == base.len() + 1 {
            1nat
        } else {
            0nat
        },
        !((p == StructurePosition::ObjectBegin || p == StructurePosition::ArrayBegin) && ctx.len()
            == base.len() + 1),
{
    let t = top_names(base);
    let c0 = ctx_names(ctx0);
    let outer = if position == StructurePosition::ObjectBegin {
        ctx0
    } else {
        ctx0.drop_last()
    };
    lemma_ctx_names_len(ctx0, base, position);
    lemma_ctx_names_len(ctx, base, p);
    if ctx != outer {
        let key = choose|key: Seq<u8>|
            #![trigger entry(StructurePosition::ObjectMiddle, key)]
            outer.push(entry(StructurePosition::ObjectMiddle, key)) == ctx;
        assert(ctx.len() >= base.len() + 2);
    } else {
        if ctx.len() == base.len() + 1 {
            assert(ctx.last() == top_entry());
        }
    }
    if position == StructurePosition::ObjectBegin && ctx == ctx0 && consumed(ext, StructuralPseudoname::Object, c0) {
        lemma_lookups_of_lookup(ext, true, StructuralPseudoname::Object, c0, t);
    } else {
        let j = choose|j: int|
            #![trigger ext.subrange(0, j)]
            0 <= j <= ext.len() && {
                let first = ext.subrange(0, j);
                let rest = ext.subrange(j, ext.len() as int);
                &&& position == StructurePosition::ObjectBegin ==> opened(first, StructuralPseudoname::Object, c0)
                &&& position != StructurePosition::ObjectBegin ==> closed_ok(first, StructuralPseudoname::Key, c0)
                &&& ctx == outer ==> closed_ok(rest, StructuralPseudoname::Object, ctx_names(outer))
                &&& ctx != outer ==> lookup_then(rest, true, StructuralPseudoname::Key, ctx_names(ctx))
                    && ((p == StructurePosition::ObjectMiddle) == (rest.len() == 2 && rest[1]
                    == ScanEvent::Begin(StreamOp::ValueIsConsumed)))
            };
        let first = ext.subrange(0, j);
        let rest = ext.subrange(j, ext.len() as int);
        if position == StructurePosition::ObjectBegin {
            lemma_lookups_of_lookup(first, true, StructuralPseudoname::Object, c0, t);
        } else {
            lemma_lookups_of_lookup(first, false, StructuralPseudoname::Key, c0, t);
        }
        if ctx == outer {
            lemma_lookups_of_lookup(rest, false, StructuralPseudoname::Object, ctx_names(outer), t);
        } else {
            lemma_lookups_of_lookup(rest, true, StructuralPseudoname::Key, ctx_names(ctx), t);
        }
        lemma_lookups_concat(first, rest, t);
        assert(ext =~= first + rest);
    }
}

/// One successful step of `handle_array` makes a begin lookup in the top-level
/// context only when it enters an array at the top level, and never leaves `scan`
/// about to enter a structure at the top level.
proof fn lemma_array_lookups(
    ctx0: Seq<Seq<u8>>,
    position: StructurePosition,
    ctx: Seq<Seq<u8>>,
    some: bool,
    p: StructurePosition,
    ext: Seq<ScanEvent>,
    base: Seq<Seq<u8>>,
)
    requires
        position == StructurePosition::ArrayBegin || position == StructurePosition::ArrayMiddle,
        stack_ok(ctx0, base, position),
        stack_ok(ctx, base, p),
        some ==> p == StructurePosition::ArrayMiddle,
        some ==> ctx == if position == StructurePosition::ArrayBegin {
            ctx0.push(entry(StructurePosition::ArrayMiddle, array_name()))
        } else {
            ctx0
        },
        !some ==> p == position_of_code(ctx.last()[0]),
        !some ==> ctx == if position == StructurePosition::ArrayBegin {
            ctx0
        } else {
            ctx0.drop_last()
        },
        some ==> (position == StructurePosition::ArrayBegin ==> opened(ext, StructuralPseudoname::Array, ctx_names(ctx0)))
            && (position == StructurePosition::ArrayMiddle ==> ext.len() == 0),
        (!some && position == StructurePosition::ArrayBegin) ==> (consumed(ext, StructuralPseudoname::Array, ctx_names(ctx0))
            || exists|j: int|
            #![trigger ext.subrange(0, j)]
            0 <= j <= ext.len() && opened(ext.subrange(0, j), StructuralPseudoname::Array, ctx_names(ctx0))
                && closed_ok(ext.subrange(j, ext.len() as int), StructuralPseudoname::Array, ctx_names(ctx0))),
        (!some && position == StructurePosition::ArrayMiddle) ==> closed_ok(ext, StructuralPseudoname::Array, ctx_names(ctx)),
    ensures
        lookups_in(ext, top_names(base)) <= if position == StructurePosition::ArrayBegin && ctx0.len()
            == base.len() + 1 {
            1nat
        } else {
            0nat
        },
        !((p == StructurePosition::ObjectBegin || p == StructurePosition::ArrayBegin) && ctx.len()
            == base.len() + 1),
{
    let t = top_names(base);
    let c0 = ctx_names(ctx0);
    lemma_ctx_names_len(ctx0, base, position);
    lemma_ctx_names_len(ctx, base, p);
    if !some && ctx.len() == base.len() + 1 {
        assert(ctx.last() == top_entry());
    }
    if some {
        if position == StructurePosition::ArrayBegin {
            lemma_lookups_of_lookup(ext, true, StructuralPseudoname::Array, c0, t);
        }
    } else if position == StructurePosition::ArrayBegin {
        if consumed(ext, StructuralPseudoname::Array, c0) {
            lemma_lookups_of_lookup(ext, true, StructuralPseudoname::Array, c0, t);
        } else {
            let j = choose|j: int|
                #![trigger ext.subrange(0, j)]
                0 <= j <= ext.len() && opened(ext.subrange(0, j), StructuralPseudoname::Array, c0)
                    && closed_ok(ext.subrange(j, ext.len() as int), StructuralPseudoname::Array, c0);
            lemma_lookups_open_close(ext, j, StructuralPseudoname::Array, c0, t);
        }
    } else {
        lemma_lookups_of_lookup(ext, false, StructuralPseudoname::Array, ctx_names(ctx), t);
    }
}

/// The lookups after the first `l0.len()` events of `l2` are those up to `l1` and
/// those after it.
proof fn lemma_lookups_step(l0: Seq<ScanEvent>, l1: Seq<ScanEvent>, l2: Seq<ScanEvent>, names: Seq<Seq<u8>>)
    requires
        l0.len() <= l1.len() <= l2.len(),
        l1.subrange(0, l0.len() as int) == l0,
        l2.subrange(0, l1.len() as int) == l1,
    ensures
        l2.subrange(0, l0.len() as int) == l0,
        lookups_in(events_after(l2, l0.len() as int), names) == lookups_in(events_after(l1, l0.len() as int), names)
            + lookups_in(events_after(l2, l1.len() as int), names),
{
    lemma_events_concat(l0, l1, l2);
    lemma_lookups_concat(events_after(l1, l0.len() as int), events_after(l2, l1.len() as int), names);
}

/// The context in which the begin action of a key is looked up names that key
/// first: `iter_match` sees, innermost, exactly the bytes of the key pushed.
pub proof fn lemma_key_names(outer: Seq<Seq<u8>>, key: Seq<u8>)
    ensures
        ctx_names(outer.push(entry(StructurePosition::ObjectMiddle, key))).len() >= 1,
        ctx_names(outer.push(entry(StructurePosition::ObjectMiddle, key)))[0] == key,
{
    let pool = outer.push(entry(StructurePosition::ObjectMiddle, key));
    let items = spec_assoc_items::<StructurePosition>(pool).reverse();
    let e = entry(StructurePosition::ObjectMiddle, key);
    assert(pool[pool.len() - 1] == e);
    assert(e.subrange(1, e.len() as int) =~= key);
    assert(items[0] == spec_get_assoc::<StructurePosition>(pool, pool.len() - 1));
    assert(items[0] matches Some((_, name)) && name == key);
}

/// No begin lookup among `ext` was made in the context `names`.
proof fn lemma_lookups_zero(ext: Seq<ScanEvent>, names: Seq<Seq<u8>>)
    requires
        lookups_in(ext, names) == 0,
    ensures
        forall|i: int| 0 <= i < ext.len() ==> !(#[trigger] ext[i] matches ScanEvent::Find(_, n, _) && n == names),
    decreases ext.len(),
{
    if ext.len() > 0 {
        lemma_lookups_zero(ext.drop_last(), names);
        assert forall|i: int| 0 <= i < ext.len() implies !(#[trigger] ext[i] matches ScanEvent::Find(_, n, _) && n
            == names) by {
            if i < ext.len() - 1 {
                assert(ext[i] == ext.drop_last()[i]);
            }
        }
    }
}

/// At most one lookup in a context means that no two events are begin lookups in
/// that context.
pub proof fn lemma_at_most_one_lookup(ext: Seq<ScanEvent>, names: Seq<Seq<u8>>)
    requires
        lookups_in(ext, names) <= 1,
    ensures
        forall|i: int, j: int|
            0 <= i < j < ext.len() && (#[trigger] ext[i] matches ScanEvent::Find(_, n, _) && n == names) ==> !(
            #[trigger] ext[j] matches ScanEvent::Find(_, m, _) && m == names),
    decreases ext.len(),
{
    if ext.len() > 0 {
        let d = ext.drop_last();
        if ext.last() matches ScanEvent::Find(_, n, _) && n == names {
            lemma_lookups_zero(d, names);
            assert forall|i: int, j: int|
                0 <= i < j < ext.len() && (#[trigger] ext[i] matches ScanEvent::Find(_, n, _) && n == names) implies !(
                #[trigger] ext[j] matches ScanEvent::Find(_, m, _) && m == names) by {
                assert(ext[i] == d[i]);
                if j < ext.len() - 1 {
                    assert(ext[j] == d[j]);
                }
            }
        } else {
            lemma_at_most_one_lookup(d, names);
            assert forall|i: int, j: int|
                0 <= i < j < ext.len() && (#[trigger] ext[i] matches ScanEvent::Find(_, n, _) && n == names) implies !(
                #[trigger] ext[j] matches ScanEvent::Find(_, m, _) && m == names) by {
                assert(ext[i] == d[i]);
                if j < ext.len() - 1 {
                    assert(ext[j] == d[j]);
                }
            }
        }
    }
}

/// Names of entries that all decode come first.
proof fn lemma_names_prefix(items: Seq<Option<(StructurePosition, Seq<u8>)>>, d: int)
    requires
        0 <= d <= items.len(),
        forall|i: int| 0 <= i < d ==> #[trigger] items[i] is Some,
    ensures
        spec_context_names(items).len() == d + spec_context_names(items.skip(d)).len(),
    decreases d,
{
    if d == 0 {
        assert(items.skip(0) =~= items);
    } else {
        assert forall|i: int| 0 <= i < d - 1 implies #[trigger] items.drop_first()[i] is Some by {
            assert(items.drop_first()[i] == items[i + 1]);
        }
        lemma_names_prefix(items.drop_first(), d - 1);
        assert(items.drop_first().skip(d - 1) =~= items.skip(d));
    }
}

/// Events without errors followed by the events of a call that agree with its
/// result agree, together, with that result.
proof fn lemma_events_step<T, U>(
    l0: Seq<ScanEvent>,
    l1: Seq<ScanEvent>,
    l2: Seq<ScanEvent>,
    r: Result<T, ScanError>,
)
    requires
        l0.len() <= l1.len() <= l2.len(),
        l1.subrange(0, l0.len() as int) == l0,
        l2.subrange(0, l1.len() as int) == l1,
        no_error_events(events_after(l1, l0.len() as int)),
        errors_agree(events_after(l2, l1.len() as int), r),
    ensures
        l2.subrange(0, l0.len() as int) == l0,
        r is Ok ==> no_error_events(events_after(l2, l0.len() as int)),
        r is Err ==> errors_agree(events_after(l2, l0.len() as int), Err::<U, ScanError>(r->Err_0)),
{
    lemma_events_concat(l0, l1, l2);
    let a = events_after(l1, l0.len() as int);
    let b = events_after(l2, l1.len() as int);
    let ext = events_after(l2, l0.len() as int);
    assert(ext == a + b);
    if b.len() > 0 {
        assert(ext.drop_last() =~= a + b.drop_last());
        assert(ext.last() == b.last());
    }
    assert forall|k: int| 0 <= k < a.len() implies #[trigger] ext[k] == a[k] by {}
    assert forall|k: int| a.len() <= k < ext.len() implies #[trigger] ext[k] == b[k - a.len()] by {}
}

/// The choice of callbacks for `scan`, and the end callbacks, which do not touch
/// the tokenizer.
///
/// For each event `scan` asks for an action (`find_action` for begin events and
/// atoms, `find_end_action` for end events) and, if one is given, calls it.
pub trait ScanChoices {
    /// What `find_action` hands to `call_action`.
    type Action: Copy;

    /// What `find_end_action` hands to `call_end_action`.
    type EndAction: Copy;

    /// The calls made so far, in order.
    spec fn log(&self) -> Seq<ScanEvent>;

    /// The action for the begin event `kind` in `context`, if any.
    fn find_action(&mut self, kind: StructuralPseudoname, context: ContextIter) -> (r: Option<Self::Action>)
        requires
            context.valid(),
        ensures
            final(self).log() == old(self).log().push(ScanEvent::Find(kind, context.names(), r is Some)),
    ;

    /// The action for the end event `kind` in `context`, if any.
    fn find_end_action(&mut self, kind: StructuralPseudoname, context: ContextIter) -> (r: Option<
        Self::EndAction,
    >)
        requires
            context.valid(),
        ensures
            final(self).log() == old(self).log().push(ScanEvent::FindEnd(kind, context.names(), r is Some)),
    ;

    /// Runs an end action.
    fn call_end_action(&mut self, action: Self::EndAction) -> (r: Result<(), &'static str>)
        ensures
            final(self).log() == old(self).log().push(ScanEvent::End(r)),
    ;
}

/// The callbacks of `scan` and the state they share: the choices of
/// `ScanChoices`, and the begin actions, which may read from the tokenizer.
///
/// A begin action returns `StreamOp::ValueIsConsumed` only if it consumed the
/// current value from the tokenizer; otherwise it leaves the tokenizer where it was,
/// but for a peek, which may skip whitespace.
pub trait ScanActions<R: Reader>: ScanChoices {
    /// Runs a begin action.
    fn call_action(&mut self, action: Self::Action, rjiter: &mut RJiter<R>) -> (r: StreamOp)
        requires
            old(rjiter).wf(),
        ensures
            final(rjiter).wf(),
            final(rjiter).reader_never_fails() == old(rjiter).reader_never_fails(),
            final(rjiter).capacity() == old(rjiter).capacity(),
            final(rjiter).total_len() == old(rjiter).total_len(),
            final(rjiter).spec_current_index() >= old(rjiter).spec_current_index(),
            r is ValueIsConsumed ==> final(rjiter).spec_current_index() > old(
                rjiter,
            ).spec_current_index(),
            final(self).log() == old(self).log().push(ScanEvent::Begin(r)),
            r is Continue ==> ws_skipped(old(rjiter).remaining(), final(rjiter).remaining(), None),
    ;
}

/// How `handle_object` reads the next key at `position`: the first key with the
/// object's opening brace before it, a later one with a comma before it.
pub open spec fn key_op(position: StructurePosition) -> Op {
    if position == StructurePosition::ObjectBegin {
        Op::NextObjectBytes
    } else {
        Op::NextKeyBytes
    }
}

/// The token that comes before the key that `handle_object` reads at `position`.
pub open spec fn key_tok(position: StructurePosition) -> Option<u8> {
    if position == StructurePosition::ObjectBegin {
        Some(123u8)
    } else {
        Some(44u8)
    }
}

/// Whether the tokenizer, reading the next key with `op` (the transparent token
/// `tok` before it) from the stream `rem`, gives exactly the bytes `key`.
pub open spec fn key_read(op: Op, tok: Option<u8>, rem: Seq<u8>, key: Seq<u8>) -> bool {
    exists|v: Vec<u8>, data: Seq<u8>, pending: Seq<u8>, pos: int|
        #[trigger] stream_step(op, tok, rem, data, pending, pos, Ok(Outcome::OptBytes(Some(v)))) && v@ == key
}

/// The position recorded in the top entry of a context stack of `scan`.
fn top_position(context: &U8Pool, base: Ghost<Seq<Seq<u8>>>, any: Ghost<StructurePosition>) -> (r: Option<StructurePosition>)
    requires
        context.wf(),
        stack_ok(context@, base@, any@),
    ensures
        r == Some(position_of_code(context@.last()[0])),
        r matches Some(p) && stack_ok(context@, base@, p),
{
    let r = context.top_assoc_obj::<StructurePosition>();
    proof {
        let pool = context@;
        let last = pool.last();
        assert(last.len() >= 1) by {
            if pool.len() - 1 > base@.len() {
                assert(is_object_frame(pool[pool.len() - 1]) || is_array_frame(pool[pool.len() - 1]));
            }
        }
        assert(last.subrange(0, 1)[0] == last[0]);
        if pool.len() - 1 > base@.len() {
            assert(is_object_frame(pool[pool.len() - 1]) || is_array_frame(pool[pool.len() - 1]));
        }
    }
    r
}

/// Calls the begin action for `kind`, if there is one.
fn begin_action<R: Reader, A: ScanActions<R>>(
    actions: &mut A,
    kind: StructuralPseudoname,
    rjiter: &mut RJiter<R>,
    context: &U8Pool,
) -> (r: StreamOp)
    requires
        old(rjiter).wf(),
        context.wf(),
    ensures
        final(rjiter).wf(),
        final(rjiter).reader_never_fails() == old(rjiter).reader_never_fails(),
        final(rjiter).capacity() == old(rjiter).capacity(),
        final(rjiter).total_len() == old(rjiter).total_len(),
        final(rjiter).spec_current_index() >= old(rjiter).spec_current_index(),
        r is ValueIsConsumed ==> final(rjiter).spec_current_index() > old(rjiter).spec_current_index(),
        final(actions).log().len() >= old(actions).log().len(),
        final(actions).log().subrange(0, old(actions).log().len() as int) == old(actions).log(),
        ({
            let ext = events_after(final(actions).log(), old(actions).log().len() as int);
            &&& lookup_then(ext, true, kind, ctx_names(context@))
            &&& ext.len() == 2 ==> ext[1] == ScanEvent::Begin(r)
            &&& ext.len() == 1 ==> r is Continue && *final(rjiter) == *old(rjiter)
        }),
        r is Continue ==> ws_skipped(old(rjiter).remaining(), final(rjiter).remaining(), None),
{
    match actions.find_action(kind, ContextIter::new(context)) {
        Some(action) => actions.call_action(action, rjiter),
        None => {
            proof {
                lemma_ws_skipped_none(rjiter.remaining(), None);
            }
            StreamOp::Continue
        },
    }
}

/// Calls the end action for `kind`, if there is one.
fn end_action<R: Reader, A: ScanActions<R>>(
    actions: &mut A,
    kind: StructuralPseudoname,
    context: &U8Pool,
) -> (r: Result<(), &'static str>)
    requires
        context.wf(),
    ensures
        final(actions).log().len() >= old(actions).log().len(),
        final(actions).log().subrange(0, old(actions).log().len() as int) == old(actions).log(),
        ({
            let ext = events_after(final(actions).log(), old(actions).log().len() as int);
            &&& lookup_then(ext, false, kind, ctx_names(context@))
            &&& ext.len() == 2 ==> ext[1] == ScanEvent::End(r)
            &&& ext.len() == 1 ==> r is Ok
        }),
{
    match actions.find_end_action(kind, ContextIter::new(context)) {
        Some(action) => actions.call_end_action(action),
        None => Ok(()),
    }
}

/// Handles the next event inside an object: the begin action of the object, the end
/// action of the previous key, the next key (pushed on the context stack in place of
/// the previous one) and its begin action, or the end of the object (its entry popped
/// and its end action called).
///
/// The stack after the end of the object is the stack before its beginning, and the
/// returned position is the one recorded in its top entry.
#[verifier::rlimit(40)]
fn handle_object<R: Reader, A: ScanActions<R>>(
    rjiter: &mut RJiter<R>,
    actions: &mut A,
    position: StructurePosition,
    context: &mut U8Pool,
    base: Ghost<Seq<Seq<u8>>>,
) -> (r: Result<StructurePosition, ScanError>)
    requires
        old(rjiter).wf(),
        old(context).wf(),
        position == StructurePosition::ObjectBegin || position == StructurePosition::ObjectMiddle,
        stack_ok(old(context)@, base@, position),
    ensures
        final(rjiter).wf(),
        final(rjiter).reader_never_fails() == old(rjiter).reader_never_fails(),
        old(rjiter).reader_never_fails() ==> !(r matches Err(ScanError::RJiterError(e)) && e.error_type is IoError),
        final(context).spec_max_slices() == old(context).spec_max_slices(),
        final(context).wf(),
        final(rjiter).capacity() == old(rjiter).capacity(),
        final(rjiter).total_len() == old(rjiter).total_len(),
        r matches Ok(p) ==> stack_ok(final(context)@, base@, p) && final(rjiter).spec_current_index()
            > old(rjiter).spec_current_index(),
        r matches Ok(p) ==> object_step(old(context)@, position, final(context)@, p),
        r matches Ok(p) ==> {
            let outer = if position == StructurePosition::ObjectBegin {
                old(context)@
            } else {
                old(context)@.drop_last()
            };
            final(context)@ == outer || exists|key: Seq<u8>, rem: Seq<u8>|
                #![trigger key_read(key_op(position), key_tok(position), rem, key)]
                final(context)@ == outer.push(entry(StructurePosition::ObjectMiddle, key))
                    && key_read(key_op(position), key_tok(position), rem, key) && ws_skipped(old(rjiter).remaining(), rem, None)
                    && (position == StructurePosition::ObjectMiddle ==> rem == old(rjiter).remaining())
        },
        r matches Err(e) ==> error_at(e, final(rjiter).spec_current_index()),
        r matches Err(ScanError::MaxNestingExceeded { level, .. }) ==> level == old(context).spec_max_slices()
            && final(context)@.len() >= level,
        final(actions).log().len() >= old(actions).log().len(),
        final(actions).log().subrange(0, old(actions).log().len() as int) == old(actions).log(),
        errors_agree(events_after(final(actions).log(), old(actions).log().len() as int), r),
        ({
            let ext = events_after(final(actions).log(), old(actions).log().len() as int);
            &&& ext.len() >= 1
            &&& ext[0] == find_event(
                position == StructurePosition::ObjectBegin,
                if position == StructurePosition::ObjectBegin {
                    StructuralPseudoname::Object
                } else {
                    StructuralPseudoname::Key
                },
                ctx_names(old(context)@),
                ext.len() >= 2 && (ext[1] is Begin || ext[1] is End),
            )
        }),
        r matches Ok(p) ==> object_events(
            old(context)@,
            position,
            final(context)@,
            p,
            events_after(final(actions).log(), old(actions).log().len() as int),
        ),
{
    let ghost l0 = actions.log();
    if position == StructurePosition::ObjectBegin {
        match begin_action(actions, StructuralPseudoname::Object, rjiter, context) {
            StreamOp::Continue => {},
            StreamOp::Error(message) => {
                return Err(ScanError::ActionError { message, position: rjiter.current_index() });
            },
            StreamOp::ValueIsConsumed => {
                return match top_position(context, base, Ghost(position)) {
                    Some(p) => Ok(p),
                    None => Err(
                        ScanError::InternalError {
                            position: rjiter.current_index(),
                            message: "Context stack is empty when handling ValueIsConsumed",
                        },
                    ),
                };
            },
        }
    }
    let ghost pool0 = context@;
    if position != StructurePosition::ObjectBegin {
        let end = end_action(actions, StructuralPseudoname::Key, context);
        let _ = context.pop_assoc::<StructurePosition>();
        proof {
            assert(is_object_frame(pool0[pool0.len() - 1]));
            assert(pool0.last().subrange(0, 1)[0] == pool0.last()[0]);
            assert(context@ == pool0.drop_last());
            assert(stack_ok(context@, base@, StructurePosition::ObjectBegin)) by {
                assert(context@.subrange(0, base@.len() as int) =~= pool0.subrange(0, base@.len() as int));
            }
        }
        if let Err(message) = end {
            return Err(ScanError::ActionError { message, position: rjiter.current_index() });
        }
    }
    let ghost pool1 = context@;
    let ghost l1 = actions.log();
    let ghost e1 = events_after(l1, l0.len() as int);
    assert(pool1 == if position == StructurePosition::ObjectBegin {
        old(context)@
    } else {
        old(context)@.drop_last()
    });
    let ghost index0 = old(rjiter).spec_current_index();
    let ghost mut kv: Seq<u8> = Seq::empty();
    let ghost rem1 = rjiter.remaining();
    proof {
        if position != StructurePosition::ObjectBegin {
            lemma_ws_skipped_none(rem1, None);
        }
    }
    assert(ws_skipped(old(rjiter).remaining(), rem1, None));
    assert(position == StructurePosition::ObjectMiddle ==> rem1 == old(rjiter).remaining());
    let ghost op = key_op(position);
    let ghost tok = key_tok(position);
    let keyr = if position == StructurePosition::ObjectBegin {
        rjiter.next_object_bytes()
    } else {
        rjiter.next_key_bytes()
    };
    let keyr = match keyr {
        Ok(k) => k,
        Err(e) => {
            return Err(ScanError::RJiterError(e));
        },
    };
    match keyr {
        None => {
            let ended = end_action(actions, StructuralPseudoname::Object, context);
            proof {
                let l2 = actions.log();
                lemma_events_concat(l0, l1, l2);
                let e2 = events_after(l2, l1.len() as int);
                let ext = events_after(l2, l0.len() as int);
                assert(ext.subrange(0, e1.len() as int) =~= e1);
                assert(ext.subrange(e1.len() as int, ext.len() as int) =~= e2);
                assert(ext[0] == e1[0]);
                if ended is Err {
                    assert(ext.drop_last() =~= e1 + e2.drop_last());
                }
                if ended is Ok {
                    let j = e1.len() as int;
                    assert(context@ == pool1);
                }
            }
            if let Err(message) = ended {
                return Err(ScanError::ActionError { message, position: rjiter.current_index() });
            }
            return match top_position(context, base, Ghost(StructurePosition::ObjectBegin)) {
                Some(p) => Ok(p),
                None => Err(
                    ScanError::InternalError {
                        position: rjiter.current_index(),
                        message: "Context stack is empty when ending object",
                    },
                ),
            };
        },
        Some(key) => {
            match context.push_assoc(StructurePosition::ObjectMiddle, key.as_slice()) {
                Ok(()) => {},
                Err(e) => {
                    let position = rjiter.current_index();
                    return Err(
                        match e {
                            U8PoolError::SliceLimitExceeded { max_slices } => {
                                proof {
                                    context.lemma_pool_bounds();
                                    if context@.len() < context.spec_max_slices() {
                                        assert(false);
                                    }
                                    assert(max_slices == context.spec_max_slices());
                                }
                                ScanError::MaxNestingExceeded { position, level: max_slices }
                            },
                            _ => ScanError::InternalError {
                                position,
                                message: "Failed to push key to context pool",
                            },
                        },
                    );
                },
            }
            proof {
                let f = StructurePosition::ObjectMiddle.spec_encode() + key@;
                assert(context@ == pool1.push(f));
                assert(f =~= entry(StructurePosition::ObjectMiddle, key@));
                assert(pool1.push(entry(StructurePosition::ObjectMiddle, key@)) == context@);
                kv = key@;
                assert(key_read(op, tok, rem1, kv));
                assert(f[0] == position_code(StructurePosition::ObjectMiddle));
                assert(context@.subrange(0, base@.len() as int) =~= pool1.subrange(0, base@.len() as int));
                assert forall|i: int| base@.len() < i < context@.len() implies is_object_frame(
                    #[trigger] context@[i],
                ) || is_array_frame(context@[i]) by {
                    if i < pool1.len() {
                        assert(context@[i] == pool1[i]);
                    }
                }
            }
        },
    }
    let keyop = begin_action(actions, StructuralPseudoname::Key, rjiter, context);
    proof {
        let l2 = actions.log();
        lemma_events_concat(l0, l1, l2);
        let e2 = events_after(l2, l1.len() as int);
        let ext = events_after(l2, l0.len() as int);
        assert(ext.subrange(0, e1.len() as int) =~= e1);
        assert(ext.subrange(e1.len() as int, ext.len() as int) =~= e2);
        assert(ext[0] == e1[0]);
        if keyop is Error {
            assert(ext.drop_last() =~= e1 + e2.drop_last());
        }
    }
    match keyop {
        StreamOp::Error(message) => {
            return Err(ScanError::ActionError { message, position: rjiter.current_index() });
        },
        StreamOp::ValueIsConsumed => {
            assert(pool1.push(entry(StructurePosition::ObjectMiddle, kv)) == context@);
            assert(key_read(op, tok, rem1, kv));
            assert(context@ == pool1.push(entry(StructurePosition::ObjectMiddle, kv)) && key_read(op, tok, rem1, kv)
                && ws_skipped(old(rjiter).remaining(), rem1, None));
            return Ok(StructurePosition::ObjectMiddle);
        },
        StreamOp::Continue => {},
    }
    assert(pool1.push(entry(StructurePosition::ObjectMiddle, kv)) == context@);
    assert(key_read(op, tok, rem1, kv));
    assert(context@ == pool1.push(entry(StructurePosition::ObjectMiddle, kv)) && key_read(op, tok, rem1, kv)
        && ws_skipped(old(rjiter).remaining(), rem1, None));
    Ok(StructurePosition::ObjectBetweenKV)
}

/// Handles the next event inside an array: at its beginning, the begin action and
/// the push of its `#array` entry; then the next item, or the end of the array (its
/// entry popped and its end action called).
///
/// The stack after the end of the array is the stack before its beginning, and the
/// returned position is the one recorded in its top entry.
#[verifier::rlimit(40)]
fn handle_array<R: Reader, A: ScanActions<R>>(
    rjiter: &mut RJiter<R>,
    actions: &mut A,
    position: StructurePosition,
    context: &mut U8Pool,
    base: Ghost<Seq<Seq<u8>>>,
) -> (r: Result<(Option<Peeked>, StructurePosition), ScanError>)
    requires
        old(rjiter).wf(),
        old(context).wf(),
        position == StructurePosition::ArrayBegin || position == StructurePosition::ArrayMiddle,
        stack_ok(old(context)@, base@, position),
    ensures
        final(rjiter).wf(),
        final(rjiter).reader_never_fails() == old(rjiter).reader_never_fails(),
        old(rjiter).reader_never_fails() ==> !(r matches Err(ScanError::RJiterError(e)) && e.error_type is IoError),
        final(context).spec_max_slices() == old(context).spec_max_slices(),
        final(context).wf(),
        final(rjiter).capacity() == old(rjiter).capacity(),
        final(rjiter).total_len() == old(rjiter).total_len(),
        r matches Ok((peeked, p)) ==> {
            &&& stack_ok(final(context)@, base@, p)
            &&& final(rjiter).spec_current_index() > old(rjiter).spec_current_index()
            &&& peeked is Some ==> p == StructurePosition::ArrayMiddle
            &&& peeked is Some ==> final(context)@ == if position == StructurePosition::ArrayBegin {
                old(context)@.push(entry(StructurePosition::ArrayMiddle, array_name()))
            } else {
                old(context)@
            }
            &&& peeked is None ==> p == position_of_code(final(context)@.last()[0])
            &&& peeked is None ==> final(context)@ == if position == StructurePosition::ArrayBegin {
                old(context)@
            } else {
                old(context)@.drop_last()
            }
        },
        !(r matches Err(ScanError::InternalError { .. })),
        r matches Err(e) ==> error_at(e, final(rjiter).spec_current_index()),
        r matches Err(ScanError::MaxNestingExceeded { level, .. }) ==> {
            &&& position == StructurePosition::ArrayBegin
            &&& level == old(context)@.len()
            &&& final(context)@ == old(context)@
            &&& !old(context).assoc_fits(1, 1, array_name().len() as int)
            &&& !final(context).assoc_fits(1, 1, array_name().len() as int)
        },
        final(actions).log().len() >= old(actions).log().len(),
        final(actions).log().subrange(0, old(actions).log().len() as int) == old(actions).log(),
        errors_agree(events_after(final(actions).log(), old(actions).log().len() as int), r),
        ({
            let ext = events_after(final(actions).log(), old(actions).log().len() as int);
            let c = ctx_names(old(context)@);
            &&& position == StructurePosition::ArrayBegin ==> ext.len() >= 1 && ext[0]
                == ScanEvent::Find(StructuralPseudoname::Array, c, ext.len() >= 2 && ext[1] is Begin)
            &&& (r is Ok && r->Ok_0.0 is Some) ==> (position == StructurePosition::ArrayBegin ==> opened(
                ext,
                StructuralPseudoname::Array,
                c,
            )) && (position == StructurePosition::ArrayMiddle ==> ext.len() == 0)
            &&& (r is Ok && r->Ok_0.0 is None && position == StructurePosition::ArrayBegin) ==> (consumed(
                ext,
                StructuralPseudoname::Array,
                c,
            ) || exists|j: int|
                #![trigger ext.subrange(0, j)]
                0 <= j <= ext.len() && opened(ext.subrange(0, j), StructuralPseudoname::Array, c)
                    && closed_ok(ext.subrange(j, ext.len() as int), StructuralPseudoname::Array, c))
            &&& (r is Ok && r->Ok_0.0 is None && position == StructurePosition::ArrayMiddle) ==> closed_ok(
                ext,
                StructuralPseudoname::Array,
                ctx_names(final(context)@),
            )
        }),
{
    let ghost l0 = actions.log();
    let ghost pool0 = context@;
    if position == StructurePosition::ArrayBegin {
        match begin_action(actions, StructuralPseudoname::Array, rjiter, context) {
            StreamOp::Continue => {},
            StreamOp::ValueIsConsumed => {
                return match top_position(context, base, Ghost(position)) {
                    Some(p) => Ok((None, p)),
                    None => Err(
                        ScanError::InternalError {
                            position: rjiter.current_index(),
                            message: "Context stack is empty when handling ValueIsConsumed in array",
                        },
                    ),
                };
            },
            StreamOp::Error(message) => {
                return Err(ScanError::ActionError { message, position: rjiter.current_index() });
            },
        }
        let name: Vec<u8> = vec![35u8, 97u8, 114u8, 114u8, 97u8, 121u8];
        assert(name@ =~= array_name());
        if context.push_assoc(StructurePosition::ArrayMiddle, name.as_slice()).is_err() {
            return Err(
                ScanError::MaxNestingExceeded {
                    position: rjiter.current_index(),
                    level: context.len(),
                },
            );
        }
        proof {
            let f = StructurePosition::ArrayMiddle.spec_encode() + array_name();
            assert(context@ == pool0.push(f));
            assert(f =~= entry(StructurePosition::ArrayMiddle, array_name()));
            assert(context@.subrange(0, base@.len() as int) =~= pool0.subrange(0, base@.len() as int));
            assert forall|i: int| base@.len() < i < context@.len() implies is_object_frame(
                #[trigger] context@[i],
            ) || is_array_frame(context@[i]) by {
                if i < pool0.len() {
                    assert(context@[i] == pool0[i]);
                }
            }
        }
    }
    let ghost pool1 = context@;
    let ghost l1 = actions.log();
    proof {
        if position == StructurePosition::ArrayMiddle {
            assert(l1.subrange(0, l0.len() as int) =~= l0);
        }
    }
    let peeked = if position == StructurePosition::ArrayBegin {
        rjiter.known_array()
    } else {
        rjiter.array_step()
    };
    let peeked = match peeked {
        Ok(p) => p,
        Err(e) => {
            return Err(ScanError::RJiterError(e));
        },
    };
    if peeked.is_none() {
        if context.pop_assoc::<StructurePosition>().is_none() {
            return Err(
                ScanError::InternalError {
                    position: rjiter.current_index(),
                    message: "Context stack is empty when ending array",
                },
            );
        }
        proof {
            assert(is_array_frame(pool1[pool1.len() - 1]));
            assert(pool1.last().subrange(0, 1)[0] == pool1.last()[0]);
            assert(context@ == pool1.drop_last());
            assert(stack_ok(context@, base@, StructurePosition::ArrayBegin)) by {
                assert(context@.subrange(0, base@.len() as int) =~= pool1.subrange(0, base@.len() as int));
            }
        }
        let ended = end_action(actions, StructuralPseudoname::Array, context);
        proof {
            let l2 = actions.log();
            lemma_events_concat(l0, l1, l2);
            let e1 = events_after(l1, l0.len() as int);
            let e2 = events_after(l2, l1.len() as int);
            let ext = events_after(l2, l0.len() as int);
            assert(ext == e1 + e2);
            assert(ext.subrange(0, e1.len() as int) =~= e1);
            assert(ext.subrange(e1.len() as int, ext.len() as int) =~= e2);
            if position == StructurePosition::ArrayMiddle {
                assert(e1.len() == 0);
                assert(ext =~= e2);
            }
            if ended is Err {
                assert(ext.drop_last() =~= e1 + e2.drop_last());
            }
            if position == StructurePosition::ArrayBegin {
                assert(pool1.drop_last() =~= pool0);
                assert(context@ == old(context)@);
                if ended is Ok {
                    let j = e1.len() as int;
                    assert(opened(ext.subrange(0, j), StructuralPseudoname::Array, ctx_names(old(context)@)));
                    assert(lookup_then(e2, false, StructuralPseudoname::Array, ctx_names(context@)));
                    assert(closed_ok(e2, StructuralPseudoname::Array, ctx_names(old(context)@)));
                    assert(closed_ok(ext.subrange(j, ext.len() as int), StructuralPseudoname::Array, ctx_names(old(context)@)));
                }
            }
        }
        if let Err(message) = ended {
            return Err(ScanError::ActionError { message, position: rjiter.current_index() });
        }
        return match top_position(context, base, Ghost(StructurePosition::ArrayBegin)) {
            Some(p) => Ok((None, p)),
            None => Err(
                ScanError::InternalError {
                    position: rjiter.current_index(),
                    message: "Context stack is empty when ending array",
                },
            ),
        };
    }
    Ok((peeked, StructurePosition::ArrayMiddle))
}

/// Whether the stream index that `e` reports is `idx`, the index where scanning
/// stopped (errors of the tokenizer and of the output carry their own).
pub open spec fn error_at(e: ScanError, idx: int) -> bool {
    match e {
        ScanError::UnhandledPeek { position, .. } => position == idx,
        ScanError::UnbalancedJson(position) => position == idx,
        ScanError::InternalError { position, .. } => position == idx,
        ScanError::MaxNestingExceeded { position, .. } => position == idx,
        ScanError::ActionError { position, .. } => position == idx,
        ScanError::RJiterError(_) | ScanError::IOError(_) => true,
    }
}

/// Whether one step of `handle_object` from `position` with the context `ctx0`
/// ends with the context `ctx` and the position `p`: either the object is over (or
/// consumed by its action), its frames are gone and `p` is the position of the
/// enclosing frame; or a key was read, and its frame replaces the previous key's.
pub open spec fn object_step(ctx0: Seq<Seq<u8>>, position: StructurePosition, ctx: Seq<Seq<u8>>, p: StructurePosition) -> bool {
    let outer = if position == StructurePosition::ObjectBegin {
        ctx0
    } else {
        ctx0.drop_last()
    };
    ||| ctx == outer && p == position_of_code(ctx.last()[0])
    ||| (p == StructurePosition::ObjectMiddle || p == StructurePosition::ObjectBetweenKV) && exists|
        key: Seq<u8>,
    |
        #![trigger entry(StructurePosition::ObjectMiddle, key)]
        outer.push(entry(StructurePosition::ObjectMiddle, key)) == ctx
}

/// Whether the events `ext` of one step of `handle_object` from `position` with the
/// context `ctx0`, ending with the context `ctx` and the position `p`, are as they
/// should be: the object's begin action consumed it; or first the object was entered
/// (or the previous key closed), then either the object was closed, its end action
/// looked up in the context around the object, or the next key's begin action was
/// looked up in the context with that key on top.
pub open spec fn object_events(
    ctx0: Seq<Seq<u8>>,
    position: StructurePosition,
    ctx: Seq<Seq<u8>>,
    p: StructurePosition,
    ext: Seq<ScanEvent>,
) -> bool {
    let c0 = ctx_names(ctx0);
    let outer = if position == StructurePosition::ObjectBegin {
        ctx0
    } else {
        ctx0.drop_last()
    };
    ||| position == StructurePosition::ObjectBegin && ctx == ctx0 && consumed(
        ext,
        StructuralPseudoname::Object,
        c0,
    )
    ||| exists|j: int|
        #![trigger ext.subrange(0, j)]
        0 <= j <= ext.len() && {
            let first = ext.subrange(0, j);
            let rest = ext.subrange(j, ext.len() as int);
            &&& position == StructurePosition::ObjectBegin ==> opened(first, StructuralPseudoname::Object, c0)
            &&& position != StructurePosition::ObjectBegin ==> closed_ok(first, StructuralPseudoname::Key, c0)
            &&& ctx == outer ==> closed_ok(rest, StructuralPseudoname::Object, ctx_names(outer))
            &&& ctx != outer ==> lookup_then(rest, true, StructuralPseudoname::Key, ctx_names(ctx))
                && ((p == StructurePosition::ObjectMiddle) == (rest.len() == 2 && rest[1]
                == ScanEvent::Begin(StreamOp::ValueIsConsumed)))
        }
}

/// Whether `p` is the first byte of a string, `null`, `true` or `false`.
pub open spec fn is_basic_peek(p: Peeked) -> bool {
    p == Peeked::spec_string() || p == Peeked::spec_null() || p == Peeked::spec_true() || p
        == Peeked::spec_false()
}

/// Consumes a basic JSON value (string, `null`, `true`, `false` or a number) whose
/// first byte is `peeked`; anything else is an `UnhandledPeek` error.
fn skip_basic_values<R: Reader>(peeked: Peeked, rjiter: &mut RJiter<R>) -> (r: Result<(), ScanError>)
    requires
        old(rjiter).wf(),
    ensures
        final(rjiter).wf(),
        final(rjiter).reader_never_fails() == old(rjiter).reader_never_fails(),
        old(rjiter).reader_never_fails() ==> !(r matches Err(ScanError::RJiterError(e)) && e.error_type is IoError),
        final(rjiter).capacity() == old(rjiter).capacity(),
        final(rjiter).total_len() == old(rjiter).total_len(),
        final(rjiter).spec_current_index() >= old(rjiter).spec_current_index(),
        r is Ok ==> final(rjiter).spec_current_index() > old(rjiter).spec_current_index(),
        r is Ok && peeked == Peeked::spec_string() ==> exists|start: int, tail: Seq<u8>|
            #[trigger] long_tail(false, final(rjiter).data(), start, tail),
        r is Ok && peeked == Peeked::spec_null() ==> token_step(
            Op::KnownNull,
            final(rjiter).data(),
            final(rjiter).pos(),
            Ok(Outcome::Unit),
        ),
        r is Ok && (peeked == Peeked::spec_true() || peeked == Peeked::spec_false()) ==> exists|b: bool|
            #[trigger] token_step(
                Op::KnownBool(peeked),
                final(rjiter).data(),
                final(rjiter).pos(),
                Ok(Outcome::Bool(b)),
            ),
        r is Ok && !is_basic_peek(peeked) ==> exists|v: Vec<u8>|
            #[trigger] token_step(
                Op::NextNumberBytes,
                final(rjiter).data(),
                final(rjiter).pos(),
                Ok(Outcome::Bytes(v)),
            ),
        r matches Err(e) ==> match e {
            ScanError::RJiterError(re) => if peeked == Peeked::spec_string() {
                long_error(false, re)
            } else if peeked == Peeked::spec_null() {
                error_step(Op::KnownNull, final(rjiter).data(), re)
            } else {
                (peeked == Peeked::spec_true() || peeked == Peeked::spec_false()) && error_step(
                    Op::KnownBool(peeked),
                    final(rjiter).data(),
                    re,
                )
            },
            ScanError::UnhandledPeek { peek, position } => {
                &&& peek == peeked
                &&& !is_basic_peek(peeked)
                &&& position == final(rjiter).spec_current_index()
            },
            _ => false,
        },
{
    proof {
        Peeked::lemma_peek_bytes();
    }
    if peeked == Peeked::string() {
        let mut sink = Sink::new();
        return match rjiter.write_long_bytes(&mut sink) {
            Ok(()) => Ok(()),
            Err(e) => Err(ScanError::RJiterError(e)),
        };
    }
    if peeked == Peeked::null() {
        return match rjiter.known_null() {
            Ok(()) => Ok(()),
            Err(e) => Err(ScanError::RJiterError(e)),
        };
    }
    if peeked == Peeked::true_value() || peeked == Peeked::false_value() {
        return match rjiter.known_bool(peeked) {
            Ok(_) => Ok(()),
            Err(e) => Err(ScanError::RJiterError(e)),
        };
    }
    if rjiter.next_number_bytes().is_ok() {
        return Ok(());
    }
    Err(ScanError::UnhandledPeek { peek: peeked, position: rjiter.current_index() })
}

/// Whether every SSE token of `options` is non-empty and fits with the buffer's
/// size in a `usize`.
pub open spec fn tokens_ok(options: &Options, capacity: nat) -> bool {
    forall|i: int|
        0 <= i < options.sse_tokens@.len() ==> 0 < (#[trigger] options.sse_tokens@[i])@.len() && capacity
            + options.sse_tokens@[i]@.len() <= usize::MAX
}

/// Parses JSON from `rjiter` and calls the actions of `actions` on its events.
///
/// While parsing, `scan` keeps in `working_buffer` a context stack with the names
/// from the root to the current nesting level: `#top`, then a key for each open
/// object and `#array` for each open array. For each element it asks for a begin
/// action and runs it; for arrays and objects it then goes through their contents;
/// then it asks for an end action and runs it. If a begin action returns
/// `StreamOp::ValueIsConsumed`, the rest is skipped for that element.
///
/// At the top level, and inside a top-level array, the SSE tokens of `options` are
/// skipped where no JSON value is. Several top-level values are read one after the
/// other (as in JSON lines) unless `options.stop_early` is set, in which case `scan`
/// stops after the first.
///
/// On success the context stack is the one given with the `#top` entry pushed.
#[verifier::rlimit(80)]
pub fn scan<R: Reader, A: ScanActions<R>>(
    actions: &mut A,
    rjiter: &mut RJiter<R>,
    working_buffer: &mut U8Pool,
    options: &Options,
) -> (r: Result<(), ScanError>)
    requires
        old(rjiter).wf(),
        old(working_buffer).wf(),
        tokens_ok(options, old(rjiter).capacity()),
    ensures
        final(rjiter).wf(),
        final(rjiter).reader_never_fails() == old(rjiter).reader_never_fails(),
        old(rjiter).reader_never_fails() ==> !(r matches Err(ScanError::RJiterError(e)) && e.error_type is IoError),
        final(working_buffer).wf(),
        final(rjiter).capacity() == old(rjiter).capacity(),
        final(rjiter).total_len() == old(rjiter).total_len(),
        r is Ok ==> final(working_buffer)@ == old(working_buffer)@.push(top_entry()),
        r is Ok ==> final(rjiter).spec_current_index() >= old(rjiter).spec_current_index(),
        r matches Err(e) ==> error_at(e, final(rjiter).spec_current_index()),
        !old(working_buffer).assoc_fits(1, 1, top_name().len() as int) ==> {
            &&& r == Err::<(), ScanError>(
                ScanError::MaxNestingExceeded {
                    position: old(rjiter).spec_current_index() as usize,
                    level: 0,
                },
            )
            &&& final(working_buffer)@ == old(working_buffer)@
            &&& final(rjiter).spec_current_index() == old(rjiter).spec_current_index()
            &&& *final(actions) == *old(actions)
        },
        r matches Err(ScanError::MaxNestingExceeded { level, .. }) ==> {
            ||| level == 0 && !old(working_buffer).assoc_fits(1, 1, top_name().len() as int)
            ||| level == final(working_buffer)@.len() && !final(working_buffer).assoc_fits(
                1,
                1,
                array_name().len() as int,
            )
            ||| level == old(working_buffer).spec_max_slices() && final(working_buffer)@.len() >= level
        },
        final(actions).log().len() >= old(actions).log().len(),
        final(actions).log().subrange(0, old(actions).log().len() as int) == old(actions).log(),
        errors_agree(events_after(final(actions).log(), old(actions).log().len() as int), r),
        r is Ok && options.stop_early ==> lookups_in(
            events_after(final(actions).log(), old(actions).log().len() as int),
            top_names(old(working_buffer)@),
        ) <= 1,
        r is Ok && !options.stop_early ==> (final(rjiter).pending().len() == 0
            || final(rjiter).data().len() == final(rjiter).capacity()) && exists|start: int|
            #[trigger] finish_ok_at(final(rjiter).data(), start),
{
    let ghost base = working_buffer@;
    let mut position = StructurePosition::Top;
    let top: Vec<u8> = vec![35u8, 116u8, 111u8, 112u8];
    assert(top@ =~= top_name());
    if working_buffer.push_assoc(position, top.as_slice()).is_err() {
        return Err(ScanError::MaxNestingExceeded { position: rjiter.current_index(), level: 0 });
    }
    proof {
        assert(StructurePosition::Top.spec_encode() + top_name() =~= top_entry());
        assert(working_buffer@.subrange(0, base.len() as int) =~= base);
    }
    let mut is_progressed = false;
    proof {
        rjiter_index_bound(rjiter);
        assert(events_after(actions.log(), old(actions).log().len() as int).len() == 0);
    }
    let ghost t = top_names(base);
    let ghost cap = rjiter.capacity();
    let ghost total = rjiter.total_len();
    loop
        invariant
            rjiter.wf(),
            rjiter.reader_never_fails() == old(rjiter).reader_never_fails(),
            working_buffer.wf(),
            rjiter.capacity() == cap,
            cap == old(rjiter).capacity(),
            rjiter.total_len() == total,
            total == old(rjiter).total_len(),
            rjiter.spec_current_index() <= total,
            rjiter.spec_current_index() >= old(rjiter).spec_current_index(),
            base == old(working_buffer)@,
            tokens_ok(options, cap),
            stack_ok(working_buffer@, base, position),
            working_buffer.spec_max_slices() == old(working_buffer).spec_max_slices(),
            old(working_buffer).assoc_fits(1, 1, top_name().len() as int),
            actions.log().len() >= old(actions).log().len(),
            actions.log().subrange(0, old(actions).log().len() as int) == old(actions).log(),
            no_error_events(events_after(actions.log(), old(actions).log().len() as int)),
            t == top_names(base),
            !is_progressed ==> position == StructurePosition::Top && lookups_in(
                events_after(actions.log(), old(actions).log().len() as int),
                top_names(base),
            ) == 0,
            options.stop_early ==> lookups_in(
                events_after(actions.log(), old(actions).log().len() as int),
                top_names(base),
            ) <= 1,
            options.stop_early && (position == StructurePosition::ObjectBegin || position
                == StructurePosition::ArrayBegin) && working_buffer@.len() == base.len() + 1 ==> lookups_in(
                events_after(actions.log(), old(actions).log().len() as int),
                top_names(base),
            ) == 0,
        ensures
            options.stop_early ==> lookups_in(
                events_after(actions.log(), old(actions).log().len() as int),
                top_names(base),
            ) <= 1,
            actions.log().len() >= old(actions).log().len(),
            actions.log().subrange(0, old(actions).log().len() as int) == old(actions).log(),
            no_error_events(events_after(actions.log(), old(actions).log().len() as int)),
            position == StructurePosition::Top,
            rjiter.wf(),
            rjiter.total_len() == total,
            rjiter.spec_current_index() >= old(rjiter).spec_current_index(),
            !options.stop_early ==> (rjiter.pending().len() == 0 || rjiter.data().len()
                == rjiter.capacity()) && exists|start: int|
                #[trigger] finish_ok_at(rjiter.data(), start),
        decreases total - rjiter.spec_current_index(), position_rank(position),
    {
        if is_progressed && options.stop_early && position == StructurePosition::Top {
            break;
        }
        let ghost was_progressed = is_progressed;
        is_progressed = true;
        let ghost l_start = actions.log();
        let ghost pool_start = working_buffer@;
        let ghost pos_start = position;
        let ghost index0 = rjiter.spec_current_index();
        let ghost rank0 = position_rank(position);
        let mut peeked: Option<Peeked> = None;
        let ghost la = actions.log();
        if position == StructurePosition::ObjectBegin || position == StructurePosition::ObjectMiddle {
            let ho = handle_object(rjiter, actions, position, working_buffer, Ghost(base));
            proof {
                lemma_events_step::<StructurePosition, ()>(old(actions).log(), la, actions.log(), ho);
                if let Ok(p) = ho {
                    lemma_lookups_step(old(actions).log(), la, actions.log(), t);
                    lemma_object_lookups(
                        pool_start,
                        pos_start,
                        working_buffer@,
                        p,
                        events_after(actions.log(), la.len() as int),
                        base,
                    );
                    let l0 = old(actions).log();
                    let c_before = lookups_in(events_after(la, l0.len() as int), t);
                    let step = lookups_in(events_after(actions.log(), la.len() as int), t);
                    assert(la == l_start);
                    assert(lookups_in(events_after(actions.log(), l0.len() as int), t) == c_before + step);
                    if options.stop_early {
                        if pos_start == StructurePosition::ObjectBegin && pool_start.len() == base.len() + 1 {
                            assert(c_before == 0);
                        } else {
                            assert(step == 0);
                        }
                    }
                }
            }
            match ho {
                Ok(new_position) => {
                    position = new_position;
                    proof { rjiter_index_bound(rjiter); }
                    continue ;
                },
                Err(e) => {
                    return Err(e);
                },
            }
        }
        if position == StructurePosition::ArrayBegin || position == StructurePosition::ArrayMiddle {
            let ha = handle_array(rjiter, actions, position, working_buffer, Ghost(base));
            proof {
                lemma_events_step::<(Option<Peeked>, StructurePosition), ()>(old(actions).log(), la, actions.log(), ha);
                if let Ok((pk, p)) = ha {
                    lemma_lookups_step(old(actions).log(), la, actions.log(), t);
                    lemma_array_lookups(
                        pool_start,
                        pos_start,
                        working_buffer@,
                        pk is Some,
                        p,
                        events_after(actions.log(), la.len() as int),
                        base,
                    );
                }
            }
            match ha {
                Ok((Some(arr_peeked), new_position)) => {
                    position = new_position;
                    peeked = Some(arr_peeked);
                },
                Ok((None, new_position)) => {
                    position = new_position;
                    proof { rjiter_index_bound(rjiter); }
                    continue ;
                },
                Err(e) => {
                    return Err(e);
                },
            }
        }
        let ghost consumed = rjiter.spec_current_index() > index0;
        assert(!consumed ==> rank0 == 1);
        if peeked.is_none() {
            match rjiter.peek() {
                Ok(p) => {
                    peeked = Some(p);
                },
                Err(e) => {
                    let at_end = match &e.error_type {
                        ErrorType::JsonError(JsonErrorKind::EofWhileParsingValue) => true,
                        _ => false,
                    };
                    if !at_end {
                        return Err(ScanError::RJiterError(e));
                    }
                    if position != StructurePosition::Top {
                        return Err(ScanError::UnbalancedJson(rjiter.current_index()));
                    }
                    match rjiter.finish() {
                        Ok(()) => {},
                        Err(e) => {
                            return Err(ScanError::RJiterError(e));
                        },
                    }
                    proof {
                        rjiter_index_bound(rjiter);
                    }
                    break;
                },
            }
        }
        let peeked = match peeked {
            Some(p) => p,
            None => {
                return Err(
                    ScanError::InternalError {
                        position: rjiter.current_index(),
                        message: "peeked is none when it should not be",
                    },
                );
            },
        };
        if position == StructurePosition::ObjectBetweenKV {
            position = StructurePosition::ObjectMiddle;
        }
        if peeked == Peeked::array() {
            position = StructurePosition::ArrayBegin;
            proof { rjiter_index_bound(rjiter); }
            continue ;
        }
        if peeked == Peeked::object() {
            position = StructurePosition::ObjectBegin;
            proof { rjiter_index_bound(rjiter); }
            continue ;
        }
        let ghost lb = actions.log();
        proof {
            lemma_ctx_names_len(working_buffer@, base, position);
        }
        let atom_op = begin_action(actions, StructuralPseudoname::Atom, rjiter, working_buffer);
        proof {
            lemma_lookups_step(old(actions).log(), lb, actions.log(), t);
            lemma_lookups_of_lookup(
                events_after(actions.log(), lb.len() as int),
                true,
                StructuralPseudoname::Atom,
                ctx_names(working_buffer@),
                t,
            );
            let res: Result<(), ScanError> = match atom_op {
                StreamOp::Error(message) => Err(ScanError::ActionError { message, position: 0 }),
                _ => Ok(()),
            };
            let b = events_after(actions.log(), lb.len() as int);
            if b.len() == 2 {
                assert(b.drop_last() =~= seq![b[0]]);
            }
            assert(errors_agree(b, res));
            lemma_events_step::<(), ()>(old(actions).log(), lb, actions.log(), res);
        }
        match atom_op {
            StreamOp::Error(message) => {
                return Err(ScanError::ActionError { message, position: rjiter.current_index() });
            },
            StreamOp::ValueIsConsumed => {
                proof { rjiter_index_bound(rjiter); }
                continue ;
            },
            StreamOp::Continue => {},
        }
        if skip_basic_values(peeked, rjiter).is_ok() {
            proof { rjiter_index_bound(rjiter); }
            continue ;
        }
        if position == StructurePosition::Top || ((position == StructurePosition::ArrayBegin
            || position == StructurePosition::ArrayMiddle) && working_buffer.len() == 2) {
            let mut t: usize = 0;
            let mut skipped = false;
            while t < options.sse_tokens.len()
                invariant_except_break
                    !skipped,
                invariant
                    rjiter.wf(),
                    rjiter.reader_never_fails() == old(rjiter).reader_never_fails(),
                    rjiter.capacity() == cap,
                    rjiter.total_len() == total,
                    rjiter.spec_current_index() >= index0,
                    tokens_ok(options, cap),
                ensures
                    rjiter.wf(),
                    rjiter.reader_never_fails() == old(rjiter).reader_never_fails(),
                    rjiter.capacity() == cap,
                    rjiter.total_len() == total,
                    rjiter.spec_current_index() >= index0,
                    skipped ==> rjiter.spec_current_index() > index0,
                decreases options.sse_tokens@.len() - t,
            {
                let token = options.sse_tokens[t];
                assert(token@ == options.sse_tokens@[t as int]@);
                if rjiter.known_skip_token(token).is_ok() {
                    skipped = true;
                    break;
                }
                t = t + 1;
            }
            if skipped {
                proof { rjiter_index_bound(rjiter); }
                continue ;
            }
        }
        return Err(ScanError::UnhandledPeek { peek: peeked, position: rjiter.current_index() });
    }
    proof {
        assert(working_buffer@ =~= base.push(top_entry())) by {
            assert(working_buffer@.len() == base.len() + 1);
            assert forall|i: int| 0 <= i < base.len() implies working_buffer@[i] == base[i] by {
                assert(working_buffer@.subrange(0, base.len() as int)[i] == working_buffer@[i]);
            }
        }
    }
    Ok(())
}

/// The tokenizer's position never passes the bytes it accounts for.
proof fn rjiter_index_bound<R: Reader>(rjiter: &RJiter<R>)
    requires
        rjiter.wf(),
    ensures
        rjiter.spec_current_index() <= rjiter.total_len(),
{
    rjiter.lemma_index_bound();
}
} // verus!
