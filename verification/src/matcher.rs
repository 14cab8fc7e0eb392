use vstd::prelude::*;

use crate::stack::ContextIter;

verus! {

/// Structural pseudo-names of JSON nodes.
#[derive(Debug, Clone, Copy, PartialEq, Eq, Structural)]
pub enum StructuralPseudoname {
    /// The beginning or end of an array element.
    Array,
    /// The beginning or end of an object element.
    Object,
    /// Anything that is not an array or object (strings, numbers, booleans, null).
    Atom,
    /// An object key, with its name in the context path.
    Key,
}

/// Return value from an action called by `scan`.
#[derive(Debug)]
pub enum StreamOp {
    /// The action did not advance the parser; `scan` goes on as if it had not been called.
    Continue,
    /// The action advanced the parser past the current value; `scan` updates its state.
    ValueIsConsumed,
    /// An error with a static error message.
    Error(&'static str),
}

/// The bytes of `#array`.
pub open spec fn array_name() -> Seq<u8> {
    seq![35u8, 97u8, 114u8, 114u8, 97u8, 121u8]
}

/// The bytes of `#object`.
pub open spec fn object_name() -> Seq<u8> {
    seq![35u8, 111u8, 98u8, 106u8, 101u8, 99u8, 116u8]
}

/// The bytes of `#atom`.
pub open spec fn atom_name() -> Seq<u8> {
    seq![35u8, 97u8, 116u8, 111u8, 109u8]
}

/// The bytes of `#top`.
pub open spec fn top_name() -> Seq<u8> {
    seq![35u8, 116u8, 111u8, 112u8]
}

/// Every name of `names` equals the context name at the same position.
pub open spec fn names_prefix_of(names: Seq<Seq<u8>>, ctx: Seq<Seq<u8>>) -> bool {
    &&& names.len() <= ctx.len()
    &&& forall|i: int| 0 <= i < names.len() ==> #[trigger] names[i] == ctx[i]
}

/// Whether the names match a structural event in a context: for a structural event
/// the first name must be its pseudo-name; the other names must equal the context
/// names, most recent first. No names match everything.
pub open spec fn spec_iter_match(
    names: Seq<Seq<u8>>,
    kind: StructuralPseudoname,
    ctx: Seq<Seq<u8>>,
) -> bool {
    if names.len() == 0 {
        true
    } else {
        match kind {
            StructuralPseudoname::Array => names[0] == array_name() && names_prefix_of(
                names.drop_first(),
                ctx,
            ),
            StructuralPseudoname::Object => names[0] == object_name() && names_prefix_of(
                names.drop_first(),
                ctx,
            ),
            StructuralPseudoname::Atom => names[0] == atom_name() && names_prefix_of(
                names.drop_first(),
                ctx,
            ),
            StructuralPseudoname::Key => names_prefix_of(names, ctx),
        }
    }
}

/// The views of a slice of byte slices.
pub open spec fn slices_view(s: Seq<&[u8]>) -> Seq<Seq<u8>> {
    Seq::new(s.len(), |i: int| s[i]@)
}

/// Whether two byte slices are equal.
pub fn bytes_eq(a: &[u8], b: &[u8]) -> (r: bool)
    ensures
        r == (a@ == b@),
{
    if a.len() != b.len() {
        return false;
    }
    let mut i: usize = 0;
    while i < a.len()
        invariant
            a@.len() == b@.len(),
            0 <= i <= a@.len(),
            forall|k: int| 0 <= k < i ==> a@[k] == b@[k],
        decreases a@.len() - i,
    {
        if a[i] != b[i] {
            return false;
        }
        i = i + 1;
    }
    assert(a@ =~= b@);
    true
}

/// Whether `a` is the pseudo-name of `kind`: `#array`, `#object` or `#atom`; a key has none.
fn is_pseudo_name(a: &[u8], kind: StructuralPseudoname) -> (r: bool)
    ensures
        kind == StructuralPseudoname::Array ==> r == (a@ == array_name()),
        kind == StructuralPseudoname::Object ==> r == (a@ == object_name()),
        kind == StructuralPseudoname::Atom ==> r == (a@ == atom_name()),
        kind == StructuralPseudoname::Key ==> !r,
{
    match kind {
        StructuralPseudoname::Array => {
            let r = a.len() == 6 && a[0] == 35 && a[1] == 97 && a[2] == 114 && a[3] == 114 && a[4]
                == 97 && a[5] == 121;
            assert(r ==> a@ =~= array_name());
            r
        },
        StructuralPseudoname::Object => {
            let r = a.len() == 7 && a[0] == 35 && a[1] == 111 && a[2] == 98 && a[3] == 106 && a[4]
                == 101 && a[5] == 99 && a[6] == 116;
            assert(r ==> a@ =~= object_name());
            r
        },
        StructuralPseudoname::Atom => {
            let r = a.len() == 5 && a[0] == 35 && a[1] == 97 && a[2] == 116 && a[3] == 111 && a[4]
                == 109;
            assert(r ==> a@ =~= atom_name());
            r
        },
        StructuralPseudoname::Key => false,
    }
}

/// Match by name and ancestor names against the current JSON context.
///
/// `expected` lists the names to match: the name of the node, then its parent's
/// name, and so on. `path` gives the context names, most recent first. For a
/// structural event (begin or end of an array or object, an atom), the first
/// expected name must be the pseudo-name `#array`, `#object` or `#atom`. An empty
/// list matches everything; context names beyond the expected ones are allowed.
pub fn iter_match(expected: &[&[u8]], structural_pseudoname: StructuralPseudoname, path: ContextIter)
    -> (r: bool)
    requires
        path.valid(),
    ensures
        r == spec_iter_match(slices_view(expected@), structural_pseudoname, path.names()),
{
    let mut cur = path;
    let ghost names = slices_view(expected@);
    let ghost ctx = cur.names();
    assert(ctx == path.names());
    if expected.len() == 0 {
        return true;
    }
    let mut i: usize = 0;
    if structural_pseudoname != StructuralPseudoname::Key {
        if !is_pseudo_name(expected[0], structural_pseudoname) {
            return false;
        }
        i = 1;
    }
    let ghost skip = i as int;
    while i < expected.len()
        invariant
            cur.valid(),
            ctx == path.names(),
            1 <= expected@.len(),
            skip == 0 || skip == 1,
            skip == 1 ==> spec_iter_match(names, structural_pseudoname, ctx) == names_prefix_of(
                names.drop_first(),
                ctx,
            ),
            skip == 0 ==> spec_iter_match(names, structural_pseudoname, ctx) == names_prefix_of(
                names,
                ctx,
            ),
            skip <= i <= expected@.len(),
            names == slices_view(expected@),
            cur.names() == ctx.skip(i - skip),
            i - skip <= ctx.len(),
            forall|k: int| skip <= k < i ==> #[trigger] names[k] == ctx[k - skip],
        decreases expected@.len() - i,
    {
        match cur.next() {
            Some(actual_context) => {
                if !bytes_eq(expected[i], actual_context) {
                    assert(names[i as int] != ctx[i - skip]);
                    assert(names.skip(skip)[i - skip] == names[i as int]);
                    assert(skip == 1 ==> names.skip(skip) =~= names.drop_first());
                    assert(skip == 0 ==> names.skip(skip) =~= names);
                    return false;
                }
            },
            None => {
                assert(ctx.len() == i - skip);
                assert(skip == 1 ==> names.skip(skip) =~= names.drop_first());
                assert(skip == 0 ==> names.skip(skip) =~= names);
                return false;
            },
        }
        i = i + 1;
    }
    assert(names_prefix_of(names.skip(skip), ctx));
    assert(skip == 1 ==> names.skip(skip) =~= names.drop_first());
    assert(skip == 0 ==> names.skip(skip) =~= names);
    true
}

} // verus!
