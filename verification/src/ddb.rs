//! Conversion between plain JSON values and DynamoDB attribute values.
use vstd::prelude::*;

verus! {

/// A JSON value; strings, keys and numbers are held as their UTF-8 text.
#[derive(Debug)]
pub enum JsonValue {
    Null,
    Bool(bool),
    Number(Vec<u8>),
    Str(Vec<u8>),
    Array(Vec<JsonValue>),
    Object(Vec<Member>),
}

/// A key of a JSON object with its value.
#[derive(Debug)]
pub struct Member {
    pub key: Vec<u8>,
    pub value: JsonValue,
}

/// Why a value could not be converted.
#[derive(Debug, Clone, PartialEq, Eq)]
pub enum DdbError {
    /// The value to convert is not an object.
    ExpectedObject,
    /// The `Item` wrapper does not hold an object.
    ExpectedItemObject,
    /// A DynamoDB attribute value is not an object.
    ExpectedTypeObject,
    /// A DynamoDB attribute value does not have exactly one key.
    TypeObjectKeyCount,
    /// The value of an `N` attribute is not a string.
    NTypeMustBeString,
    /// A number's text is not a JSON number.
    InvalidNumber,
    /// The value of an `M` attribute is not an object.
    MTypeMustBeObject,
    /// The value of an `L` attribute is not an array.
    LTypeMustBeArray,
    /// The value of an `NS` attribute is not an array.
    NsTypeMustBeArray,
    /// An item of an `NS` attribute is not a string.
    NsItemsMustBeStrings,
    /// The type key of an attribute value is not a DynamoDB type.
    UnknownType(Vec<u8>),
}

/// The text of the JSON number that `serde_json::Number` parses from `text` and
/// prints, or `None` if `text` is not a number.
pub uninterp spec fn serde_number_text(text: Seq<u8>) -> Option<Seq<u8>>;

/// Parses `text` with `serde_json::Number`'s `FromStr` and prints the number back
/// with its `Display`; `None` if the text is not UTF-8 or not a JSON number.
#[verifier::external_body]
fn parse_number(text: &[u8]) -> (r: Option<Vec<u8>>)
    ensures
        r matches Some(v) ==> serde_number_text(text@) == Some(v@),
        r is None ==> serde_number_text(text@) is None,
{
    let s = match std::str::from_utf8(text) {
        Ok(s) => s,
        Err(_) => return None,
    };
    match s.parse::<serde_json::Number>() {
        Ok(n) => Some(n.to_string().into_bytes()),
        Err(_) => None,
    }
}

pub open spec fn key_s() -> Seq<u8> {
    seq![83u8]
}

pub open spec fn key_n() -> Seq<u8> {
    seq![78u8]
}

pub open spec fn key_bool() -> Seq<u8> {
    seq![66u8, 79u8, 79u8, 76u8]
}

pub open spec fn key_null() -> Seq<u8> {
    seq![78u8, 85u8, 76u8, 76u8]
}

pub open spec fn key_m() -> Seq<u8> {
    seq![77u8]
}

pub open spec fn key_l() -> Seq<u8> {
    seq![76u8]
}

pub open spec fn key_ss() -> Seq<u8> {
    seq![83u8, 83u8]
}

pub open spec fn key_ns() -> Seq<u8> {
    seq![78u8, 83u8]
}

pub open spec fn key_bs() -> Seq<u8> {
    seq![66u8, 83u8]
}

pub open spec fn key_b() -> Seq<u8> {
    seq![66u8]
}

pub open spec fn key_item() -> Seq<u8> {
    seq![73u8, 116u8, 101u8, 109u8]
}

/// Whether an item of an `NS` attribute is a string holding a number.
pub open spec fn ns_item_ok(item: JsonValue) -> bool {
    match item {
        JsonValue::Str(s) => serde_number_text(s@) is Some,
        _ => false,
    }
}

/// Whether `out` is the number that the `NS` item `item` holds.
pub open spec fn ns_item_value(item: JsonValue, out: JsonValue) -> bool {
    match item {
        JsonValue::Str(s) => match serde_number_text(s@) {
            Some(n) => out matches JsonValue::Number(o) && o@ == n,
            None => false,
        },
        _ => false,
    }
}

/// The error of the `NS` item `item`, if it is not a string holding a number.
pub open spec fn ns_item_error(item: JsonValue, e: DdbError) -> bool {
    match item {
        JsonValue::Str(s) => serde_number_text(s@) is None && e == DdbError::InvalidNumber,
        _ => e == DdbError::NsItemsMustBeStrings,
    }
}

/// Whether the DynamoDB attribute value `v` can be read as a plain JSON value.
pub open spec fn unmarshall_succeeds(v: JsonValue) -> bool
    decreases v,
{
    match v {
        JsonValue::Object(ms) => ms@.len() == 1 && {
            let k = ms@[0].key@;
            let t = ms@[0].value;
            if k == key_s() || k == key_bool() || k == key_ss() || k == key_bs() || k == key_b()
                || k == key_null() {
                true
            } else if k == key_n() {
                ns_item_ok(t)
            } else if k == key_m() {
                match t {
                    JsonValue::Object(inner) => forall|i: int|
                        0 <= i < inner@.len() ==> unmarshall_succeeds(#[trigger] inner@[i].value),
                    _ => false,
                }
            } else if k == key_l() {
                match t {
                    JsonValue::Array(items) => forall|i: int|
                        0 <= i < items@.len() ==> unmarshall_succeeds(#[trigger] items@[i]),
                    _ => false,
                }
            } else if k == key_ns() {
                match t {
                    JsonValue::Array(items) => forall|i: int|
                        0 <= i < items@.len() ==> ns_item_ok(#[trigger] items@[i]),
                    _ => false,
                }
            } else {
                false
            }
        },
        _ => false,
    }
}

/// Whether `out` is the plain JSON value that the DynamoDB attribute value `v` reads
/// as: `S`, `BOOL`, `SS`, `BS` and `B` give their value as it is, `NULL` gives null,
/// `N` the number its string holds, `M` and `L` their members and items read in
/// turn, `NS` the numbers its strings hold.
pub open spec fn unmarshall_ok(v: JsonValue, out: JsonValue) -> bool
    decreases v,
{
    match v {
        JsonValue::Object(ms) => ms@.len() == 1 && {
            let k = ms@[0].key@;
            let t = ms@[0].value;
            if k == key_s() || k == key_bool() || k == key_ss() || k == key_bs() || k == key_b() {
                out == t
            } else if k == key_null() {
                out == JsonValue::Null
            } else if k == key_n() {
                ns_item_value(t, out)
            } else if k == key_m() {
                match t {
                    JsonValue::Object(inner) => match out {
                        JsonValue::Object(om) => om@.len() == inner@.len() && forall|i: int|
                            0 <= i < inner@.len() ==> om@[i].key@ == inner@[i].key@
                                && unmarshall_ok(#[trigger] inner@[i].value, om@[i].value),
                        _ => false,
                    },
                    _ => false,
                }
            } else if k == key_l() {
                match t {
                    JsonValue::Array(items) => match out {
                        JsonValue::Array(oi) => oi@.len() == items@.len() && forall|i: int|
                            0 <= i < items@.len() ==> unmarshall_ok(#[trigger] items@[i], oi@[i]),
                        _ => false,
                    },
                    _ => false,
                }
            } else if k == key_ns() {
                match t {
                    JsonValue::Array(items) => match out {
                        JsonValue::Array(oi) => oi@.len() == items@.len() && forall|i: int|
                            0 <= i < items@.len() ==> ns_item_value(#[trigger] items@[i], oi@[i]),
                        _ => false,
                    },
                    _ => false,
                }
            } else {
                false
            }
        },
        _ => false,
    }
}

/// Whether `e` is the error of reading the DynamoDB attribute value `v`: the first
/// problem met, members and items being read in order.
pub open spec fn unmarshall_err(v: JsonValue, e: DdbError) -> bool
    decreases v,
{
    match v {
        JsonValue::Object(ms) => if ms@.len() != 1 {
            e == DdbError::TypeObjectKeyCount
        } else {
            let k = ms@[0].key@;
            let t = ms@[0].value;
            if k == key_s() || k == key_bool() || k == key_ss() || k == key_bs() || k == key_b()
                || k == key_null() {
                false
            } else if k == key_n() {
                match t {
                    JsonValue::Str(s) => serde_number_text(s@) is None && e
                        == DdbError::InvalidNumber,
                    _ => e == DdbError::NTypeMustBeString,
                }
            } else if k == key_m() {
                match t {
                    JsonValue::Object(inner) => exists|j: int|
                        0 <= j < inner@.len() && (forall|i: int|
                            0 <= i < j ==> unmarshall_succeeds(#[trigger] inner@[i].value))
                            && unmarshall_err(#[trigger] inner@[j].value, e),
                    _ => e == DdbError::MTypeMustBeObject,
                }
            } else if k == key_l() {
                match t {
                    JsonValue::Array(items) => exists|j: int|
                        0 <= j < items@.len() && (forall|i: int|
                            0 <= i < j ==> unmarshall_succeeds(#[trigger] items@[i]))
                            && unmarshall_err(#[trigger] items@[j], e),
                    _ => e == DdbError::LTypeMustBeArray,
                }
            } else if k == key_ns() {
                match t {
                    JsonValue::Array(items) => exists|j: int|
                        0 <= j < items@.len() && (forall|i: int|
                            0 <= i < j ==> ns_item_ok(#[trigger] items@[i])) && ns_item_error(
                            #[trigger] items@[j],
                            e,
                        ),
                    _ => e == DdbError::NsTypeMustBeArray,
                }
            } else {
                e matches DdbError::UnknownType(kk) && kk@ == k
            }
        },
        _ => e == DdbError::ExpectedTypeObject,
    }
}


/// Whether `out` is the DynamoDB attribute value of the plain JSON value `v`: null
/// as `NULL: true`, a boolean as `BOOL`, a number as `N` with its text, a string as
/// `S`, an array as `L` and an object as `M`, their items and members converted in turn.
pub open spec fn marshall_ok(v: JsonValue, out: JsonValue) -> bool
    decreases v,
{
    match out {
        JsonValue::Object(ms) => ms@.len() == 1 && {
            let k = ms@[0].key@;
            let t = ms@[0].value;
            match v {
                JsonValue::Null => k == key_null() && t == JsonValue::Bool(true),
                JsonValue::Bool(b) => k == key_bool() && t == JsonValue::Bool(b),
                JsonValue::Number(n) => k == key_n() && t == JsonValue::Str(n),
                JsonValue::Str(_) => k == key_s() && t == v,
                JsonValue::Array(items) => k == key_l() && match t {
                    JsonValue::Array(oi) => oi@.len() == items@.len() && forall|i: int|
                        0 <= i < items@.len() ==> marshall_ok(#[trigger] items@[i], oi@[i]),
                    _ => false,
                },
                JsonValue::Object(members) => k == key_m() && match t {
                    JsonValue::Object(om) => om@.len() == members@.len() && forall|i: int|
                        0 <= i < members@.len() ==> om@[i].key@ == members@[i].key@ && marshall_ok(
                            #[trigger] members@[i].value,
                            om@[i].value,
                        ),
                    _ => false,
                },
            }
        },
        _ => false,
    }
}

/// Whether every number in `v` is written as `serde_json` prints it, so that parsing
/// its text gives the same text back.
pub open spec fn numbers_canonical(v: JsonValue) -> bool
    decreases v,
{
    match v {
        JsonValue::Number(n) => serde_number_text(n@) == Some(n@),
        JsonValue::Array(items) => forall|i: int|
            0 <= i < items@.len() ==> numbers_canonical(#[trigger] items@[i]),
        JsonValue::Object(members) => forall|i: int|
            0 <= i < members@.len() ==> numbers_canonical(#[trigger] members@[i].value),
        _ => true,
    }
}

/// Whether two JSON values are equal: same kind, same text, same items and members
/// in the same order.
pub open spec fn json_eq(a: JsonValue, b: JsonValue) -> bool
    decreases a,
{
    match a {
        JsonValue::Null => b is Null,
        JsonValue::Bool(x) => b == JsonValue::Bool(x),
        JsonValue::Number(x) => b matches JsonValue::Number(y) && x@ == y@,
        JsonValue::Str(x) => b matches JsonValue::Str(y) && x@ == y@,
        JsonValue::Array(x) => match b {
            JsonValue::Array(y) => x@.len() == y@.len() && forall|i: int|
                0 <= i < x@.len() ==> json_eq(#[trigger] x@[i], y@[i]),
            _ => false,
        },
        JsonValue::Object(x) => match b {
            JsonValue::Object(y) => x@.len() == y@.len() && forall|i: int|
                0 <= i < x@.len() ==> x@[i].key@ == y@[i].key@ && json_eq(
                    #[trigger] x@[i].value,
                    y@[i].value,
                ),
            _ => false,
        },
    }
}

/// Whether `out` lists the members of `src` with their values written as DynamoDB
/// attribute values, in the same order.
pub open spec fn members_marshalled(src: Seq<Member>, out: Seq<Member>) -> bool {
    &&& out.len() == src.len()
    &&& forall|i: int|
        0 <= i < src.len() ==> out[i].key@ == src[i].key@ && marshall_ok(
            #[trigger] src[i].value,
            out[i].value,
        )
}

/// Whether `out` lists the members of `src` with their DynamoDB attribute values
/// read as plain JSON values, in the same order.
pub open spec fn members_unmarshalled(src: Seq<Member>, out: Seq<Member>) -> bool {
    &&& out.len() == src.len()
    &&& forall|i: int|
        0 <= i < src.len() ==> out[i].key@ == src[i].key@ && unmarshall_ok(
            #[trigger] src[i].value,
            out[i].value,
        )
}

/// The members that `from_dynamodb` reads from `v`: those of the object under a sole
/// `Item` key, or else those of `v`; `None` if there is no such object.
pub open spec fn ddb_item_members(v: JsonValue) -> Option<Seq<Member>> {
    match v {
        JsonValue::Object(ms) => if ms@.len() == 1 && ms@[0].key@ == key_item() {
            match ms@[0].value {
                JsonValue::Object(o) => Some(o@),
                _ => None,
            }
        } else {
            Some(ms@)
        },
        _ => None,
    }
}

/// Whether `out` is the DynamoDB item that `to_dynamodb` writes for the object `v`.
pub open spec fn to_ddb_ok(v: JsonValue, wrap_item: bool, out: JsonValue) -> bool {
    match v {
        JsonValue::Object(ms) => if wrap_item {
            (out matches JsonValue::Object(w) && w@.len() == 1 && w@[0].key@ == key_item() && (
            w@[0].value matches JsonValue::Object(inner) && members_marshalled(ms@, inner@)))
        } else {
            (out matches JsonValue::Object(inner) && members_marshalled(ms@, inner@))
        },
        _ => false,
    }
}

/// Whether `from_dynamodb` reads the item `v` without error.
pub open spec fn from_ddb_succeeds(v: JsonValue) -> bool {
    ddb_item_members(v) matches Some(ms) && forall|i: int|
        0 <= i < ms.len() ==> unmarshall_succeeds(#[trigger] ms[i].value)
}

/// Whether `out` is the plain JSON object that `from_dynamodb` reads from the item `v`.
pub open spec fn from_ddb_ok(v: JsonValue, out: JsonValue) -> bool {
    ddb_item_members(v) matches Some(ms) && (out matches JsonValue::Object(om)
        && members_unmarshalled(ms, om@))
}

/// Whether `v` is an object whose only key is `Item`.
pub open spec fn sole_item_key(v: JsonValue) -> bool {
    v matches JsonValue::Object(ms) && ms@.len() == 1 && ms@[0].key@ == key_item()
}

/// The type keys differ from each other.
proof fn lemma_keys_distinct()
    ensures
        key_m() != key_s() && key_m() != key_bool() && key_m() != key_ss() && key_m() != key_bs()
            && key_m() != key_b() && key_m() != key_null() && key_m() != key_n(),
        key_l() != key_s() && key_l() != key_bool() && key_l() != key_ss() && key_l() != key_bs()
            && key_l() != key_b() && key_l() != key_null() && key_l() != key_n() && key_l() != key_m(),
        key_ns() != key_s() && key_ns() != key_bool() && key_ns() != key_ss() && key_ns() != key_bs()
            && key_ns() != key_b() && key_ns() != key_null() && key_ns() != key_n() && key_ns()
            != key_m() && key_ns() != key_l(),
        key_n() != key_s() && key_n() != key_bool() && key_n() != key_ss() && key_n() != key_bs()
            && key_n() != key_b() && key_n() != key_null(),
        key_null() != key_s() && key_null() != key_bool() && key_null() != key_ss() && key_null()
            != key_bs() && key_null() != key_b(),
{
    assert(key_m()[0] != key_s()[0]);
    assert(key_m().len() != key_bool().len());
    assert(key_m().len() != key_ss().len());
    assert(key_m().len() != key_bs().len());
    assert(key_m()[0] != key_b()[0]);
    assert(key_m().len() != key_null().len());
    assert(key_m()[0] != key_n()[0]);
    assert(key_l()[0] != key_s()[0]);
    assert(key_l().len() != key_bool().len());
    assert(key_l().len() != key_ss().len());
    assert(key_l().len() != key_bs().len());
    assert(key_l()[0] != key_b()[0]);
    assert(key_l().len() != key_null().len());
    assert(key_l()[0] != key_n()[0]);
    assert(key_l()[0] != key_m()[0]);
    assert(key_ns()[0] != key_s()[0]);
    assert(key_ns().len() != key_bool().len());
    assert(key_ns()[0] != key_ss()[0]);
    assert(key_ns()[0] != key_bs()[0]);
    assert(key_ns().len() != key_b().len());
    assert(key_ns().len() != key_null().len());
    assert(key_ns().len() != key_n().len());
    assert(key_ns().len() != key_m().len());
    assert(key_ns().len() != key_l().len());
    assert(key_n()[0] != key_s()[0]);
    assert(key_n().len() != key_bool().len());
    assert(key_n().len() != key_ss().len());
    assert(key_n().len() != key_bs().len());
    assert(key_n()[0] != key_b()[0]);
    assert(key_n().len() != key_null().len());
    assert(key_null().len() != key_s().len());
    assert(key_null()[0] != key_bool()[0]);
    assert(key_null().len() != key_ss().len());
    assert(key_null().len() != key_bs().len());
    assert(key_null().len() != key_b().len());
}

/// Whether `key` equals `lit`.
fn key_is(key: &[u8], lit: &[u8]) -> (r: bool)
    ensures
        r == (key@ == lit@),
{
    crate::matcher::bytes_eq(key, lit)
}

/// Reads the `NS` item `item`: a string holding a number.
fn unmarshall_ns_item(item: JsonValue) -> (r: Result<JsonValue, DdbError>)
    ensures
        r is Ok <==> ns_item_ok(item),
        r matches Ok(o) ==> ns_item_value(item, o),
        r matches Err(e) ==> ns_item_error(item, e),
{
    match item {
        JsonValue::Str(s) => match parse_number(s.as_slice()) {
            Some(n) => Ok(JsonValue::Number(n)),
            None => Err(DdbError::InvalidNumber),
        },
        _ => Err(DdbError::NsItemsMustBeStrings),
    }
}

/// Reads a DynamoDB attribute value (an object with one type key) as a plain JSON
/// value; see `unmarshall_ok` and `unmarshall_err`.
pub fn unmarshall_value(value: JsonValue) -> (r: Result<JsonValue, DdbError>)
    ensures
        r is Ok <==> unmarshall_succeeds(value),
        r matches Ok(o) ==> unmarshall_ok(value, o),
        r matches Err(e) ==> unmarshall_err(value, e),
    decreases value,
{
    let ghost v0 = value;
    let mut ms = match value {
        JsonValue::Object(o) => o,
        _ => {
            return Err(DdbError::ExpectedTypeObject);
        },
    };
    if ms.len() != 1 {
        return Err(DdbError::TypeObjectKeyCount);
    }
    let ghost ms0 = ms@;
    let m = ms.remove(0);
    assert(m == ms0[0]);
    let Member { key, value: t } = m;
    let ghost k = key@;
    let ghost t0 = t;
    proof {
        lemma_keys_distinct();
    }
    let lit_s: Vec<u8> = vec![83u8];
    let lit_bool: Vec<u8> = vec![66u8, 79u8, 79u8, 76u8];
    let lit_ss: Vec<u8> = vec![83u8, 83u8];
    let lit_bs: Vec<u8> = vec![66u8, 83u8];
    let lit_b: Vec<u8> = vec![66u8];
    let lit_null: Vec<u8> = vec![78u8, 85u8, 76u8, 76u8];
    let lit_n: Vec<u8> = vec![78u8];
    let lit_m: Vec<u8> = vec![77u8];
    let lit_l: Vec<u8> = vec![76u8];
    let lit_ns: Vec<u8> = vec![78u8, 83u8];
    assert(lit_s@ =~= key_s());
    assert(lit_bool@ =~= key_bool());
    assert(lit_ss@ =~= key_ss());
    assert(lit_bs@ =~= key_bs());
    assert(lit_b@ =~= key_b());
    assert(lit_null@ =~= key_null());
    assert(lit_n@ =~= key_n());
    assert(lit_m@ =~= key_m());
    assert(lit_l@ =~= key_l());
    assert(lit_ns@ =~= key_ns());
    if key_is(key.as_slice(), lit_s.as_slice()) || key_is(key.as_slice(), lit_bool.as_slice())
        || key_is(key.as_slice(), lit_ss.as_slice()) || key_is(key.as_slice(), lit_bs.as_slice())
        || key_is(key.as_slice(), lit_b.as_slice()) {
        return Ok(t);
    }
    if key_is(key.as_slice(), lit_null.as_slice()) {
        return Ok(JsonValue::Null);
    }
    if key_is(key.as_slice(), lit_n.as_slice()) {
        return match t {
            JsonValue::Str(s) => match parse_number(s.as_slice()) {
                Some(n) => Ok(JsonValue::Number(n)),
                None => Err(DdbError::InvalidNumber),
            },
            _ => Err(DdbError::NTypeMustBeString),
        };
    }
    if key_is(key.as_slice(), lit_m.as_slice()) {
        let inner = match t {
            JsonValue::Object(o) => o,
            _ => {
                return Err(DdbError::MTypeMustBeObject);
            },
        };
        let ghost orig = inner@;
        let mut rest = inner;
        let mut result: Vec<Member> = Vec::new();
        let mut i: usize = 0;
        let _n0: usize = rest.len();
        while rest.len() > 0
            invariant
                v0 == value,
                (v0 matches JsonValue::Object(vv) && vv@ == ms0),
                ms0.len() == 1,
                ms0[0].key@ == k,
                ms0[0].value == t0,
                (t0 matches JsonValue::Object(oo) && oo@ == orig),
                k == key_m(),
                i <= orig.len(),
                orig.len() <= usize::MAX,
                rest@ == orig.skip(i as int),
                result@.len() == i,
                forall|j: int|
                    0 <= j < i ==> #[trigger] result@[j].key@ == orig[j].key@ && unmarshall_ok(
                        orig[j].value,
                        result@[j].value,
                    ),
                forall|j: int| 0 <= j < i ==> unmarshall_succeeds(#[trigger] orig[j].value),
            decreases rest@.len(),
        {
            let ghost before = rest@;
            let member = rest.remove(0);
            assert(member == orig[i as int]);
            let Member { key: mk, value: mv } = member;
            proof {
                let vv = v0->Object_0;
                let oo = t0->Object_0;
                assert(decreases_to!(v0 => vv));
                assert(decreases_to!(vv => vv@));
                assert(decreases_to!(vv@ => vv@[0]));
                assert(decreases_to!(vv@[0] => vv@[0].value));
                assert(decreases_to!(t0 => oo));
                assert(decreases_to!(oo => oo@));
                assert(decreases_to!(oo@ => oo@[i as int]));
                assert(decreases_to!(oo@[i as int] => oo@[i as int].value));
            }
            match unmarshall_value(mv) {
                Ok(v) => {
                    result.push(Member { key: mk, value: v });
                },
                Err(e) => {
                    proof {
                        lemma_keys_distinct();
                        let oo = t0->Object_0;
                        assert(oo@[i as int].value == orig[i as int].value);
                        assert(unmarshall_err(oo@[i as int].value, e));
                        assert(!unmarshall_succeeds(oo@[i as int].value));
                        assert(forall|i2: int| 0 <= i2 < i ==> unmarshall_succeeds(#[trigger] oo@[i2].value));
                    }
                    return Err(e);
                },
            }
            assert(rest@ =~= orig.skip(i + 1));
            i = i + 1;
        }
        proof {
            lemma_keys_distinct();
            let oo = t0->Object_0;
            assert(oo@ == orig);
            assert(i == orig.len());
        }
        return Ok(JsonValue::Object(result));
    }
    if key_is(key.as_slice(), lit_l.as_slice()) {
        let items = match t {
            JsonValue::Array(a) => a,
            _ => {
                return Err(DdbError::LTypeMustBeArray);
            },
        };
        let ghost orig = items@;
        let mut rest = items;
        let mut result: Vec<JsonValue> = Vec::new();
        let mut i: usize = 0;
        let _n0: usize = rest.len();
        while rest.len() > 0
            invariant
                v0 == value,
                (v0 matches JsonValue::Object(vv) && vv@ == ms0),
                ms0.len() == 1,
                ms0[0].key@ == k,
                ms0[0].value == t0,
                (t0 matches JsonValue::Array(oo) && oo@ == orig),
                k == key_l(),
                i <= orig.len(),
                orig.len() <= usize::MAX,
                rest@ == orig.skip(i as int),
                result@.len() == i,
                forall|j: int| 0 <= j < i ==> unmarshall_ok(orig[j], #[trigger] result@[j]),
                forall|j: int| 0 <= j < i ==> unmarshall_succeeds(#[trigger] orig[j]),
            decreases rest@.len(),
        {
            let item = rest.remove(0);
            assert(item == orig[i as int]);
            proof {
                let vv = v0->Object_0;
                let oo = t0->Array_0;
                assert(decreases_to!(v0 => vv));
                assert(decreases_to!(vv => vv@));
                assert(decreases_to!(vv@ => vv@[0]));
                assert(decreases_to!(vv@[0] => vv@[0].value));
                assert(decreases_to!(t0 => oo));
                assert(decreases_to!(oo => oo@));
                assert(decreases_to!(oo@ => oo@[i as int]));
            }
            match unmarshall_value(item) {
                Ok(v) => {
                    result.push(v);
                },
                Err(e) => {
                    proof {
                        lemma_keys_distinct();
                        let oo = t0->Array_0;
                        assert(oo@[i as int] == orig[i as int]);
                        assert(unmarshall_err(oo@[i as int], e));
                        assert(!unmarshall_succeeds(oo@[i as int]));
                        assert(forall|i2: int| 0 <= i2 < i ==> unmarshall_succeeds(#[trigger] oo@[i2]));
                    }
                    return Err(e);
                },
            }
            assert(rest@ =~= orig.skip(i + 1));
            i = i + 1;
        }
        return Ok(JsonValue::Array(result));
    }
    if key_is(key.as_slice(), lit_ns.as_slice()) {
        let items = match t {
            JsonValue::Array(a) => a,
            _ => {
                return Err(DdbError::NsTypeMustBeArray);
            },
        };
        let ghost orig = items@;
        let mut rest = items;
        let mut result: Vec<JsonValue> = Vec::new();
        let mut i: usize = 0;
        let _n0: usize = rest.len();
        while rest.len() > 0
            invariant
                v0 == value,
                (v0 matches JsonValue::Object(vv) && vv@ == ms0),
                ms0.len() == 1,
                ms0[0].key@ == k,
                ms0[0].value == t0,
                (t0 matches JsonValue::Array(oo) && oo@ == orig),
                k == key_ns(),
                i <= orig.len(),
                orig.len() <= usize::MAX,
                rest@ == orig.skip(i as int),
                result@.len() == i,
                forall|j: int| 0 <= j < i ==> ns_item_value(orig[j], #[trigger] result@[j]),
                forall|j: int| 0 <= j < i ==> ns_item_ok(#[trigger] orig[j]),
            decreases rest@.len(),
        {
            let item = rest.remove(0);
            assert(item == orig[i as int]);
            match unmarshall_ns_item(item) {
                Ok(v) => {
                    result.push(v);
                },
                Err(e) => {
                    proof {
                        lemma_keys_distinct();
                        let oo = t0->Array_0;
                        assert(oo@[i as int] == orig[i as int]);
                        assert(ns_item_error(oo@[i as int], e));
                        assert(!ns_item_ok(oo@[i as int]));
                        assert(forall|i2: int| 0 <= i2 < i ==> ns_item_ok(#[trigger] oo@[i2]));
                    }
                    return Err(e);
                },
            }
            assert(rest@ =~= orig.skip(i + 1));
            i = i + 1;
        }
        return Ok(JsonValue::Array(result));
    }
    Err(DdbError::UnknownType(key))
}

/// An object with the single member `key: value`.
fn single(key: Vec<u8>, value: JsonValue) -> (r: JsonValue)
    ensures
        r matches JsonValue::Object(ms) && ms@.len() == 1 && ms@[0].key@ == key@ && ms@[0].value
            == value,
{
    let mut ms: Vec<Member> = Vec::new();
    ms.push(Member { key, value });
    JsonValue::Object(ms)
}

/// Writes a plain JSON value as a DynamoDB attribute value; see `marshall_ok`.
/// Every value can be written.
pub fn marshall_value(value: JsonValue) -> (r: Result<JsonValue, DdbError>)
    ensures
        r matches Ok(o) && marshall_ok(value, o),
    decreases value,
{
    let ghost v0 = value;
    match value {
        JsonValue::Null => {
            let key: Vec<u8> = vec![78u8, 85u8, 76u8, 76u8];
            assert(key@ =~= key_null());
            let out = single(key, JsonValue::Bool(true));
            assert(marshall_ok(v0, out));
            Ok(out)
        },
        JsonValue::Bool(b) => {
            let key: Vec<u8> = vec![66u8, 79u8, 79u8, 76u8];
            assert(key@ =~= key_bool());
            let out = single(key, JsonValue::Bool(b));
            assert(marshall_ok(v0, out));
            Ok(out)
        },
        JsonValue::Number(n) => {
            let key: Vec<u8> = vec![78u8];
            assert(key@ =~= key_n());
            let out = single(key, JsonValue::Str(n));
            assert(marshall_ok(v0, out));
            Ok(out)
        },
        JsonValue::Str(s) => {
            let key: Vec<u8> = vec![83u8];
            assert(key@ =~= key_s());
            let out = single(key, JsonValue::Str(s));
            assert(marshall_ok(v0, out));
            Ok(out)
        },
        JsonValue::Array(arr) => {
            let ghost orig = arr@;
            let mut rest = arr;
            let mut items: Vec<JsonValue> = Vec::new();
            let mut i: usize = 0;
            let _n0: usize = rest.len();
            while rest.len() > 0
                invariant
                    v0 == value,
                    (v0 matches JsonValue::Array(oo) && oo@ == orig),
                    i <= orig.len(),
                    orig.len() <= usize::MAX,
                    rest@ == orig.skip(i as int),
                    items@.len() == i,
                    forall|j: int| 0 <= j < i ==> marshall_ok(orig[j], #[trigger] items@[j]),
                decreases rest@.len(),
            {
                let item = rest.remove(0);
                assert(item == orig[i as int]);
                proof {
                    let oo = v0->Array_0;
                    assert(decreases_to!(v0 => oo));
                    assert(decreases_to!(oo => oo@));
                    assert(decreases_to!(oo@ => oo@[i as int]));
                }
                match marshall_value(item) {
                    Ok(v) => {
                        items.push(v);
                    },
                    Err(e) => {
                        return Err(e);
                    },
                }
                assert(rest@ =~= orig.skip(i + 1));
                i = i + 1;
            }
            let key: Vec<u8> = vec![76u8];
            assert(key@ =~= key_l());
            let out = single(key, JsonValue::Array(items));
            assert(marshall_ok(v0, out));
            Ok(out)
        },
        JsonValue::Object(obj) => {
            let ghost orig = obj@;
            let mut rest = obj;
            let mut map: Vec<Member> = Vec::new();
            let mut i: usize = 0;
            let _n0: usize = rest.len();
            while rest.len() > 0
                invariant
                    v0 == value,
                    (v0 matches JsonValue::Object(oo) && oo@ == orig),
                    i <= orig.len(),
                    orig.len() <= usize::MAX,
                    rest@ == orig.skip(i as int),
                    map@.len() == i,
                    forall|j: int|
                        0 <= j < i ==> #[trigger] map@[j].key@ == orig[j].key@ && marshall_ok(
                            orig[j].value,
                            map@[j].value,
                        ),
                decreases rest@.len(),
            {
                let member = rest.remove(0);
                assert(member == orig[i as int]);
                let Member { key: mk, value: mv } = member;
                proof {
                    let oo = v0->Object_0;
                    assert(decreases_to!(v0 => oo));
                    assert(decreases_to!(oo => oo@));
                    assert(decreases_to!(oo@ => oo@[i as int]));
                    assert(decreases_to!(oo@[i as int] => oo@[i as int].value));
                }
                match marshall_value(mv) {
                    Ok(v) => {
                        map.push(Member { key: mk, value: v });
                    },
                    Err(e) => {
                        return Err(e);
                    },
                }
                assert(rest@ =~= orig.skip(i + 1));
                i = i + 1;
            }
            let key: Vec<u8> = vec![77u8];
            assert(key@ =~= key_m());
            proof {
                let oo = v0->Object_0;
                assert(oo@ == orig);
                assert(i == orig.len());
                assert forall|j: int| 0 <= j < orig.len() implies map@[j].key@ == oo@[j].key@
                    && marshall_ok(#[trigger] oo@[j].value, map@[j].value) by {
                    assert(map@[j].key@ == orig[j].key@);
                }
            }
            let out = single(key, JsonValue::Object(map));
            assert(marshall_ok(v0, out));
            Ok(out)
        },
    }
}

/// Writes a plain JSON object as a DynamoDB item: each member's value as an
/// attribute value, under an `Item` key if `wrap_item` is set. Anything but an
/// object is an `ExpectedObject` error.
pub fn to_dynamodb(value: JsonValue, wrap_item: bool) -> (r: Result<JsonValue, DdbError>)
    ensures
        !(value is Object) ==> (r matches Err(e) && e == DdbError::ExpectedObject),
        value is Object ==> (r matches Ok(o) && to_ddb_ok(value, wrap_item, o)),
{
    let ghost v0 = value;
    let obj = match value {
        JsonValue::Object(o) => o,
        _ => {
            return Err(DdbError::ExpectedObject);
        },
    };
    let ghost orig = obj@;
    let mut rest = obj;
    let mut result: Vec<Member> = Vec::new();
    let mut i: usize = 0;
    let _n0: usize = rest.len();
    while rest.len() > 0
        invariant
            (v0 matches JsonValue::Object(oo) && oo@ == orig),
            i <= orig.len(),
            orig.len() <= usize::MAX,
            rest@ == orig.skip(i as int),
            result@.len() == i,
            forall|j: int|
                0 <= j < i ==> #[trigger] result@[j].key@ == orig[j].key@ && marshall_ok(
                    orig[j].value,
                    result@[j].value,
                ),
        decreases rest@.len(),
    {
        let member = rest.remove(0);
        assert(member == orig[i as int]);
        let Member { key: mk, value: mv } = member;
        match marshall_value(mv) {
            Ok(v) => {
                result.push(Member { key: mk, value: v });
            },
            Err(e) => {
                return Err(e);
            },
        }
        assert(rest@ =~= orig.skip(i + 1));
        i = i + 1;
    }
    assert(members_marshalled(orig, result@)) by {
        assert forall|j: int| 0 <= j < orig.len() implies result@[j].key@ == orig[j].key@
            && marshall_ok(#[trigger] orig[j].value, result@[j].value) by {
            assert(result@[j].key@ == orig[j].key@);
        }
    }
    if wrap_item {
        let key: Vec<u8> = vec![73u8, 116u8, 101u8, 109u8];
        assert(key@ =~= key_item());
        Ok(single(key, JsonValue::Object(result)))
    } else {
        Ok(JsonValue::Object(result))
    }
}

/// Reads a DynamoDB item as a plain JSON object: the object under a sole `Item`
/// key, or the given object, with each member's attribute value read in turn.
pub fn from_dynamodb(value: JsonValue) -> (r: Result<JsonValue, DdbError>)
    ensures
        r is Ok <==> from_ddb_succeeds(value),
        r matches Ok(o) ==> from_ddb_ok(value, o),
        r matches Err(e) ==> {
            ||| (!(value is Object) && e == DdbError::ExpectedObject)
            ||| (value is Object && ddb_item_members(value) is None && e
                == DdbError::ExpectedItemObject)
            ||| (ddb_item_members(value) matches Some(ms) && exists|j: int|
                0 <= j < ms.len() && (forall|i: int|
                    0 <= i < j ==> unmarshall_succeeds(#[trigger] ms[i].value)) && unmarshall_err(
                    #[trigger] ms[j].value,
                    e,
                ))
        },
{
    let ghost v0 = value;
    let mut obj = match value {
        JsonValue::Object(o) => o,
        _ => {
            return Err(DdbError::ExpectedObject);
        },
    };
    let item: Vec<u8> = vec![73u8, 116u8, 101u8, 109u8];
    assert(item@ =~= key_item());
    let ghost obj0 = obj@;
    let obj = if obj.len() == 1 && key_is(obj[0].key.as_slice(), item.as_slice()) {
        let m = obj.remove(0);
        assert(m == obj0[0]);
        match m.value {
            JsonValue::Object(o) => o,
            _ => {
                return Err(DdbError::ExpectedItemObject);
            },
        }
    } else {
        obj
    };
    let ghost orig = obj@;
    assert(ddb_item_members(v0) == Some(orig));
    let mut rest = obj;
    let mut result: Vec<Member> = Vec::new();
    let mut i: usize = 0;
    let _n0: usize = rest.len();
    while rest.len() > 0
        invariant
            v0 == value,
            ddb_item_members(v0) == Some(orig),
            v0 is Object,
            i <= orig.len(),
            orig.len() <= usize::MAX,
            rest@ == orig.skip(i as int),
            result@.len() == i,
            forall|j: int|
                0 <= j < i ==> #[trigger] result@[j].key@ == orig[j].key@ && unmarshall_ok(
                    orig[j].value,
                    result@[j].value,
                ),
            forall|j: int| 0 <= j < i ==> unmarshall_succeeds(#[trigger] orig[j].value),
        decreases rest@.len(),
    {
        let member = rest.remove(0);
        assert(member == orig[i as int]);
        let Member { key: mk, value: mv } = member;
        match unmarshall_value(mv) {
            Ok(v) => {
                result.push(Member { key: mk, value: v });
            },
            Err(e) => {
                assert(unmarshall_err(orig[i as int].value, e));
                assert(!unmarshall_succeeds(orig[i as int].value));
                return Err(e);
            },
        }
        assert(rest@ =~= orig.skip(i + 1));
        i = i + 1;
    }
    assert(members_unmarshalled(orig, result@)) by {
        assert forall|j: int| 0 <= j < orig.len() implies result@[j].key@ == orig[j].key@
            && unmarshall_ok(#[trigger] orig[j].value, result@[j].value) by {
            assert(result@[j].key@ == orig[j].key@);
        }
    }
    Ok(JsonValue::Object(result))
}

/// Reading back what `marshall_value` writes gives the value again, provided its
/// numbers are written as `serde_json` prints them.
pub proof fn lemma_marshall_roundtrip(v: JsonValue, m: JsonValue)
    requires
        marshall_ok(v, m),
        numbers_canonical(v),
    ensures
        unmarshall_succeeds(m),
        forall|u: JsonValue| #[trigger] unmarshall_ok(m, u) ==> json_eq(u, v),
    decreases v,
{
    lemma_keys_distinct();
    match v {
        JsonValue::Array(items) => {
            let oi = m->Object_0@[0].value->Array_0;
            assert forall|i: int| 0 <= i < items@.len() implies unmarshall_succeeds(
                #[trigger] oi@[i],
            ) && (forall|u: JsonValue| #[trigger] unmarshall_ok(oi@[i], u) ==> json_eq(u, items@[i])) by {
                assert(decreases_to!(v => items));
                assert(decreases_to!(items => items@));
                assert(decreases_to!(items@ => items@[i]));
                lemma_marshall_roundtrip(items@[i], oi@[i]);
            }
            assert forall|u: JsonValue| #[trigger] unmarshall_ok(m, u) implies json_eq(u, v) by {
                let ui = u->Array_0;
                assert forall|i: int| 0 <= i < ui@.len() implies json_eq(#[trigger] ui@[i], items@[i]) by {
                    assert(unmarshall_ok(oi@[i], ui@[i]));
                }
            }
        },
        JsonValue::Object(members) => {
            let om = m->Object_0@[0].value->Object_0;
            assert forall|i: int| 0 <= i < members@.len() implies unmarshall_succeeds(
                #[trigger] om@[i].value,
            ) && (forall|u: JsonValue| #[trigger] unmarshall_ok(om@[i].value, u) ==> json_eq(u, members@[i].value)) by {
                assert(decreases_to!(v => members));
                assert(decreases_to!(members => members@));
                assert(decreases_to!(members@ => members@[i]));
                assert(decreases_to!(members@[i] => members@[i].value));
                lemma_marshall_roundtrip(members@[i].value, om@[i].value);
            }
            assert forall|u: JsonValue| #[trigger] unmarshall_ok(m, u) implies json_eq(u, v) by {
                let uo = u->Object_0;
                assert forall|i: int| 0 <= i < uo@.len() implies uo@[i].key@ == members@[i].key@
                    && json_eq(#[trigger] uo@[i].value, members@[i].value) by {
                    assert(unmarshall_ok(om@[i].value, uo@[i].value));
                }
            }
        },
        _ => {},
    }
}

/// Reading back a DynamoDB item that `to_dynamodb` wrote for a plain JSON object
/// gives the object again (numbers as `serde_json` prints them). Without the `Item`
/// wrapper this holds unless the object's only key is `Item`.
pub proof fn lemma_document_roundtrip(doc: JsonValue, wrap_item: bool, item: JsonValue)
    requires
        to_ddb_ok(doc, wrap_item, item),
        numbers_canonical(doc),
        wrap_item || !sole_item_key(doc),
    ensures
        from_ddb_succeeds(item),
        forall|back: JsonValue| #[trigger] from_ddb_ok(item, back) ==> json_eq(back, doc),
{
    let members = doc->Object_0;
    let inner = if wrap_item {
        item->Object_0@[0].value->Object_0
    } else {
        item->Object_0
    };
    assert(ddb_item_members(item) == Some(inner@)) by {
        if !wrap_item {
            if inner@.len() == 1 && inner@[0].key@ == key_item() {
                assert(marshall_ok(members@[0].value, inner@[0].value));
                assert(members@[0].key@ == inner@[0].key@);
            }
        }
    }
    assert forall|i: int| 0 <= i < members@.len() implies unmarshall_succeeds(
        #[trigger] inner@[i].value,
    ) && (forall|u: JsonValue| #[trigger] unmarshall_ok(inner@[i].value, u) ==> json_eq(u, members@[i].value)) by {
        assert(numbers_canonical(members@[i].value));
        lemma_marshall_roundtrip(members@[i].value, inner@[i].value);
    }
    assert forall|back: JsonValue| #[trigger] from_ddb_ok(item, back) implies json_eq(back, doc) by {
        let bm = back->Object_0;
        assert forall|i: int| 0 <= i < bm@.len() implies bm@[i].key@ == members@[i].key@ && json_eq(
            #[trigger] bm@[i].value,
            members@[i].value,
        ) by {
            assert(unmarshall_ok(inner@[i].value, bm@[i].value));
        }
    }
}
} // verus!
