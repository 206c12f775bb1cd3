use vstd::prelude::*;
use vstd::string::StringExecFns;
use crate::errors::Error;

verus! {

broadcast use vstd::std_specs::vec::axiom_vec_index_decreases;

/// One value of the record model: the in-memory shape of (part of) one
/// decoded source row.  A value is a scalar of a fixed width, a nested
/// group of named values, a keyed map, or a list.  Floating-point scalars
/// carry their IEEE 754 bit patterns; the decoder never interprets them.
#[derive(Debug, PartialEq)]
pub enum Field {
    Null,
    Bool(bool),
    Byte(i8),
    Short(i16),
    Int(i32),
    Long(i64),
    UByte(u8),
    UShort(u16),
    UInt(u32),
    ULong(u64),
    /// Bit pattern of a 32-bit IEEE 754 value.
    Float(u32),
    /// Bit pattern of a 64-bit IEEE 754 value.
    Double(u64),
    /// Decimal-encoded scalars are not supported: decoding one always fails.
    Decimal,
    Str(String),
    Bytes(Vec<u8>),
    /// A date as days since the epoch.
    Date(i32),
    TimestampMillis(i64),
    TimestampMicros(i64),
    Group(Row),
    MapInternal(Vec<(Field, Field)>),
    ListInternal(Vec<Field>),
}

/// One source row: an ordered list of named field values.  A well-formed
/// row's names are unique, but the decoder does not rely on that: a
/// duplicate name that the target asks for fails the decode.
#[derive(Debug, PartialEq)]
pub struct Row {
    pub fields: Vec<(String, Field)>,
}

/// The shape that a decode target expects, announced one step at a time:
/// a scalar of an exact kind, a list, a struct-like record with named
/// fields, or a map of keys to values.
#[derive(Debug, PartialEq)]
pub enum Shape {
    Bool,
    I8,
    I16,
    I32,
    I64,
    U8,
    U16,
    U32,
    U64,
    F32,
    F64,
    Str,
    Bytes,
    Unit,
    List(Box<Shape>),
    Record(Vec<(String, Shape)>),
    Dict(Box<Shape>, Box<Shape>),
}

/// A decoded, strongly typed value: what the decoder hands back when the
/// record matched the requested shape.
#[derive(Debug, PartialEq)]
pub enum Decoded {
    Bool(bool),
    I8(i8),
    I16(i16),
    I32(i32),
    I64(i64),
    U8(u8),
    U16(u16),
    U32(u32),
    U64(u64),
    /// Bit pattern of a 32-bit IEEE 754 value.
    F32(u32),
    /// Bit pattern of a 64-bit IEEE 754 value.
    F64(u64),
    Str(String),
    Bytes(Vec<u8>),
    Unit,
    List(Vec<Decoded>),
    Record(Vec<(String, Decoded)>),
    Dict(Vec<(Decoded, Decoded)>),
}

/// The mathematical model of a decoded value: strings and byte strings as
/// sequences, containers as sequences of models.
pub enum DecodedV {
    Bool(bool),
    I8(i8),
    I16(i16),
    I32(i32),
    I64(i64),
    U8(u8),
    U16(u16),
    U32(u32),
    U64(u64),
    F32(u32),
    F64(u64),
    Str(Seq<char>),
    Bytes(Seq<u8>),
    Unit,
    List(Seq<DecodedV>),
    Record(Seq<(Seq<char>, DecodedV)>),
    Dict(Seq<(DecodedV, DecodedV)>),
}

/// The models of a list's elements, from index `k` on.
pub open spec fn list_view(xs: Vec<Decoded>, k: int) -> Seq<DecodedV>
    decreases xs, xs@.len() - k,
{
    if k < 0 || k >= xs@.len() {
        Seq::empty()
    } else {
        seq![xs[k]@] + list_view(xs, k + 1)
    }
}

/// The models of a record's named entries, from index `k` on.
pub open spec fn record_view(ps: Vec<(String, Decoded)>, k: int) -> Seq<(Seq<char>, DecodedV)>
    decreases ps, ps@.len() - k,
{
    if k < 0 || k >= ps@.len() {
        Seq::empty()
    } else {
        seq![(ps[k].0@, ps[k].1@)] + record_view(ps, k + 1)
    }
}

/// The models of a map's entries, from index `k` on.
pub open spec fn dict_view(ps: Vec<(Decoded, Decoded)>, k: int) -> Seq<(DecodedV, DecodedV)>
    decreases ps, ps@.len() - k,
{
    if k < 0 || k >= ps@.len() {
        Seq::empty()
    } else {
        seq![(ps[k].0@, ps[k].1@)] + dict_view(ps, k + 1)
    }
}

impl View for Decoded {
    type V = DecodedV;

    open spec fn view(&self) -> DecodedV
        decreases self, 0int,
    {
        match self {
            Decoded::Bool(b) => DecodedV::Bool(*b),
            Decoded::I8(v) => DecodedV::I8(*v),
            Decoded::I16(v) => DecodedV::I16(*v),
            Decoded::I32(v) => DecodedV::I32(*v),
            Decoded::I64(v) => DecodedV::I64(*v),
            Decoded::U8(v) => DecodedV::U8(*v),
            Decoded::U16(v) => DecodedV::U16(*v),
            Decoded::U32(v) => DecodedV::U32(*v),
            Decoded::U64(v) => DecodedV::U64(*v),
            Decoded::F32(v) => DecodedV::F32(*v),
            Decoded::F64(v) => DecodedV::F64(*v),
            Decoded::Str(s) => DecodedV::Str(s@),
            Decoded::Bytes(b) => DecodedV::Bytes(b@),
            Decoded::Unit => DecodedV::Unit,
            Decoded::List(xs) => DecodedV::List(list_view(*xs, 0)),
            Decoded::Record(ps) => DecodedV::Record(record_view(*ps, 0)),
            Decoded::Dict(ps) => DecodedV::Dict(dict_view(*ps, 0)),
        }
    }
}

/// The name of a record-model value's kind, as it appears in decode error
/// messages.
pub open spec fn field_kind_name(f: Field) -> Seq<char> {
    match f {
        Field::Null => "null"@,
        Field::Bool(_) => "boolean"@,
        Field::Byte(_) => "int8"@,
        Field::Short(_) => "int16"@,
        Field::Int(_) => "int32"@,
        Field::Long(_) => "int64"@,
        Field::UByte(_) => "uint8"@,
        Field::UShort(_) => "uint16"@,
        Field::UInt(_) => "uint32"@,
        Field::ULong(_) => "uint64"@,
        Field::Float(_) => "float"@,
        Field::Double(_) => "double"@,
        Field::Decimal => "decimal"@,
        Field::Str(_) => "string"@,
        Field::Bytes(_) => "bytes"@,
        Field::Date(_) => "date"@,
        Field::TimestampMillis(_) => "timestamp"@,
        Field::TimestampMicros(_) => "timestamp"@,
        Field::Group(_) => "group"@,
        Field::MapInternal(_) => "map"@,
        Field::ListInternal(_) => "list"@,
    }
}

/// The name of a requested shape, as it appears in decode error messages.
pub open spec fn shape_name(s: Shape) -> Seq<char> {
    match s {
        Shape::Bool => "boolean"@,
        Shape::I8 => "int8"@,
        Shape::I16 => "int16"@,
        Shape::I32 => "int32"@,
        Shape::I64 => "int64"@,
        Shape::U8 => "uint8"@,
        Shape::U16 => "uint16"@,
        Shape::U32 => "uint32"@,
        Shape::U64 => "uint64"@,
        Shape::F32 => "float"@,
        Shape::F64 => "double"@,
        Shape::Str => "string"@,
        Shape::Bytes => "bytes"@,
        Shape::Unit => "unit"@,
        Shape::List(_) => "list"@,
        Shape::Record(_) => "struct"@,
        Shape::Dict(_, _) => "map"@,
    }
}

/// The decode-mismatch message: names what was found and what the target
/// requested.
pub open spec fn mismatch_message(kind: Seq<char>, s: Shape) -> Seq<char> {
    "invalid type: "@ + kind + ", expected "@ + shape_name(s)
}

/// The message for a field the target declares but the record never names.
pub open spec fn missing_message(name: Seq<char>) -> Seq<char> {
    "missing field "@ + name
}

/// The message for a declared field the record names twice.
pub open spec fn duplicate_message(name: Seq<char>) -> Seq<char> {
    "duplicate field "@ + name
}

/// The first index of `fields` bearing `name`, or `fields.len()` when none
/// does.
pub open spec fn field_index(fields: Vec<(String, Shape)>, name: Seq<char>) -> int
    decreases fields@.len(),
{
    field_index_from(fields, name, 0)
}

/// The first index at or after `k` of `fields` bearing `name`, or
/// `fields.len()` when none does.
pub open spec fn field_index_from(fields: Vec<(String, Shape)>, name: Seq<char>, k: int) -> int
    decreases fields@.len() - k,
{
    if k < 0 || k >= fields@.len() {
        fields@.len() as int
    } else if fields@[k].0@ == name {
        k
    } else {
        field_index_from(fields, name, k + 1)
    }
}

/// The first index of `acc` still unset, or `acc.len()` when every slot is
/// filled.
pub open spec fn first_unset(acc: Seq<Option<DecodedV>>, k: int) -> int
    decreases acc.len() - k,
{
    if k < 0 || k >= acc.len() {
        acc.len() as int
    } else if acc[k] is None {
        k
    } else {
        first_unset(acc, k + 1)
    }
}

/// A record accumulator with every declared field still unset.
pub open spec fn empty_slots(n: int) -> Seq<Option<DecodedV>> {
    Seq::new(n as nat, |i: int| None)
}

/// Close a record decode: once the pairs are exhausted every declared field
/// must have been filled; the decoded record lists the declared fields in
/// declaration order.
pub open spec fn record_finish(fields: Vec<(String, Shape)>, acc: Seq<Option<DecodedV>>) -> Result<
    DecodedV,
    Seq<char>,
> {
    let u = first_unset(acc, 0);
    if u < acc.len() {
        Err(missing_message(fields@[u].0@))
    } else {
        Ok(DecodedV::Record(Seq::new(fields@.len(), |i: int| (fields@[i].0@, acc[i]->Some_0))))
    }
}

/// Decoding a bare name: a name is a string and satisfies only a string
/// request.
pub open spec fn decode_name_spec(s: Shape, name: String) -> Result<DecodedV, Seq<char>> {
    if s is Str {
        Ok(DecodedV::Str(name@))
    } else {
        Err(mismatch_message("string"@, s))
    }
}

/// Decode one record-model value against the requested shape: the spec the
/// executable decoder is proved against.  Containers recurse; a scalar
/// satisfies exactly the request of its own kind (no numeric narrowing or
/// widening); a date decodes as a 32-bit unsigned day number and a
/// timestamp as a 64-bit unsigned tick count; a decimal always fails.
pub open spec fn decode_field_spec(s: Shape, f: Field) -> Result<DecodedV, Seq<char>>
    decreases f, 1int,
{
    match f {
        Field::Group(row) => decode_pairs_spec(s, row.fields, "group"@),
        Field::MapInternal(entries) => decode_keyed_spec(s, entries, "map"@),
        Field::ListInternal(elems) => match s {
            Shape::List(inner) => match decode_list_spec(*inner, elems, 0, Seq::empty()) {
                Ok(items) => Ok(DecodedV::List(items)),
                Err(m) => Err(m),
            },
            _ => Err(mismatch_message("list"@, s)),
        },
        Field::Null => if s is Unit {
            Ok(DecodedV::Unit)
        } else {
            Err(mismatch_message("null"@, s))
        },
        Field::Bool(v) => if s is Bool {
            Ok(DecodedV::Bool(v))
        } else {
            Err(mismatch_message("boolean"@, s))
        },
        Field::Byte(v) => if s is I8 {
            Ok(DecodedV::I8(v))
        } else {
            Err(mismatch_message("int8"@, s))
        },
        Field::Short(v) => if s is I16 {
            Ok(DecodedV::I16(v))
        } else {
            Err(mismatch_message("int16"@, s))
        },
        Field::Int(v) => if s is I32 {
            Ok(DecodedV::I32(v))
        } else {
            Err(mismatch_message("int32"@, s))
        },
        Field::Long(v) => if s is I64 {
            Ok(DecodedV::I64(v))
        } else {
            Err(mismatch_message("int64"@, s))
        },
        Field::UByte(v) => if s is U8 {
            Ok(DecodedV::U8(v))
        } else {
            Err(mismatch_message("uint8"@, s))
        },
        Field::UShort(v) => if s is U16 {
            Ok(DecodedV::U16(v))
        } else {
            Err(mismatch_message("uint16"@, s))
        },
        Field::UInt(v) => if s is U32 {
            Ok(DecodedV::U32(v))
        } else {
            Err(mismatch_message("uint32"@, s))
        },
        Field::ULong(v) => if s is U64 {
            Ok(DecodedV::U64(v))
        } else {
            Err(mismatch_message("uint64"@, s))
        },
        Field::Float(bits) => if s is F32 {
            Ok(DecodedV::F32(bits))
        } else {
            Err(mismatch_message("float"@, s))
        },
        Field::Double(bits) => if s is F64 {
            Ok(DecodedV::F64(bits))
        } else {
            Err(mismatch_message("double"@, s))
        },
        Field::Decimal => Err(mismatch_message("decimal"@, s)),
        Field::Str(st) => if s is Str {
            Ok(DecodedV::Str(st@))
        } else {
            Err(mismatch_message("string"@, s))
        },
        Field::Bytes(bs) => if s is Bytes {
            Ok(DecodedV::Bytes(bs@))
        } else {
            Err(mismatch_message("bytes"@, s))
        },
        Field::Date(d) => if s is U32 {
            Ok(DecodedV::U32(d as u32))
        } else {
            Err(mismatch_message("date"@, s))
        },
        Field::TimestampMillis(t) => if s is U64 {
            Ok(DecodedV::U64(t as u64))
        } else {
            Err(mismatch_message("timestamp"@, s))
        },
        Field::TimestampMicros(t) => if s is U64 {
            Ok(DecodedV::U64(t as u64))
        } else {
            Err(mismatch_message("timestamp"@, s))
        },
    }
}

/// Decode a list of named pairs (a nested group, or the source row itself)
/// against the requested shape: a record fills its declared fields from the
/// pairs, a map collects every pair; anything else is a mismatch, reported
/// with the given kind name.
pub open spec fn decode_pairs_spec(s: Shape, pairs: Vec<(String, Field)>, kind: Seq<char>) -> Result<
    DecodedV,
    Seq<char>,
>
    decreases pairs, pairs@.len() + 1,
{
    match s {
        Shape::Record(fields) => match decode_record_named_spec(
            fields,
            pairs,
            0,
            empty_slots(fields@.len() as int),
        ) {
            Ok(acc) => record_finish(fields, acc),
            Err(m) => Err(m),
        },
        Shape::Dict(ks, vs) => match decode_dict_named_spec(*ks, *vs, pairs, 0, Seq::empty()) {
            Ok(entries) => Ok(DecodedV::Dict(entries)),
            Err(m) => Err(m),
        },
        _ => Err(mismatch_message(kind, s)),
    }
}

/// Decode a list of keyed pairs (a map value) against the requested shape.
pub open spec fn decode_keyed_spec(s: Shape, entries: Vec<(Field, Field)>, kind: Seq<char>) -> Result<
    DecodedV,
    Seq<char>,
>
    decreases entries, entries@.len() + 1,
{
    match s {
        Shape::Record(fields) => match decode_record_keyed_spec(
            fields,
            entries,
            0,
            empty_slots(fields@.len() as int),
        ) {
            Ok(acc) => record_finish(fields, acc),
            Err(m) => Err(m),
        },
        Shape::Dict(ks, vs) => match decode_dict_keyed_spec(*ks, *vs, entries, 0, Seq::empty()) {
            Ok(es) => Ok(DecodedV::Dict(es)),
            Err(m) => Err(m),
        },
        _ => Err(mismatch_message(kind, s)),
    }
}

/// One pass over named pairs, in stored order, filling the declared fields
/// of a record: a pair whose name no field declares is skipped unread; a
/// declared name seen twice is an error; a declared pair's value is decoded
/// with that field's shape.
pub open spec fn decode_record_named_spec(
    fields: Vec<(String, Shape)>,
    pairs: Vec<(String, Field)>,
    k: int,
    acc: Seq<Option<DecodedV>>,
) -> Result<Seq<Option<DecodedV>>, Seq<char>>
    decreases pairs, pairs@.len() - k,
{
    if k < 0 || k >= pairs@.len() {
        Ok(acc)
    } else {
        let fi = field_index(fields, pairs@[k].0@);
        if fi >= fields@.len() {
            decode_record_named_spec(fields, pairs, k + 1, acc)
        } else if acc[fi] is Some {
            Err(duplicate_message(pairs@[k].0@))
        } else {
            match decode_field_spec(fields@[fi].1, pairs@[k].1) {
                Ok(d) => decode_record_named_spec(fields, pairs, k + 1, acc.update(fi, Some(d))),
                Err(m) => Err(m),
            }
        }
    }
}

/// As `decode_record_named_spec`, over keyed pairs: a key must be a string
/// to name a field.
pub open spec fn decode_record_keyed_spec(
    fields: Vec<(String, Shape)>,
    entries: Vec<(Field, Field)>,
    k: int,
    acc: Seq<Option<DecodedV>>,
) -> Result<Seq<Option<DecodedV>>, Seq<char>>
    decreases entries, entries@.len() - k,
{
    if k < 0 || k >= entries@.len() {
        Ok(acc)
    } else {
        match entries@[k].0 {
            Field::Str(name) => {
                let fi = field_index(fields, name@);
                if fi >= fields@.len() {
                    decode_record_keyed_spec(fields, entries, k + 1, acc)
                } else if acc[fi] is Some {
                    Err(duplicate_message(name@))
                } else {
                    match decode_field_spec(fields@[fi].1, entries@[k].1) {
                        Ok(d) => decode_record_keyed_spec(
                            fields,
                            entries,
                            k + 1,
                            acc.update(fi, Some(d)),
                        ),
                        Err(m) => Err(m),
                    }
                }
            },
            _ => Err(mismatch_message(field_kind_name(entries@[k].0), Shape::Str)),
        }
    }
}

/// One pass over named pairs collecting a map: each name is the key (which
/// must be requested as a string) and each value is decoded with the map's
/// value shape.
pub open spec fn decode_dict_named_spec(
    ks: Shape,
    vs: Shape,
    pairs: Vec<(String, Field)>,
    k: int,
    acc: Seq<(DecodedV, DecodedV)>,
) -> Result<Seq<(DecodedV, DecodedV)>, Seq<char>>
    decreases pairs, pairs@.len() - k,
{
    if k < 0 || k >= pairs@.len() {
        Ok(acc)
    } else {
        match decode_name_spec(ks, pairs@[k].0) {
            Ok(dk) => match decode_field_spec(vs, pairs@[k].1) {
                Ok(dv) => decode_dict_named_spec(ks, vs, pairs, k + 1, acc.push((dk, dv))),
                Err(m) => Err(m),
            },
            Err(m) => Err(m),
        }
    }
}

/// One pass over keyed pairs collecting a map: keys and values are decoded
/// with the map's key and value shapes.
pub open spec fn decode_dict_keyed_spec(
    ks: Shape,
    vs: Shape,
    entries: Vec<(Field, Field)>,
    k: int,
    acc: Seq<(DecodedV, DecodedV)>,
) -> Result<Seq<(DecodedV, DecodedV)>, Seq<char>>
    decreases entries, entries@.len() - k,
{
    if k < 0 || k >= entries@.len() {
        Ok(acc)
    } else {
        match decode_field_spec(ks, entries@[k].0) {
            Ok(dk) => match decode_field_spec(vs, entries@[k].1) {
                Ok(dv) => decode_dict_keyed_spec(ks, vs, entries, k + 1, acc.push((dk, dv))),
                Err(m) => Err(m),
            },
            Err(m) => Err(m),
        }
    }
}

/// One pass over a list's elements, in stored order, decoding each with the
/// list's element shape.  An empty list is a valid, complete decode.
pub open spec fn decode_list_spec(inner: Shape, elems: Vec<Field>, k: int, acc: Seq<DecodedV>) -> Result<
    Seq<DecodedV>,
    Seq<char>,
>
    decreases elems, elems@.len() - k,
{
    if k < 0 || k >= elems@.len() {
        Ok(acc)
    } else {
        match decode_field_spec(inner, elems@[k]) {
            Ok(d) => decode_list_spec(inner, elems, k + 1, acc.push(d)),
            Err(m) => Err(m),
        }
    }
}

/// Decode a whole source row against the requested shape: the row is
/// treated as an implicit group of its named fields, in stored order.
pub open spec fn decode_row_spec(s: Shape, r: Row) -> Result<DecodedV, Seq<char>> {
    decode_pairs_spec(s, r.fields, "map"@)
}


/// Properties of `list_view`: length and pointwise content.
pub proof fn lemma_list_view_props(xs: Vec<Decoded>, k: int)
    requires
        0 <= k <= xs@.len(),
    ensures
        list_view(xs, k).len() == xs@.len() - k,
        forall|i: int| 0 <= i < xs@.len() - k ==> #[trigger] list_view(xs, k)[i] == xs@[k + i]@,
    decreases xs@.len() - k,
{
    if k < xs@.len() {
        lemma_list_view_props(xs, k + 1);
        assert(list_view(xs, k) == seq![xs[k as int]@] + list_view(xs, k + 1));
        assert forall|i: int| 0 <= i < xs@.len() - k implies #[trigger] list_view(xs, k)[i]
            == xs@[k + i]@ by {
            if i == 0 {
                assert(list_view(xs, k)[0] == xs@[k]@);
            } else {
                assert(list_view(xs, k)[i] == list_view(xs, k + 1)[i - 1]);
            }
        }
    }
}

/// Properties of `record_view`: length and pointwise content.
pub proof fn lemma_record_view_props(ps: Vec<(String, Decoded)>, k: int)
    requires
        0 <= k <= ps@.len(),
    ensures
        record_view(ps, k).len() == ps@.len() - k,
        forall|i: int|
            0 <= i < ps@.len() - k ==> #[trigger] record_view(ps, k)[i] == (
            ps@[k + i].0@,
            ps@[k + i].1@,
            ),
    decreases ps@.len() - k,
{
    if k < ps@.len() {
        lemma_record_view_props(ps, k + 1);
        assert(record_view(ps, k) == seq![(ps[k as int].0@, ps[k as int].1@)] + record_view(
            ps,
            k + 1,
        ));
        assert forall|i: int| 0 <= i < ps@.len() - k implies #[trigger] record_view(ps, k)[i] == (
            ps@[k + i].0@,
            ps@[k + i].1@,
        ) by {
            if i == 0 {
                assert(record_view(ps, k)[0] == (ps@[k].0@, ps@[k].1@));
            } else {
                assert(record_view(ps, k)[i] == record_view(ps, k + 1)[i - 1]);
            }
        }
    }
}

/// Properties of `dict_view`: length and pointwise content.
pub proof fn lemma_dict_view_props(ps: Vec<(Decoded, Decoded)>, k: int)
    requires
        0 <= k <= ps@.len(),
    ensures
        dict_view(ps, k).len() == ps@.len() - k,
        forall|i: int|
            0 <= i < ps@.len() - k ==> #[trigger] dict_view(ps, k)[i] == (
            ps@[k + i].0@,
            ps@[k + i].1@,
            ),
    decreases ps@.len() - k,
{
    if k < ps@.len() {
        lemma_dict_view_props(ps, k + 1);
        assert(dict_view(ps, k) == seq![(ps[k as int].0@, ps[k as int].1@)] + dict_view(
            ps,
            k + 1,
        ));
        assert forall|i: int| 0 <= i < ps@.len() - k implies #[trigger] dict_view(ps, k)[i] == (
            ps@[k + i].0@,
            ps@[k + i].1@,
        ) by {
            if i == 0 {
                assert(dict_view(ps, k)[0] == (ps@[k].0@, ps@[k].1@));
            } else {
                assert(dict_view(ps, k)[i] == dict_view(ps, k + 1)[i - 1]);
            }
        }
    }
}

/// The first name match at or after `k` is pinned down by what the scan saw.
pub proof fn lemma_field_index_from(fields: Vec<(String, Shape)>, name: Seq<char>, k: int, j: int)
    requires
        0 <= k <= j <= fields@.len(),
        forall|c: int| k <= c < j ==> (#[trigger] fields@[c].0)@ != name,
        j < fields@.len() ==> fields@[j].0@ == name,
    ensures
        field_index_from(fields, name, k) == if j < fields@.len() {
            j
        } else {
            fields@.len() as int
        },
    decreases j - k,
{
    if k < j {
        lemma_field_index_from(fields, name, k + 1, j);
    }
}

/// The first unset slot at or after `k` is pinned down by what the scan saw.
pub proof fn lemma_first_unset(acc: Seq<Option<DecodedV>>, k: int, j: int)
    requires
        0 <= k <= j <= acc.len(),
        forall|c: int| k <= c < j ==> #[trigger] acc[c] is Some,
        j < acc.len() ==> acc[j] is None,
    ensures
        first_unset(acc, k) == if j < acc.len() {
            j
        } else {
            acc.len() as int
        },
    decreases j - k,
{
    if k < j {
        lemma_first_unset(acc, k + 1, j);
    }
}

/// Whether the executable decode result agrees with the decode model: the
/// same value on success, the same message on failure.
pub open spec fn matches_decode(r: Result<Decoded, Error>, m: Result<DecodedV, Seq<char>>) -> bool {
    match r {
        Ok(d) => m is Ok && d@ == m->Ok_0,
        Err(e) => m is Err && e.message@ == m->Err_0,
    }
}

/// The name of a requested shape, for building error messages.
fn shape_name_str(s: &Shape) -> (r: &'static str)
    ensures
        r@ == shape_name(*s),
{
    match s {
        Shape::Bool => "boolean",
        Shape::I8 => "int8",
        Shape::I16 => "int16",
        Shape::I32 => "int32",
        Shape::I64 => "int64",
        Shape::U8 => "uint8",
        Shape::U16 => "uint16",
        Shape::U32 => "uint32",
        Shape::U64 => "uint64",
        Shape::F32 => "float",
        Shape::F64 => "double",
        Shape::Str => "string",
        Shape::Bytes => "bytes",
        Shape::Unit => "unit",
        Shape::List(_) => "list",
        Shape::Record(_) => "struct",
        Shape::Dict(_, _) => "map",
    }
}

/// Build the decode-mismatch error.
fn mismatch_error(kind: &str, s: &Shape) -> (r: Error)
    ensures
        r.message@ == mismatch_message(kind@, *s),
{
    let mut m = String::from_str("invalid type: ");
    m.append(kind);
    m.append(", expected ");
    m.append(shape_name_str(s));
    Error { message: m }
}

/// Build the missing-field error.
fn missing_error(name: &String) -> (r: Error)
    ensures
        r.message@ == missing_message(name@),
{
    let mut m = String::from_str("missing field ");
    m.append(name.as_str());
    Error { message: m }
}

/// Build the duplicate-field error.
fn duplicate_error(name: &String) -> (r: Error)
    ensures
        r.message@ == duplicate_message(name@),
{
    let mut m = String::from_str("duplicate field ");
    m.append(name.as_str());
    Error { message: m }
}

/// Decode a bare field name, which only a string request accepts.
fn decode_name(s: &Shape, name: &String) -> (r: Result<Decoded, Error>)
    ensures
        matches_decode(r, decode_name_spec(*s, *name)),
{
    match s {
        Shape::Str => Ok(Decoded::Str(name.clone())),
        _ => Err(mismatch_error("string", s)),
    }
}

/// The first index of `fields` bearing `name`, or `fields.len()`.
fn find_field(fields: &Vec<(String, Shape)>, name: &String) -> (r: usize)
    ensures
        r == field_index(*fields, name@),
        r <= fields@.len(),
{
    let mut j: usize = 0;
    while j < fields.len()
        invariant
            j <= fields@.len(),
            forall|c: int| 0 <= c < j ==> (#[trigger] fields@[c].0)@ != name@,
        decreases fields@.len() - j,
    {
        if fields[j].0.eq(name) {
            proof {
                lemma_field_index_from(*fields, name@, 0, j as int);
            }
            return j;
        }
        j += 1;
    }
    proof {
        lemma_field_index_from(*fields, name@, 0, fields@.len() as int);
    }
    j
}


/// The name of a record-model value's kind, for building error messages.
fn field_kind_str(f: &Field) -> (r: &'static str)
    ensures
        r@ == field_kind_name(*f),
{
    match f {
        Field::Null => "null",
        Field::Bool(_) => "boolean",
        Field::Byte(_) => "int8",
        Field::Short(_) => "int16",
        Field::Int(_) => "int32",
        Field::Long(_) => "int64",
        Field::UByte(_) => "uint8",
        Field::UShort(_) => "uint16",
        Field::UInt(_) => "uint32",
        Field::ULong(_) => "uint64",
        Field::Float(_) => "float",
        Field::Double(_) => "double",
        Field::Decimal => "decimal",
        Field::Str(_) => "string",
        Field::Bytes(_) => "bytes",
        Field::Date(_) => "date",
        Field::TimestampMillis(_) => "timestamp",
        Field::TimestampMicros(_) => "timestamp",
        Field::Group(_) => "group",
        Field::MapInternal(_) => "map",
        Field::ListInternal(_) => "list",
    }
}

/// The models of an accumulator's slots: filled slots carry the model of
/// their decoded value.
pub open spec fn opts_view(acc: Vec<Option<Decoded>>) -> Seq<Option<DecodedV>> {
    Seq::new(
        acc@.len(),
        |i: int|
            match acc@[i] {
                Some(d) => Some(d@),
                None => None,
            },
    )
}

/// Decode one record-model value against the requested shape.  The result
/// agrees exactly with the decode model: the model's value on success, an
/// error carrying the model's message on failure.
fn decode_field(s: &Shape, f: &Field) -> (r: Result<Decoded, Error>)
    ensures
        matches_decode(r, decode_field_spec(*s, *f)),
    decreases *f, 1int,
{
    match f {
        Field::Group(row) => decode_pairs(s, &row.fields, "group"),
        Field::MapInternal(entries) => decode_keyed(s, entries, "map"),
        Field::ListInternal(elems) => match s {
            Shape::List(inner) => {
                let ghost ishape: Shape = **inner;
                let ghost total = decode_list_spec(ishape, *elems, 0, Seq::empty());
                let mut out: Vec<Decoded> = Vec::new();
                let mut k: usize = 0;
                proof {
                    lemma_list_view_props(out, 0);
                    assert(list_view(out, 0) =~= Seq::<DecodedV>::empty());
                }
                while k < elems.len()
                    invariant
                        *f == Field::ListInternal(*elems),
                        *s == Shape::List(*inner),
                        ishape == **inner,
                        total == decode_list_spec(ishape, *elems, 0, Seq::empty()),
                        k <= elems@.len(),
                        out@.len() == k,
                        decode_list_spec(ishape, *elems, k as int, list_view(out, 0)) == total,
                    decreases elems@.len() - k,
                {
                    let ghost acc0 = list_view(out, 0);
                    match decode_field(inner, &elems[k]) {
                        Ok(d) => {
                            let ghost old_out = out;
                            out.push(d);
                            proof {
                                lemma_list_view_props(old_out, 0);
                                lemma_list_view_props(out, 0);
                                assert(list_view(out, 0) =~= acc0.push(d@));
                            }
                        },
                        Err(e) => {
                            return Err(e);
                        },
                    }
                    k += 1;
                }
                proof {
                    assert(decode_list_spec(ishape, *elems, k as int, list_view(out, 0)) == Ok::<
                        Seq<DecodedV>,
                        Seq<char>,
                    >(list_view(out, 0)));
                }
                Ok(Decoded::List(out))
            },
            _ => Err(mismatch_error("list", s)),
        },
        Field::Null => match s {
            Shape::Unit => Ok(Decoded::Unit),
            _ => Err(mismatch_error("null", s)),
        },
        Field::Bool(v) => match s {
            Shape::Bool => Ok(Decoded::Bool(*v)),
            _ => Err(mismatch_error("boolean", s)),
        },
        Field::Byte(v) => match s {
            Shape::I8 => Ok(Decoded::I8(*v)),
            _ => Err(mismatch_error("int8", s)),
        },
        Field::Short(v) => match s {
            Shape::I16 => Ok(Decoded::I16(*v)),
            _ => Err(mismatch_error("int16", s)),
        },
        Field::Int(v) => match s {
            Shape::I32 => Ok(Decoded::I32(*v)),
            _ => Err(mismatch_error("int32", s)),
        },
        Field::Long(v) => match s {
            Shape::I64 => Ok(Decoded::I64(*v)),
            _ => Err(mismatch_error("int64", s)),
        },
        Field::UByte(v) => match s {
            Shape::U8 => Ok(Decoded::U8(*v)),
            _ => Err(mismatch_error("uint8", s)),
        },
        Field::UShort(v) => match s {
            Shape::U16 => Ok(Decoded::U16(*v)),
            _ => Err(mismatch_error("uint16", s)),
        },
        Field::UInt(v) => match s {
            Shape::U32 => Ok(Decoded::U32(*v)),
            _ => Err(mismatch_error("uint32", s)),
        },
        Field::ULong(v) => match s {
            Shape::U64 => Ok(Decoded::U64(*v)),
            _ => Err(mismatch_error("uint64", s)),
        },
        Field::Float(bits) => match s {
            Shape::F32 => Ok(Decoded::F32(*bits)),
            _ => Err(mismatch_error("float", s)),
        },
        Field::Double(bits) => match s {
            Shape::F64 => Ok(Decoded::F64(*bits)),
            _ => Err(mismatch_error("double", s)),
        },
        Field::Decimal => Err(mismatch_error("decimal", s)),
        Field::Str(st) => match s {
            Shape::Str => Ok(Decoded::Str(st.clone())),
            _ => Err(mismatch_error("string", s)),
        },
        Field::Bytes(bs) => match s {
            Shape::Bytes => {
                let copy = bs.clone();
                proof {
                    assert forall|i: int| 0 <= i < copy@.len() implies copy@[i] == bs@[i] by {
                        assert(vstd::pervasive::cloned(bs@[i], copy@[i]));
                    }
                    assert(copy@ =~= bs@);
                }
                Ok(Decoded::Bytes(copy))
            },
            _ => Err(mismatch_error("bytes", s)),
        },
        Field::Date(d) => match s {
            Shape::U32 => Ok(Decoded::U32(#[verifier::truncate] (*d as u32))),
            _ => Err(mismatch_error("date", s)),
        },
        Field::TimestampMillis(t) => match s {
            Shape::U64 => Ok(Decoded::U64(#[verifier::truncate] (*t as u64))),
            _ => Err(mismatch_error("timestamp", s)),
        },
        Field::TimestampMicros(t) => match s {
            Shape::U64 => Ok(Decoded::U64(#[verifier::truncate] (*t as u64))),
            _ => Err(mismatch_error("timestamp", s)),
        },
    }
}

/// Decode a list of named pairs (a nested group, or the source row itself)
/// against the requested shape.
fn decode_pairs(s: &Shape, pairs: &Vec<(String, Field)>, kind: &str) -> (r: Result<Decoded, Error>)
    ensures
        matches_decode(r, decode_pairs_spec(*s, *pairs, kind@)),
    decreases *pairs, 2int,
{
    match s {
        Shape::Record(fields) => {
            let ghost acc_init: Seq<Option<DecodedV>> = empty_slots(fields@.len() as int);
            let ghost total = decode_record_named_spec(*fields, *pairs, 0, acc_init);
            let mut acc: Vec<Option<Decoded>> = Vec::new();
            let mut i: usize = 0;
            while i < fields.len()
                invariant
                    i <= fields@.len(),
                    acc@.len() == i,
                    forall|j: int| 0 <= j < i ==> acc@[j] is None,
                decreases fields@.len() - i,
            {
                acc.push(None);
                i += 1;
            }
            proof {
                assert(opts_view(acc) =~= acc_init);
            }
            let mut k: usize = 0;
            while k < pairs.len()
                invariant
                    *s == Shape::Record(*fields),
                    total == decode_record_named_spec(*fields, *pairs, 0, empty_slots(fields@.len() as int)),
                    k <= pairs@.len(),
                    acc@.len() == fields@.len(),
                    decode_record_named_spec(*fields, *pairs, k as int, opts_view(acc)) == total,
                decreases pairs@.len() - k,
            {
                let ghost acc0 = opts_view(acc);
                let name = &pairs[k].0;
                let fi = find_field(fields, name);
                if fi < fields.len() {
                    let filled = match &acc[fi] {
                        Some(_) => true,
                        None => false,
                    };
                    if filled {
                        return Err(duplicate_error(name));
                    }
                    match decode_field(&fields[fi].1, &pairs[k].1) {
                        Ok(d) => {
                            let ghost dv = d@;
                            acc.set(fi, Some(d));
                            proof {
                                assert(opts_view(acc) =~= acc0.update(fi as int, Some(dv)));
                            }
                        },
                        Err(e) => {
                            return Err(e);
                        },
                    }
                }
                k += 1;
            }
            // every declared field must have been filled
            let ghost accv = opts_view(acc);
            let mut u: usize = 0;
            while u < acc.len()
                invariant
                    *s == Shape::Record(*fields),
                    total == decode_record_named_spec(*fields, *pairs, 0, empty_slots(fields@.len() as int)),
                    total == Ok::<Seq<Option<DecodedV>>, Seq<char>>(accv),
                    accv == opts_view(acc),
                    acc@.len() == fields@.len(),
                    u <= acc@.len(),
                    forall|c: int| 0 <= c < u ==> #[trigger] accv[c] is Some,
                decreases acc@.len() - u,
            {
                let empty_slot = match &acc[u] {
                    None => true,
                    Some(_) => false,
                };
                if empty_slot {
                    proof {
                        lemma_first_unset(accv, 0, u as int);
                    }
                    return Err(missing_error(&fields[u].0));
                }
                u += 1;
            }
            proof {
                lemma_first_unset(accv, 0, accv.len() as int);
            }
            // assemble the record in declaration order
            let mut out: Vec<(String, Decoded)> = Vec::new();
            let mut fi: usize = 0;
            while fi < fields.len()
                invariant
                    *s == Shape::Record(*fields),
                    total == decode_record_named_spec(*fields, *pairs, 0, empty_slots(fields@.len() as int)),
                    total == Ok::<Seq<Option<DecodedV>>, Seq<char>>(accv),
                    first_unset(accv, 0) == accv.len(),
                    acc@.len() == fields@.len() - fi,
                    accv.len() == fields@.len(),
                    fi <= fields@.len(),
                    out@.len() == fi,
                    forall|m: int|
                        0 <= m < acc@.len() ==> #[trigger] opts_view(acc)[m] == accv[fi + m],
                    forall|c: int| 0 <= c < accv.len() ==> #[trigger] accv[c] is Some,
                    forall|j: int|
                        0 <= j < fi ==> (#[trigger] out@[j].0)@ == fields@[j].0@ && out@[j].1@
                            == accv[j]->Some_0,
                decreases fields@.len() - fi,
            {
                let ghost old_acc = acc;
                let slot = acc.remove(0);
                proof {
                    assert(opts_view(old_acc)[0] == accv[fi as int]);
                    assert forall|m: int| 0 <= m < acc@.len() implies #[trigger] opts_view(acc)[m]
                        == accv[fi + 1 + m] by {
                        assert(acc@[m] == old_acc@[m + 1]);
                        assert(opts_view(old_acc)[m + 1] == accv[fi + 1 + m]);
                    }
                }
                match slot {
                    Some(d) => {
                        proof {
                            assert(accv[fi as int] == Some(d@));
                        }
                        out.push((fields[fi].0.clone(), d));
                    },
                    None => {
                        proof {
                            assert(accv[fi as int] is Some);
                            assert(false);
                        }
                        return Err(missing_error(&fields[fi].0));
                    },
                }
                fi += 1;
            }
            proof {
                lemma_record_view_props(out, 0);
                assert(record_view(out, 0) =~= Seq::new(
                    fields@.len(),
                    |i: int| (fields@[i].0@, accv[i]->Some_0),
                ));
            }
            Ok(Decoded::Record(out))
        },
        Shape::Dict(ks, vs) => {
            let ghost kshape: Shape = **ks;
            let ghost vshape: Shape = **vs;
            let ghost total = decode_dict_named_spec(kshape, vshape, *pairs, 0, Seq::empty());
            let mut out: Vec<(Decoded, Decoded)> = Vec::new();
            let mut k: usize = 0;
            proof {
                lemma_dict_view_props(out, 0);
                assert(dict_view(out, 0) =~= Seq::<(DecodedV, DecodedV)>::empty());
            }
            while k < pairs.len()
                invariant
                    *s == Shape::Dict(*ks, *vs),
                    kshape == **ks,
                    vshape == **vs,
                    total == decode_dict_named_spec(kshape, vshape, *pairs, 0, Seq::empty()),
                    k <= pairs@.len(),
                    out@.len() == k,
                    decode_dict_named_spec(kshape, vshape, *pairs, k as int, dict_view(out, 0))
                        == total,
                decreases pairs@.len() - k,
            {
                let ghost acc0 = dict_view(out, 0);
                let dk = match decode_name(ks, &pairs[k].0) {
                    Ok(dk) => dk,
                    Err(e) => {
                        return Err(e);
                    },
                };
                let dv = match decode_field(vs, &pairs[k].1) {
                    Ok(dv) => dv,
                    Err(e) => {
                        return Err(e);
                    },
                };
                let ghost old_out = out;
                let ghost dkv = dk@;
                let ghost dvv = dv@;
                out.push((dk, dv));
                proof {
                    lemma_dict_view_props(old_out, 0);
                    lemma_dict_view_props(out, 0);
                    assert(dict_view(out, 0) =~= acc0.push((dkv, dvv)));
                }
                k += 1;
            }
            Ok(Decoded::Dict(out))
        },
        _ => Err(mismatch_error(kind, s)),
    }
}

/// Decode a list of keyed pairs (a map value) against the requested shape.
fn decode_keyed(s: &Shape, entries: &Vec<(Field, Field)>, kind: &str) -> (r: Result<Decoded, Error>)
    ensures
        matches_decode(r, decode_keyed_spec(*s, *entries, kind@)),
    decreases *entries, 2int,
{
    match s {
        Shape::Record(fields) => {
            let ghost acc_init: Seq<Option<DecodedV>> = empty_slots(fields@.len() as int);
            let ghost total = decode_record_keyed_spec(*fields, *entries, 0, acc_init);
            let mut acc: Vec<Option<Decoded>> = Vec::new();
            let mut i: usize = 0;
            while i < fields.len()
                invariant
                    i <= fields@.len(),
                    acc@.len() == i,
                    forall|j: int| 0 <= j < i ==> acc@[j] is None,
                decreases fields@.len() - i,
            {
                acc.push(None);
                i += 1;
            }
            proof {
                assert(opts_view(acc) =~= acc_init);
            }
            let mut k: usize = 0;
            while k < entries.len()
                invariant
                    *s == Shape::Record(*fields),
                    total == decode_record_keyed_spec(*fields, *entries, 0, empty_slots(fields@.len() as int)),
                    k <= entries@.len(),
                    acc@.len() == fields@.len(),
                    decode_record_keyed_spec(*fields, *entries, k as int, opts_view(acc)) == total,
                decreases entries@.len() - k,
            {
                let ghost acc0 = opts_view(acc);
                let name = match &entries[k].0 {
                    Field::Str(name) => name,
                    _ => {
                        return Err(mismatch_error(field_kind_str(&entries[k].0), &Shape::Str));
                    },
                };
                let fi = find_field(fields, name);
                if fi < fields.len() {
                    let filled = match &acc[fi] {
                        Some(_) => true,
                        None => false,
                    };
                    if filled {
                        return Err(duplicate_error(name));
                    }
                    match decode_field(&fields[fi].1, &entries[k].1) {
                        Ok(d) => {
                            let ghost dv = d@;
                            acc.set(fi, Some(d));
                            proof {
                                assert(opts_view(acc) =~= acc0.update(fi as int, Some(dv)));
                            }
                        },
                        Err(e) => {
                            return Err(e);
                        },
                    }
                }
                k += 1;
            }
            let ghost accv = opts_view(acc);
            let mut u: usize = 0;
            while u < acc.len()
                invariant
                    *s == Shape::Record(*fields),
                    total == decode_record_keyed_spec(*fields, *entries, 0, empty_slots(fields@.len() as int)),
                    total == Ok::<Seq<Option<DecodedV>>, Seq<char>>(accv),
                    accv == opts_view(acc),
                    acc@.len() == fields@.len(),
                    u <= acc@.len(),
                    forall|c: int| 0 <= c < u ==> #[trigger] accv[c] is Some,
                decreases acc@.len() - u,
            {
                let empty_slot = match &acc[u] {
                    None => true,
                    Some(_) => false,
                };
                if empty_slot {
                    proof {
                        lemma_first_unset(accv, 0, u as int);
                    }
                    return Err(missing_error(&fields[u].0));
                }
                u += 1;
            }
            proof {
                lemma_first_unset(accv, 0, accv.len() as int);
            }
            let mut out: Vec<(String, Decoded)> = Vec::new();
            let mut fi: usize = 0;
            while fi < fields.len()
                invariant
                    *s == Shape::Record(*fields),
                    total == decode_record_keyed_spec(*fields, *entries, 0, empty_slots(fields@.len() as int)),
                    total == Ok::<Seq<Option<DecodedV>>, Seq<char>>(accv),
                    first_unset(accv, 0) == accv.len(),
                    acc@.len() == fields@.len() - fi,
                    accv.len() == fields@.len(),
                    fi <= fields@.len(),
                    out@.len() == fi,
                    forall|m: int|
                        0 <= m < acc@.len() ==> #[trigger] opts_view(acc)[m] == accv[fi + m],
                    forall|c: int| 0 <= c < accv.len() ==> #[trigger] accv[c] is Some,
                    forall|j: int|
                        0 <= j < fi ==> (#[trigger] out@[j].0)@ == fields@[j].0@ && out@[j].1@
                            == accv[j]->Some_0,
                decreases fields@.len() - fi,
            {
                let ghost old_acc = acc;
                let slot = acc.remove(0);
                proof {
                    assert(opts_view(old_acc)[0] == accv[fi as int]);
                    assert forall|m: int| 0 <= m < acc@.len() implies #[trigger] opts_view(acc)[m]
                        == accv[fi + 1 + m] by {
                        assert(acc@[m] == old_acc@[m + 1]);
                        assert(opts_view(old_acc)[m + 1] == accv[fi + 1 + m]);
                    }
                }
                match slot {
                    Some(d) => {
                        proof {
                            assert(accv[fi as int] == Some(d@));
                        }
                        out.push((fields[fi].0.clone(), d));
                    },
                    None => {
                        proof {
                            assert(accv[fi as int] is Some);
                            assert(false);
                        }
                        return Err(missing_error(&fields[fi].0));
                    },
                }
                fi += 1;
            }
            proof {
                lemma_record_view_props(out, 0);
                assert(record_view(out, 0) =~= Seq::new(
                    fields@.len(),
                    |i: int| (fields@[i].0@, accv[i]->Some_0),
                ));
            }
            Ok(Decoded::Record(out))
        },
        Shape::Dict(ks, vs) => {
            let ghost kshape: Shape = **ks;
            let ghost vshape: Shape = **vs;
            let ghost total = decode_dict_keyed_spec(kshape, vshape, *entries, 0, Seq::empty());
            let mut out: Vec<(Decoded, Decoded)> = Vec::new();
            let mut k: usize = 0;
            proof {
                lemma_dict_view_props(out, 0);
                assert(dict_view(out, 0) =~= Seq::<(DecodedV, DecodedV)>::empty());
            }
            while k < entries.len()
                invariant
                    *s == Shape::Dict(*ks, *vs),
                    kshape == **ks,
                    vshape == **vs,
                    total == decode_dict_keyed_spec(kshape, vshape, *entries, 0, Seq::empty()),
                    k <= entries@.len(),
                    out@.len() == k,
                    decode_dict_keyed_spec(kshape, vshape, *entries, k as int, dict_view(out, 0))
                        == total,
                decreases entries@.len() - k,
            {
                let ghost acc0 = dict_view(out, 0);
                let dk = match decode_field(ks, &entries[k].0) {
                    Ok(dk) => dk,
                    Err(e) => {
                        return Err(e);
                    },
                };
                let dv = match decode_field(vs, &entries[k].1) {
                    Ok(dv) => dv,
                    Err(e) => {
                        return Err(e);
                    },
                };
                let ghost old_out = out;
                let ghost dkv = dk@;
                let ghost dvv = dv@;
                out.push((dk, dv));
                proof {
                    lemma_dict_view_props(old_out, 0);
                    lemma_dict_view_props(out, 0);
                    assert(dict_view(out, 0) =~= acc0.push((dkv, dvv)));
                }
                k += 1;
            }
            Ok(Decoded::Dict(out))
        },
        _ => Err(mismatch_error(kind, s)),
    }
}


/// A one-step-lookahead value that the decoder cursor can hold while it
/// walks the source record: a field name, a field value, or a whole list of
/// named pairs.
enum Value<'de> {
    Name(&'de String),
    Field(&'de Field),
    Pairs(&'de Vec<(String, Field)>),
}

/// The decoder cursor: a reference to the source row, and an optional
/// peeked value used for one-step lookahead.  A cursor is created per
/// source row and consumed exactly once by one decode invocation.
pub struct Deserializer<'de> {
    input: &'de Row,
    value: Option<Value<'de>>,
}

impl<'de> Deserializer<'de> {
    /// The source row this cursor decodes from.
    pub closed spec fn spec_input(&self) -> Row {
        *self.input
    }

    /// A fresh cursor holds no peeked value yet.
    pub closed spec fn fresh(&self) -> bool {
        self.value is None
    }

    /// Create a decoder cursor over one source row.
    pub fn from_row(r: &'de Row) -> (d: Self)
        ensures
            d.spec_input() == *r,
            d.fresh(),
    {
        Deserializer { input: r, value: None }
    }

    /// Resolve the next value: consume and clear the peeked value when one
    /// is held; otherwise, at the entry point, treat the whole source row
    /// as an implicit group of its named fields, in their original order.
    fn get_next_value(&mut self) -> (v: Value<'de>)
        ensures
            final(self).input == old(self).input,
            final(self).value is None,
            old(self).value is Some ==> v == old(self).value->0,
            old(self).value is None ==> (v matches Value::Pairs(p) && *p
                == old(self).input.fields),
    {
        match self.value.take() {
            Some(v) => v,
            None => Value::Pairs(&self.input.fields),
        }
    }

    /// Drive one full decode of the source row against the requested shape:
    /// resolve the next value and dispatch on its tag against the request.
    pub fn deserialize(&mut self, shape: &Shape) -> (r: Result<Decoded, Error>)
        requires
            old(self).fresh(),
        ensures
            matches_decode(r, decode_row_spec(*shape, old(self).spec_input())),
    {
        let v = self.get_next_value();
        match v {
            Value::Pairs(p) => decode_pairs(shape, p, "map"),
            Value::Name(n) => decode_name(shape, n),
            Value::Field(f) => decode_field(shape, f),
        }
    }
}

/// Decode one source row into a typed value of the requested shape, or fail
/// with a decode-mismatch error whose message names the disagreement.
pub fn from_row(r: &Row, shape: &Shape) -> (res: Result<Decoded, Error>)
    ensures
        matches_decode(res, decode_row_spec(*shape, *r)),
{
    let mut deserializer = Deserializer::from_row(r);
    deserializer.deserialize(shape)
}


/// Clone one decoded value; the copy has the same model.
fn clone_decoded(d: &Decoded) -> (r: Decoded)
    ensures
        r@ == d@,
    decreases *d, 0int,
{
    match d {
        Decoded::Bool(v) => Decoded::Bool(*v),
        Decoded::I8(v) => Decoded::I8(*v),
        Decoded::I16(v) => Decoded::I16(*v),
        Decoded::I32(v) => Decoded::I32(*v),
        Decoded::I64(v) => Decoded::I64(*v),
        Decoded::U8(v) => Decoded::U8(*v),
        Decoded::U16(v) => Decoded::U16(*v),
        Decoded::U32(v) => Decoded::U32(*v),
        Decoded::U64(v) => Decoded::U64(*v),
        Decoded::F32(v) => Decoded::F32(*v),
        Decoded::F64(v) => Decoded::F64(*v),
        Decoded::Str(st) => Decoded::Str(st.clone()),
        Decoded::Bytes(bs) => {
            let copy = bs.clone();
            proof {
                assert forall|i: int| 0 <= i < copy@.len() implies copy@[i] == bs@[i] by {
                    assert(vstd::pervasive::cloned(bs@[i], copy@[i]));
                }
                assert(copy@ =~= bs@);
            }
            Decoded::Bytes(copy)
        },
        Decoded::Unit => Decoded::Unit,
        Decoded::List(xs) => {
            let mut out: Vec<Decoded> = Vec::new();
            let mut k: usize = 0;
            while k < xs.len()
                invariant
                    *d == Decoded::List(*xs),
                    k <= xs@.len(),
                    out@.len() == k,
                    forall|i: int| 0 <= i < k ==> (#[trigger] out@[i])@ == xs@[i]@,
                decreases xs@.len() - k,
            {
                proof {
                    assert(*xs == d->List_0);
                    assert(decreases_to!(*d => *xs));
                }
                out.push(clone_decoded(&xs[k]));
                k += 1;
            }
            proof {
                lemma_list_view_props(out, 0);
                lemma_list_view_props(*xs, 0);
                assert(list_view(out, 0) =~= list_view(*xs, 0));
            }
            Decoded::List(out)
        },
        Decoded::Record(ps) => {
            let mut out: Vec<(String, Decoded)> = Vec::new();
            let mut k: usize = 0;
            while k < ps.len()
                invariant
                    *d == Decoded::Record(*ps),
                    k <= ps@.len(),
                    out@.len() == k,
                    forall|i: int|
                        0 <= i < k ==> (#[trigger] out@[i].0)@ == ps@[i].0@ && out@[i].1@
                            == ps@[i].1@,
                decreases ps@.len() - k,
            {
                proof {
                    assert(*ps == d->Record_0);
                    assert(decreases_to!(*d => *ps));
                }
                out.push((ps[k].0.clone(), clone_decoded(&ps[k].1)));
                k += 1;
            }
            proof {
                lemma_record_view_props(out, 0);
                lemma_record_view_props(*ps, 0);
                assert(record_view(out, 0) =~= record_view(*ps, 0));
            }
            Decoded::Record(out)
        },
        Decoded::Dict(ps) => {
            let mut out: Vec<(Decoded, Decoded)> = Vec::new();
            let mut k: usize = 0;
            while k < ps.len()
                invariant
                    *d == Decoded::Dict(*ps),
                    k <= ps@.len(),
                    out@.len() == k,
                    forall|i: int|
                        0 <= i < k ==> (#[trigger] out@[i].0)@ == ps@[i].0@ && out@[i].1@
                            == ps@[i].1@,
                decreases ps@.len() - k,
            {
                proof {
                    assert(*ps == d->Dict_0);
                    assert(decreases_to!(*d => *ps));
                }
                out.push((clone_decoded(&ps[k].0), clone_decoded(&ps[k].1)));
                k += 1;
            }
            proof {
                lemma_dict_view_props(out, 0);
                lemma_dict_view_props(*ps, 0);
                assert(dict_view(out, 0) =~= dict_view(*ps, 0));
            }
            Decoded::Dict(out)
        },
    }
}



impl Clone for Decoded {
    /// Clone a decoded value; the copy has the same model as the original.
    fn clone(&self) -> (r: Self)
        ensures
            r@ == self@,
    {
        clone_decoded(self)
    }
}

} // verus!
