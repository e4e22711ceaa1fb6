//! How attribute values are laid out as runs of wire records, and how such
//! runs are read back.
use vstd::prelude::*;
use crate::wire::{
    copy_range, rec_wf, recs_of, recs_wf, DecodeError, Rec, WireRecord, FIRST_VALUE_TAG, MAX_FIELD_LEN,
};
use crate::attribute::{
    is_str_tag, other_tag, members_view, value_view, values_view, AttributeValue, IppAttribute, ValueModel, TAG_CHARSET,
    TAG_KEYWORD, TAG_MIME_MEDIA_TYPE, TAG_NAME, TAG_NATURAL_LANGUAGE, TAG_TEXT, TAG_URI, OUT_OF_BAND_FIRST, OUT_OF_BAND_LAST, TAG_BEGIN_COLLECTION, TAG_BOOLEAN,
    TAG_END_COLLECTION, TAG_ENUM, TAG_INTEGER, TAG_MEMBER_NAME,
};

verus! {

/// Four-byte big-endian two's-complement form of `n`.
pub open spec fn int_bytes(n: i32) -> Seq<u8> {
    let u: int = if n < 0 { n + 0x1_0000_0000 } else { n as int };
    seq![
        (u / 0x100_0000) as u8,
        ((u / 0x1_0000) % 0x100) as u8,
        ((u / 0x100) % 0x100) as u8,
        (u % 0x100) as u8,
    ]
}

/// The number that four big-endian two's-complement bytes carry.
pub open spec fn int_of(b: Seq<u8>) -> i32 {
    let w: int = b[0] as int * 0x100_0000 + b[1] as int * 0x1_0000 + b[2] as int * 0x100
        + b[3] as int;
    (if w >= 0x8000_0000 { w - 0x1_0000_0000 } else { w }) as i32
}

/// The record of a value that is neither a collection nor an array.
pub open spec fn scalar_rec(name: Seq<u8>, v: ValueModel) -> Rec {
    match v {
        ValueModel::Integer(n) => (TAG_INTEGER, name, int_bytes(n)),
        ValueModel::Boolean(b) => (TAG_BOOLEAN, name, seq![if b { 1u8 } else { 0u8 }]),
        ValueModel::Enum(n) => (TAG_ENUM, name, int_bytes(n)),
        ValueModel::Str(t, s) => (t, name, s),
        ValueModel::OutOfBand(t) => (t, name, Seq::<u8>::empty()),
        _ => (0u8, name, Seq::<u8>::empty()),
    }
}

/// The value that a single record carries, when its tag is known and its
/// value has the length that the tag asks for.
pub open spec fn scalar_of(r: Rec) -> Option<ValueModel> {
    let (t, _n, b) = r;
    if t == TAG_INTEGER && b.len() == 4 {
        Some(ValueModel::Integer(int_of(b)))
    } else if t == TAG_ENUM && b.len() == 4 {
        Some(ValueModel::Enum(int_of(b)))
    } else if t == TAG_BOOLEAN && b.len() == 1 && b[0] <= 1 {
        Some(ValueModel::Boolean(b[0] == 1))
    } else if is_str_tag(t) {
        Some(ValueModel::Str(t, b))
    } else if OUT_OF_BAND_FIRST <= t <= OUT_OF_BAND_LAST {
        Some(ValueModel::OutOfBand(t))
    } else {
        None
    }
}

/// A value that the format carries and reads back unchanged: arrays hold at
/// least two values and no arrays, string-like values carry a string tag,
/// out-of-band values an out-of-band tag, and every length fits its field.
pub open spec fn value_wf(v: ValueModel) -> bool
    decreases v,
{
    match v {
        ValueModel::Str(t, s) => is_str_tag(t) && s.len() <= MAX_FIELD_LEN,
        ValueModel::OutOfBand(t) => OUT_OF_BAND_FIRST <= t <= OUT_OF_BAND_LAST,
        ValueModel::Collection(ms) => members_wf(ms),
        ValueModel::Array(vs) => vs.len() >= 2 && elems_wf(vs),
        _ => true,
    }
}

pub open spec fn members_wf(ms: Seq<(Seq<u8>, ValueModel)>) -> bool
    decreases ms,
{
    if ms.len() == 0 {
        true
    } else {
        ms[0].0.len() <= MAX_FIELD_LEN && value_wf(ms[0].1) && members_wf(ms.skip(1))
    }
}

pub open spec fn elems_wf(vs: Seq<ValueModel>) -> bool
    decreases vs,
{
    if vs.len() == 0 {
        true
    } else {
        !(vs[0] is Array) && value_wf(vs[0]) && elems_wf(vs.skip(1))
    }
}

pub open spec fn end_rec() -> Rec {
    (TAG_END_COLLECTION, Seq::<u8>::empty(), Seq::<u8>::empty())
}

/// Records of a value under `name`: a collection is opened and closed by
/// marker records with its members between; an array gives its first value
/// under `name` and the others with an empty name.
pub open spec fn value_recs(name: Seq<u8>, v: ValueModel) -> Seq<Rec>
    decreases v,
{
    match v {
        ValueModel::Collection(ms) => seq![(TAG_BEGIN_COLLECTION, name, Seq::<u8>::empty())]
            + members_recs(ms) + seq![end_rec()],
        ValueModel::Array(vs) => if vs.len() == 0 {
            seq![]
        } else {
            value_recs(name, vs[0]) + more_recs(vs.skip(1))
        },
        _ => seq![scalar_rec(name, v)],
    }
}

/// Records of collection members: each is a member-name record carrying the
/// name as its value, followed by the member's value with an empty name.
pub open spec fn members_recs(ms: Seq<(Seq<u8>, ValueModel)>) -> Seq<Rec>
    decreases ms,
{
    if ms.len() == 0 {
        seq![]
    } else {
        seq![(TAG_MEMBER_NAME, Seq::<u8>::empty(), ms[0].0)] + value_recs(
            Seq::<u8>::empty(),
            ms[0].1,
        ) + members_recs(ms.skip(1))
    }
}

/// Records of the further values of an array, each with an empty name.
pub open spec fn more_recs(vs: Seq<ValueModel>) -> Seq<Rec>
    decreases vs,
{
    if vs.len() == 0 {
        seq![]
    } else {
        value_recs(Seq::<u8>::empty(), vs[0]) + more_recs(vs.skip(1))
    }
}

/// A record that continues the value before it: a value tag with an empty name.
pub open spec fn is_more(r: Rec) -> bool {
    r.0 >= FIRST_VALUE_TAG && r.0 != TAG_END_COLLECTION && r.0 != TAG_MEMBER_NAME
        && r.1.len() == 0
}

/// Reads one value that is not an array, starting at record `i`.
pub open spec fn parse_value(ts: Seq<Rec>, i: int) -> Option<(ValueModel, int)>
    decreases ts.len() - i, 1nat,
{
    if i < 0 || i >= ts.len() {
        None
    } else if ts[i].0 == TAG_BEGIN_COLLECTION {
        match parse_members(ts, i + 1) {
            Some((ms, j)) => if i < j < ts.len() && ts[j].0 == TAG_END_COLLECTION {
                Some((ValueModel::Collection(ms), j + 1))
            } else {
                None
            },
            None => None,
        }
    } else {
        match scalar_of(ts[i]) {
            Some(v) => Some((v, i + 1)),
            None => None,
        }
    }
}

/// Reads collection members from record `i` up to the closing marker, which
/// is not consumed.
pub open spec fn parse_members(ts: Seq<Rec>, i: int) -> Option<(Seq<(Seq<u8>, ValueModel)>, int)>
    decreases ts.len() - i, 0nat,
{
    if i < 0 || i >= ts.len() {
        None
    } else if ts[i].0 == TAG_END_COLLECTION {
        Some((seq![], i))
    } else if ts[i].0 == TAG_MEMBER_NAME {
        match parse_attr_value(ts, i + 1) {
            Some((v, j)) => if i < j <= ts.len() {
                match parse_members(ts, j) {
                    Some((rest, k)) => Some((seq![(ts[i].2, v)] + rest, k)),
                    None => None,
                }
            } else {
                None
            },
            None => None,
        }
    } else {
        None
    }
}

/// Reads a value and the further values that continue it; more than one
/// value makes an array.
pub open spec fn parse_attr_value(ts: Seq<Rec>, i: int) -> Option<(ValueModel, int)>
    decreases ts.len() - i, 3nat,
{
    match parse_value(ts, i) {
        Some((v, j)) => if i < j <= ts.len() {
            match parse_more(ts, j) {
                Some((vs, k)) => if vs.len() == 0 {
                    Some((v, k))
                } else {
                    Some((ValueModel::Array(seq![v] + vs), k))
                },
                None => None,
            }
        } else {
            None
        },
        None => None,
    }
}

/// Reads the further values of an array, as long as records continue it.
pub open spec fn parse_more(ts: Seq<Rec>, i: int) -> Option<(Seq<ValueModel>, int)>
    decreases ts.len() - i, 2nat,
{
    if 0 <= i < ts.len() && is_more(ts[i]) {
        match parse_value(ts, i) {
            Some((v, j)) => if i < j <= ts.len() {
                match parse_more(ts, j) {
                    Some((vs, k)) => Some((seq![v] + vs, k)),
                    None => None,
                }
            } else {
                None
            },
            None => None,
        }
    } else {
        Some((seq![], i))
    }
}

/// `t` stands in `ts` from index `i`.
pub open spec fn placed(ts: Seq<Rec>, i: int, t: Seq<Rec>) -> bool {
    0 <= i && i + t.len() <= ts.len() && ts.subrange(i, i + t.len()) == t
}

/// No record at `k` continues a value.
pub open spec fn boundary(ts: Seq<Rec>, k: int) -> bool {
    !(0 <= k < ts.len() && is_more(ts[k]))
}

pub proof fn lemma_placed_split(ts: Seq<Rec>, i: int, a: Seq<Rec>, b: Seq<Rec>)
    requires
        placed(ts, i, a + b),
    ensures
        placed(ts, i, a),
        placed(ts, i + a.len(), b),
        a.len() > 0 ==> ts[i] == a[0],
{
    assert(ts.subrange(i, i + a.len()) =~= a) by {
        assert forall|k: int| 0 <= k < a.len() implies ts.subrange(i, i + a.len())[k] == a[k] by {
            assert(ts.subrange(i, i + (a + b).len())[k] == (a + b)[k]);
        }
    }
    assert(ts.subrange(i + a.len(), i + a.len() + b.len()) =~= b) by {
        assert forall|k: int| 0 <= k < b.len() implies ts.subrange(
            i + a.len(),
            i + a.len() + b.len(),
        )[k] == b[k] by {
            assert(ts.subrange(i, i + (a + b).len())[a.len() + k] == (a + b)[a.len() + k]);
        }
    }
    if a.len() > 0 {
        assert(ts.subrange(i, i + a.len())[0] == a[0]);
    }
}

proof fn lemma_int_round_trip(n: i32)
    ensures
        int_bytes(n).len() == 4,
        int_of(int_bytes(n)) == n,
{
    let u: int = if n < 0 { n + 0x1_0000_0000 } else { n as int };
    let b = int_bytes(n);
    assert(0 <= u < 0x1_0000_0000);
    assert(b[0] as int == u / 0x100_0000);
    assert(b[1] as int == (u / 0x1_0000) % 0x100);
    assert(b[2] as int == (u / 0x100) % 0x100);
    assert(b[3] as int == u % 0x100);
    assert(b[0] as int * 0x100_0000 + b[1] as int * 0x1_0000 + b[2] as int * 0x100 + b[3] as int
        == u) by (nonlinear_arith)
        requires
            0 <= u < 0x1_0000_0000,
            b[0] as int == u / 0x100_0000,
            b[1] as int == (u / 0x1_0000) % 0x100,
            b[2] as int == (u / 0x100) % 0x100,
            b[3] as int == u % 0x100,
    ;
}

proof fn lemma_scalar_round_trip(name: Seq<u8>, v: ValueModel)
    requires
        value_wf(v),
        !(v is Array),
        !(v is Collection),
    ensures
        scalar_of(scalar_rec(name, v)) == Some(v),
        scalar_rec(name, v).0 >= FIRST_VALUE_TAG,
        scalar_rec(name, v).0 != TAG_BEGIN_COLLECTION,
        scalar_rec(name, v).0 != TAG_END_COLLECTION,
        scalar_rec(name, v).0 != TAG_MEMBER_NAME,
        scalar_rec(name, v).1 == name,
{
    match v {
        ValueModel::Integer(n) => lemma_int_round_trip(n),
        ValueModel::Enum(n) => lemma_int_round_trip(n),
        _ => {},
    }
}

pub proof fn lemma_elem_recs(name: Seq<u8>, v: ValueModel)
    requires
        value_wf(v),
        !(v is Array),
    ensures
        value_recs(name, v).len() > 0,
        value_recs(name, v)[0].1 == name,
        value_recs(name, v)[0].0 >= FIRST_VALUE_TAG,
        value_recs(name, v)[0].0 != TAG_END_COLLECTION,
        value_recs(name, v)[0].0 != TAG_MEMBER_NAME,
{
    if !(v is Collection) {
        lemma_scalar_round_trip(name, v);
    }
}

proof fn lemma_parse_elem(ts: Seq<Rec>, i: int, name: Seq<u8>, v: ValueModel)
    requires
        value_wf(v),
        !(v is Array),
        placed(ts, i, value_recs(name, v)),
    ensures
        parse_value(ts, i) == Some((v, i + value_recs(name, v).len())),
    decreases v, 1nat,
{
    match v {
        ValueModel::Collection(ms) => {
            let open = seq![(TAG_BEGIN_COLLECTION, name, Seq::<u8>::empty())];
            let mr = members_recs(ms);
            lemma_placed_split(ts, i, open + mr, seq![end_rec()]);
            lemma_placed_split(ts, i, open, mr);
            lemma_placed_split(ts, i + 1 + mr.len(), seq![end_rec()], Seq::<Rec>::empty());
            lemma_parse_members(ts, i + 1, ms);
        },
        _ => {
            lemma_scalar_round_trip(name, v);
            lemma_placed_split(ts, i, value_recs(name, v), Seq::<Rec>::empty());
        },
    }
}

proof fn lemma_parse_members(ts: Seq<Rec>, i: int, ms: Seq<(Seq<u8>, ValueModel)>)
    requires
        members_wf(ms),
        placed(ts, i, members_recs(ms)),
        i + members_recs(ms).len() < ts.len(),
        ts[i + members_recs(ms).len()].0 == TAG_END_COLLECTION,
    ensures
        parse_members(ts, i) == Some((ms, i + members_recs(ms).len())),
    decreases ms, 0nat,
{
    if ms.len() > 0 {
        let head = seq![(TAG_MEMBER_NAME, Seq::<u8>::empty(), ms[0].0)];
        let vr = value_recs(Seq::<u8>::empty(), ms[0].1);
        let rest = members_recs(ms.skip(1));
        assert(members_recs(ms) == head + vr + rest);
        lemma_placed_split(ts, i, head + vr, rest);
        lemma_placed_split(ts, i, head, vr);
        let j = i + 1 + vr.len();
        if rest.len() > 0 {
            lemma_placed_split(ts, j, rest, Seq::<Rec>::empty());
            assert(ms.skip(1).len() > 0);
            assert(rest[0].0 == TAG_MEMBER_NAME);
        }
        assert(boundary(ts, j));
        lemma_parse_attr(ts, i + 1, Seq::<u8>::empty(), ms[0].1);
        lemma_parse_members(ts, j, ms.skip(1));
        assert(seq![(ms[0].0, ms[0].1)] + ms.skip(1) =~= ms);
    }
}

proof fn lemma_parse_attr(ts: Seq<Rec>, i: int, name: Seq<u8>, v: ValueModel)
    requires
        value_wf(v),
        placed(ts, i, value_recs(name, v)),
        boundary(ts, i + value_recs(name, v).len()),
    ensures
        parse_attr_value(ts, i) == Some((v, i + value_recs(name, v).len())),
    decreases v, 2nat,
{
    match v {
        ValueModel::Array(vs) => {
            let first = value_recs(name, vs[0]);
            let others = more_recs(vs.skip(1));
            lemma_placed_split(ts, i, first, others);
            lemma_elem_recs(name, vs[0]);
            lemma_parse_elem(ts, i, name, vs[0]);
            lemma_parse_more(ts, i + first.len(), vs.skip(1));
            assert(seq![vs[0]] + vs.skip(1) =~= vs);
        },
        _ => {
            lemma_elem_recs(name, v);
            lemma_parse_elem(ts, i, name, v);
        },
    }
}

proof fn lemma_parse_more(ts: Seq<Rec>, i: int, vs: Seq<ValueModel>)
    requires
        elems_wf(vs),
        placed(ts, i, more_recs(vs)),
        boundary(ts, i + more_recs(vs).len()),
    ensures
        parse_more(ts, i) == Some((vs, i + more_recs(vs).len())),
    decreases vs, 0nat,
{
    if vs.len() > 0 {
        let first = value_recs(Seq::<u8>::empty(), vs[0]);
        let others = more_recs(vs.skip(1));
        lemma_placed_split(ts, i, first, others);
        lemma_elem_recs(Seq::<u8>::empty(), vs[0]);
        lemma_parse_elem(ts, i, Seq::<u8>::empty(), vs[0]);
        lemma_parse_more(ts, i + first.len(), vs.skip(1));
        assert(seq![vs[0]] + vs.skip(1) =~= vs);
    } else {
        assert(vs =~= Seq::<ValueModel>::empty());
    }
}

/// A named attribute as a group carries it: a name of at least one byte
/// that fits its field, and a value that reads back unchanged.
pub open spec fn attr_wf(a: (Seq<u8>, ValueModel)) -> bool {
    0 < a.0.len() <= MAX_FIELD_LEN && value_wf(a.1)
}

pub open spec fn attrs_wf(as_: Seq<(Seq<u8>, ValueModel)>) -> bool {
    forall|k: int| 0 <= k < as_.len() ==> #[trigger] attr_wf(as_[k])
}

/// Records of the attributes of a group, one after another.
pub open spec fn attrs_recs(as_: Seq<(Seq<u8>, ValueModel)>) -> Seq<Rec>
    decreases as_.len(),
{
    if as_.len() == 0 {
        seq![]
    } else {
        value_recs(as_[0].0, as_[0].1) + attrs_recs(as_.skip(1))
    }
}

/// Reads the attributes of a group, as long as records start a named value.
pub open spec fn parse_attrs(ts: Seq<Rec>, i: int) -> Option<(Seq<(Seq<u8>, ValueModel)>, int)>
    decreases ts.len() - i,
{
    if 0 <= i < ts.len() && ts[i].0 >= FIRST_VALUE_TAG && ts[i].0 != TAG_END_COLLECTION
        && ts[i].0 != TAG_MEMBER_NAME && ts[i].1.len() > 0 {
        match parse_attr_value(ts, i) {
            Some((v, j)) => if i < j <= ts.len() {
                match parse_attrs(ts, j) {
                    Some((rest, k)) => Some((seq![(ts[i].1, v)] + rest, k)),
                    None => None,
                }
            } else {
                None
            },
            None => None,
        }
    } else {
        Some((seq![], i))
    }
}

pub proof fn lemma_parse_attrs(ts: Seq<Rec>, i: int, as_: Seq<(Seq<u8>, ValueModel)>)
    requires
        attrs_wf(as_),
        placed(ts, i, attrs_recs(as_)),
        i + attrs_recs(as_).len() == ts.len() || (i + attrs_recs(as_).len() < ts.len() && ts[i
            + attrs_recs(as_).len()].0 < FIRST_VALUE_TAG),
    ensures
        parse_attrs(ts, i) == Some((as_, i + attrs_recs(as_).len())),
    decreases as_.len(),
{
    if as_.len() > 0 {
        assert(attr_wf(as_[0]));
        let vr = value_recs(as_[0].0, as_[0].1);
        let rest = attrs_recs(as_.skip(1));
        lemma_placed_split(ts, i, vr, rest);
        let j = i + vr.len();
        assert(attrs_wf(as_.skip(1))) by {
            assert forall|k: int| 0 <= k < as_.skip(1).len() implies #[trigger] attr_wf(
                as_.skip(1)[k],
            ) by {
                assert(as_.skip(1)[k] == as_[k + 1]);
                assert(attr_wf(as_[k + 1]));
            }
        }
        if rest.len() > 0 {
            lemma_placed_split(ts, j, rest, Seq::<Rec>::empty());
            assert(attr_wf(as_.skip(1)[0]));
            if as_.skip(1)[0].1 is Array {
                let ws = as_.skip(1)[0].1->Array_0;
                lemma_elem_recs(as_.skip(1)[0].0, ws[0]);
            } else {
                lemma_elem_recs(as_.skip(1)[0].0, as_.skip(1)[0].1);
            }
        }
        assert(boundary(ts, j));
        if as_[0].1 is Array {
            let ws = as_[0].1->Array_0;
            lemma_elem_recs(as_[0].0, ws[0]);
        } else {
            lemma_elem_recs(as_[0].0, as_[0].1);
        }
        lemma_parse_attr(ts, i, as_[0].0, as_[0].1);
        lemma_parse_attrs(ts, j, as_.skip(1));
        assert(seq![(as_[0].0, as_[0].1)] + as_.skip(1) =~= as_);
    } else {
        assert(as_ =~= Seq::<(Seq<u8>, ValueModel)>::empty());
    }
}

proof fn lemma_wf_concat(a: Seq<Rec>, b: Seq<Rec>)
    requires
        recs_wf(a),
        recs_wf(b),
    ensures
        recs_wf(a + b),
{
    assert forall|k: int| 0 <= k < (a + b).len() implies #[trigger] rec_wf((a + b)[k]) by {
        if k < a.len() {
            assert(rec_wf(a[k]));
        } else {
            assert(rec_wf(b[k - a.len()]));
        }
    }
}

proof fn lemma_value_recs_wf(name: Seq<u8>, v: ValueModel)
    requires
        name.len() <= MAX_FIELD_LEN,
        value_wf(v),
    ensures
        recs_wf(value_recs(name, v)),
    decreases v, 1nat,
{
    match v {
        ValueModel::Collection(ms) => {
            let open = seq![(TAG_BEGIN_COLLECTION, name, Seq::<u8>::empty())];
            assert(rec_wf(open[0]));
            assert(rec_wf(seq![end_rec()][0]));
            lemma_members_recs_wf(ms);
            lemma_wf_concat(open, members_recs(ms));
            lemma_wf_concat(open + members_recs(ms), seq![end_rec()]);
        },
        ValueModel::Array(vs) => {
            lemma_value_recs_wf(name, vs[0]);
            lemma_more_recs_wf(vs.skip(1));
            lemma_wf_concat(value_recs(name, vs[0]), more_recs(vs.skip(1)));
        },
        _ => {
            lemma_scalar_round_trip(name, v);
            lemma_int_round_trip(0i32);
            match v {
                ValueModel::Integer(n) => lemma_int_round_trip(n),
                ValueModel::Enum(n) => lemma_int_round_trip(n),
                _ => {},
            }
            assert(rec_wf(value_recs(name, v)[0]));
        },
    }
}

proof fn lemma_members_recs_wf(ms: Seq<(Seq<u8>, ValueModel)>)
    requires
        members_wf(ms),
    ensures
        recs_wf(members_recs(ms)),
    decreases ms, 0nat,
{
    if ms.len() > 0 {
        let head = seq![(TAG_MEMBER_NAME, Seq::<u8>::empty(), ms[0].0)];
        assert(rec_wf(head[0]));
        lemma_value_recs_wf(Seq::<u8>::empty(), ms[0].1);
        lemma_members_recs_wf(ms.skip(1));
        lemma_wf_concat(head, value_recs(Seq::<u8>::empty(), ms[0].1));
        lemma_wf_concat(head + value_recs(Seq::<u8>::empty(), ms[0].1), members_recs(ms.skip(1)));
    }
}

proof fn lemma_more_recs_wf(vs: Seq<ValueModel>)
    requires
        elems_wf(vs),
    ensures
        recs_wf(more_recs(vs)),
    decreases vs, 0nat,
{
    if vs.len() > 0 {
        lemma_value_recs_wf(Seq::<u8>::empty(), vs[0]);
        lemma_more_recs_wf(vs.skip(1));
        lemma_wf_concat(value_recs(Seq::<u8>::empty(), vs[0]), more_recs(vs.skip(1)));
    }
}

pub proof fn lemma_attrs_recs_wf(as_: Seq<(Seq<u8>, ValueModel)>)
    requires
        attrs_wf(as_),
    ensures
        recs_wf(attrs_recs(as_)),
    decreases as_.len(),
{
    if as_.len() > 0 {
        assert(attr_wf(as_[0]));
        assert(attrs_wf(as_.skip(1))) by {
            assert forall|k: int| 0 <= k < as_.skip(1).len() implies #[trigger] attr_wf(
                as_.skip(1)[k],
            ) by {
                assert(as_.skip(1)[k] == as_[k + 1]);
                assert(attr_wf(as_[k + 1]));
            }
        }
        lemma_value_recs_wf(as_[0].0, as_[0].1);
        lemma_attrs_recs_wf(as_.skip(1));
        lemma_wf_concat(value_recs(as_[0].0, as_[0].1), attrs_recs(as_.skip(1)));
    }
}

pub proof fn lemma_members_view(ms: Seq<IppAttribute>)
    ensures
        members_view(ms).len() == ms.len(),
        forall|k: int| 0 <= k < ms.len() ==> #[trigger] members_view(ms)[k] == ms[k]@,
    decreases ms.len(),
{
    if ms.len() > 0 {
        lemma_members_view(ms.subrange(0, ms.len() - 1));
    }
}

pub proof fn lemma_values_view(vs: Seq<AttributeValue>)
    ensures
        values_view(vs).len() == vs.len(),
        forall|k: int| 0 <= k < vs.len() ==> #[trigger] values_view(vs)[k] == vs[k]@,
    decreases vs.len(),
{
    if vs.len() > 0 {
        lemma_values_view(vs.subrange(0, vs.len() - 1));
    }
}

proof fn lemma_members_recs_push(ms: Seq<(Seq<u8>, ValueModel)>, x: (Seq<u8>, ValueModel))
    ensures
        members_recs(ms.push(x)) == members_recs(ms) + seq![(TAG_MEMBER_NAME, Seq::<u8>::empty(), x.0)]
            + value_recs(Seq::<u8>::empty(), x.1),
    decreases ms.len(),
{
    let tail = seq![(TAG_MEMBER_NAME, Seq::<u8>::empty(), x.0)] + value_recs(Seq::<u8>::empty(), x.1);
    if ms.len() == 0 {
        assert(ms.push(x).skip(1) =~= Seq::<(Seq<u8>, ValueModel)>::empty());
        assert(ms.push(x)[0] == x);
        assert(members_recs(ms.push(x).skip(1)) == Seq::<Rec>::empty());
        assert(members_recs(ms) == Seq::<Rec>::empty());
        assert(members_recs(ms.push(x)) =~= members_recs(ms) + tail);
    } else {
        assert(ms.push(x).skip(1) =~= ms.skip(1).push(x));
        assert(ms.push(x)[0] == ms[0]);
        lemma_members_recs_push(ms.skip(1), x);
        let h = seq![(TAG_MEMBER_NAME, Seq::<u8>::empty(), ms[0].0)] + value_recs(Seq::<u8>::empty(), ms[0].1);
        assert(h + (members_recs(ms.skip(1)) + tail) =~= (h + members_recs(ms.skip(1))) + tail);
    }
}

proof fn lemma_more_recs_push(vs: Seq<ValueModel>, x: ValueModel)
    ensures
        more_recs(vs.push(x)) == more_recs(vs) + value_recs(Seq::<u8>::empty(), x),
    decreases vs.len(),
{
    if vs.len() == 0 {
        assert(vs.push(x).skip(1) =~= Seq::<ValueModel>::empty());
        assert(vs.push(x)[0] == x);
        assert(more_recs(vs.push(x).skip(1)) == Seq::<Rec>::empty());
        assert(more_recs(vs) == Seq::<Rec>::empty());
        assert(more_recs(vs.push(x)) =~= more_recs(vs) + value_recs(Seq::<u8>::empty(), x));
    } else {
        assert(vs.push(x).skip(1) =~= vs.skip(1).push(x));
        assert(vs.push(x)[0] == vs[0]);
        lemma_more_recs_push(vs.skip(1), x);
        let h = value_recs(Seq::<u8>::empty(), vs[0]);
        assert(h + (more_recs(vs.skip(1)) + value_recs(Seq::<u8>::empty(), x)) =~= (h + more_recs(
            vs.skip(1),
        )) + value_recs(Seq::<u8>::empty(), x));
    }
}

pub proof fn lemma_attrs_recs_push(as_: Seq<(Seq<u8>, ValueModel)>, x: (Seq<u8>, ValueModel))
    ensures
        attrs_recs(as_.push(x)) == attrs_recs(as_) + value_recs(x.0, x.1),
    decreases as_.len(),
{
    if as_.len() == 0 {
        assert(as_.push(x).skip(1) =~= Seq::<(Seq<u8>, ValueModel)>::empty());
        assert(as_.push(x)[0] == x);
        assert(attrs_recs(as_.push(x).skip(1)) == Seq::<Rec>::empty());
        assert(attrs_recs(as_) == Seq::<Rec>::empty());
        assert(attrs_recs(as_.push(x)) =~= attrs_recs(as_) + value_recs(x.0, x.1));
    } else {
        assert(as_.push(x).skip(1) =~= as_.skip(1).push(x));
        assert(as_.push(x)[0] == as_[0]);
        lemma_attrs_recs_push(as_.skip(1), x);
        let h = value_recs(as_[0].0, as_[0].1);
        assert(h + (attrs_recs(as_.skip(1)) + value_recs(x.0, x.1)) =~= (h + attrs_recs(
            as_.skip(1),
        )) + value_recs(x.0, x.1));
    }
}

/// Copies a byte vector.
pub fn copy_bytes(v: &Vec<u8>) -> (r: Vec<u8>)
    ensures
        r@ == v@,
{
    let r = copy_range(v.as_slice(), 0, v.len());
    assert(v@.subrange(0, v@.len() as int) =~= v@);
    r
}

/// Four-byte big-endian two's-complement form of `n`.
pub fn encode_int(n: i32) -> (r: Vec<u8>)
    ensures
        r@ == int_bytes(n),
{
    let u: u64 = if n < 0 { (n as i64 + 0x1_0000_0000i64) as u64 } else { n as u64 };
    let mut r: Vec<u8> = Vec::new();
    r.push((u / 0x100_0000) as u8);
    r.push(((u / 0x1_0000) % 0x100) as u8);
    r.push(((u / 0x100) % 0x100) as u8);
    r.push((u % 0x100) as u8);
    assert(r@ =~= int_bytes(n));
    r
}

/// The number that four big-endian two's-complement bytes carry.
pub fn decode_int(b: &Vec<u8>) -> (r: i32)
    requires
        b@.len() == 4,
    ensures
        r == int_of(b@),
{
    let w: u64 = (b[0] as u64) * 0x100_0000 + (b[1] as u64) * 0x1_0000 + (b[2] as u64) * 0x100
        + (b[3] as u64);
    if w >= 0x8000_0000 {
        (w as i64 - 0x1_0000_0000i64) as i32
    } else {
        w as i32
    }
}

/// Appends the records of `v` under `name`.
pub fn encode_value(name: &Vec<u8>, v: &AttributeValue, out: &mut Vec<WireRecord>)
    ensures
        recs_of(final(out)@) == recs_of(old(out)@) + value_recs(name@, v@),
    decreases v,
{
    let ghost start = recs_of(out@);
    let empty: Vec<u8> = Vec::new();
    assert(empty@ =~= Seq::<u8>::empty());
    match v {
        AttributeValue::Collection(ms) => {
            out.push(WireRecord { tag: TAG_BEGIN_COLLECTION, name: copy_bytes(name), value: Vec::new() });
            let ghost opened = recs_of(out@);
            assert(opened =~= start + seq![(TAG_BEGIN_COLLECTION, name@, Seq::<u8>::empty())]);
            let mut k: usize = 0;
            while k < ms.len()
                invariant
                    k <= ms@.len(),
                    *v == AttributeValue::Collection(*ms),
                    empty@ == Seq::<u8>::empty(),
                    recs_of(out@) == opened + members_recs(members_view(ms@.take(k as int))),
                decreases ms@.len() - k,
            {
                let ghost before = recs_of(out@);
                out.push(WireRecord { tag: TAG_MEMBER_NAME, name: Vec::new(), value: copy_bytes(&ms[k].name) });
                assert(recs_of(out@) =~= before + seq![(TAG_MEMBER_NAME, Seq::<u8>::empty(), ms@[k as int].name@)]);
                proof {
                    assert(decreases_to!(*v => v->Collection_0));
                    assert(decreases_to!(v->Collection_0 => (*ms)@));
                    assert(decreases_to!((*ms)@ => (*ms)@[k as int]));
                    assert(decreases_to!((*ms)@[k as int] => (*ms)@[k as int].value));
                }
                encode_value(&empty, &ms[k].value, out);
                proof {
                    let x = ms@[k as int]@;
                    assert(ms@.take(k + 1).subrange(0, k as int) =~= ms@.take(k as int));
                    assert(members_view(ms@.take(k + 1)) == members_view(ms@.take(k as int)).push(x));
                    lemma_members_recs_push(members_view(ms@.take(k as int)), x);
                    assert(recs_of(out@) =~= opened + members_recs(members_view(ms@.take(k + 1))));
                }
                k = k + 1;
            }
            let ghost before_end = recs_of(out@);
            let end = WireRecord { tag: TAG_END_COLLECTION, name: Vec::new(), value: Vec::new() };
            assert(end@ == end_rec());
            out.push(end);
            proof {
                assert(recs_of(out@) =~= before_end + seq![end_rec()]);
                assert(ms@.take(k as int) =~= ms@);
                assert(recs_of(out@) =~= start + value_recs(name@, v@));
            }
        },
        AttributeValue::Array(vs) => {
            proof { lemma_values_view(vs@); }
            if vs.len() > 0 {
                encode_value(name, &vs[0], out);
                let ghost first = recs_of(out@);
                let mut k: usize = 1;
                while k < vs.len()
                    invariant
                        1 <= k <= vs@.len(),
                        *v == AttributeValue::Array(*vs),
                        empty@ == Seq::<u8>::empty(),
                        values_view(vs@).len() == vs@.len(),
                        forall|i: int| 0 <= i < vs@.len() ==> #[trigger] values_view(vs@)[i] == vs@[i]@,
                        recs_of(out@) == first + more_recs(values_view(vs@).subrange(1, k as int)),
                    decreases vs@.len() - k,
                {
                    proof {
                        assert(decreases_to!(*v => v->Array_0));
                        assert(decreases_to!(v->Array_0 => (*vs)@));
                        assert(decreases_to!((*vs)@ => (*vs)@[k as int]));
                    }
                    encode_value(&empty, &vs[k], out);
                    proof {
                        let ws = values_view(vs@);
                        assert(ws.subrange(1, k + 1) =~= ws.subrange(1, k as int).push(ws[k as int]));
                        lemma_more_recs_push(ws.subrange(1, k as int), ws[k as int]);
                        assert(recs_of(out@) =~= first + more_recs(ws.subrange(1, k + 1)));
                    }
                    k = k + 1;
                }
                proof {
                    let ws = values_view(vs@);
                    assert(ws.subrange(1, k as int) =~= ws.skip(1));
                    assert(recs_of(out@) =~= start + value_recs(name@, v@));
                }
            } else {
                assert(values_view(vs@).len() == 0);
                assert(recs_of(out@) =~= start + value_recs(name@, v@));
            }
        },
        _ => {
            let (tag, payload) = match v {
                AttributeValue::Integer(n) => (TAG_INTEGER, encode_int(*n)),
                AttributeValue::Boolean(b) => {
                    let mut p: Vec<u8> = Vec::new();
                    p.push(if *b { 1u8 } else { 0u8 });
                    (TAG_BOOLEAN, p)
                },
                AttributeValue::Enum(n) => (TAG_ENUM, encode_int(*n)),
                AttributeValue::Text(s) => (TAG_TEXT, copy_bytes(s)),
                AttributeValue::Name(s) => (TAG_NAME, copy_bytes(s)),
                AttributeValue::Keyword(s) => (TAG_KEYWORD, copy_bytes(s)),
                AttributeValue::Uri(s) => (TAG_URI, copy_bytes(s)),
                AttributeValue::Charset(s) => (TAG_CHARSET, copy_bytes(s)),
                AttributeValue::NaturalLanguage(s) => (TAG_NATURAL_LANGUAGE, copy_bytes(s)),
                AttributeValue::MimeMediaType(s) => (TAG_MIME_MEDIA_TYPE, copy_bytes(s)),
                AttributeValue::Other(t, s) => (*t, copy_bytes(s)),
                AttributeValue::OutOfBand(t) => (*t, Vec::new()),
                AttributeValue::Collection(_) => (0u8, Vec::new()),
                AttributeValue::Array(_) => (0u8, Vec::new()),
            };
            let rec = WireRecord { tag, name: copy_bytes(name), value: payload };
            assert(rec@ == scalar_rec(name@, v@));
            out.push(rec);
            assert(recs_of(out@) =~= start + value_recs(name@, v@));
        },
    }
}

pub open spec fn join_members(
    pre: Seq<(Seq<u8>, ValueModel)>,
    r: Option<(Seq<(Seq<u8>, ValueModel)>, int)>,
) -> Option<(Seq<(Seq<u8>, ValueModel)>, int)> {
    match r {
        Some((rest, k)) => Some((pre + rest, k)),
        None => None,
    }
}

pub open spec fn join_values(pre: Seq<ValueModel>, r: Option<(Seq<ValueModel>, int)>) -> Option<
    (Seq<ValueModel>, int),
> {
    match r {
        Some((rest, k)) => Some((pre + rest, k)),
        None => None,
    }
}

/// The value that a single record carries; `None` for an unknown tag or a
/// value of the wrong length.
pub fn decode_scalar(r: &WireRecord) -> (res: Option<AttributeValue>)
    ensures
        match scalar_of(r@) {
            Some(v) => res is Some && res->0@ == v,
            None => res is None,
        },
{
    let t = r.tag;
    if t == TAG_INTEGER && r.value.len() == 4 {
        Some(AttributeValue::Integer(decode_int(&r.value)))
    } else if t == TAG_ENUM && r.value.len() == 4 {
        Some(AttributeValue::Enum(decode_int(&r.value)))
    } else if t == TAG_BOOLEAN && r.value.len() == 1 && r.value[0] <= 1 {
        Some(AttributeValue::Boolean(r.value[0] == 1))
    } else if t == TAG_TEXT {
        Some(AttributeValue::Text(copy_bytes(&r.value)))
    } else if t == TAG_NAME {
        Some(AttributeValue::Name(copy_bytes(&r.value)))
    } else if t == TAG_KEYWORD {
        Some(AttributeValue::Keyword(copy_bytes(&r.value)))
    } else if t == TAG_URI {
        Some(AttributeValue::Uri(copy_bytes(&r.value)))
    } else if t == TAG_CHARSET {
        Some(AttributeValue::Charset(copy_bytes(&r.value)))
    } else if t == TAG_NATURAL_LANGUAGE {
        Some(AttributeValue::NaturalLanguage(copy_bytes(&r.value)))
    } else if t == TAG_MIME_MEDIA_TYPE {
        Some(AttributeValue::MimeMediaType(copy_bytes(&r.value)))
    } else if other_tag(t) {
        Some(AttributeValue::Other(t, copy_bytes(&r.value)))
    } else if OUT_OF_BAND_FIRST <= t && t <= OUT_OF_BAND_LAST {
        Some(AttributeValue::OutOfBand(t))
    } else {
        None
    }
}

/// Reads one value that is not an array, from record `i`.
pub fn decode_value(ts: &Vec<WireRecord>, i: usize) -> (r: Result<(AttributeValue, usize), DecodeError>)
    ensures
        match parse_value(recs_of(ts@), i as int) {
            Some((v, j)) => r is Ok && r->Ok_0.0@ == v && r->Ok_0.1 == j,
            None => r is Err,
        },
    decreases ts@.len() - i, 1nat,
{
    if i >= ts.len() {
        return Err(DecodeError::MalformedMessage);
    }
    assert(recs_of(ts@)[i as int] == ts@[i as int]@);
    if ts[i].tag == TAG_BEGIN_COLLECTION {
        match decode_members(ts, i + 1) {
            Ok((ms, j)) => {
                if i < j && j < ts.len() && ts[j].tag == TAG_END_COLLECTION {
                    assert(recs_of(ts@)[j as int] == ts@[j as int]@);
                    Ok((AttributeValue::Collection(ms), j + 1))
                } else {
                    proof {
                        if j < ts.len() {
                            assert(recs_of(ts@)[j as int] == ts@[j as int]@);
                        }
                    }
                    Err(DecodeError::MalformedMessage)
                }
            },
            Err(e) => Err(e),
        }
    } else {
        match decode_scalar(&ts[i]) {
            Some(v) => Ok((v, i + 1)),
            None => Err(DecodeError::MalformedMessage),
        }
    }
}

/// Reads collection members from record `i` up to the closing marker.
pub fn decode_members(ts: &Vec<WireRecord>, i: usize) -> (r: Result<(Vec<IppAttribute>, usize), DecodeError>)
    ensures
        match parse_members(recs_of(ts@), i as int) {
            Some((ms, j)) => r is Ok && members_view(r->Ok_0.0@) == ms && r->Ok_0.1 == j,
            None => r is Err,
        },
    decreases ts@.len() - i, 0nat,
{
    let ghost t = recs_of(ts@);
    let mut out: Vec<IppAttribute> = Vec::new();
    let mut k: usize = i;
    assert(members_view(out@) =~= Seq::<(Seq<u8>, ValueModel)>::empty());
    assert(join_members(members_view(out@), parse_members(t, k as int)) =~= parse_members(t, i as int)) by {
        match parse_members(t, i as int) {
            Some((ms, j)) => { assert(Seq::<(Seq<u8>, ValueModel)>::empty() + ms =~= ms); },
            None => {},
        }
    }
    loop
        invariant
            i <= k,
            t == recs_of(ts@),
            parse_members(t, i as int) == join_members(members_view(out@), parse_members(t, k as int)),
        decreases ts@.len() - k,
    {
        if k >= ts.len() {
            return Err(DecodeError::MalformedMessage);
        }
        assert(t[k as int] == ts@[k as int]@);
        if ts[k].tag == TAG_END_COLLECTION {
            assert(members_view(out@) + Seq::<(Seq<u8>, ValueModel)>::empty() =~= members_view(out@));
            return Ok((out, k));
        }
        if ts[k].tag != TAG_MEMBER_NAME {
            return Err(DecodeError::MalformedMessage);
        }
        match decode_attr_value(ts, k + 1) {
            Ok((v, j)) => {
                if !(k < j && j <= ts.len()) {
                    return Err(DecodeError::MalformedMessage);
                }
                let ghost before = members_view(out@);
                let ghost prev = out@;
                let a = IppAttribute { name: copy_bytes(&ts[k].value), value: v };
                out.push(a);
                proof {
                    assert(out@.subrange(0, out@.len() - 1) =~= prev);
                    assert(members_view(out@) == before.push(a@));
                    match parse_members(t, j as int) {
                        Some((rest, m)) => {
                            assert(before + (seq![a@] + rest) =~= before.push(a@) + rest);
                        },
                        None => {},
                    }
                }
                k = j;
            },
            Err(e) => {
                return Err(e);
            },
        }
    }
}

/// Reads a value and the further values that continue it.
pub fn decode_attr_value(ts: &Vec<WireRecord>, i: usize) -> (r: Result<(AttributeValue, usize), DecodeError>)
    ensures
        match parse_attr_value(recs_of(ts@), i as int) {
            Some((v, j)) => r is Ok && r->Ok_0.0@ == v && r->Ok_0.1 == j,
            None => r is Err,
        },
    decreases ts@.len() - i, 3nat,
{
    match decode_value(ts, i) {
        Ok((v, j)) => {
            if !(i < j && j <= ts.len()) {
                return Err(DecodeError::MalformedMessage);
            }
            match decode_more(ts, j) {
                Ok((mut vs, k)) => {
                    if vs.len() == 0 {
                        proof { lemma_values_view(vs@); }
                        Ok((v, k))
                    } else {
                        let ghost tail = vs@;
                        let ghost vv = v@;
                        let mut arr: Vec<AttributeValue> = Vec::new();
                        arr.push(v);
                        arr.append(&mut vs);
                        proof {
                            lemma_values_view(arr@);
                            lemma_values_view(tail);
                            assert(values_view(arr@) =~= seq![vv] + values_view(tail)) by {
                                assert forall|m: int| 0 <= m < arr@.len() implies #[trigger] values_view(arr@)[m]
                                    == (seq![vv] + values_view(tail))[m] by {
                                    if m > 0 {
                                        assert(arr@[m] == tail[m - 1]);
                                    }
                                }
                            }
                        }
                        Ok((AttributeValue::Array(arr), k))
                    }
                },
                Err(e) => Err(e),
            }
        },
        Err(e) => Err(e),
    }
}

/// Reads the further values of an array from record `i`.
pub fn decode_more(ts: &Vec<WireRecord>, i: usize) -> (r: Result<(Vec<AttributeValue>, usize), DecodeError>)
    ensures
        match parse_more(recs_of(ts@), i as int) {
            Some((vs, j)) => r is Ok && values_view(r->Ok_0.0@) == vs && r->Ok_0.1 == j,
            None => r is Err,
        },
    decreases ts@.len() - i, 2nat,
{
    let ghost t = recs_of(ts@);
    let mut out: Vec<AttributeValue> = Vec::new();
    let mut k: usize = i;
    assert(values_view(out@) =~= Seq::<ValueModel>::empty());
    assert(join_values(values_view(out@), parse_more(t, k as int)) =~= parse_more(t, i as int)) by {
        match parse_more(t, i as int) {
            Some((vs, j)) => { assert(Seq::<ValueModel>::empty() + vs =~= vs); },
            None => {},
        }
    }
    loop
        invariant
            i <= k,
            t == recs_of(ts@),
            parse_more(t, i as int) == join_values(values_view(out@), parse_more(t, k as int)),
        decreases ts@.len() - k,
    {
        if k < ts.len() {
            assert(t[k as int] == ts@[k as int]@);
        }
        if !(k < ts.len() && ts[k].tag >= FIRST_VALUE_TAG && ts[k].tag != TAG_END_COLLECTION
            && ts[k].tag != TAG_MEMBER_NAME && ts[k].name.len() == 0) {
            assert(values_view(out@) + Seq::<ValueModel>::empty() =~= values_view(out@));
            return Ok((out, k));
        }
        match decode_value(ts, k) {
            Ok((v, j)) => {
                if !(k < j && j <= ts.len()) {
                    return Err(DecodeError::MalformedMessage);
                }
                let ghost before = values_view(out@);
                let ghost vv = v@;
                let ghost prev = out@;
                out.push(v);
                proof {
                    assert(out@.subrange(0, out@.len() - 1) =~= prev);
                    assert(values_view(out@) == before.push(vv));
                    match parse_more(t, j as int) {
                        Some((rest, m)) => {
                            assert(before + (seq![vv] + rest) =~= before.push(vv) + rest);
                        },
                        None => {},
                    }
                }
                k = j;
            },
            Err(e) => {
                return Err(e);
            },
        }
    }
}

/// Reads the attributes of a group from record `i`.
pub fn decode_attrs(ts: &Vec<WireRecord>, i: usize) -> (r: Result<(Vec<IppAttribute>, usize), DecodeError>)
    ensures
        match parse_attrs(recs_of(ts@), i as int) {
            Some((as_, j)) => r is Ok && members_view(r->Ok_0.0@) == as_ && r->Ok_0.1 == j,
            None => r is Err,
        },
{
    let ghost t = recs_of(ts@);
    let mut out: Vec<IppAttribute> = Vec::new();
    let mut k: usize = i;
    assert(members_view(out@) =~= Seq::<(Seq<u8>, ValueModel)>::empty());
    assert(join_members(members_view(out@), parse_attrs(t, k as int)) =~= parse_attrs(t, i as int)) by {
        match parse_attrs(t, i as int) {
            Some((ms, j)) => { assert(Seq::<(Seq<u8>, ValueModel)>::empty() + ms =~= ms); },
            None => {},
        }
    }
    loop
        invariant
            i <= k,
            t == recs_of(ts@),
            parse_attrs(t, i as int) == join_members(members_view(out@), parse_attrs(t, k as int)),
        decreases ts@.len() - k,
    {
        if k < ts.len() {
            assert(t[k as int] == ts@[k as int]@);
        }
        if !(k < ts.len() && ts[k].tag >= FIRST_VALUE_TAG && ts[k].tag != TAG_END_COLLECTION
            && ts[k].tag != TAG_MEMBER_NAME && ts[k].name.len() > 0) {
            assert(members_view(out@) + Seq::<(Seq<u8>, ValueModel)>::empty() =~= members_view(out@));
            return Ok((out, k));
        }
        match decode_attr_value(ts, k) {
            Ok((v, j)) => {
                if !(k < j && j <= ts.len()) {
                    return Err(DecodeError::MalformedMessage);
                }
                let ghost before = members_view(out@);
                let ghost prev = out@;
                let a = IppAttribute { name: copy_bytes(&ts[k].name), value: v };
                out.push(a);
                proof {
                    assert(out@.subrange(0, out@.len() - 1) =~= prev);
                    assert(members_view(out@) == before.push(a@));
                    match parse_attrs(t, j as int) {
                        Some((rest, m)) => {
                            assert(before + (seq![a@] + rest) =~= before.push(a@) + rest);
                        },
                        None => {},
                    }
                }
                k = j;
            },
            Err(e) => {
                return Err(e);
            },
        }
    }
}

/// Appends the records of a group's attributes.
pub fn encode_attrs(attrs: &Vec<IppAttribute>, out: &mut Vec<WireRecord>)
    ensures
        recs_of(final(out)@) == recs_of(old(out)@) + attrs_recs(members_view(attrs@)),
{
    let ghost start = recs_of(out@);
    let mut k: usize = 0;
    assert(members_view(attrs@.take(0)) =~= Seq::<(Seq<u8>, ValueModel)>::empty());
    assert(start + attrs_recs(Seq::<(Seq<u8>, ValueModel)>::empty()) =~= start);
    while k < attrs.len()
        invariant
            k <= attrs@.len(),
            recs_of(out@) == start + attrs_recs(members_view(attrs@.take(k as int))),
        decreases attrs@.len() - k,
    {
        encode_value(&attrs[k].name, &attrs[k].value, out);
        proof {
            let x = attrs@[k as int]@;
            assert(attrs@.take(k + 1).subrange(0, k as int) =~= attrs@.take(k as int));
            assert(members_view(attrs@.take(k + 1)) == members_view(attrs@.take(k as int)).push(x));
            lemma_attrs_recs_push(members_view(attrs@.take(k as int)), x);
            assert(recs_of(out@) =~= start + attrs_recs(members_view(attrs@.take(k + 1))));
        }
        k = k + 1;
    }
    assert(attrs@.take(k as int) =~= attrs@);
}

proof fn lemma_members_wf_all(ms: Seq<(Seq<u8>, ValueModel)>)
    ensures
        members_wf(ms) <==> forall|k: int|
            0 <= k < ms.len() ==> (#[trigger] ms[k]).0.len() <= MAX_FIELD_LEN && value_wf(ms[k].1),
    decreases ms.len(),
{
    if ms.len() > 0 {
        lemma_members_wf_all(ms.skip(1));
        assert forall|k: int| 0 < k < ms.len() implies #[trigger] ms[k] == ms.skip(1)[k - 1] by {}
        if forall|k: int| 0 <= k < ms.len() ==> (#[trigger] ms[k]).0.len() <= MAX_FIELD_LEN && value_wf(ms[k].1) {
            assert forall|k: int| 0 <= k < ms.skip(1).len() implies (#[trigger] ms.skip(1)[k]).0.len()
                <= MAX_FIELD_LEN && value_wf(ms.skip(1)[k].1) by {
                assert(ms.skip(1)[k] == ms[k + 1]);
            }
        }
    }
}

proof fn lemma_elems_wf_all(vs: Seq<ValueModel>)
    ensures
        elems_wf(vs) <==> forall|k: int| 0 <= k < vs.len() ==> !((#[trigger] vs[k]) is Array) && value_wf(vs[k]),
    decreases vs.len(),
{
    if vs.len() > 0 {
        lemma_elems_wf_all(vs.skip(1));
        assert forall|k: int| 0 < k < vs.len() implies #[trigger] vs[k] == vs.skip(1)[k - 1] by {}
        if forall|k: int| 0 <= k < vs.len() ==> !((#[trigger] vs[k]) is Array) && value_wf(vs[k]) {
            assert forall|k: int| 0 <= k < vs.skip(1).len() implies !((#[trigger] vs.skip(1)[k]) is Array)
                && value_wf(vs.skip(1)[k]) by {
                assert(vs.skip(1)[k] == vs[k + 1]);
            }
        }
    }
}

/// Whether a value is carried and read back unchanged.
pub fn value_is_wf(v: &AttributeValue) -> (r: bool)
    ensures
        r == value_wf(v@),
    decreases v,
{
    match v {
        AttributeValue::Text(s) | AttributeValue::Name(s) | AttributeValue::Keyword(s)
        | AttributeValue::Uri(s) | AttributeValue::Charset(s) | AttributeValue::NaturalLanguage(s)
        | AttributeValue::MimeMediaType(s) => s.len() <= MAX_FIELD_LEN,
        AttributeValue::Other(t, s) => {
            let known = other_tag(*t) || *t == TAG_TEXT || *t == TAG_NAME || *t == TAG_KEYWORD
                || *t == TAG_URI || *t == TAG_CHARSET || *t == TAG_NATURAL_LANGUAGE
                || *t == TAG_MIME_MEDIA_TYPE;
            known && s.len() <= MAX_FIELD_LEN
        },
        AttributeValue::OutOfBand(t) => OUT_OF_BAND_FIRST <= *t && *t <= OUT_OF_BAND_LAST,
        AttributeValue::Collection(ms) => {
            proof {
                lemma_members_view(ms@);
                lemma_members_wf_all(members_view(ms@));
            }
            let mut k: usize = 0;
            while k < ms.len()
                invariant
                    k <= ms@.len(),
                    *v == AttributeValue::Collection(*ms),
                    members_view(ms@).len() == ms@.len(),
                    forall|i: int| 0 <= i < ms@.len() ==> #[trigger] members_view(ms@)[i] == ms@[i]@,
                    forall|i: int| 0 <= i < k ==> (#[trigger] ms@[i]).name@.len() <= MAX_FIELD_LEN
                        && value_wf(ms@[i].value@),
                decreases ms@.len() - k,
            {
                proof {
                    assert(decreases_to!(*v => v->Collection_0));
                    assert(decreases_to!(v->Collection_0 => (*ms)@));
                    assert(decreases_to!((*ms)@ => (*ms)@[k as int]));
                    assert(decreases_to!((*ms)@[k as int] => (*ms)@[k as int].value));
                }
                if !(ms[k].name.len() <= MAX_FIELD_LEN && value_is_wf(&ms[k].value)) {
                    proof {
                        lemma_members_wf_all(members_view(ms@));
                        assert(members_view(ms@)[k as int] == ms@[k as int]@);
                    }
                    return false;
                }
                k = k + 1;
            }
            proof {
                lemma_members_wf_all(members_view(ms@));
                assert forall|i: int| 0 <= i < members_view(ms@).len() implies (
                #[trigger] members_view(ms@)[i]).0.len() <= MAX_FIELD_LEN && value_wf(members_view(ms@)[i].1) by {
                    assert(ms@[i].name@.len() <= MAX_FIELD_LEN);
                }
            }
            true
        },
        AttributeValue::Array(vs) => {
            proof {
                lemma_values_view(vs@);
                lemma_elems_wf_all(values_view(vs@));
            }
            if vs.len() < 2 {
                return false;
            }
            let mut k: usize = 0;
            while k < vs.len()
                invariant
                    k <= vs@.len(),
                    *v == AttributeValue::Array(*vs),
                    values_view(vs@).len() == vs@.len(),
                    forall|i: int| 0 <= i < vs@.len() ==> #[trigger] values_view(vs@)[i] == vs@[i]@,
                    forall|i: int| 0 <= i < k ==> !((#[trigger] vs@[i])@ is Array) && value_wf(vs@[i]@),
                decreases vs@.len() - k,
            {
                proof {
                    assert(decreases_to!(*v => v->Array_0));
                    assert(decreases_to!(v->Array_0 => (*vs)@));
                    assert(decreases_to!((*vs)@ => (*vs)@[k as int]));
                }
                let nested = match &vs[k] {
                    AttributeValue::Array(_) => true,
                    _ => false,
                };
                if nested || !value_is_wf(&vs[k]) {
                    proof {
                        lemma_elems_wf_all(values_view(vs@));
                        assert(values_view(vs@)[k as int] == vs@[k as int]@);
                    }
                    return false;
                }
                k = k + 1;
            }
            proof {
                lemma_elems_wf_all(values_view(vs@));
                assert forall|i: int| 0 <= i < values_view(vs@).len() implies !((
                #[trigger] values_view(vs@)[i]) is Array) && value_wf(values_view(vs@)[i]) by {
                    assert(!(vs@[i]@ is Array));
                }
            }
            true
        },
        _ => true,
    }
}

/// Whether a group's attributes are carried and read back unchanged.
pub fn attrs_are_wf(attrs: &Vec<IppAttribute>) -> (r: bool)
    ensures
        r == attrs_wf(members_view(attrs@)),
{
    proof {
        lemma_members_view(attrs@);
    }
    let mut k: usize = 0;
    while k < attrs.len()
        invariant
            k <= attrs@.len(),
            members_view(attrs@).len() == attrs@.len(),
            forall|i: int| 0 <= i < attrs@.len() ==> #[trigger] members_view(attrs@)[i] == attrs@[i]@,
            forall|i: int| 0 <= i < k ==> #[trigger] attr_wf(members_view(attrs@)[i]),
        decreases attrs@.len() - k,
    {
        let n = attrs[k].name.len();
        if !(0 < n && n <= MAX_FIELD_LEN && value_is_wf(&attrs[k].value)) {
            assert(members_view(attrs@)[k as int] == attrs@[k as int]@);
            assert(!attr_wf(members_view(attrs@)[k as int]));
            return false;
        }
        assert(attr_wf(members_view(attrs@)[k as int]));
        k = k + 1;
    }
    true
}

} // verus!
