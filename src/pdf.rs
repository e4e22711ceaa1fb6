//! A single-pass writer for a graph of document objects: header, each
//! object in id order, the cross-reference table and the trailer.
use vstd::prelude::*;
use crate::text::{dec, digits_value, fixed_text, int_text, lemma_pad_value, pad, pow10, push_dec, push_fixed, push_int, push_pad};
use crate::wire::push_bytes;

verus! {

/// A direct value inside a dictionary. Fixed numbers are in thousandths.
#[derive(Debug)]
pub enum PdfValue {
    Integer(i64),
    Fixed(i64),
    Name(Vec<u8>),
    Reference(u32),
    FixedArray(Vec<i64>),
    ReferenceArray(Vec<u32>),
}

/// A dictionary entry: `/key value`.
#[derive(Debug)]
pub struct PdfEntry {
    pub key: Vec<u8>,
    pub value: PdfValue,
}

/// An indirect object; the object at index `i` of a graph has id `i + 1`,
/// and id 1 is the catalog.
#[derive(Debug)]
pub enum PdfObject {
    Dictionary(Vec<PdfEntry>),
    /// A dictionary and raw data; `/Length` is added from the data.
    Stream(Vec<PdfEntry>, Vec<u8>),
}

#[derive(Debug, Clone, Copy, PartialEq, Eq, Structural)]
pub enum PdfError {
    /// A reference names no object of the graph, or the graph is empty.
    GraphIncomplete,
    /// The cross-reference table would start at or past ten decimal digits
    /// of offset, which its entries cannot write.
    TooLarge,
}

/// The bytes of `"%PDF-1.4\n"`.
pub open spec fn lit_header() -> Seq<u8> {
    seq![37u8, 80, 68, 70, 45, 49, 46, 52, 10]
}

/// The bytes of `" 0 obj\n"`.
pub open spec fn lit_obj_open() -> Seq<u8> {
    seq![32u8, 48, 32, 111, 98, 106, 10]
}

/// The bytes of `"\nendobj\n"`.
pub open spec fn lit_obj_close() -> Seq<u8> {
    seq![10u8, 101, 110, 100, 111, 98, 106, 10]
}

/// The bytes of `" 0 R"`.
pub open spec fn lit_ref() -> Seq<u8> {
    seq![32u8, 48, 32, 82]
}

/// The bytes of `"\nstream\n"`.
pub open spec fn lit_stream_open() -> Seq<u8> {
    seq![10u8, 115, 116, 114, 101, 97, 109, 10]
}

/// The bytes of `"\nendstream"`.
pub open spec fn lit_stream_close() -> Seq<u8> {
    seq![10u8, 101, 110, 100, 115, 116, 114, 101, 97, 109]
}

/// The bytes of `" /Length "`.
pub open spec fn lit_length() -> Seq<u8> {
    seq![32u8, 47, 76, 101, 110, 103, 116, 104, 32]
}

/// The bytes of `"xref\n0 "`.
pub open spec fn lit_xref() -> Seq<u8> {
    seq![120u8, 114, 101, 102, 10, 48, 32]
}

/// The bytes of `"0000000000 65535 f\r\n"`.
pub open spec fn lit_free_entry() -> Seq<u8> {
    seq![48u8, 48, 48, 48, 48, 48, 48, 48, 48, 48, 32, 54, 53, 53, 51, 53, 32, 102, 13, 10]
}

/// The bytes of `" 00000 n\r\n"`.
pub open spec fn lit_entry_tail() -> Seq<u8> {
    seq![32u8, 48, 48, 48, 48, 48, 32, 110, 13, 10]
}

/// The bytes of `"trailer\n<< /Size "`.
pub open spec fn lit_trailer() -> Seq<u8> {
    seq![116u8, 114, 97, 105, 108, 101, 114, 10, 60, 60, 32, 47, 83, 105, 122, 101, 32]
}

/// The bytes of `" /Root 1 0 R >>\nstartxref\n"`.
pub open spec fn lit_root() -> Seq<u8> {
    seq![
        32u8, 47, 82, 111, 111, 116, 32, 49, 32, 48, 32, 82, 32, 62, 62, 10, 115, 116, 97, 114,
        116, 120, 114, 101, 102, 10,
    ]
}

/// The bytes of `"\n%%EOF\n"`.
pub open spec fn lit_eof() -> Seq<u8> {
    seq![10u8, 37, 37, 69, 79, 70, 10]
}

pub open spec fn fixed_items(xs: Seq<i64>) -> Seq<u8>
    decreases xs.len(),
{
    if xs.len() == 0 {
        seq![]
    } else {
        fixed_items(xs.drop_last()) + fixed_text(xs.last() as int) + seq![32u8]
    }
}

pub open spec fn ref_items(rs: Seq<u32>) -> Seq<u8>
    decreases rs.len(),
{
    if rs.len() == 0 {
        seq![]
    } else {
        ref_items(rs.drop_last()) + dec(rs.last() as nat) + lit_ref() + seq![32u8]
    }
}

pub open spec fn value_bytes(v: PdfValue) -> Seq<u8> {
    match v {
        PdfValue::Integer(n) => int_text(n as int),
        PdfValue::Fixed(n) => fixed_text(n as int),
        PdfValue::Name(s) => seq![47u8] + s@,
        PdfValue::Reference(r) => dec(r as nat) + lit_ref(),
        PdfValue::FixedArray(xs) => seq![91u8] + fixed_items(xs@) + seq![93u8],
        PdfValue::ReferenceArray(rs) => seq![91u8] + ref_items(rs@) + seq![93u8],
    }
}

pub open spec fn entries_bytes(es: Seq<PdfEntry>) -> Seq<u8>
    decreases es.len(),
{
    if es.len() == 0 {
        seq![]
    } else {
        entries_bytes(es.drop_last()) + seq![32u8, 47u8] + es.last().key@ + seq![32u8] + value_bytes(
            es.last().value,
        )
    }
}

/// The text of an object's body: `<< entries >>`, and for a stream the
/// `/Length` of its data, then the data between `stream` and `endstream`.
pub open spec fn body_bytes(o: PdfObject) -> Seq<u8> {
    match o {
        PdfObject::Dictionary(es) => seq![60u8, 60u8] + entries_bytes(es@) + seq![32u8, 62u8, 62u8],
        PdfObject::Stream(es, data) => seq![60u8, 60u8] + entries_bytes(es@) + lit_length() + dec(
            data@.len(),
        ) + seq![32u8, 62u8, 62u8] + lit_stream_open() + data@ + lit_stream_close(),
    }
}

/// `id 0 obj`, the body, `endobj`.
pub open spec fn obj_bytes(id: nat, o: PdfObject) -> Seq<u8> {
    dec(id) + lit_obj_open() + body_bytes(o) + lit_obj_close()
}

/// The objects one after another; the last of `os` has id `os.len()`.
pub open spec fn objs_bytes(os: Seq<PdfObject>) -> Seq<u8>
    decreases os.len(),
{
    if os.len() == 0 {
        seq![]
    } else {
        objs_bytes(os.drop_last()) + obj_bytes(os.len(), os.last())
    }
}

/// Where object `i` (id `i + 1`) starts.
pub open spec fn offset(os: Seq<PdfObject>, i: int) -> int {
    (lit_header().len() + objs_bytes(os.take(i)).len()) as int
}

/// The in-use entries of the first `n` objects, twenty bytes each.
pub open spec fn xref_entries(os: Seq<PdfObject>, n: nat) -> Seq<u8>
    decreases n,
{
    if n == 0 {
        seq![]
    } else {
        xref_entries(os, (n - 1) as nat) + pad(offset(os, n - 1) as nat, 10) + lit_entry_tail()
    }
}

pub open spec fn xref_head(os: Seq<PdfObject>) -> Seq<u8> {
    lit_xref() + dec(os.len() + 1) + seq![10u8] + lit_free_entry()
}

/// Where the cross-reference table starts.
pub open spec fn xref_at(os: Seq<PdfObject>) -> int {
    (lit_header().len() + objs_bytes(os).len()) as int
}

/// The whole document.
pub open spec fn pdf_bytes(os: Seq<PdfObject>) -> Seq<u8> {
    lit_header() + objs_bytes(os) + xref_head(os) + xref_entries(os, os.len()) + lit_trailer()
        + dec(os.len() + 1) + lit_root() + dec(xref_at(os) as nat) + lit_eof()
}

pub open spec fn value_refs_ok(v: PdfValue, n: nat) -> bool {
    match v {
        PdfValue::Reference(r) => 1 <= r <= n,
        PdfValue::ReferenceArray(rs) => forall|k: int| 0 <= k < rs@.len() ==> 1 <= #[trigger] rs@[k] <= n,
        _ => true,
    }
}

pub open spec fn entries_of(o: PdfObject) -> Seq<PdfEntry> {
    match o {
        PdfObject::Dictionary(es) => es@,
        PdfObject::Stream(es, _) => es@,
    }
}

/// Every reference names an object of the graph, and there is a catalog.
pub open spec fn graph_complete(os: Seq<PdfObject>) -> bool {
    os.len() >= 1 && forall|i: int, k: int|
        0 <= i < os.len() && 0 <= k < entries_of(os[i]).len() ==> value_refs_ok(
            #[trigger] entries_of(os[i])[k].value,
            os.len() as nat,
        )
}

fn check_value(v: &PdfValue, n: u64) -> (r: bool)
    ensures
        r == value_refs_ok(*v, n as nat),
{
    match v {
        PdfValue::Reference(r) => 1 <= *r && (*r as u64) <= n,
        PdfValue::ReferenceArray(rs) => {
            let mut k: usize = 0;
            while k < rs.len()
                invariant
                    k <= rs@.len(),
                    *v == PdfValue::ReferenceArray(*rs),
                    forall|j: int| 0 <= j < k ==> 1 <= #[trigger] rs@[j] <= n,
                decreases rs@.len() - k,
            {
                if !(1 <= rs[k] && (rs[k] as u64) <= n) {
                    assert(!(1 <= rs@[k as int] <= n));
                    assert(v->ReferenceArray_0@[k as int] == rs@[k as int]);
                    return false;
                }
                k = k + 1;
            }
            true
        },
        _ => true,
    }
}

/// Whether every reference of the graph names one of its objects.
pub fn check_graph(objs: &Vec<PdfObject>) -> (r: bool)
    ensures
        r == graph_complete(objs@),
{
    if objs.len() == 0 {
        return false;
    }
    let n = objs.len() as u64;
    let mut i: usize = 0;
    while i < objs.len()
        invariant
            i <= objs@.len(),
            n == objs@.len(),
            forall|a: int, k: int|
                0 <= a < i && 0 <= k < entries_of(objs@[a]).len() ==> value_refs_ok(
                    #[trigger] entries_of(objs@[a])[k].value,
                    n as nat,
                ),
        decreases objs@.len() - i,
    {
        let es = match &objs[i] {
            PdfObject::Dictionary(es) => es,
            PdfObject::Stream(es, _) => es,
        };
        assert(es@ == entries_of(objs@[i as int]));
        let mut k: usize = 0;
        while k < es.len()
            invariant
                k <= es@.len(),
                i < objs@.len(),
                n == objs@.len(),
                es@ == entries_of(objs@[i as int]),
                forall|a: int, j: int|
                    0 <= a < i && 0 <= j < entries_of(objs@[a]).len() ==> value_refs_ok(
                        #[trigger] entries_of(objs@[a])[j].value,
                        n as nat,
                    ),
                forall|j: int| 0 <= j < k ==> value_refs_ok(#[trigger] es@[j].value, n as nat),
            decreases es@.len() - k,
        {
            if !check_value(&es[k].value, n) {
                return false;
            }
            k = k + 1;
        }
        i = i + 1;
    }
    true
}

fn push_value(out: &mut Vec<u8>, v: &PdfValue)
    ensures
        final(out)@ == old(out)@ + value_bytes(*v),
{
    let ghost start = out@;
    match v {
        PdfValue::Integer(n) => push_int(out, *n),
        PdfValue::Fixed(n) => push_fixed(out, *n),
        PdfValue::Name(s) => {
            out.push(47u8);
            push_bytes(out, s.as_slice());
            assert(out@ =~= start + value_bytes(*v));
        },
        PdfValue::Reference(r) => {
            push_dec(out, *r as u64);
            push_bytes(out, vec![32u8, 48, 32, 82].as_slice());
            assert(out@ =~= start + value_bytes(*v));
        },
        PdfValue::FixedArray(xs) => {
            out.push(91u8);
            let ghost opened = out@;
            let mut k: usize = 0;
            while k < xs.len()
                invariant
                    k <= xs@.len(),
                    out@ == opened + fixed_items(xs@.take(k as int)),
                decreases xs@.len() - k,
            {
                push_fixed(out, xs[k]);
                out.push(32u8);
                assert(xs@.take(k + 1).drop_last() =~= xs@.take(k as int));
                assert(out@ =~= opened + fixed_items(xs@.take(k + 1)));
                k = k + 1;
            }
            out.push(93u8);
            assert(xs@.take(k as int) =~= xs@);
            assert(out@ =~= start + value_bytes(*v));
        },
        PdfValue::ReferenceArray(rs) => {
            out.push(91u8);
            let ghost opened = out@;
            let mut k: usize = 0;
            while k < rs.len()
                invariant
                    k <= rs@.len(),
                    out@ == opened + ref_items(rs@.take(k as int)),
                decreases rs@.len() - k,
            {
                push_dec(out, rs[k] as u64);
                push_bytes(out, vec![32u8, 48, 32, 82, 32].as_slice());
                assert(rs@.take(k + 1).drop_last() =~= rs@.take(k as int));
                assert(out@ =~= opened + ref_items(rs@.take(k + 1)));
                k = k + 1;
            }
            out.push(93u8);
            assert(rs@.take(k as int) =~= rs@);
            assert(out@ =~= start + value_bytes(*v));
        },
    }
}

fn push_entries(out: &mut Vec<u8>, es: &Vec<PdfEntry>)
    ensures
        final(out)@ == old(out)@ + entries_bytes(es@),
{
    let ghost start = out@;
    let mut k: usize = 0;
    assert(start + entries_bytes(es@.take(0)) =~= start);
    while k < es.len()
        invariant
            k <= es@.len(),
            out@ == start + entries_bytes(es@.take(k as int)),
        decreases es@.len() - k,
    {
        out.push(32u8);
        out.push(47u8);
        push_bytes(out, es[k].key.as_slice());
        out.push(32u8);
        push_value(out, &es[k].value);
        assert(es@.take(k + 1).drop_last() =~= es@.take(k as int));
        assert(out@ =~= start + entries_bytes(es@.take(k + 1)));
        k = k + 1;
    }
    assert(es@.take(k as int) =~= es@);
}

#[verifier::rlimit(40)]
fn push_object(out: &mut Vec<u8>, id: u64, o: &PdfObject)
    ensures
        final(out)@ == old(out)@ + obj_bytes(id as nat, *o),
{
    let ghost start = out@;
    push_dec(out, id);
    push_bytes(out, vec![32u8, 48, 32, 111, 98, 106, 10].as_slice());
    out.push(60u8);
    out.push(60u8);
    match o {
        PdfObject::Dictionary(es) => {
            push_entries(out, es);
        },
        PdfObject::Stream(es, data) => {
            push_entries(out, es);
            push_bytes(out, vec![32u8, 47, 76, 101, 110, 103, 116, 104, 32].as_slice());
            push_dec(out, data.len() as u64);
        },
    }
    out.push(32u8);
    out.push(62u8);
    out.push(62u8);
    match o {
        PdfObject::Stream(_, data) => {
            push_bytes(out, vec![10u8, 115, 116, 114, 101, 97, 109, 10].as_slice());
            push_bytes(out, data.as_slice());
            push_bytes(out, vec![10u8, 101, 110, 100, 115, 116, 114, 101, 97, 109].as_slice());
        },
        _ => {},
    }
    push_bytes(out, vec![10u8, 101, 110, 100, 111, 98, 106, 10].as_slice());
    assert(out@ =~= start + obj_bytes(id as nat, *o));
}

/// Largest offset that a ten-digit cross-reference entry can write, plus one.
pub const OFFSET_LIMIT: u64 = 10_000_000_000;

pub proof fn lemma_offset_limit()
    ensures
        pow10(10) == OFFSET_LIMIT,
{
    reveal_with_fuel(pow10, 11);
}

/// Writes the document: header, objects in id order, cross-reference
/// table, trailer. Fails with `GraphIncomplete` exactly when the graph is
/// empty or a reference names no object of it, and otherwise with
/// `TooLarge` exactly when the table would start at an offset of eleven
/// digits or more.
pub fn serialize(objs: &Vec<PdfObject>) -> (r: Result<Vec<u8>, PdfError>)
    requires
        objs@.len() < 0xFFFF_FFFF,
    ensures
        graph_complete(objs@) && xref_at(objs@) < pow10(10) ==> r is Ok && r->Ok_0@ == pdf_bytes(
            objs@,
        ),
        graph_complete(objs@) && xref_at(objs@) >= pow10(10) ==> r == Err::<Vec<u8>, PdfError>(
            PdfError::TooLarge,
        ),
        !graph_complete(objs@) ==> r == Err::<Vec<u8>, PdfError>(PdfError::GraphIncomplete),
{
    if !check_graph(objs) {
        return Err(PdfError::GraphIncomplete);
    }
    let ghost os = objs@;
    let mut out: Vec<u8> = vec![37u8, 80, 68, 70, 45, 49, 46, 52, 10];
    let mut offsets: Vec<u64> = Vec::new();
    let mut i: usize = 0;
    assert(objs_bytes(os.take(0)) =~= Seq::<u8>::empty());
    assert(out@ =~= lit_header() + objs_bytes(os.take(0)));
    while i < objs.len()
        invariant
            i <= os.len(),
            os == objs@,
            out@ == lit_header() + objs_bytes(os.take(i as int)),
            offsets@.len() == i,
            forall|k: int| 0 <= k < i ==> #[trigger] offsets@[k] == offset(os, k),
        decreases os.len() - i,
    {
        offsets.push(out.len() as u64);
        push_object(&mut out, (i + 1) as u64, &objs[i]);
        assert(os.take(i + 1).drop_last() =~= os.take(i as int));
        assert(os.take(i + 1).last() == os[i as int]);
        i = i + 1;
    }
    assert(os.take(i as int) =~= os);
    proof {
        lemma_offset_limit();
    }
    if out.len() as u64 >= OFFSET_LIMIT {
        return Err(PdfError::TooLarge);
    }
    let xref_pos = out.len() as u64;
    let n = objs.len() as u64;
    push_bytes(&mut out, vec![120u8, 114, 101, 102, 10, 48, 32].as_slice());
    push_dec(&mut out, n + 1);
    out.push(10u8);
    push_bytes(
        &mut out,
        vec![48u8, 48, 48, 48, 48, 48, 48, 48, 48, 48, 32, 54, 53, 53, 51, 53, 32, 102, 13, 10].as_slice(),
    );
    let ghost table = out@;
    assert(table =~= lit_header() + objs_bytes(os) + xref_head(os));
    let mut k: usize = 0;
    while k < offsets.len()
        invariant
            k <= offsets@.len(),
            offsets@.len() == os.len(),
            forall|j: int| 0 <= j < os.len() ==> #[trigger] offsets@[j] == offset(os, j),
            out@ == table + xref_entries(os, k as nat),
        decreases offsets@.len() - k,
    {
        push_pad(&mut out, offsets[k], 10);
        push_bytes(&mut out, vec![32u8, 48, 48, 48, 48, 48, 32, 110, 13, 10].as_slice());
        assert(out@ =~= table + xref_entries(os, (k + 1) as nat));
        k = k + 1;
    }
    push_bytes(
        &mut out,
        vec![116u8, 114, 97, 105, 108, 101, 114, 10, 60, 60, 32, 47, 83, 105, 122, 101, 32].as_slice(),
    );
    push_dec(&mut out, n + 1);
    push_bytes(
        &mut out,
        vec![
            32u8, 47, 82, 111, 111, 116, 32, 49, 32, 48, 32, 82, 32, 62, 62, 10, 115, 116, 97, 114,
            116, 120, 114, 101, 102, 10,
        ].as_slice(),
    );
    push_dec(&mut out, xref_pos);
    push_bytes(&mut out, vec![10u8, 37, 37, 69, 79, 70, 10].as_slice());
    assert(out@ =~= pdf_bytes(os));
    Ok(out)
}

proof fn lemma_objs_prefix(os: Seq<PdfObject>, j: int)
    requires
        0 <= j <= os.len(),
    ensures
        objs_bytes(os.take(j)).len() <= objs_bytes(os).len(),
        objs_bytes(os).subrange(0, objs_bytes(os.take(j)).len() as int) == objs_bytes(os.take(j)),
    decreases os.len(),
{
    if j == os.len() {
        assert(os.take(j) =~= os);
        assert(objs_bytes(os).subrange(0, objs_bytes(os).len() as int) =~= objs_bytes(os));
    } else {
        let d = os.drop_last();
        assert(d.take(j) =~= os.take(j));
        lemma_objs_prefix(d, j);
        let p = objs_bytes(os.take(j));
        assert(objs_bytes(os).subrange(0, p.len() as int) =~= objs_bytes(d).subrange(0, p.len() as int));
    }
}

proof fn lemma_pad_len(n: nat, w: nat)
    ensures
        pad(n, w).len() == w,
    decreases w,
{
    if w > 0 {
        lemma_pad_len(n / 10, (w - 1) as nat);
    }
}

proof fn lemma_entries_prefix(os: Seq<PdfObject>, k: nat, n: nat)
    requires
        k <= n,
    ensures
        xref_entries(os, k).len() == 20 * k,
        xref_entries(os, n).len() == 20 * n,
        xref_entries(os, n).subrange(0, 20 * k as int) == xref_entries(os, k),
    decreases n,
{
    if n == 0 {
        assert(xref_entries(os, n).subrange(0, 0) =~= xref_entries(os, k));
    } else {
        let m = (n - 1) as nat;
        lemma_pad_len(offset(os, m as int) as nat, 10);
        if k == n {
            lemma_entries_prefix(os, m, m);
            assert(xref_entries(os, n).subrange(0, 20 * k as int) =~= xref_entries(os, k));
        } else {
            lemma_entries_prefix(os, k, m);
            assert(xref_entries(os, n).subrange(0, 20 * k as int) =~= xref_entries(os, m).subrange(
                0,
                20 * k as int,
            ));
        }
    }
}

pub open spec fn after_objects(os: Seq<PdfObject>) -> Seq<u8> {
    xref_head(os) + xref_entries(os, os.len()) + after_entries(os)
}

pub open spec fn after_entries(os: Seq<PdfObject>) -> Seq<u8> {
    lit_trailer() + dec(os.len() + 1) + lit_root() + dec(xref_at(os) as nat) + lit_eof()
}

#[verifier::rlimit(60)]
proof fn lemma_obj_at(os: Seq<PdfObject>, i: int)
    requires
        0 <= i < os.len(),
    ensures
        ({
            let off = offset(os, i);
            let dl = dec((i + 1) as nat).len() as int;
            pdf_bytes(os).subrange(off, off + dl + 6) == dec((i + 1) as nat) + seq![
                32u8,
                48,
                32,
                111,
                98,
                106,
            ]
        }),
{
    let b = pdf_bytes(os);
    let h = lit_header();
    let o = objs_bytes(os);
    let a = objs_bytes(os.take(i));
    let bo = obj_bytes((i + 1) as nat, os[i]);
    assert(os.take(i + 1).drop_last() =~= os.take(i));
    assert(os.take(i + 1).last() == os[i]);
    assert(objs_bytes(os.take(i + 1)) == a + bo);
    lemma_objs_prefix(os, i + 1);
    let off = offset(os, i);
    let dl = dec((i + 1) as nat).len() as int;
    let want = dec((i + 1) as nat) + seq![32u8, 48, 32, 111, 98, 106];
    assert(b =~= h + o + after_objects(os));
    assert forall|t: int| 0 <= t < dl + 6 implies #[trigger] b.subrange(off, off + dl + 6)[t]
        == want[t] by {
        assert(b[off + t] == o[a.len() + t]);
        assert(o[a.len() + t] == (a + bo)[a.len() + t]);
        assert(bo[t] == want[t]);
    }
    assert(b.subrange(off, off + dl + 6) =~= want);
}

#[verifier::rlimit(60)]
proof fn lemma_entry_at(os: Seq<PdfObject>, i: int)
    requires
        0 <= i < os.len(),
    ensures
        ({
            let e = xref_at(os) + xref_head(os).len() + 20 * i;
            pdf_bytes(os).subrange(e, e + 10) == pad(offset(os, i) as nat, 10)
        }),
{
    let b = pdf_bytes(os);
    let x = xref_head(os);
    let es = xref_entries(os, os.len());
    let pre = lit_header() + objs_bytes(os) + x;
    assert(b =~= pre + es + after_entries(os));
    lemma_entries_prefix(os, (i + 1) as nat, os.len());
    lemma_entries_prefix(os, i as nat, i as nat);
    lemma_pad_len(offset(os, i) as nat, 10);
    let p = pad(offset(os, i) as nat, 10);
    let e = xref_at(os) + x.len() + 20 * i;
    assert(pre.len() == xref_at(os) + x.len());
    assert(xref_entries(os, (i + 1) as nat) == xref_entries(os, i as nat) + p + lit_entry_tail());
    assert forall|t: int| 0 <= t < 10 implies #[trigger] b.subrange(e, e + 10)[t] == p[t] by {
        assert(b[e + t] == es[20 * i + t]);
        assert(es[20 * i + t] == xref_entries(os, (i + 1) as nat)[20 * i + t]);
    }
    assert(b.subrange(e, e + 10) =~= p);
}

/// Each entry of the cross-reference table gives where its object starts:
/// read back as a number, entry `i` is the offset at which the document
/// holds `i + 1 0 obj`. The table entry has ten digits, so this holds of
/// documents whose table starts below that bound.
pub proof fn lemma_xref_offsets(os: Seq<PdfObject>, i: int)
    requires
        0 <= i < os.len(),
        xref_at(os) < pow10(10),
    ensures
        ({
            let b = pdf_bytes(os);
            let off = offset(os, i);
            let e = xref_at(os) + xref_head(os).len() + 20 * i;
            &&& b.subrange(off, off + dec((i + 1) as nat).len() + 6) == dec((i + 1) as nat) + seq![
                32u8,
                48,
                32,
                111,
                98,
                106,
            ]
            &&& digits_value(b.subrange(e, e + 10)) == off
        }),
{
    lemma_obj_at(os, i);
    lemma_entry_at(os, i);
    lemma_objs_prefix(os, i);
    lemma_pad_value(offset(os, i) as nat, 10);
}

} // verus!
