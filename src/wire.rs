//! The flat layer of the IPP wire format: a message body is a run of
//! delimiter bytes and length-prefixed attribute records, closed by the
//! end-of-attributes tag.
use vstd::prelude::*;

verus! {

/// The end-of-attributes delimiter.
pub const END_OF_ATTRIBUTES: u8 = 0x03;

/// Tags below this value are group delimiters; tags at or above it start
/// an attribute record.
pub const FIRST_VALUE_TAG: u8 = 0x10;

/// Largest length that a two-byte length field can carry.
pub const MAX_FIELD_LEN: usize = 0xFFFF;

/// One record of the flat layer. A tag below `FIRST_VALUE_TAG` is a group
/// delimiter and carries no name or value.
#[derive(Debug, Clone)]
pub struct WireRecord {
    pub tag: u8,
    pub name: Vec<u8>,
    pub value: Vec<u8>,
}

/// The mathematical form of a record: tag, name bytes, value bytes.
pub type Rec = (u8, Seq<u8>, Seq<u8>);

impl View for WireRecord {
    type V = Rec;

    open spec fn view(&self) -> Rec {
        (self.tag, self.name@, self.value@)
    }
}

pub open spec fn recs_of(v: Seq<WireRecord>) -> Seq<Rec> {
    v.map_values(|r: WireRecord| r@)
}

/// Two-byte big-endian encoding of `n`.
pub open spec fn be16(n: nat) -> Seq<u8> {
    seq![(n / 256) as u8, (n % 256) as u8]
}

/// The number that two big-endian bytes carry.
pub open spec fn be16_value(hi: u8, lo: u8) -> nat {
    (hi as nat) * 256 + (lo as nat)
}

pub open spec fn is_delimiter(tag: u8) -> bool {
    tag < FIRST_VALUE_TAG
}

/// A record that the format can carry and read back unchanged.
pub open spec fn rec_wf(r: Rec) -> bool {
    if is_delimiter(r.0) {
        r.0 != END_OF_ATTRIBUTES && r.1.len() == 0 && r.2.len() == 0
    } else {
        r.1.len() <= MAX_FIELD_LEN && r.2.len() <= MAX_FIELD_LEN
    }
}

pub open spec fn recs_wf(rs: Seq<Rec>) -> bool {
    forall|i: int| 0 <= i < rs.len() ==> #[trigger] rec_wf(rs[i])
}

/// Bytes of one record: a delimiter is its tag alone; an attribute is
/// `tag, name-length, name, value-length, value`.
pub open spec fn rec_bytes(r: Rec) -> Seq<u8> {
    if is_delimiter(r.0) {
        seq![r.0]
    } else {
        seq![r.0] + be16(r.1.len()) + r.1 + be16(r.2.len()) + r.2
    }
}

/// Bytes of a run of records, without the closing tag.
pub open spec fn recs_bytes(rs: Seq<Rec>) -> Seq<u8>
    decreases rs.len(),
{
    if rs.len() == 0 {
        seq![]
    } else {
        rec_bytes(rs[0]) + recs_bytes(rs.skip(1))
    }
}

/// Length of the attribute record at the start of `s`, when all of it is
/// there; both length fields are checked against what remains.
pub open spec fn attr_len(s: Seq<u8>) -> Option<nat> {
    if s.len() < 3 {
        None
    } else {
        let nl = be16_value(s[1], s[2]) as int;
        if s.len() < 5 + nl {
            None
        } else {
            let vl = be16_value(s[3 + nl], s[4 + nl]) as int;
            if s.len() < 5 + nl + vl {
                None
            } else {
                Some((5 + nl + vl) as nat)
            }
        }
    }
}

/// The attribute record at the start of `s`, once `attr_len(s)` is known.
pub open spec fn attr_rec(s: Seq<u8>) -> Rec {
    let nl = be16_value(s[1], s[2]) as int;
    let vl = be16_value(s[3 + nl], s[4 + nl]) as int;
    (s[0], s.subrange(3, 3 + nl), s.subrange(5 + nl, 5 + nl + vl))
}

pub open spec fn prepend(
    pre: Seq<Rec>,
    r: Option<(Seq<Rec>, Seq<u8>)>,
) -> Option<(Seq<Rec>, Seq<u8>)> {
    match r {
        Some((rs, body)) => Some((pre + rs, body)),
        None => None,
    }
}

/// Reads records up to the end-of-attributes tag; gives the records and the
/// bytes after that tag (the document body). `None` when the bytes run out
/// first, or a length field claims more bytes than remain.
pub open spec fn parse_recs(s: Seq<u8>) -> Option<(Seq<Rec>, Seq<u8>)>
    decreases s.len(),
{
    if s.len() == 0 {
        None
    } else if s[0] == END_OF_ATTRIBUTES {
        Some((seq![], s.skip(1)))
    } else if is_delimiter(s[0]) {
        prepend(seq![(s[0], Seq::<u8>::empty(), Seq::<u8>::empty())], parse_recs(s.skip(1)))
    } else {
        match attr_len(s) {
            Some(n) => prepend(seq![attr_rec(s)], parse_recs(s.skip(n as int))),
            None => None,
        }
    }
}

/// The errors of decoding.
#[derive(Debug, Clone, Copy, PartialEq, Eq, Structural)]
pub enum DecodeError {
    /// The bytes do not form a message: a length runs past the end, a tag is
    /// not known, or the header is missing.
    MalformedMessage,
}

proof fn lemma_be16(n: nat)
    requires
        n <= 0xFFFF,
    ensures
        be16_value(be16(n)[0], be16(n)[1]) == n,
{
}

proof fn lemma_rec_read(r: Rec, rest: Seq<u8>)
    requires
        rec_wf(r),
        !is_delimiter(r.0),
    ensures
        attr_len(rec_bytes(r) + rest) == Some(rec_bytes(r).len()),
        attr_rec(rec_bytes(r) + rest) == r,
        (rec_bytes(r) + rest).skip(rec_bytes(r).len() as int) == rest,
{
    let s = rec_bytes(r) + rest;
    let nl = r.1.len() as int;
    let vl = r.2.len() as int;
    lemma_be16(nl as nat);
    lemma_be16(vl as nat);
    assert(s[1] == be16(nl as nat)[0]);
    assert(s[2] == be16(nl as nat)[1]);
    assert(s[3 + nl] == be16(vl as nat)[0]);
    assert(s[4 + nl] == be16(vl as nat)[1]);
    assert(s.subrange(3, 3 + nl) =~= r.1);
    assert(s.subrange(5 + nl, 5 + nl + vl) =~= r.2);
    assert(s.skip(rec_bytes(r).len() as int) =~= rest);
}

/// Reading back the bytes of well-formed records, closed by the
/// end-of-attributes tag, gives those records and whatever followed.
pub proof fn lemma_recs_round_trip(rs: Seq<Rec>, body: Seq<u8>)
    requires
        recs_wf(rs),
    ensures
        parse_recs(recs_bytes(rs) + seq![END_OF_ATTRIBUTES] + body) == Some((rs, body)),
    decreases rs.len(),
{
    let s = recs_bytes(rs) + seq![END_OF_ATTRIBUTES] + body;
    if rs.len() == 0 {
        assert(s =~= seq![END_OF_ATTRIBUTES] + body);
        assert(s.skip(1) =~= body);
    } else {
        let r = rs[0];
        assert(rec_wf(r));
        let rest = recs_bytes(rs.skip(1)) + seq![END_OF_ATTRIBUTES] + body;
        assert(recs_wf(rs.skip(1))) by {
            assert forall|i: int| 0 <= i < rs.skip(1).len() implies #[trigger] rec_wf(
                rs.skip(1)[i],
            ) by {
                assert(rs.skip(1)[i] == rs[i + 1]);
                assert(rec_wf(rs[i + 1]));
            }
        }
        lemma_recs_round_trip(rs.skip(1), body);
        assert(s =~= rec_bytes(r) + rest);
        assert(seq![r] + rs.skip(1) =~= rs);
        if is_delimiter(r.0) {
            assert(r.1 =~= Seq::<u8>::empty());
            assert(r.2 =~= Seq::<u8>::empty());
            assert(s.skip(1) =~= rest);
        } else {
            lemma_rec_read(r, rest);
        }
    }
}

proof fn lemma_recs_bytes_push(rs: Seq<Rec>, r: Rec)
    ensures
        recs_bytes(rs.push(r)) == recs_bytes(rs) + rec_bytes(r),
    decreases rs.len(),
{
    if rs.len() == 0 {
        assert(rs.push(r).skip(1) =~= Seq::<Rec>::empty());
        assert(rs.push(r)[0] == r);
        assert(recs_bytes(rs.push(r).skip(1)) == Seq::<u8>::empty());
        assert(recs_bytes(rs) == Seq::<u8>::empty());
        assert(recs_bytes(rs.push(r)) =~= recs_bytes(rs) + rec_bytes(r));
    } else {
        assert(rs.push(r).skip(1) =~= rs.skip(1).push(r));
        lemma_recs_bytes_push(rs.skip(1), r);
        assert(rs.push(r)[0] == rs[0]);
        assert(rec_bytes(rs[0]) + (recs_bytes(rs.skip(1)) + rec_bytes(r)) =~= (rec_bytes(rs[0])
            + recs_bytes(rs.skip(1))) + rec_bytes(r));
    }
}

/// Appends the two-byte big-endian form of `n`.
pub fn push_be16(out: &mut Vec<u8>, n: usize)
    requires
        n <= MAX_FIELD_LEN,
    ensures
        final(out)@ == old(out)@ + be16(n as nat),
{
    out.push((n / 256) as u8);
    out.push((n % 256) as u8);
    assert(final(out)@ =~= old(out)@ + be16(n as nat));
}

/// Appends all of `src`.
pub fn push_bytes(out: &mut Vec<u8>, src: &[u8])
    ensures
        final(out)@ == old(out)@ + src@,
{
    let ghost start = out@;
    let mut i: usize = 0;
    while i < src.len()
        invariant
            i <= src@.len(),
            out@ == start + src@.take(i as int),
        decreases src@.len() - i,
    {
        out.push(src[i]);
        i = i + 1;
        assert(out@ =~= start + src@.take(i as int));
    }
    assert(src@.take(i as int) =~= src@);
}

/// Copies `buf[from..to]`.
pub fn copy_range(buf: &[u8], from: usize, to: usize) -> (r: Vec<u8>)
    requires
        from <= to <= buf@.len(),
    ensures
        r@ == buf@.subrange(from as int, to as int),
{
    let mut r: Vec<u8> = Vec::new();
    let mut i: usize = from;
    while i < to
        invariant
            from <= i <= to,
            to <= buf@.len(),
            r@ == buf@.subrange(from as int, i as int),
        decreases to - i,
    {
        r.push(buf[i]);
        i = i + 1;
        assert(r@ =~= buf@.subrange(from as int, i as int));
    }
    r
}

/// Appends the bytes of one record.
pub fn encode_rec(rec: &WireRecord, out: &mut Vec<u8>)
    requires
        rec_wf(rec@),
    ensures
        final(out)@ == old(out)@ + rec_bytes(rec@),
{
    let ghost start = out@;
    out.push(rec.tag);
    if rec.tag >= FIRST_VALUE_TAG {
        push_be16(out, rec.name.len());
        push_bytes(out, rec.name.as_slice());
        push_be16(out, rec.value.len());
        push_bytes(out, rec.value.as_slice());
    }
    assert(out@ =~= start + rec_bytes(rec@));
}

/// Appends the bytes of a run of records (without the closing tag).
pub fn encode_recs(recs: &Vec<WireRecord>, out: &mut Vec<u8>)
    requires
        recs_wf(recs_of(recs@)),
    ensures
        final(out)@ == old(out)@ + recs_bytes(recs_of(recs@)),
{
    let ghost start = out@;
    let ghost rs = recs_of(recs@);
    let mut i: usize = 0;
    while i < recs.len()
        invariant
            i <= recs@.len(),
            rs == recs_of(recs@),
            recs_wf(rs),
            out@ == start + recs_bytes(rs.take(i as int)),
        decreases recs@.len() - i,
    {
        assert(rs[i as int] == recs@[i as int]@);
        assert(rec_wf(rs[i as int]));
        encode_rec(&recs[i], out);
        proof {
            lemma_recs_bytes_push(rs.take(i as int), rs[i as int]);
            assert(rs.take(i as int).push(rs[i as int]) =~= rs.take(i + 1));
        }
        i = i + 1;
    }
    assert(rs.take(i as int) =~= rs);
}

/// Reads a two-byte big-endian number at `i`.
pub fn read_be16(buf: &[u8], i: usize) -> (r: usize)
    requires
        i + 1 < buf@.len(),
    ensures
        r == be16_value(buf@[i as int], buf@[i + 1]),
{
    (buf[i] as usize) * 256 + (buf[i + 1] as usize)
}

/// Reads records from `start` up to and including the end-of-attributes
/// tag. On success gives the records and the index where the body begins.
/// Fails exactly when `parse_recs` does: no closing tag, or a length field
/// that runs past the end of `buf`.
pub fn decode_recs(buf: &[u8], start: usize) -> (r: Result<(Vec<WireRecord>, usize), DecodeError>)
    requires
        start <= buf@.len(),
    ensures
        match parse_recs(buf@.skip(start as int)) {
            Some((rs, body)) => r is Ok && recs_of(r->Ok_0.0@) == rs && r->Ok_0.1
                <= buf@.len() && buf@.skip(r->Ok_0.1 as int) == body,
            None => r == Err::<(Vec<WireRecord>, usize), DecodeError>(
                DecodeError::MalformedMessage,
            ),
        },
{
    let mut out: Vec<WireRecord> = Vec::new();
    let mut pos: usize = start;
    let ghost whole = buf@.skip(start as int);
    loop
        invariant
            start <= pos <= buf@.len(),
            whole == buf@.skip(start as int),
            parse_recs(whole) == prepend(recs_of(out@), parse_recs(buf@.skip(pos as int))),
        decreases buf@.len() - pos,
    {
        let ghost s = buf@.skip(pos as int);
        let ghost done = recs_of(out@);
        if pos >= buf.len() {
            return Err(DecodeError::MalformedMessage);
        }
        let tag = buf[pos];
        if tag == END_OF_ATTRIBUTES {
            proof {
                assert(s.skip(1) =~= buf@.skip(pos + 1));
                assert(done + Seq::<Rec>::empty() =~= done);
            }
            return Ok((out, pos + 1));
        }
        if tag < FIRST_VALUE_TAG {
            let rec = WireRecord { tag, name: Vec::new(), value: Vec::new() };
            out.push(rec);
            proof {
                assert(s.skip(1) =~= buf@.skip(pos + 1));
                assert(recs_of(out@) =~= done + seq![rec@]);
                assert(rec@ == (tag, Seq::<u8>::empty(), Seq::<u8>::empty()));
                match parse_recs(s.skip(1)) {
                    Some((rs, b)) => {
                        assert(done + (seq![rec@] + rs) =~= recs_of(out@) + rs);
                    },
                    None => {},
                }
            }
            pos = pos + 1;
        } else {
            if buf.len() - pos < 3 {
                return Err(DecodeError::MalformedMessage);
            }
            let nl = read_be16(buf, pos + 1);
            assert(s[1] == buf@[pos + 1] && s[2] == buf@[pos + 2]);
            if buf.len() - pos < 5 + nl {
                return Err(DecodeError::MalformedMessage);
            }
            let vl = read_be16(buf, pos + 3 + nl);
            assert(s[3 + nl] == buf@[pos + 3 + nl] && s[4 + nl] == buf@[pos + 4 + nl]);
            if buf.len() - pos < 5 + nl + vl {
                return Err(DecodeError::MalformedMessage);
            }
            let name = copy_range(buf, pos + 3, pos + 3 + nl);
            let value = copy_range(buf, pos + 5 + nl, pos + 5 + nl + vl);
            let rec = WireRecord { tag, name, value };
            out.push(rec);
            let n = 5 + nl + vl;
            proof {
                assert(attr_len(s) == Some(n as nat));
                assert(name@ =~= s.subrange(3, 3 + nl));
                assert(value@ =~= s.subrange(5 + nl as int, 5 + nl + vl));
                assert(attr_rec(s) == rec@);
                assert(s.skip(n as int) =~= buf@.skip(pos + n));
                assert(recs_of(out@) =~= done + seq![rec@]);
                match parse_recs(s.skip(n as int)) {
                    Some((rs, b)) => {
                        assert(done + (seq![rec@] + rs) =~= recs_of(out@) + rs);
                    },
                    None => {},
                }
            }
            pos = pos + n;
        }
    }
}

/// Every strict prefix of the bytes of well-formed records and their closing
/// tag is refused: the cut falls inside a record, whose length fields then
/// claim more than remains, or before the closing tag.
pub proof fn lemma_truncated_recs(rs: Seq<Rec>, n: int)
    requires
        recs_wf(rs),
        0 <= n < recs_bytes(rs).len() + 1,
    ensures
        parse_recs((recs_bytes(rs) + seq![END_OF_ATTRIBUTES]).take(n)) is None,
    decreases rs.len(),
{
    let all = recs_bytes(rs) + seq![END_OF_ATTRIBUTES];
    let p = all.take(n);
    if rs.len() == 0 {
        assert(p.len() == 0);
    } else {
        let r = rs[0];
        assert(rec_wf(r));
        let rb = rec_bytes(r);
        let rest = recs_bytes(rs.skip(1)) + seq![END_OF_ATTRIBUTES];
        assert(all =~= rb + rest);
        assert(recs_wf(rs.skip(1))) by {
            assert forall|i: int| 0 <= i < rs.skip(1).len() implies #[trigger] rec_wf(
                rs.skip(1)[i],
            ) by {
                assert(rs.skip(1)[i] == rs[i + 1]);
                assert(rec_wf(rs[i + 1]));
            }
        }
        if n < rb.len() {
            if n > 0 && !is_delimiter(r.0) {
                assert(p[0] == r.0);
                if n >= 3 {
                    let nl = r.1.len() as int;
                    lemma_be16(nl as nat);
                    assert(p[1] == be16(nl as nat)[0] && p[2] == be16(nl as nat)[1]);
                    if n >= 5 + nl {
                        let vl = r.2.len() as int;
                        lemma_be16(vl as nat);
                        assert(p[3 + nl] == be16(vl as nat)[0] && p[4 + nl] == be16(vl as nat)[1]);
                    }
                }
                assert(attr_len(p) is None);
            }
        } else {
            let q = rest.take(n - rb.len());
            assert(p =~= rb + q);
            lemma_truncated_recs(rs.skip(1), n - rb.len());
            if is_delimiter(r.0) {
                assert(p[0] == r.0);
                assert(p.skip(1) =~= q);
            } else {
                lemma_rec_read(r, q);
            }
        }
    }
}

} // verus!
