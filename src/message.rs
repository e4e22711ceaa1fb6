//! Attribute groups and whole messages: their byte form and how it is read.
use vstd::prelude::*;
use crate::attribute::{IppAttribute, ValueModel, members_view};
use crate::layout::{
    attrs_are_wf, attrs_recs, attrs_wf, decode_attrs, encode_attrs, lemma_attrs_recs_wf, lemma_parse_attrs, lemma_placed_split, parse_attrs,
    placed,
};
use crate::wire::{
    decode_recs, encode_recs, lemma_recs_round_trip, lemma_truncated_recs, parse_recs, push_bytes, rec_wf, recs_bytes,
    recs_of, recs_wf, DecodeError, Rec, WireRecord, END_OF_ATTRIBUTES,
};

verus! {

/// The delimiter that opens an attribute group.
#[derive(Debug, Clone, Copy, PartialEq, Eq, Structural)]
pub enum GroupTag {
    Operation,
    Job,
    Printer,
    Unsupported,
    Subscription,
    EventNotification,
    Resource,
    Document,
    System,
}

pub open spec fn group_tag_byte(g: GroupTag) -> u8 {
    match g {
        GroupTag::Operation => 0x01,
        GroupTag::Job => 0x02,
        GroupTag::Printer => 0x04,
        GroupTag::Unsupported => 0x05,
        GroupTag::Subscription => 0x06,
        GroupTag::EventNotification => 0x07,
        GroupTag::Resource => 0x08,
        GroupTag::Document => 0x09,
        GroupTag::System => 0x0A,
    }
}

pub open spec fn group_tag_of(b: u8) -> Option<GroupTag> {
    if b == 0x01 {
        Some(GroupTag::Operation)
    } else if b == 0x02 {
        Some(GroupTag::Job)
    } else if b == 0x04 {
        Some(GroupTag::Printer)
    } else if b == 0x05 {
        Some(GroupTag::Unsupported)
    } else if b == 0x06 {
        Some(GroupTag::Subscription)
    } else if b == 0x07 {
        Some(GroupTag::EventNotification)
    } else if b == 0x08 {
        Some(GroupTag::Resource)
    } else if b == 0x09 {
        Some(GroupTag::Document)
    } else if b == 0x0A {
        Some(GroupTag::System)
    } else {
        None
    }
}

impl GroupTag {
    /// The delimiter byte of this group.
    pub fn to_byte(&self) -> (r: u8)
        ensures
            r == group_tag_byte(*self),
            group_tag_of(r) == Some(*self),
    {
        match self {
            GroupTag::Operation => 0x01,
            GroupTag::Job => 0x02,
            GroupTag::Printer => 0x04,
            GroupTag::Unsupported => 0x05,
            GroupTag::Subscription => 0x06,
            GroupTag::EventNotification => 0x07,
            GroupTag::Resource => 0x08,
            GroupTag::Document => 0x09,
            GroupTag::System => 0x0A,
        }
    }

    /// The group that a delimiter byte opens, if it opens one.
    pub fn from_byte(b: u8) -> (r: Option<GroupTag>)
        ensures
            r == group_tag_of(b),
    {
        if b == 0x01 {
            Some(GroupTag::Operation)
        } else if b == 0x02 {
            Some(GroupTag::Job)
        } else if b == 0x04 {
            Some(GroupTag::Printer)
        } else if b == 0x05 {
            Some(GroupTag::Unsupported)
        } else if b == 0x06 {
            Some(GroupTag::Subscription)
        } else if b == 0x07 {
            Some(GroupTag::EventNotification)
        } else if b == 0x08 {
            Some(GroupTag::Resource)
        } else if b == 0x09 {
            Some(GroupTag::Document)
        } else if b == 0x0A {
            Some(GroupTag::System)
        } else {
            None
        }
    }
}

/// An attribute group: its delimiter and its attributes, in order.
#[derive(Debug)]
pub struct IppAttributeGroup {
    pub tag: GroupTag,
    pub attributes: Vec<IppAttribute>,
}

pub type GroupModel = (GroupTag, Seq<(Seq<u8>, ValueModel)>);

impl View for IppAttributeGroup {
    type V = GroupModel;

    open spec fn view(&self) -> GroupModel {
        (self.tag, members_view(self.attributes@))
    }
}

pub open spec fn groups_view(gs: Seq<IppAttributeGroup>) -> Seq<GroupModel> {
    gs.map_values(|g: IppAttributeGroup| g@)
}

/// A request or a response; the code is an operation in one and a status in
/// the other.
#[derive(Debug)]
pub struct IppMessage {
    pub version_major: u8,
    pub version_minor: u8,
    pub code: u16,
    pub request_id: u32,
    pub groups: Vec<IppAttributeGroup>,
}

pub struct MessageModel {
    pub version_major: u8,
    pub version_minor: u8,
    pub code: u16,
    pub request_id: u32,
    pub groups: Seq<GroupModel>,
}

impl View for IppMessage {
    type V = MessageModel;

    open spec fn view(&self) -> MessageModel {
        MessageModel {
            version_major: self.version_major,
            version_minor: self.version_minor,
            code: self.code,
            request_id: self.request_id,
            groups: groups_view(self.groups@),
        }
    }
}

pub open spec fn groups_wf(gs: Seq<GroupModel>) -> bool {
    forall|k: int| 0 <= k < gs.len() ==> attrs_wf(#[trigger] gs[k].1)
}

pub open spec fn delimiter_rec(g: GroupTag) -> Rec {
    (group_tag_byte(g), Seq::<u8>::empty(), Seq::<u8>::empty())
}

/// Records of the groups: each delimiter followed by its attributes.
pub open spec fn groups_recs(gs: Seq<GroupModel>) -> Seq<Rec>
    decreases gs.len(),
{
    if gs.len() == 0 {
        seq![]
    } else {
        seq![delimiter_rec(gs[0].0)] + attrs_recs(gs[0].1) + groups_recs(gs.skip(1))
    }
}

/// Reads groups from record `i` to the last record.
pub open spec fn parse_groups(ts: Seq<Rec>, i: int) -> Option<Seq<GroupModel>>
    decreases ts.len() - i,
{
    if i < 0 || i > ts.len() {
        None
    } else if i == ts.len() {
        Some(seq![])
    } else {
        match group_tag_of(ts[i].0) {
            Some(g) => if ts[i].1.len() == 0 && ts[i].2.len() == 0 {
                match parse_attrs(ts, i + 1) {
                    Some((as_, j)) => if i < j <= ts.len() {
                        match parse_groups(ts, j) {
                            Some(rest) => Some(seq![(g, as_)] + rest),
                            None => None,
                        }
                    } else {
                        None
                    },
                    None => None,
                }
            } else {
                None
            },
            None => None,
        }
    }
}

/// Four-byte big-endian form of `n`.
pub open spec fn be32(n: u32) -> Seq<u8> {
    seq![
        (n / 0x100_0000) as u8,
        ((n / 0x1_0000) % 0x100) as u8,
        ((n / 0x100) % 0x100) as u8,
        (n % 0x100) as u8,
    ]
}

pub open spec fn be32_value(b: Seq<u8>) -> u32 {
    (b[0] as int * 0x100_0000 + b[1] as int * 0x1_0000 + b[2] as int * 0x100 + b[3] as int) as u32
}

/// The eight header bytes: version, code, request id.
pub open spec fn header_bytes(m: MessageModel) -> Seq<u8> {
    seq![m.version_major, m.version_minor, (m.code / 256) as u8, (m.code % 256) as u8] + be32(
        m.request_id,
    )
}

/// The bytes of a message, up to and including the end-of-attributes tag.
pub open spec fn message_bytes(m: MessageModel) -> Seq<u8> {
    header_bytes(m) + recs_bytes(groups_recs(m.groups)) + seq![END_OF_ATTRIBUTES]
}

/// Reads a message and the body after it; `None` when the bytes are not one.
pub open spec fn parse_message(s: Seq<u8>) -> Option<(MessageModel, Seq<u8>)> {
    if s.len() < 8 {
        None
    } else {
        match parse_recs(s.skip(8)) {
            Some((rs, body)) => match parse_groups(rs, 0) {
                Some(gs) => Some(
                    (
                        MessageModel {
                            version_major: s[0],
                            version_minor: s[1],
                            code: (s[2] as int * 256 + s[3] as int) as u16,
                            request_id: be32_value(s.subrange(4, 8)),
                            groups: gs,
                        },
                        body,
                    ),
                ),
                None => None,
            },
            None => None,
        }
    }
}

proof fn lemma_parse_groups(ts: Seq<Rec>, i: int, gs: Seq<GroupModel>)
    requires
        groups_wf(gs),
        placed(ts, i, groups_recs(gs)),
        i + groups_recs(gs).len() == ts.len(),
    ensures
        parse_groups(ts, i) == Some(gs),
    decreases gs.len(),
{
    if gs.len() == 0 {
        assert(gs =~= Seq::<GroupModel>::empty());
    } else {
        let d = seq![delimiter_rec(gs[0].0)];
        let ar = attrs_recs(gs[0].1);
        let rest = groups_recs(gs.skip(1));
        lemma_placed_split(ts, i, d + ar, rest);
        lemma_placed_split(ts, i, d, ar);
        assert(attrs_wf(gs[0].1));
        assert(groups_wf(gs.skip(1))) by {
            assert forall|k: int| 0 <= k < gs.skip(1).len() implies attrs_wf(
                #[trigger] gs.skip(1)[k].1,
            ) by {
                assert(gs.skip(1)[k] == gs[k + 1]);
                assert(attrs_wf(gs[k + 1].1));
            }
        }
        let j = i + 1 + ar.len();
        if rest.len() > 0 {
            lemma_placed_split(ts, j, rest, Seq::<Rec>::empty());
        }
        lemma_parse_attrs(ts, i + 1, gs[0].1);
        lemma_parse_groups(ts, j, gs.skip(1));
        assert(seq![(gs[0].0, gs[0].1)] + gs.skip(1) =~= gs);
    }
}

proof fn lemma_groups_recs_wf(gs: Seq<GroupModel>)
    requires
        groups_wf(gs),
    ensures
        recs_wf(groups_recs(gs)),
    decreases gs.len(),
{
    if gs.len() > 0 {
        assert(attrs_wf(gs[0].1));
        assert(groups_wf(gs.skip(1))) by {
            assert forall|k: int| 0 <= k < gs.skip(1).len() implies attrs_wf(
                #[trigger] gs.skip(1)[k].1,
            ) by {
                assert(gs.skip(1)[k] == gs[k + 1]);
                assert(attrs_wf(gs[k + 1].1));
            }
        }
        lemma_attrs_recs_wf(gs[0].1);
        lemma_groups_recs_wf(gs.skip(1));
        let all = seq![delimiter_rec(gs[0].0)] + attrs_recs(gs[0].1) + groups_recs(gs.skip(1));
        assert forall|k: int| 0 <= k < all.len() implies #[trigger] rec_wf(all[k]) by {
            if k > 0 && k < 1 + attrs_recs(gs[0].1).len() {
                assert(rec_wf(attrs_recs(gs[0].1)[k - 1]));
            } else if k > 0 {
                assert(rec_wf(groups_recs(gs.skip(1))[k - 1 - attrs_recs(gs[0].1).len()]));
            }
        }
    }
}

proof fn lemma_be32(n: u32)
    ensures
        be32(n).len() == 4,
        be32_value(be32(n)) == n,
{
    let b = be32(n);
    let u = n as int;
    assert(b[0] as int * 0x100_0000 + b[1] as int * 0x1_0000 + b[2] as int * 0x100 + b[3] as int
        == u) by (nonlinear_arith)
        requires
            0 <= u < 0x1_0000_0000,
            b[0] as int == u / 0x100_0000,
            b[1] as int == (u / 0x1_0000) % 0x100,
            b[2] as int == (u / 0x100) % 0x100,
            b[3] as int == u % 0x100,
    ;
}

/// Reading back the bytes of a message whose groups are well formed, with
/// any body after them, gives the same message (groups, attributes and their
/// order, values down to nested collections) and the same body.
pub proof fn lemma_message_round_trip(m: MessageModel, body: Seq<u8>)
    requires
        groups_wf(m.groups),
    ensures
        parse_message(message_bytes(m) + body) == Some((m, body)),
{
    let s = message_bytes(m) + body;
    let rs = groups_recs(m.groups);
    lemma_groups_recs_wf(m.groups);
    lemma_recs_round_trip(rs, body);
    assert(s.skip(8) =~= recs_bytes(rs) + seq![END_OF_ATTRIBUTES] + body);
    assert(rs.subrange(0, rs.len() as int) =~= rs);
    lemma_parse_groups(rs, 0, m.groups);
    lemma_be32(m.request_id);
    assert(s.subrange(4, 8) =~= be32(m.request_id));
    assert((s[2] as int * 256 + s[3] as int) as u16 == m.code);
}

/// A message cut short is refused: no strict prefix of the bytes of a
/// message whose groups are well formed parses.
pub proof fn lemma_truncated_message(m: MessageModel, n: int)
    requires
        groups_wf(m.groups),
        0 <= n < message_bytes(m).len(),
    ensures
        parse_message(message_bytes(m).take(n)) is None,
{
    if n >= 8 {
        let rs = groups_recs(m.groups);
        lemma_groups_recs_wf(m.groups);
        assert(message_bytes(m).take(n).skip(8) =~= (recs_bytes(rs) + seq![END_OF_ATTRIBUTES]).take(
            n - 8,
        ));
        lemma_truncated_recs(rs, n - 8);
    }
}

pub open spec fn join_groups(pre: Seq<GroupModel>, r: Option<Seq<GroupModel>>) -> Option<
    Seq<GroupModel>,
> {
    match r {
        Some(rest) => Some(pre + rest),
        None => None,
    }
}

proof fn lemma_groups_recs_push(gs: Seq<GroupModel>, x: GroupModel)
    ensures
        groups_recs(gs.push(x)) == groups_recs(gs) + (seq![delimiter_rec(x.0)] + attrs_recs(x.1)),
    decreases gs.len(),
{
    let tail = seq![delimiter_rec(x.0)] + attrs_recs(x.1);
    if gs.len() == 0 {
        assert(gs.push(x).skip(1) =~= Seq::<GroupModel>::empty());
        assert(gs.push(x)[0] == x);
        assert(groups_recs(gs.push(x).skip(1)) == Seq::<Rec>::empty());
        assert(groups_recs(gs) == Seq::<Rec>::empty());
        assert(groups_recs(gs.push(x)) =~= groups_recs(gs) + tail);
    } else {
        assert(gs.push(x).skip(1) =~= gs.skip(1).push(x));
        assert(gs.push(x)[0] == gs[0]);
        lemma_groups_recs_push(gs.skip(1), x);
        let h = seq![delimiter_rec(gs[0].0)] + attrs_recs(gs[0].1);
        assert(h + (groups_recs(gs.skip(1)) + tail) =~= (h + groups_recs(gs.skip(1))) + tail);
    }
}

/// Appends the records of all groups.
pub fn encode_groups(gs: &Vec<IppAttributeGroup>, out: &mut Vec<WireRecord>)
    ensures
        recs_of(final(out)@) == recs_of(old(out)@) + groups_recs(groups_view(gs@)),
{
    let ghost start = recs_of(out@);
    let mut k: usize = 0;
    assert(groups_view(gs@.take(0)) =~= Seq::<GroupModel>::empty());
    assert(start + groups_recs(Seq::<GroupModel>::empty()) =~= start);
    while k < gs.len()
        invariant
            k <= gs@.len(),
            recs_of(out@) == start + groups_recs(groups_view(gs@.take(k as int))),
        decreases gs@.len() - k,
    {
        let ghost before = recs_of(out@);
        out.push(WireRecord { tag: gs[k].tag.to_byte(), name: Vec::new(), value: Vec::new() });
        assert(recs_of(out@) =~= before + seq![delimiter_rec(gs@[k as int].tag)]);
        encode_attrs(&gs[k].attributes, out);
        proof {
            let x = gs@[k as int]@;
            assert(groups_view(gs@.take(k + 1)) =~= groups_view(gs@.take(k as int)).push(x));
            lemma_groups_recs_push(groups_view(gs@.take(k as int)), x);
            assert(recs_of(out@) =~= start + groups_recs(groups_view(gs@.take(k + 1))));
        }
        k = k + 1;
    }
    assert(gs@.take(k as int) =~= gs@);
}

/// Reads groups from the records to the last one.
pub fn decode_groups(ts: &Vec<WireRecord>) -> (r: Result<Vec<IppAttributeGroup>, DecodeError>)
    ensures
        match parse_groups(recs_of(ts@), 0) {
            Some(gs) => r is Ok && groups_view(r->Ok_0@) == gs,
            None => r is Err,
        },
{
    let ghost t = recs_of(ts@);
    let mut out: Vec<IppAttributeGroup> = Vec::new();
    let mut k: usize = 0;
    assert(groups_view(out@) =~= Seq::<GroupModel>::empty());
    assert(join_groups(groups_view(out@), parse_groups(t, 0)) =~= parse_groups(t, 0)) by {
        match parse_groups(t, 0) {
            Some(gs) => { assert(Seq::<GroupModel>::empty() + gs =~= gs); },
            None => {},
        }
    }
    loop
        invariant
            k <= ts@.len(),
            t == recs_of(ts@),
            parse_groups(t, 0) == join_groups(groups_view(out@), parse_groups(t, k as int)),
        decreases ts@.len() - k,
    {
        if k == ts.len() {
            assert(groups_view(out@) + Seq::<GroupModel>::empty() =~= groups_view(out@));
            return Ok(out);
        }
        assert(t[k as int] == ts@[k as int]@);
        match GroupTag::from_byte(ts[k].tag) {
            Some(g) => {
                if !(ts[k].name.len() == 0 && ts[k].value.len() == 0) {
                    return Err(DecodeError::MalformedMessage);
                }
                match decode_attrs(ts, k + 1) {
                    Ok((attrs, j)) => {
                        if !(k < j && j <= ts.len()) {
                            return Err(DecodeError::MalformedMessage);
                        }
                        let ghost before = groups_view(out@);
                        let grp = IppAttributeGroup { tag: g, attributes: attrs };
                        let ghost gv = grp@;
                        out.push(grp);
                        proof {
                            assert(groups_view(out@) =~= before.push(gv));
                            match parse_groups(t, j as int) {
                                Some(rest) => {
                                    assert(before + (seq![gv] + rest) =~= before.push(gv) + rest);
                                },
                                None => {},
                            }
                        }
                        k = j;
                    },
                    Err(e) => {
                        return Err(e);
                    },
                }
            },
            None => {
                return Err(DecodeError::MalformedMessage);
            },
        }
    }
}

/// Whether every group of the message is carried and read back unchanged:
/// the condition under which `encode_message` may be called.
pub fn message_is_wf(m: &IppMessage) -> (r: bool)
    ensures
        r == groups_wf(m@.groups),
{
    let mut k: usize = 0;
    while k < m.groups.len()
        invariant
            k <= m.groups@.len(),
            forall|i: int| 0 <= i < k ==> attrs_wf(#[trigger] groups_view(m.groups@)[i].1),
        decreases m.groups@.len() - k,
    {
        if !attrs_are_wf(&m.groups[k].attributes) {
            assert(groups_view(m.groups@)[k as int].1 == members_view(m.groups@[k as int].attributes@));
            return false;
        }
        assert(groups_view(m.groups@)[k as int].1 == members_view(m.groups@[k as int].attributes@));
        k = k + 1;
    }
    true
}

/// The bytes of a message up to and including the end-of-attributes tag.
/// A request's document follows them; it can be sent from its own buffer.
pub fn encode_message(m: &IppMessage) -> (r: Vec<u8>)
    requires
        groups_wf(m@.groups),
    ensures
        r@ == message_bytes(m@),
{
    let mut out: Vec<u8> = Vec::new();
    out.push(m.version_major);
    out.push(m.version_minor);
    out.push((m.code / 256) as u8);
    out.push((m.code % 256) as u8);
    let id = m.request_id;
    out.push((id / 0x100_0000) as u8);
    out.push(((id / 0x1_0000) % 0x100) as u8);
    out.push(((id / 0x100) % 0x100) as u8);
    out.push((id % 0x100) as u8);
    assert(out@ =~= header_bytes(m@));
    let mut recs: Vec<WireRecord> = Vec::new();
    encode_groups(&m.groups, &mut recs);
    assert(recs_of(recs@) =~= groups_recs(m@.groups));
    proof {
        lemma_groups_recs_wf(m@.groups);
    }
    encode_recs(&recs, &mut out);
    out.push(END_OF_ATTRIBUTES);
    assert(out@ =~= message_bytes(m@));
    out
}

/// A message followed by its document.
pub fn encode_request(m: &IppMessage, document: &[u8]) -> (r: Vec<u8>)
    requires
        groups_wf(m@.groups),
    ensures
        r@ == message_bytes(m@) + document@,
{
    let mut out = encode_message(m);
    push_bytes(&mut out, document);
    out
}

/// Reads a message; on success gives it and the index where its body
/// begins. Fails with `MalformedMessage` exactly when `parse_message` finds
/// no message: fewer than eight header bytes, a length field that runs past
/// the end, an unknown tag, records out of place, or no closing tag.
pub fn decode_message(buf: &[u8]) -> (r: Result<(IppMessage, usize), DecodeError>)
    ensures
        match parse_message(buf@) {
            Some((m, body)) => r is Ok && r->Ok_0.0@ == m && r->Ok_0.1 <= buf@.len() && buf@.skip(
                r->Ok_0.1 as int,
            ) == body,
            None => r == Err::<(IppMessage, usize), DecodeError>(DecodeError::MalformedMessage),
        },
{
    if buf.len() < 8 {
        return Err(DecodeError::MalformedMessage);
    }
    let (recs, body_at) = match decode_recs(buf, 8) {
        Ok(x) => x,
        Err(e) => {
            return Err(e);
        },
    };
    let groups = match decode_groups(&recs) {
        Ok(g) => g,
        Err(_) => {
            return Err(DecodeError::MalformedMessage);
        },
    };
    let code: u16 = (buf[2] as u16) * 256 + (buf[3] as u16);
    let request_id: u32 = (buf[4] as u32) * 0x100_0000 + (buf[5] as u32) * 0x1_0000 + (buf[6] as u32)
        * 0x100 + (buf[7] as u32);
    let m = IppMessage {
        version_major: buf[0],
        version_minor: buf[1],
        code,
        request_id,
        groups,
    };
    proof {
        let sub = buf@.subrange(4, 8);
        assert(sub[0] == buf@[4] && sub[1] == buf@[5] && sub[2] == buf@[6] && sub[3] == buf@[7]);
    }
    Ok((m, body_at))
}

} // verus!
