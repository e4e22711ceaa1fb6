//! The two operations this library builds: Get-Printer-Attributes and
//! Print-Job, and how a response status is read.
use vstd::prelude::*;
use crate::attribute::{members_view, AttributeValue, IppAttribute, ValueModel, TAG_CHARSET, TAG_MIME_MEDIA_TYPE, TAG_NAME, TAG_NATURAL_LANGUAGE, TAG_URI};
use crate::layout::copy_bytes;
use crate::layout::{attr_wf, attrs_wf};
use crate::message::{
    decode_message, encode_request, groups_wf, message_bytes, parse_message, GroupTag,
    IppAttributeGroup, IppMessage, MessageModel,
};
use crate::status::{is_success, status_is_success};
use crate::wire::MAX_FIELD_LEN;

verus! {

pub const OP_PRINT_JOB: u16 = 0x0002;
pub const OP_GET_PRINTER_ATTRIBUTES: u16 = 0x000B;
/// Protocol version 1.1.
pub const VERSION_MAJOR: u8 = 1;
pub const VERSION_MINOR: u8 = 1;

/// The bytes of `"attributes-charset"`.
pub open spec fn charset_name() -> Seq<u8> {
    seq![97u8, 116, 116, 114, 105, 98, 117, 116, 101, 115, 45, 99, 104, 97, 114, 115, 101, 116]
}

/// The bytes of `"attributes-natural-language"`.
pub open spec fn language_name() -> Seq<u8> {
    seq![97u8, 116, 116, 114, 105, 98, 117, 116, 101, 115, 45, 110, 97, 116, 117, 114, 97, 108, 45, 108, 97, 110, 103, 117, 97, 103, 101]
}

/// The bytes of `"printer-uri"`.
pub open spec fn uri_name() -> Seq<u8> {
    seq![112u8, 114, 105, 110, 116, 101, 114, 45, 117, 114, 105]
}

/// The bytes of `"requesting-user-name"`.
pub open spec fn user_name() -> Seq<u8> {
    seq![114u8, 101, 113, 117, 101, 115, 116, 105, 110, 103, 45, 117, 115, 101, 114, 45, 110, 97, 109, 101]
}

/// The bytes of `"job-name"`.
pub open spec fn job_name() -> Seq<u8> {
    seq![106u8, 111, 98, 45, 110, 97, 109, 101]
}

/// The bytes of `"document-format"`.
pub open spec fn format_name() -> Seq<u8> {
    seq![100u8, 111, 99, 117, 109, 101, 110, 116, 45, 102, 111, 114, 109, 97, 116]
}

/// The bytes of `"utf-8"`.
pub open spec fn utf8() -> Seq<u8> {
    seq![117u8, 116, 102, 45, 56]
}

/// The bytes of `"en"`.
pub open spec fn english() -> Seq<u8> {
    seq![101u8, 110]
}

fn charset_name_bytes() -> (r: Vec<u8>)
    ensures
        r@ == charset_name(),
{
    let r: Vec<u8> = vec![97u8, 116, 116, 114, 105, 98, 117, 116, 101, 115, 45, 99, 104, 97, 114, 115, 101, 116];
    assert(r@ =~= charset_name());
    r
}

fn language_name_bytes() -> (r: Vec<u8>)
    ensures
        r@ == language_name(),
{
    let r: Vec<u8> = vec![97u8, 116, 116, 114, 105, 98, 117, 116, 101, 115, 45, 110, 97, 116, 117, 114, 97, 108, 45, 108, 97, 110, 103, 117, 97, 103, 101];
    assert(r@ =~= language_name());
    r
}

fn uri_name_bytes() -> (r: Vec<u8>)
    ensures
        r@ == uri_name(),
{
    let r: Vec<u8> = vec![112u8, 114, 105, 110, 116, 101, 114, 45, 117, 114, 105];
    assert(r@ =~= uri_name());
    r
}

fn user_name_bytes() -> (r: Vec<u8>)
    ensures
        r@ == user_name(),
{
    let r: Vec<u8> = vec![114u8, 101, 113, 117, 101, 115, 116, 105, 110, 103, 45, 117, 115, 101, 114, 45, 110, 97, 109, 101];
    assert(r@ =~= user_name());
    r
}

fn job_name_bytes() -> (r: Vec<u8>)
    ensures
        r@ == job_name(),
{
    let r: Vec<u8> = vec![106u8, 111, 98, 45, 110, 97, 109, 101];
    assert(r@ =~= job_name());
    r
}

fn format_name_bytes() -> (r: Vec<u8>)
    ensures
        r@ == format_name(),
{
    let r: Vec<u8> = vec![100u8, 111, 99, 117, 109, 101, 110, 116, 45, 102, 111, 114, 109, 97, 116];
    assert(r@ =~= format_name());
    r
}

fn utf8_bytes() -> (r: Vec<u8>)
    ensures
        r@ == utf8(),
{
    let r: Vec<u8> = vec![117u8, 116, 102, 45, 56];
    assert(r@ =~= utf8());
    r
}

fn english_bytes() -> (r: Vec<u8>)
    ensures
        r@ == english(),
{
    let r: Vec<u8> = vec![101u8, 110];
    assert(r@ =~= english());
    r
}

/// The operation attributes that open every request: charset, natural
/// language, printer URI and requesting user name, in that order.
pub open spec fn base_attrs(uri: Seq<u8>, user: Seq<u8>) -> Seq<(Seq<u8>, ValueModel)> {
    seq![
        (charset_name(), ValueModel::Str(TAG_CHARSET, utf8())),
        (language_name(), ValueModel::Str(TAG_NATURAL_LANGUAGE, english())),
        (uri_name(), ValueModel::Str(TAG_URI, uri)),
        (user_name(), ValueModel::Str(TAG_NAME, user)),
    ]
}

pub open spec fn request_model(code: u16, request_id: u32, attrs: Seq<(Seq<u8>, ValueModel)>) -> MessageModel {
    MessageModel {
        version_major: VERSION_MAJOR,
        version_minor: VERSION_MINOR,
        code,
        request_id,
        groups: seq![(GroupTag::Operation, attrs)],
    }
}

pub open spec fn get_printer_attributes_model(uri: Seq<u8>, user: Seq<u8>, request_id: u32) -> MessageModel {
    request_model(OP_GET_PRINTER_ATTRIBUTES, request_id, base_attrs(uri, user))
}

/// A Print-Job request: the base attributes, the job name, the document
/// format, then the caller's attributes in their order.
pub open spec fn print_job_model(
    uri: Seq<u8>,
    user: Seq<u8>,
    job: Seq<u8>,
    format: Seq<u8>,
    extra: Seq<(Seq<u8>, ValueModel)>,
    request_id: u32,
) -> MessageModel {
    request_model(
        OP_PRINT_JOB,
        request_id,
        base_attrs(uri, user) + seq![
            (job_name(), ValueModel::Str(TAG_NAME, job)),
            (format_name(), ValueModel::Str(TAG_MIME_MEDIA_TYPE, format)),
        ] + extra,
    )
}

fn attr(name: Vec<u8>, value: AttributeValue) -> (r: IppAttribute)
    ensures
        r.name == name,
        r.value == value,
{
    IppAttribute { name, value }
}

fn base_attributes(printer_uri: &Vec<u8>, user: &Vec<u8>) -> (r: Vec<IppAttribute>)
    ensures
        members_view(r@) == base_attrs(printer_uri@, user@),
        r@.len() == 4,
{
    let mut r: Vec<IppAttribute> = Vec::new();
    r.push(attr(charset_name_bytes(), AttributeValue::Charset(utf8_bytes())));
    r.push(attr(language_name_bytes(), AttributeValue::NaturalLanguage(english_bytes())));
    r.push(attr(uri_name_bytes(), AttributeValue::Uri(copy_bytes(printer_uri))));
    r.push(attr(user_name_bytes(), AttributeValue::Name(copy_bytes(user))));
    proof {
        crate::layout::lemma_members_view(r@);
        assert(members_view(r@) =~= base_attrs(printer_uri@, user@));
    }
    r
}

/// Builds a Get-Printer-Attributes request.
pub fn get_printer_attributes(printer_uri: &Vec<u8>, user: &Vec<u8>, request_id: u32) -> (r: IppMessage)
    ensures
        r@ == get_printer_attributes_model(printer_uri@, user@, request_id),
{
    let attributes = base_attributes(printer_uri, user);
    let mut groups: Vec<IppAttributeGroup> = Vec::new();
    groups.push(IppAttributeGroup { tag: GroupTag::Operation, attributes });
    let r = IppMessage {
        version_major: VERSION_MAJOR,
        version_minor: VERSION_MINOR,
        code: OP_GET_PRINTER_ATTRIBUTES,
        request_id,
        groups,
    };
    assert(r@.groups =~= get_printer_attributes_model(printer_uri@, user@, request_id).groups);
    r
}

/// Builds a Print-Job request; the caller's attributes follow the fixed ones.
pub fn print_job(
    printer_uri: &Vec<u8>,
    user: &Vec<u8>,
    job: &Vec<u8>,
    format: &Vec<u8>,
    extra: Vec<IppAttribute>,
    request_id: u32,
) -> (r: IppMessage)
    ensures
        r@ == print_job_model(printer_uri@, user@, job@, format@, members_view(extra@), request_id),
{
    let mut attributes = base_attributes(printer_uri, user);
    let ghost base = attributes@;
    attributes.push(attr(job_name_bytes(), AttributeValue::Name(copy_bytes(job))));
    attributes.push(attr(format_name_bytes(), AttributeValue::MimeMediaType(copy_bytes(format))));
    let ghost fixed = attributes@;
    let ghost ex = extra@;
    let mut extra = extra;
    attributes.append(&mut extra);
    assert(attributes@ =~= fixed + ex);
    proof {
        crate::layout::lemma_members_view(attributes@);
        crate::layout::lemma_members_view(fixed);
        crate::layout::lemma_members_view(ex);
        crate::layout::lemma_members_view(base);
        assert(fixed.subrange(0, 4) =~= base);
        let want = base_attrs(printer_uri@, user@) + seq![
            (job_name(), ValueModel::Str(TAG_NAME, job@)),
            (format_name(), ValueModel::Str(TAG_MIME_MEDIA_TYPE, format@)),
        ] + members_view(ex);
        assert(members_view(attributes@) =~= want) by {
            assert forall|k: int| 0 <= k < attributes@.len() implies #[trigger] members_view(attributes@)[k] == want[k] by {
                if k >= 6 {
                    assert(attributes@[k] == ex[k - 6]);
                } else if k >= 4 {
                    assert(attributes@[k] == fixed[k]);
                } else {
                    assert(attributes@[k] == base[k]);
                    assert(members_view(base)[k] == base[k]@);
                }
            }
        }
    }
    let mut groups: Vec<IppAttributeGroup> = Vec::new();
    groups.push(IppAttributeGroup { tag: GroupTag::Operation, attributes });
    let r = IppMessage {
        version_major: VERSION_MAJOR,
        version_minor: VERSION_MINOR,
        code: OP_PRINT_JOB,
        request_id,
        groups,
    };
    assert(r@.groups =~= print_job_model(printer_uri@, user@, job@, format@, members_view(ex), request_id).groups);
    r
}

/// The attributes a caller passes to `print_job_request` are carried and
/// read back unchanged, and the fixed ones fit their fields.
pub open spec fn print_job_inputs_wf(
    uri: Seq<u8>,
    user: Seq<u8>,
    job: Seq<u8>,
    format: Seq<u8>,
    extra: Seq<(Seq<u8>, ValueModel)>,
) -> bool {
    uri.len() <= MAX_FIELD_LEN && user.len() <= MAX_FIELD_LEN && job.len() <= MAX_FIELD_LEN
        && format.len() <= MAX_FIELD_LEN && attrs_wf(extra)
}

/// The bytes of a Print-Job request followed by its document.
pub open spec fn print_job_bytes(
    uri: Seq<u8>,
    user: Seq<u8>,
    job: Seq<u8>,
    format: Seq<u8>,
    extra: Seq<(Seq<u8>, ValueModel)>,
    request_id: u32,
    document: Seq<u8>,
) -> Seq<u8> {
    message_bytes(print_job_model(uri, user, job, format, extra, request_id)) + document
}

proof fn lemma_print_job_wf(
    uri: Seq<u8>,
    user: Seq<u8>,
    job: Seq<u8>,
    format: Seq<u8>,
    extra: Seq<(Seq<u8>, ValueModel)>,
    request_id: u32,
)
    requires
        print_job_inputs_wf(uri, user, job, format, extra),
    ensures
        groups_wf(print_job_model(uri, user, job, format, extra, request_id).groups),
{
    let m = print_job_model(uri, user, job, format, extra, request_id);
    let a = m.groups[0].1;
    assert forall|k: int| 0 <= k < a.len() implies #[trigger] attr_wf(a[k]) by {
        if k >= 6 {
            assert(a[k] == extra[k - 6]);
            assert(attr_wf(extra[k - 6]));
        }
    }
    assert(attrs_wf(a));
}

/// Builds and encodes a Print-Job request with its document. The bytes are
/// a function of the inputs' values alone.
pub fn print_job_request(
    printer_uri: &Vec<u8>,
    user: &Vec<u8>,
    job: &Vec<u8>,
    format: &Vec<u8>,
    extra: Vec<IppAttribute>,
    request_id: u32,
    document: &[u8],
) -> (r: Vec<u8>)
    requires
        print_job_inputs_wf(printer_uri@, user@, job@, format@, members_view(extra@)),
    ensures
        r@ == print_job_bytes(
            printer_uri@,
            user@,
            job@,
            format@,
            members_view(extra@),
            request_id,
            document@,
        ),
{
    let ghost ex = members_view(extra@);
    let m = print_job(printer_uri, user, job, format, extra, request_id);
    proof {
        lemma_print_job_wf(printer_uri@, user@, job@, format@, ex, request_id);
    }
    encode_request(&m, document)
}

/// Building a Print-Job request twice from inputs of equal value gives the
/// same bytes.
pub proof fn lemma_print_job_idempotent(
    uri: Seq<u8>,
    user: Seq<u8>,
    job: Seq<u8>,
    format: Seq<u8>,
    extra: Seq<(Seq<u8>, ValueModel)>,
    request_id: u32,
    document: Seq<u8>,
    uri2: Seq<u8>,
    user2: Seq<u8>,
    job2: Seq<u8>,
    format2: Seq<u8>,
    extra2: Seq<(Seq<u8>, ValueModel)>,
    document2: Seq<u8>,
)
    requires
        uri == uri2,
        user == user2,
        job == job2,
        format == format2,
        extra == extra2,
        document == document2,
    ensures
        print_job_bytes(uri, user, job, format, extra, request_id, document) == print_job_bytes(
            uri2,
            user2,
            job2,
            format2,
            extra2,
            request_id,
            document2,
        ),
{
}

/// The errors of a print exchange.
#[derive(Debug, Clone, Copy, PartialEq, Eq, Structural)]
pub enum SessionError {
    /// The transport failed; nothing was read.
    TransportError,
    /// The response bytes are not a message.
    MalformedMessage,
    /// The printer answered with a status outside the success range.
    UnsupportedStatus(u16),
}

/// Why a response was not accepted. A refusal keeps the decoded response,
/// whose operation group carries `status-message` and
/// `detailed-status-message` when the printer sent them.
#[derive(Debug)]
pub struct ResponseError {
    pub error: SessionError,
    pub response: Option<IppMessage>,
}

/// Reads a response: the message when its status reports success, else
/// `UnsupportedStatus` with the code and the message, or `MalformedMessage`
/// when the bytes are not a message.
pub fn interpret_response(buf: &[u8]) -> (r: Result<IppMessage, ResponseError>)
    ensures
        match parse_message(buf@) {
            None => r is Err && r->Err_0.error == SessionError::MalformedMessage
                && r->Err_0.response is None,
            Some((m, _)) => if status_is_success(m.code) {
                r is Ok && r->Ok_0@ == m
            } else {
                r is Err && r->Err_0.error == SessionError::UnsupportedStatus(m.code)
                    && r->Err_0.response is Some && r->Err_0.response->0@ == m
            },
        },
{
    match decode_message(buf) {
        Ok((m, _)) => {
            if is_success(m.code) {
                Ok(m)
            } else {
                Err(ResponseError { error: SessionError::UnsupportedStatus(m.code), response: Some(m) })
            }
        },
        Err(_) => Err(ResponseError { error: SessionError::MalformedMessage, response: None }),
    }
}

} // verus!
