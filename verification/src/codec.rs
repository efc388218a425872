//! The fragmentation codec: serializes a message's data into a
//! self-describing, length-prefixed byte sequence, splits the bytes into
//! bounded fragments, and rebuilds both on the receiving side.
//!
//! The byte layout of serialized data is: the source id (one byte), the
//! session id (eight bytes, little endian), then the content as a tag byte
//! followed by the variant's fields; every variable-length field carries an
//! eight-byte length prefix.

use vstd::prelude::*;
use vstd::bytes::{spec_u64_from_le_bytes, spec_u64_to_le_bytes, lemma_auto_spec_u64_to_from_le_bytes};
use crate::message::{ContentModel, DataModel, MessageContent, MessageData, ServerType};
use crate::packet::{Fragment, FragmentData};

verus! {

broadcast use vstd::seq::group_seq_axioms;

pub const TAG_REQ_SERVER_TYPE: u8 = 0;

pub const TAG_REQ_FILES_LIST: u8 = 1;

pub const TAG_REQ_FILE: u8 = 2;

pub const TAG_REQ_MEDIA: u8 = 3;

pub const TAG_REQ_CLIENT_LIST: u8 = 4;

pub const TAG_REQ_REGISTRATION_TO_CHAT: u8 = 5;

pub const TAG_REQ_MESSAGE_SEND: u8 = 6;

pub const TAG_RESP_SERVER_TYPE: u8 = 7;

pub const TAG_RESP_FILES_LIST: u8 = 8;

pub const TAG_RESP_FILE: u8 = 9;

pub const TAG_RESP_MEDIA: u8 = 10;

pub const TAG_ERR_UNSUPPORTED_REQUEST_TYPE: u8 = 11;

pub const TAG_ERR_REQUESTED_NOT_FOUND: u8 = 12;

pub const TAG_RESP_CLIENT_LIST: u8 = 13;

pub const TAG_RESP_MESSAGE_FROM: u8 = 14;

pub const TAG_ERR_WRONG_CLIENT_ID: u8 = 15;

pub open spec fn spec_encode_server_type(t: ServerType) -> u8 {
    match t {
        ServerType::Chat => 0,
        ServerType::Text => 1,
        ServerType::Media => 2,
    }
}

pub open spec fn spec_decode_server_type(b: u8) -> ServerType
    recommends
        b <= 2,
{
    if b == 0 {
        ServerType::Chat
    } else if b == 1 {
        ServerType::Text
    } else {
        ServerType::Media
    }
}

/// Each id of the list as eight little-endian bytes, in list order.
pub open spec fn spec_encode_u64_list(l: Seq<u64>) -> Seq<u8>
    decreases l.len(),
{
    if l.len() == 0 {
        Seq::empty()
    } else {
        spec_u64_to_le_bytes(l[0]) + spec_encode_u64_list(l.drop_first())
    }
}

/// Reads back a sequence written by `spec_encode_u64_list`.
pub open spec fn spec_decode_u64_list(s: Seq<u8>) -> Seq<u64> {
    Seq::new(s.len() as nat / 8, |i: int| spec_u64_from_le_bytes(s.subrange(8 * i, 8 * i + 8)))
}

/// Whether the model is small enough for its lengths to fit the eight-byte
/// prefixes of the wire form.
pub open spec fn content_model_valid(c: ContentModel) -> bool {
    match c {
        ContentModel::ReqMessageSend { message, .. } => message.len() <= u64::MAX,
        ContentModel::RespFilesList(l) => l.len() <= u64::MAX,
        ContentModel::RespFile(b) => b.len() <= u64::MAX,
        ContentModel::RespMedia(b) => b.len() <= u64::MAX,
        ContentModel::RespClientList(l) => l.len() <= u64::MAX,
        ContentModel::RespMessageFrom { message, .. } => message.len() <= u64::MAX,
        _ => true,
    }
}

pub open spec fn data_model_valid(d: DataModel) -> bool {
    content_model_valid(d.content)
}

pub open spec fn spec_encode_content(c: ContentModel) -> Seq<u8> {
    match c {
        ContentModel::ReqServerType => seq![TAG_REQ_SERVER_TYPE],
        ContentModel::ReqFilesList => seq![TAG_REQ_FILES_LIST],
        ContentModel::ReqFile(f) => seq![TAG_REQ_FILE] + spec_u64_to_le_bytes(f),
        ContentModel::ReqMedia(m) => seq![TAG_REQ_MEDIA] + spec_u64_to_le_bytes(m),
        ContentModel::ReqClientList => seq![TAG_REQ_CLIENT_LIST],
        ContentModel::ReqRegistrationToChat => seq![TAG_REQ_REGISTRATION_TO_CHAT],
        ContentModel::ReqMessageSend { to, message } => seq![TAG_REQ_MESSAGE_SEND, to]
            + spec_u64_to_le_bytes(message.len() as u64) + message,
        ContentModel::RespServerType(t) => seq![TAG_RESP_SERVER_TYPE, spec_encode_server_type(t)],
        ContentModel::RespFilesList(l) => seq![TAG_RESP_FILES_LIST]
            + spec_u64_to_le_bytes(l.len() as u64) + spec_encode_u64_list(l),
        ContentModel::RespFile(b) => seq![TAG_RESP_FILE] + spec_u64_to_le_bytes(b.len() as u64)
            + b,
        ContentModel::RespMedia(b) => seq![TAG_RESP_MEDIA] + spec_u64_to_le_bytes(b.len() as u64)
            + b,
        ContentModel::ErrUnsupportedRequestType => seq![TAG_ERR_UNSUPPORTED_REQUEST_TYPE],
        ContentModel::ErrRequestedNotFound => seq![TAG_ERR_REQUESTED_NOT_FOUND],
        ContentModel::RespClientList(l) => seq![TAG_RESP_CLIENT_LIST]
            + spec_u64_to_le_bytes(l.len() as u64) + l,
        ContentModel::RespMessageFrom { from, message } => seq![TAG_RESP_MESSAGE_FROM, from]
            + spec_u64_to_le_bytes(message.len() as u64) + message,
        ContentModel::ErrWrongClientId => seq![TAG_ERR_WRONG_CLIENT_ID],
    }
}

pub open spec fn spec_decode_content(s: Seq<u8>) -> Option<ContentModel> {
    if s.len() < 1 {
        None
    } else {
        let tag = s[0];
        let body = s.subrange(1, s.len() as int);
        if tag == TAG_REQ_SERVER_TYPE {
            if body.len() == 0 {
                Some(ContentModel::ReqServerType)
            } else {
                None
            }
        } else if tag == TAG_REQ_FILES_LIST {
            if body.len() == 0 {
                Some(ContentModel::ReqFilesList)
            } else {
                None
            }
        } else if tag == TAG_REQ_FILE {
            if body.len() == 8 {
                Some(ContentModel::ReqFile(spec_u64_from_le_bytes(body)))
            } else {
                None
            }
        } else if tag == TAG_REQ_MEDIA {
            if body.len() == 8 {
                Some(ContentModel::ReqMedia(spec_u64_from_le_bytes(body)))
            } else {
                None
            }
        } else if tag == TAG_REQ_CLIENT_LIST {
            if body.len() == 0 {
                Some(ContentModel::ReqClientList)
            } else {
                None
            }
        } else if tag == TAG_REQ_REGISTRATION_TO_CHAT {
            if body.len() == 0 {
                Some(ContentModel::ReqRegistrationToChat)
            } else {
                None
            }
        } else if tag == TAG_REQ_MESSAGE_SEND {
            if body.len() >= 9 && body.len() == 9 + spec_u64_from_le_bytes(
                body.subrange(1, 9),
            ) {
                Some(
                    ContentModel::ReqMessageSend {
                        to: body[0],
                        message: body.subrange(9, body.len() as int),
                    },
                )
            } else {
                None
            }
        } else if tag == TAG_RESP_SERVER_TYPE {
            if body.len() == 1 && body[0] <= 2 {
                Some(ContentModel::RespServerType(spec_decode_server_type(body[0])))
            } else {
                None
            }
        } else if tag == TAG_RESP_FILES_LIST {
            if body.len() >= 8 && body.len() == 8 + 8 * spec_u64_from_le_bytes(
                body.subrange(0, 8),
            ) {
                Some(
                    ContentModel::RespFilesList(
                        spec_decode_u64_list(body.subrange(8, body.len() as int)),
                    ),
                )
            } else {
                None
            }
        } else if tag == TAG_RESP_FILE {
            if body.len() >= 8 && body.len() == 8 + spec_u64_from_le_bytes(body.subrange(0, 8)) {
                Some(ContentModel::RespFile(body.subrange(8, body.len() as int)))
            } else {
                None
            }
        } else if tag == TAG_RESP_MEDIA {
            if body.len() >= 8 && body.len() == 8 + spec_u64_from_le_bytes(body.subrange(0, 8)) {
                Some(ContentModel::RespMedia(body.subrange(8, body.len() as int)))
            } else {
                None
            }
        } else if tag == TAG_ERR_UNSUPPORTED_REQUEST_TYPE {
            if body.len() == 0 {
                Some(ContentModel::ErrUnsupportedRequestType)
            } else {
                None
            }
        } else if tag == TAG_ERR_REQUESTED_NOT_FOUND {
            if body.len() == 0 {
                Some(ContentModel::ErrRequestedNotFound)
            } else {
                None
            }
        } else if tag == TAG_RESP_CLIENT_LIST {
            if body.len() >= 8 && body.len() == 8 + spec_u64_from_le_bytes(body.subrange(0, 8)) {
                Some(ContentModel::RespClientList(body.subrange(8, body.len() as int)))
            } else {
                None
            }
        } else if tag == TAG_RESP_MESSAGE_FROM {
            if body.len() >= 9 && body.len() == 9 + spec_u64_from_le_bytes(
                body.subrange(1, 9),
            ) {
                Some(
                    ContentModel::RespMessageFrom {
                        from: body[0],
                        message: body.subrange(9, body.len() as int),
                    },
                )
            } else {
                None
            }
        } else if tag == TAG_ERR_WRONG_CLIENT_ID {
            if body.len() == 0 {
                Some(ContentModel::ErrWrongClientId)
            } else {
                None
            }
        } else {
            None
        }
    }
}

pub open spec fn spec_encode_data(d: DataModel) -> Seq<u8> {
    seq![d.source_id] + spec_u64_to_le_bytes(d.session_id) + spec_encode_content(d.content)
}

pub open spec fn spec_decode_data(s: Seq<u8>) -> Option<DataModel> {
    if s.len() < 9 {
        None
    } else {
        match spec_decode_content(s.subrange(9, s.len() as int)) {
            Some(content) => Some(
                DataModel {
                    source_id: s[0],
                    session_id: spec_u64_from_le_bytes(s.subrange(1, 9)),
                    content,
                },
            ),
            None => None,
        }
    }
}

pub proof fn lemma_encode_u64_list_len(l: Seq<u64>)
    ensures
        spec_encode_u64_list(l).len() == 8 * l.len(),
    decreases l.len(),
{
    lemma_auto_spec_u64_to_from_le_bytes();
    if l.len() > 0 {
        lemma_encode_u64_list_len(l.drop_first());
    }
}

pub proof fn lemma_encode_u64_list_index(l: Seq<u64>, i: int)
    requires
        0 <= i < l.len(),
    ensures
        spec_encode_u64_list(l).subrange(8 * i, 8 * i + 8) == spec_u64_to_le_bytes(l[i]),
    decreases l.len(),
{
    lemma_auto_spec_u64_to_from_le_bytes();
    lemma_encode_u64_list_len(l);
    lemma_encode_u64_list_len(l.drop_first());
    if i == 0 {
        assert(spec_encode_u64_list(l).subrange(0, 8) =~= spec_u64_to_le_bytes(l[0]));
    } else {
        lemma_encode_u64_list_index(l.drop_first(), i - 1);
        assert(spec_encode_u64_list(l).subrange(8 * i, 8 * i + 8) =~= spec_encode_u64_list(
            l.drop_first(),
        ).subrange(8 * (i - 1), 8 * (i - 1) + 8));
    }
}

pub proof fn lemma_u64_list_round_trip(l: Seq<u64>)
    ensures
        spec_decode_u64_list(spec_encode_u64_list(l)) == l,
{
    lemma_auto_spec_u64_to_from_le_bytes();
    lemma_encode_u64_list_len(l);
    let e = spec_encode_u64_list(l);
    assert(e.len() as nat / 8 == l.len()) by (nonlinear_arith)
        requires
            e.len() == 8 * l.len(),
    ;
    assert forall|i: int| 0 <= i < l.len() implies spec_decode_u64_list(e)[i] == l[i] by {
        lemma_encode_u64_list_index(l, i);
    }
    assert(spec_decode_u64_list(e) =~= l);
}

/// The encoding is lossless: decoding what was encoded gives back the model.
pub proof fn lemma_content_round_trip(c: ContentModel)
    requires
        content_model_valid(c),
    ensures
        spec_decode_content(spec_encode_content(c)) == Some(c),
{
    lemma_auto_spec_u64_to_from_le_bytes();
    let e = spec_encode_content(c);
    let body = e.subrange(1, e.len() as int);
    match c {
        ContentModel::ReqServerType => {
            assert(body.len() == 0);
        },
        ContentModel::ReqFilesList => {
            assert(body.len() == 0);
        },
        ContentModel::ReqFile(f) => {
            assert(body =~= spec_u64_to_le_bytes(f));
        },
        ContentModel::ReqMedia(m) => {
            assert(body =~= spec_u64_to_le_bytes(m));
        },
        ContentModel::ReqClientList => {
            assert(body.len() == 0);
        },
        ContentModel::ReqRegistrationToChat => {
            assert(body.len() == 0);
        },
        ContentModel::ReqMessageSend { to, message } => {
            let n = message.len() as u64;
            assert(body =~= seq![to] + spec_u64_to_le_bytes(n) + message);
            assert(body.subrange(1, 9) =~= spec_u64_to_le_bytes(n));
            assert(body.subrange(9, body.len() as int) =~= message);
            assert(body[0] == to);
        },
        ContentModel::RespServerType(t) => {
            assert(body.len() == 1);
            assert(body[0] == spec_encode_server_type(t));
            assert(spec_decode_server_type(spec_encode_server_type(t)) == t);
        },
        ContentModel::RespFilesList(l) => {
            let n = l.len() as u64;
            lemma_encode_u64_list_len(l);
            assert(body =~= spec_u64_to_le_bytes(n) + spec_encode_u64_list(l));
            assert(body.subrange(0, 8) =~= spec_u64_to_le_bytes(n));
            assert(body.subrange(8, body.len() as int) =~= spec_encode_u64_list(l));
            lemma_u64_list_round_trip(l);
        },
        ContentModel::RespFile(b) => {
            let n = b.len() as u64;
            assert(body =~= spec_u64_to_le_bytes(n) + b);
            assert(body.subrange(0, 8) =~= spec_u64_to_le_bytes(n));
            assert(body.subrange(8, body.len() as int) =~= b);
        },
        ContentModel::RespMedia(b) => {
            let n = b.len() as u64;
            assert(body =~= spec_u64_to_le_bytes(n) + b);
            assert(body.subrange(0, 8) =~= spec_u64_to_le_bytes(n));
            assert(body.subrange(8, body.len() as int) =~= b);
        },
        ContentModel::ErrUnsupportedRequestType => {
            assert(body.len() == 0);
        },
        ContentModel::ErrRequestedNotFound => {
            assert(body.len() == 0);
        },
        ContentModel::RespClientList(l) => {
            let n = l.len() as u64;
            assert(body =~= spec_u64_to_le_bytes(n) + l);
            assert(body.subrange(0, 8) =~= spec_u64_to_le_bytes(n));
            assert(body.subrange(8, body.len() as int) =~= l);
        },
        ContentModel::RespMessageFrom { from, message } => {
            let n = message.len() as u64;
            assert(body =~= seq![from] + spec_u64_to_le_bytes(n) + message);
            assert(body.subrange(1, 9) =~= spec_u64_to_le_bytes(n));
            assert(body.subrange(9, body.len() as int) =~= message);
            assert(body[0] == from);
        },
        ContentModel::ErrWrongClientId => {
            assert(body.len() == 0);
        },
    }
}

pub proof fn lemma_encode_u64_list_snoc(l: Seq<u64>, x: u64)
    ensures
        spec_encode_u64_list(l.push(x)) == spec_encode_u64_list(l) + spec_u64_to_le_bytes(x),
    decreases l.len(),
{
    if l.len() == 0 {
        assert(l.push(x)[0] == x);
        assert(l.push(x).drop_first() =~= Seq::<u64>::empty());
        assert(spec_encode_u64_list(l.push(x).drop_first()) == Seq::<u8>::empty());
        assert(spec_encode_u64_list(l) == Seq::<u8>::empty());
        assert(spec_encode_u64_list(l.push(x)) =~= spec_encode_u64_list(l) + spec_u64_to_le_bytes(
            x,
        ));
    } else {
        lemma_encode_u64_list_snoc(l.drop_first(), x);
        assert(l.push(x)[0] == l[0]);
        assert(l.push(x).drop_first() =~= l.drop_first().push(x));
        assert(spec_encode_u64_list(l.push(x)) == spec_u64_to_le_bytes(l[0])
            + (spec_encode_u64_list(l.drop_first()) + spec_u64_to_le_bytes(x)));
        assert(spec_encode_u64_list(l.push(x)) =~= spec_encode_u64_list(l) + spec_u64_to_le_bytes(
            x,
        ));
    }
}

/// Appends the eight little-endian bytes of `x`.
pub fn push_u64_le(out: &mut Vec<u8>, x: u64)
    ensures
        final(out)@ == old(out)@ + spec_u64_to_le_bytes(x),
{
    let mut b = vstd::bytes::u64_to_le_bytes(x);
    out.append(&mut b);
}

/// Appends a copy of the given bytes.
pub fn push_bytes(out: &mut Vec<u8>, b: &Vec<u8>)
    ensures
        final(out)@ == old(out)@ + b@,
{
    let mut i: usize = 0;
    while i < b.len()
        invariant
            i <= b.len(),
            out@ == old(out)@ + b@.take(i as int),
        decreases b.len() - i,
    {
        out.push(b[i]);
        proof {
            assert(old(out)@ + b@.take(i + 1 as int) =~= (old(out)@ + b@.take(i as int)).push(
                b@[i as int],
            ));
        }
        i = i + 1;
    }
    proof {
        assert(b@.take(b@.len() as int) =~= b@);
    }
}

/// Serializes one content value into its wire form.
pub fn serialize_content(c: &MessageContent) -> (r: Vec<u8>)
    ensures
        r@ == spec_encode_content(c@),
{
    let mut out: Vec<u8> = Vec::new();
    match c {
        MessageContent::ReqServerType => {
            out.push(TAG_REQ_SERVER_TYPE);
            proof {
                assert(out@ =~= spec_encode_content(c@));
            }
        },
        MessageContent::ReqFilesList => {
            out.push(TAG_REQ_FILES_LIST);
            proof {
                assert(out@ =~= spec_encode_content(c@));
            }
        },
        MessageContent::ReqFile(f) => {
            out.push(TAG_REQ_FILE);
            push_u64_le(&mut out, *f);
            proof {
                assert(out@ =~= spec_encode_content(c@));
            }
        },
        MessageContent::ReqMedia(m) => {
            out.push(TAG_REQ_MEDIA);
            push_u64_le(&mut out, *m);
            proof {
                assert(out@ =~= spec_encode_content(c@));
            }
        },
        MessageContent::ReqClientList => {
            out.push(TAG_REQ_CLIENT_LIST);
            proof {
                assert(out@ =~= spec_encode_content(c@));
            }
        },
        MessageContent::ReqRegistrationToChat => {
            out.push(TAG_REQ_REGISTRATION_TO_CHAT);
            proof {
                assert(out@ =~= spec_encode_content(c@));
            }
        },
        MessageContent::ReqMessageSend { to, message } => {
            out.push(TAG_REQ_MESSAGE_SEND);
            out.push(*to);
            push_u64_le(&mut out, message.len() as u64);
            push_bytes(&mut out, message);
            proof {
                assert(out@ =~= spec_encode_content(c@));
            }
        },
        MessageContent::RespServerType(t) => {
            out.push(TAG_RESP_SERVER_TYPE);
            let b: u8 = match t {
                ServerType::Chat => 0,
                ServerType::Text => 1,
                ServerType::Media => 2,
            };
            out.push(b);
            proof {
                assert(out@ =~= spec_encode_content(c@));
            }
        },
        MessageContent::RespFilesList(l) => {
            out.push(TAG_RESP_FILES_LIST);
            push_u64_le(&mut out, l.len() as u64);
            let ghost prefix = out@;
            let mut i: usize = 0;
            while i < l.len()
                invariant
                    i <= l.len(),
                    out@ == prefix + spec_encode_u64_list(l@.take(i as int)),
                decreases l.len() - i,
            {
                push_u64_le(&mut out, l[i]);
                proof {
                    lemma_encode_u64_list_snoc(l@.take(i as int), l@[i as int]);
                    assert(l@.take(i + 1 as int) =~= l@.take(i as int).push(l@[i as int]));
                    assert(out@ =~= prefix + spec_encode_u64_list(l@.take(i + 1 as int)));
                }
                i = i + 1;
            }
            proof {
                assert(l@.take(l@.len() as int) =~= l@);
                assert(out@ =~= spec_encode_content(c@));
            }
        },
        MessageContent::RespFile(b) => {
            out.push(TAG_RESP_FILE);
            push_u64_le(&mut out, b.len() as u64);
            push_bytes(&mut out, b);
            proof {
                assert(out@ =~= spec_encode_content(c@));
            }
        },
        MessageContent::RespMedia(b) => {
            out.push(TAG_RESP_MEDIA);
            push_u64_le(&mut out, b.len() as u64);
            push_bytes(&mut out, b);
            proof {
                assert(out@ =~= spec_encode_content(c@));
            }
        },
        MessageContent::ErrUnsupportedRequestType => {
            out.push(TAG_ERR_UNSUPPORTED_REQUEST_TYPE);
            proof {
                assert(out@ =~= spec_encode_content(c@));
            }
        },
        MessageContent::ErrRequestedNotFound => {
            out.push(TAG_ERR_REQUESTED_NOT_FOUND);
            proof {
                assert(out@ =~= spec_encode_content(c@));
            }
        },
        MessageContent::RespClientList(l) => {
            out.push(TAG_RESP_CLIENT_LIST);
            push_u64_le(&mut out, l.len() as u64);
            push_bytes(&mut out, l);
            proof {
                assert(out@ =~= spec_encode_content(c@));
            }
        },
        MessageContent::RespMessageFrom { from, message } => {
            out.push(TAG_RESP_MESSAGE_FROM);
            out.push(*from);
            push_u64_le(&mut out, message.len() as u64);
            push_bytes(&mut out, message);
            proof {
                assert(out@ =~= spec_encode_content(c@));
            }
        },
        MessageContent::ErrWrongClientId => {
            out.push(TAG_ERR_WRONG_CLIENT_ID);
            proof {
                assert(out@ =~= spec_encode_content(c@));
            }
        },
    }
    out
}

/// Serializes message data: source id, session id, then the content.
pub fn serialize_data(d: &MessageData) -> (r: Vec<u8>)
    ensures
        r@ == spec_encode_data(d@),
{
    let mut out: Vec<u8> = Vec::new();
    out.push(d.source_id);
    push_u64_le(&mut out, d.session_id);
    let mut content = serialize_content(&d.content);
    out.append(&mut content);
    proof {
        assert(out@ =~= spec_encode_data(d@));
    }
    out
}

/// Parses one content value from its wire form; the exact executable
/// counterpart of the spec-level decoder.
pub fn parse_content(s: &Vec<u8>) -> (r: Option<MessageContent>)
    ensures
        match spec_decode_content(s@) {
            Some(cm) => r matches Some(c) && c@ == cm,
            None => r is None,
        },
{
    let n = s.len();
    if n < 1 {
        return None;
    }
    let ghost body = s@.subrange(1, s@.len() as int);
    let tag = s[0];
    if tag == TAG_REQ_SERVER_TYPE {
        if n == 1 {
            Some(MessageContent::ReqServerType)
        } else {
            None
        }
    } else if tag == TAG_REQ_FILES_LIST {
        if n == 1 {
            Some(MessageContent::ReqFilesList)
        } else {
            None
        }
    } else if tag == TAG_REQ_FILE {
        if n == 9 {
            let x = vstd::bytes::u64_from_le_bytes(
                vstd::slice::slice_subrange(s.as_slice(), 1, 9),
            );
            proof {
                assert(body =~= s@.subrange(1, 9));
            }
            Some(MessageContent::ReqFile(x))
        } else {
            None
        }
    } else if tag == TAG_REQ_MEDIA {
        if n == 9 {
            let x = vstd::bytes::u64_from_le_bytes(
                vstd::slice::slice_subrange(s.as_slice(), 1, 9),
            );
            proof {
                assert(body =~= s@.subrange(1, 9));
            }
            Some(MessageContent::ReqMedia(x))
        } else {
            None
        }
    } else if tag == TAG_REQ_CLIENT_LIST {
        if n == 1 {
            Some(MessageContent::ReqClientList)
        } else {
            None
        }
    } else if tag == TAG_REQ_REGISTRATION_TO_CHAT {
        if n == 1 {
            Some(MessageContent::ReqRegistrationToChat)
        } else {
            None
        }
    } else if tag == TAG_REQ_MESSAGE_SEND {
        if n >= 10 {
            let to = s[1];
            let ln = vstd::bytes::u64_from_le_bytes(
                vstd::slice::slice_subrange(s.as_slice(), 2, 10),
            );
            proof {
                assert(body.subrange(1, 9) =~= s@.subrange(2, 10));
            }
            if (n - 10) as u64 == ln {
                let message = vstd::slice::slice_to_vec(
                    vstd::slice::slice_subrange(s.as_slice(), 10, n),
                );
                proof {
                    assert(body.subrange(9, body.len() as int) =~= s@.subrange(10, n as int));
                    assert(body[0] == to);
                }
                Some(MessageContent::ReqMessageSend { to, message })
            } else {
                None
            }
        } else {
            None
        }
    } else if tag == TAG_RESP_SERVER_TYPE {
        if n == 2 && s[1] <= 2 {
            let t = if s[1] == 0 {
                ServerType::Chat
            } else if s[1] == 1 {
                ServerType::Text
            } else {
                ServerType::Media
            };
            proof {
                assert(body[0] == s@[1]);
                assert(body.len() == 1);
            }
            Some(MessageContent::RespServerType(t))
        } else {
            None
        }
    } else if tag == TAG_RESP_FILES_LIST {
        if n >= 9 {
            let count = vstd::bytes::u64_from_le_bytes(
                vstd::slice::slice_subrange(s.as_slice(), 1, 9),
            );
            proof {
                assert(body.subrange(0, 8) =~= s@.subrange(1, 9));
            }
            let rem = n - 9;
            if rem % 8 == 0 && (rem / 8) as u64 == count {
                proof {
                    assert(rem == 8 * (rem / 8)) by (nonlinear_arith)
                        requires
                            rem % 8 == 0,
                    ;
                }
                let items = rem / 8;
                let mut out: Vec<u64> = Vec::new();
                let mut i: usize = 0;
                while i < items
                    invariant
                        i <= items,
                        n == s@.len(),
                        n >= 9,
                        rem == n - 9,
                        rem == 8 * items,
                        out@.len() == i,
                        forall|j: int|
                            0 <= j < i ==> out@[j] == spec_u64_from_le_bytes(
                                s@.subrange(9 + 8 * j, 17 + 8 * j),
                            ),
                    decreases items - i,
                {
                    proof {
                        assert(8 * i + 8 <= rem) by (nonlinear_arith)
                            requires
                                i < items,
                                rem == 8 * items,
                        ;
                    }
                    let x = vstd::bytes::u64_from_le_bytes(
                        vstd::slice::slice_subrange(s.as_slice(), 9 + 8 * i, 17 + 8 * i),
                    );
                    out.push(x);
                    i = i + 1;
                }
                proof {
                    let tail = body.subrange(8, body.len() as int);
                    assert(tail =~= s@.subrange(9, n as int));
                    assert(tail.len() == rem);
                    assert(tail.len() as nat / 8 == items) by (nonlinear_arith)
                        requires
                            tail.len() == rem,
                            rem == 8 * items,
                    ;
                    assert forall|j: int| 0 <= j < items implies spec_decode_u64_list(tail)[j]
                        == out@[j] by {
                        assert(tail.subrange(8 * j, 8 * j + 8) =~= s@.subrange(
                            9 + 8 * j,
                            17 + 8 * j,
                        ));
                    }
                    assert(out@ =~= spec_decode_u64_list(tail));
                    assert(body.len() == 8 + 8 * count);
                }
                Some(MessageContent::RespFilesList(out))
            } else {
                proof {
                    if body.len() >= 8 && body.len() == 8 + 8 * count {
                        assert(rem == 8 * count);
                        assert(rem % 8 == 0 && rem / 8 == count) by (nonlinear_arith)
                            requires
                                rem == 8 * count,
                        ;
                    }
                }
                None
            }
        } else {
            None
        }
    } else if tag == TAG_RESP_FILE {
        if n >= 9 {
            let ln = vstd::bytes::u64_from_le_bytes(
                vstd::slice::slice_subrange(s.as_slice(), 1, 9),
            );
            proof {
                assert(body.subrange(0, 8) =~= s@.subrange(1, 9));
            }
            if (n - 9) as u64 == ln {
                let bytes = vstd::slice::slice_to_vec(
                    vstd::slice::slice_subrange(s.as_slice(), 9, n),
                );
                proof {
                    assert(body.subrange(8, body.len() as int) =~= s@.subrange(9, n as int));
                }
                Some(MessageContent::RespFile(bytes))
            } else {
                None
            }
        } else {
            None
        }
    } else if tag == TAG_RESP_MEDIA {
        if n >= 9 {
            let ln = vstd::bytes::u64_from_le_bytes(
                vstd::slice::slice_subrange(s.as_slice(), 1, 9),
            );
            proof {
                assert(body.subrange(0, 8) =~= s@.subrange(1, 9));
            }
            if (n - 9) as u64 == ln {
                let bytes = vstd::slice::slice_to_vec(
                    vstd::slice::slice_subrange(s.as_slice(), 9, n),
                );
                proof {
                    assert(body.subrange(8, body.len() as int) =~= s@.subrange(9, n as int));
                }
                Some(MessageContent::RespMedia(bytes))
            } else {
                None
            }
        } else {
            None
        }
    } else if tag == TAG_ERR_UNSUPPORTED_REQUEST_TYPE {
        if n == 1 {
            Some(MessageContent::ErrUnsupportedRequestType)
        } else {
            None
        }
    } else if tag == TAG_ERR_REQUESTED_NOT_FOUND {
        if n == 1 {
            Some(MessageContent::ErrRequestedNotFound)
        } else {
            None
        }
    } else if tag == TAG_RESP_CLIENT_LIST {
        if n >= 9 {
            let ln = vstd::bytes::u64_from_le_bytes(
                vstd::slice::slice_subrange(s.as_slice(), 1, 9),
            );
            proof {
                assert(body.subrange(0, 8) =~= s@.subrange(1, 9));
            }
            if (n - 9) as u64 == ln {
                let ids = vstd::slice::slice_to_vec(
                    vstd::slice::slice_subrange(s.as_slice(), 9, n),
                );
                proof {
                    assert(body.subrange(8, body.len() as int) =~= s@.subrange(9, n as int));
                }
                Some(MessageContent::RespClientList(ids))
            } else {
                None
            }
        } else {
            None
        }
    } else if tag == TAG_RESP_MESSAGE_FROM {
        if n >= 10 {
            let from = s[1];
            let ln = vstd::bytes::u64_from_le_bytes(
                vstd::slice::slice_subrange(s.as_slice(), 2, 10),
            );
            proof {
                assert(body.subrange(1, 9) =~= s@.subrange(2, 10));
            }
            if (n - 10) as u64 == ln {
                let message = vstd::slice::slice_to_vec(
                    vstd::slice::slice_subrange(s.as_slice(), 10, n),
                );
                proof {
                    assert(body.subrange(9, body.len() as int) =~= s@.subrange(10, n as int));
                    assert(body[0] == from);
                }
                Some(MessageContent::RespMessageFrom { from, message })
            } else {
                None
            }
        } else {
            None
        }
    } else if tag == TAG_ERR_WRONG_CLIENT_ID {
        if n == 1 {
            Some(MessageContent::ErrWrongClientId)
        } else {
            None
        }
    } else {
        None
    }
}

/// Parses serialized message data; the exact executable counterpart of the
/// spec-level decoder.
pub fn parse_data(s: &Vec<u8>) -> (r: Option<MessageData>)
    ensures
        match spec_decode_data(s@) {
            Some(dm) => r matches Some(d) && d@ == dm,
            None => r is None,
        },
{
    let n = s.len();
    if n < 9 {
        return None;
    }
    let source_id = s[0];
    let session_id = vstd::bytes::u64_from_le_bytes(
        vstd::slice::slice_subrange(s.as_slice(), 1, 9),
    );
    let tail = vstd::slice::slice_to_vec(vstd::slice::slice_subrange(s.as_slice(), 9, n));
    let content = parse_content(&tail);
    match content {
        Some(content) => Some(MessageData { source_id, session_id, content }),
        None => None,
    }
}

/// The full serialization of message data is lossless.
pub proof fn lemma_data_round_trip(d: DataModel)
    requires
        data_model_valid(d),
    ensures
        spec_decode_data(spec_encode_data(d)) == Some(d),
{
    lemma_auto_spec_u64_to_from_le_bytes();
    let e = spec_encode_data(d);
    assert(e.subrange(1, 9) =~= spec_u64_to_le_bytes(d.session_id));
    assert(e.subrange(9, e.len() as int) =~= spec_encode_content(d.content));
    lemma_content_round_trip(d.content);
}

/// How many fragments a serialized byte sequence of the given length
/// occupies. An empty sequence still takes one (empty) fragment, so that
/// the receiver always has something to count.
pub open spec fn spec_n_fragments(len: nat) -> nat {
    if len == 0 {
        1
    } else {
        (len + 79) / 80
    }
}

/// The bytes of the fragment with index `i`: the `i`-th chunk of up to 80
/// bytes.
pub open spec fn spec_fragment_payload(s: Seq<u8>, i: int) -> Seq<u8>
    recommends
        0 <= i < spec_n_fragments(s.len()),
{
    s.subrange(80 * i, if 80 * i + 80 <= s.len() { 80 * i + 80 } else { s.len() as int })
}

/// What `disassembly` promises of its result, fragment for fragment.
pub open spec fn spec_fragments_of(frags: Seq<Fragment>, s: Seq<u8>) -> bool {
    &&& frags.len() == spec_n_fragments(s.len())
    &&& forall|i: int|
        0 <= i < frags.len() ==> {
            &&& (#[trigger] frags[i]).fragment_index == i
            &&& frags[i].total_n_fragments == spec_n_fragments(s.len())
            &&& frags[i].well_formed()
            &&& frags[i].payload() == spec_fragment_payload(s, i)
        }
}


/// The payloads of the fragments, in sequence order, as one byte sequence.
/// Proof machinery: reassembly itself goes by fragment index, not by
/// sequence order.
spec fn spec_concat_payloads(frags: Seq<Fragment>) -> Seq<u8>
    decreases frags.len(),
{
    if frags.len() == 0 {
        Seq::empty()
    } else {
        frags[0].payload() + spec_concat_payloads(frags.drop_first())
    }
}

proof fn lemma_concat_payloads_snoc(frags: Seq<Fragment>, f: Fragment)
    ensures
        spec_concat_payloads(frags.push(f)) == spec_concat_payloads(frags) + f.payload(),
    decreases frags.len(),
{
    if frags.len() == 0 {
        assert(frags.push(f)[0] == f);
        assert(frags.push(f).drop_first() =~= Seq::<Fragment>::empty());
        assert(spec_concat_payloads(frags.push(f).drop_first()) == Seq::<u8>::empty());
        assert(spec_concat_payloads(frags) == Seq::<u8>::empty());
        assert(spec_concat_payloads(frags.push(f)) =~= spec_concat_payloads(frags) + f.payload());
    } else {
        lemma_concat_payloads_snoc(frags.drop_first(), f);
        assert(frags.push(f)[0] == frags[0]);
        assert(frags.push(f).drop_first() =~= frags.drop_first().push(f));
        assert(spec_concat_payloads(frags.push(f)) == frags[0].payload() + (spec_concat_payloads(
            frags.drop_first(),
        ) + f.payload()));
        assert(spec_concat_payloads(frags.push(f)) =~= spec_concat_payloads(frags) + f.payload());
    }
}

proof fn lemma_concat_payloads_from(s: Seq<u8>, frags: Seq<Fragment>, k: int)
    requires
        spec_fragments_of(frags, s),
        0 <= k <= frags.len(),
    ensures
        spec_concat_payloads(frags.skip(k)) == s.skip(
            if 80 * k <= s.len() {
                80 * k
            } else {
                s.len() as int
            },
        ),
    decreases frags.len() - k,
{
    let len = s.len() as int;
    let n = frags.len() as int;
    if k == n {
        assert(frags.skip(k) =~= Seq::<Fragment>::empty());
        if s.len() == 0 {
        } else {
            assert(80 * n >= len) by (nonlinear_arith)
                requires
                    n == (len + 79) / 80,
                    len > 0,
            ;
        }
        assert(s.skip(len) =~= Seq::<u8>::empty());
    } else {
        lemma_concat_payloads_from(s, frags, k + 1);
        assert(frags.skip(k)[0] == frags[k]);
        assert(frags.skip(k).drop_first() =~= frags.skip(k + 1));
        if s.len() == 0 {
            assert(k == 0 && n == 1);
            assert(frags[0].payload() =~= Seq::<u8>::empty());
            assert(spec_concat_payloads(frags.skip(0)) =~= Seq::<u8>::empty());
            assert(s.skip(0) =~= Seq::<u8>::empty());
        } else {
            assert(80 * k < len) by (nonlinear_arith)
                requires
                    n == (len + 79) / 80,
                    len > 0,
                    0 <= k < n,
            ;
            let mid = if 80 * k + 80 <= len {
                80 * k + 80
            } else {
                len
            };
            let next = if 80 * (k + 1) <= len {
                80 * (k + 1)
            } else {
                len
            };
            assert(mid == next);
            assert(frags[k].payload() == s.subrange(80 * k, mid));
            assert(s.subrange(80 * k, mid) + s.skip(next) =~= s.skip(80 * k));
        }
    }
}

/// The position of the first fragment carrying the given index, or the
/// sequence length where none does.
pub open spec fn spec_first_with(frags: Seq<Fragment>, i: u64) -> int
    decreases frags.len(),
{
    if frags.len() == 0 {
        0
    } else if frags[0].fragment_index == i {
        0
    } else {
        1 + spec_first_with(frags.drop_first(), i)
    }
}

pub proof fn lemma_first_with(frags: Seq<Fragment>, i: u64)
    ensures
        0 <= spec_first_with(frags, i) <= frags.len(),
        spec_first_with(frags, i) < frags.len() ==> frags[spec_first_with(
            frags,
            i,
        )].fragment_index == i,
        forall|k: int|
            0 <= k < spec_first_with(frags, i) ==> (#[trigger] frags[k]).fragment_index != i,
    decreases frags.len(),
{
    if frags.len() > 0 && frags[0].fragment_index != i {
        lemma_first_with(frags.drop_first(), i);
        let f = spec_first_with(frags, i);
        assert forall|k: int| 0 <= k < f implies (#[trigger] frags[k]).fragment_index != i by {
            if k >= 1 {
                assert(frags.drop_first()[k - 1] == frags[k]);
            }
        }
        if f < frags.len() {
            assert(frags.drop_first()[f - 1] == frags[f]);
        }
    }
}

/// The bytes reassembly holds for one index: the first-held fragment's
/// payload — later duplicates are discarded — or nothing where the index was
/// never received.
pub open spec fn spec_payload_at(frags: Seq<Fragment>, i: u64) -> Seq<u8> {
    if spec_first_with(frags, i) < frags.len() {
        frags[spec_first_with(frags, i)].payload()
    } else {
        Seq::empty()
    }
}

/// The held payloads of the indices below `k`, in increasing index order.
pub open spec fn spec_assemble_upto(frags: Seq<Fragment>, k: int) -> Seq<u8>
    decreases k,
{
    if k <= 0 {
        Seq::empty()
    } else {
        spec_assemble_upto(frags, k - 1) + spec_payload_at(frags, (k - 1) as u64)
    }
}

/// What reassembly returns: one payload per fragment index — the first held
/// wins — concatenated in increasing index order, over the total the first
/// fragment announces.
pub open spec fn spec_assembled(frags: Seq<Fragment>) -> Seq<u8> {
    if frags.len() == 0 {
        Seq::empty()
    } else {
        spec_assemble_upto(frags, frags[0].total_n_fragments as int)
    }
}

/// In a sequence whose fragments sit at their own indices, reassembly picks
/// exactly the fragment at each position.
proof fn lemma_payload_at_positional(frags: Seq<Fragment>, i: int)
    requires
        forall|j: int| 0 <= j < frags.len() ==> (#[trigger] frags[j]).fragment_index == j,
        0 <= i < frags.len(),
    ensures
        spec_first_with(frags, i as u64) == i,
        spec_payload_at(frags, i as u64) == frags[i].payload(),
{
    lemma_first_with(frags, i as u64);
    let f = spec_first_with(frags, i as u64);
    assert(frags[i].fragment_index == i);
    if f == frags.len() {
        assert(frags[i].fragment_index != i as u64);
        assert(false);
    }
    assert(frags[f].fragment_index == f);
}

proof fn lemma_upto_eq_concat(frags: Seq<Fragment>, k: int)
    requires
        forall|j: int| 0 <= j < frags.len() ==> (#[trigger] frags[j]).fragment_index == j,
        0 <= k <= frags.len(),
    ensures
        spec_assemble_upto(frags, k) == spec_concat_payloads(frags.take(k)),
    decreases k,
{
    if k == 0 {
        assert(frags.take(0) =~= Seq::<Fragment>::empty());
    } else {
        lemma_upto_eq_concat(frags, k - 1);
        lemma_payload_at_positional(frags, k - 1);
        lemma_concat_payloads_snoc(frags.take(k - 1), frags[k - 1]);
        assert(frags.take(k) =~= frags.take(k - 1).push(frags[k - 1]));
    }
}

/// Splitting a byte sequence into fragments and reassembling them — by
/// fragment index — gives back the original bytes exactly.
pub proof fn lemma_fragmentation_round_trip(s: Seq<u8>, frags: Seq<Fragment>)
    requires
        spec_fragments_of(frags, s),
    ensures
        spec_assembled(frags) == s,
{
    lemma_concat_payloads_from(s, frags, 0);
    assert(frags.skip(0) =~= frags);
    assert(s.skip(0) =~= s);
    assert(frags.len() >= 1) by {
        if s.len() > 0 {
            assert((s.len() + 79) as int / 80 >= 1) by (nonlinear_arith)
                requires
                    s.len() > 0,
            ;
        }
    }
    assert(frags[0].total_n_fragments == frags.len());
    lemma_upto_eq_concat(frags, frags.len() as int);
    assert(frags.take(frags.len() as int) =~= frags);
}

proof fn lemma_upto_pointwise(a: Seq<Fragment>, b: Seq<Fragment>, k: int)
    requires
        forall|i: int|
            0 <= i < k ==> #[trigger] spec_payload_at(a, i as u64) == spec_payload_at(b, i as u64),
    ensures
        spec_assemble_upto(a, k) == spec_assemble_upto(b, k),
    decreases k,
{
    if k > 0 {
        lemma_upto_pointwise(a, b, k - 1);
    }
}

/// Reassembly is order-independent and discards duplicates: any sequence of
/// fragments drawn from one split of `s` — in any order, with any fragment
/// repeated — that still covers every index of the split reassembles to `s`
/// exactly.
pub proof fn lemma_assembly_order_independent(
    s: Seq<u8>,
    original: Seq<Fragment>,
    frags: Seq<Fragment>,
)
    requires
        spec_fragments_of(original, s),
        forall|k: int|
            0 <= k < frags.len() ==> exists|j: int|
                0 <= j < original.len() && (#[trigger] frags[k]) == original[j],
        forall|i: int|
            0 <= i < original.len() ==> #[trigger] spec_first_with(frags, i as u64) < frags.len(),
    ensures
        spec_assembled(frags) == s,
{
    let n = original.len() as int;
    lemma_fragmentation_round_trip(s, original);
    assert(n >= 1);
    let i0: int = 0;
    assert(spec_first_with(frags, i0 as u64) < frags.len());
    assert(frags.len() >= 1);
    let j0 = choose|j: int| 0 <= j < n && frags[0] == original[j];
    assert(frags[0].total_n_fragments == n);
    assert forall|i: int|
        0 <= i < n implies #[trigger] spec_payload_at(original, i as u64) == spec_payload_at(
        frags,
        i as u64,
    ) by {
        lemma_payload_at_positional(original, i);
        lemma_first_with(frags, i as u64);
        let f = spec_first_with(frags, i as u64);
        assert(frags[f].fragment_index == i as u64);
        let j = choose|j: int| 0 <= j < n && frags[f] == original[j];
        assert(original[j].fragment_index == j);
        assert(j == i);
    }
    lemma_upto_pointwise(original, frags, n);
    assert(spec_assembled(frags) == spec_assemble_upto(frags, n));
    assert(spec_assembled(original) == spec_assemble_upto(original, n));
}

/// Serializing message data, fragmenting the bytes, reassembling the
/// fragments, and deserializing gives back the original data exactly.
pub proof fn lemma_message_round_trip(d: DataModel, frags: Seq<Fragment>)
    requires
        data_model_valid(d),
        spec_fragments_of(frags, spec_encode_data(d)),
    ensures
        spec_decode_data(spec_assembled(frags)) == Some(d),
{
    lemma_fragmentation_round_trip(spec_encode_data(d), frags);
    lemma_data_round_trip(d);
}

/// Splits serialized bytes into fragments of at most 80 payload bytes,
/// numbered from 0, every one carrying the same total count.
pub fn disassemble(serialized: &Vec<u8>) -> (r: Vec<Fragment>)
    requires
        serialized@.len() + 80 <= usize::MAX,
    ensures
        spec_fragments_of(r@, serialized@),
{
    let len = serialized.len();
    let total: usize = if len == 0 {
        1
    } else {
        (len + 79) / 80
    };
    proof {
        if len > 0 {
            assert(80 * total >= len && 80 * (total - 1) < len) by (nonlinear_arith)
                requires
                    total == (len + 79) / 80,
                    len > 0,
            ;
        }
    }
    let mut frags: Vec<Fragment> = Vec::new();
    let mut i: usize = 0;
    while i < total
        invariant
            i <= total,
            len == serialized@.len(),
            len + 80 <= usize::MAX,
            total == spec_n_fragments(len as nat),
            len > 0 ==> 80 * total >= len && 80 * (total - 1) < len,
            frags@.len() == i,
            forall|j: int|
                0 <= j < i ==> {
                    &&& (#[trigger] frags@[j]).fragment_index == j
                    &&& frags@[j].total_n_fragments == total
                    &&& frags@[j].well_formed()
                    &&& frags@[j].payload() == spec_fragment_payload(serialized@, j)
                },
        decreases total - i,
    {
        proof {
            if len > 0 {
                assert(80 * i < len) by (nonlinear_arith)
                    requires
                        i < total,
                        80 * (total - 1) < len,
                        len > 0,
                ;
            }
        }
        let start = 80 * i;
        let end = if start + 80 <= len {
            start + 80
        } else {
            len
        };
        let mut data = [0u8; 80];
        let mut j: usize = 0;
        while j < end - start
            invariant
                j <= end - start,
                end - start <= 80,
                start <= end,
                end <= len,
                len == serialized@.len(),
                data@.len() == 80,
                forall|k: int| 0 <= k < j ==> data@[k] == serialized@[start + k],
            decreases end - start - j,
        {
            data[j] = serialized[start + j];
            j = j + 1;
        }
        let length = (end - start) as u8;
        let frag = Fragment {
            fragment_index: i as u64,
            total_n_fragments: total as u64,
            data: FragmentData { length, data },
        };
        proof {
            assert(frag.payload() =~= serialized@.subrange(start as int, end as int));
        }
        frags.push(frag);
        i = i + 1;
    }
    frags
}

/// The position of the first held fragment carrying the given index, or the
/// number of fragments where none does.
fn find_first_with(fragments: &Vec<Fragment>, i: u64) -> (r: usize)
    ensures
        r == spec_first_with(fragments@, i),
{
    let mut k: usize = 0;
    while k < fragments.len()
        invariant
            k <= fragments@.len(),
            forall|j: int| 0 <= j < k ==> (#[trigger] fragments@[j]).fragment_index != i,
        decreases fragments@.len() - k,
    {
        if fragments[k].fragment_index == i {
            proof {
                lemma_first_with(fragments@, i);
                let f = spec_first_with(fragments@, i);
                if f < k {
                    assert(fragments@[f].fragment_index != i);
                }
                if f > k as int {
                    assert(fragments@[k as int].fragment_index != i);
                }
            }
            return k;
        }
        k = k + 1;
    }
    proof {
        lemma_first_with(fragments@, i);
        let f = spec_first_with(fragments@, i);
        if f < fragments@.len() {
            assert(fragments@[f].fragment_index != i);
        }
    }
    fragments.len()
}

/// Reassembles held fragments by fragment index: for each index below the
/// total the first fragment announces, the first fragment carrying that
/// index contributes its used bytes — later duplicates are discarded — and
/// the payloads are concatenated in increasing index order, whatever order
/// the fragments arrived in. An index never received contributes nothing.
pub fn assemble(fragments: &Vec<Fragment>) -> (r: Vec<u8>)
    requires
        forall|i: int| 0 <= i < fragments@.len() ==> (#[trigger] fragments@[i]).data.well_formed(),
    ensures
        r@ == spec_assembled(fragments@),
{
    let mut out: Vec<u8> = Vec::new();
    if fragments.len() == 0 {
        proof {
            assert(out@ =~= Seq::<u8>::empty());
        }
        return out;
    }
    let total = fragments[0].total_n_fragments;
    let mut i: u64 = 0;
    while i < total
        invariant
            fragments@.len() >= 1,
            total == fragments@[0].total_n_fragments,
            i <= total,
            forall|k: int|
                0 <= k < fragments@.len() ==> (#[trigger] fragments@[k]).data.well_formed(),
            out@ == spec_assemble_upto(fragments@, i as int),
        decreases total - i,
    {
        let pos = find_first_with(fragments, i);
        let ghost prefix = out@;
        if pos < fragments.len() {
            let frag = &fragments[pos];
            let mut j: usize = 0;
            while j < frag.data.length as usize
                invariant
                    j <= frag.data.length,
                    frag.data.well_formed(),
                    frag == fragments@[pos as int],
                    0 <= pos < fragments@.len(),
                    out@ == prefix + frag.data.data@.take(j as int),
                decreases frag.data.length - j,
            {
                out.push(frag.data.data[j]);
                proof {
                    assert(prefix + frag.data.data@.take(j + 1 as int) =~= (prefix
                        + frag.data.data@.take(j as int)).push(frag.data.data@[j as int]));
                }
                j = j + 1;
            }
            proof {
                assert(frag.data.data@.take(frag.data.length as int) == frag.payload());
                assert(spec_payload_at(fragments@, i) == frag.payload());
                assert((i + 1 as int) - 1 == i as int);
                assert(out@ =~= spec_assemble_upto(fragments@, i + 1 as int));
            }
        } else {
            proof {
                assert(spec_payload_at(fragments@, i) == Seq::<u8>::empty());
                assert(out@ =~= spec_assemble_upto(fragments@, i + 1 as int));
            }
        }
        i = i + 1;
    }
    out
}

} // verus!
