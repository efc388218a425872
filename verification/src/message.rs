//! Application-level messages. A message lives only above the fragmentation
//! boundary: it is serialized to bytes, split into fragments, and rebuilt on
//! the far side; it is never placed on the wire directly.

use vstd::prelude::*;
use crate::routing::{NodeId, SourceRoutingHeader};
use crate::packet::Fragment;

verus! {

#[derive(Clone, Copy, Debug, PartialEq, Eq, Structural)]
pub enum ServerType {
    Chat,
    Text,
    Media,
}

/// An application message: the data that is fragmentized, plus the route the
/// sender intends it to travel.
#[derive(Clone, Debug)]
pub struct Message {
    pub message_data: MessageData,
    pub routing_header: SourceRoutingHeader,
}

/// The part of a message that the codec serializes and fragments.
#[derive(Clone, Debug)]
pub struct MessageData {
    pub source_id: NodeId,
    pub session_id: u64,
    pub content: MessageContent,
}

/// The closed set of request and response payloads.
#[derive(Clone, Debug)]
pub enum MessageContent {
    ReqServerType,
    ReqFilesList,
    ReqFile(u64),
    ReqMedia(u64),
    ReqClientList,
    ReqRegistrationToChat,
    ReqMessageSend { to: NodeId, message: Vec<u8> },
    RespServerType(ServerType),
    RespFilesList(Vec<u64>),
    RespFile(Vec<u8>),
    RespMedia(Vec<u8>),
    ErrUnsupportedRequestType,
    ErrRequestedNotFound,
    RespClientList(Vec<NodeId>),
    RespMessageFrom { from: NodeId, message: Vec<u8> },
    ErrWrongClientId,
}

/// The mathematical shape of a `MessageContent`: byte and id vectors become
/// sequences.
pub enum ContentModel {
    ReqServerType,
    ReqFilesList,
    ReqFile(u64),
    ReqMedia(u64),
    ReqClientList,
    ReqRegistrationToChat,
    ReqMessageSend { to: NodeId, message: Seq<u8> },
    RespServerType(ServerType),
    RespFilesList(Seq<u64>),
    RespFile(Seq<u8>),
    RespMedia(Seq<u8>),
    ErrUnsupportedRequestType,
    ErrRequestedNotFound,
    RespClientList(Seq<NodeId>),
    RespMessageFrom { from: NodeId, message: Seq<u8> },
    ErrWrongClientId,
}

/// The mathematical shape of a `MessageData`.
pub struct DataModel {
    pub source_id: NodeId,
    pub session_id: u64,
    pub content: ContentModel,
}

impl View for MessageContent {
    type V = ContentModel;

    open spec fn view(&self) -> ContentModel {
        match self {
            MessageContent::ReqServerType => ContentModel::ReqServerType,
            MessageContent::ReqFilesList => ContentModel::ReqFilesList,
            MessageContent::ReqFile(f) => ContentModel::ReqFile(*f),
            MessageContent::ReqMedia(m) => ContentModel::ReqMedia(*m),
            MessageContent::ReqClientList => ContentModel::ReqClientList,
            MessageContent::ReqRegistrationToChat => ContentModel::ReqRegistrationToChat,
            MessageContent::ReqMessageSend { to, message } => ContentModel::ReqMessageSend {
                to: *to,
                message: message@,
            },
            MessageContent::RespServerType(t) => ContentModel::RespServerType(*t),
            MessageContent::RespFilesList(l) => ContentModel::RespFilesList(l@),
            MessageContent::RespFile(b) => ContentModel::RespFile(b@),
            MessageContent::RespMedia(b) => ContentModel::RespMedia(b@),
            MessageContent::ErrUnsupportedRequestType => ContentModel::ErrUnsupportedRequestType,
            MessageContent::ErrRequestedNotFound => ContentModel::ErrRequestedNotFound,
            MessageContent::RespClientList(l) => ContentModel::RespClientList(l@),
            MessageContent::RespMessageFrom { from, message } => ContentModel::RespMessageFrom {
                from: *from,
                message: message@,
            },
            MessageContent::ErrWrongClientId => ContentModel::ErrWrongClientId,
        }
    }
}

impl View for MessageData {
    type V = DataModel;

    open spec fn view(&self) -> DataModel {
        DataModel {
            source_id: self.source_id,
            session_id: self.session_id,
            content: self.content@,
        }
    }
}

impl Message {
    pub fn new(
        routing_header: SourceRoutingHeader,
        source_id: NodeId,
        session_id: u64,
        content: MessageContent,
    ) -> (r: Self)
        ensures
            r.routing_header == routing_header,
            r.message_data.source_id == source_id,
            r.message_data.session_id == session_id,
            r.message_data.content == content,
    {
        Message {
            routing_header,
            message_data: MessageData { source_id, session_id, content },
        }
    }

    /// Serializes the fragmentized part of the message (its data) into its
    /// self-describing wire form.
    pub fn serialize(&self) -> (r: Vec<u8>)
        ensures
            r@ == crate::codec::spec_encode_data(self.message_data@),
    {
        crate::codec::serialize_data(&self.message_data)
    }

    /// Rebuilds message data from its wire form. Returns `None` exactly when
    /// the bytes are not the serialization of any message data.
    pub fn deserialize(serialized: Vec<u8>) -> (r: Option<MessageData>)
        ensures
            match crate::codec::spec_decode_data(serialized@) {
                Some(dm) => r matches Some(d) && d@ == dm,
                None => r is None,
            },
    {
        crate::codec::parse_data(&serialized)
    }

    /// Splits serialized bytes into fragments of at most 80 payload bytes.
    pub fn disassembly(serialized: Vec<u8>) -> (r: Vec<Fragment>)
        requires
            serialized@.len() + 80 <= usize::MAX,
        ensures
            crate::codec::spec_fragments_of(r@, serialized@),
    {
        crate::codec::disassemble(&serialized)
    }

    /// Reassembles fragments into the serialized bytes: one payload per
    /// fragment index, in increasing index order, whatever order the
    /// fragments are handed in; duplicates of an already-held index are
    /// discarded.
    pub fn assembly(fragments: Vec<Fragment>) -> (r: Vec<u8>)
        requires
            forall|i: int|
                0 <= i < fragments@.len() ==> (#[trigger] fragments@[i]).data.well_formed(),
        ensures
            r@ == crate::codec::spec_assembled(fragments@),
    {
        crate::codec::assemble(&fragments)
    }
}

} // verus!
