//! The messages that peers exchange, the events that reach the peer
//! manager, and the requests made to the file store.
use crate::bits::bitvec_bits;
use bit_vec::BitVec;
use vstd::prelude::*;

verus! {

/// A message of the peer wire protocol.
pub enum Message {
    KeepAlive,
    Unchoke,
    Choke,
    Interested,
    NotInterested,
    Bitfield(BitVec),
    Request(u32, u32, u32),
    Have(u32),
    Piece(u32, u32, Vec<u8>),
    Cancel(u32, u32, u32),
    Port(u16),
}

/// A message as a mathematical value.
pub enum MessageModel {
    KeepAlive,
    Unchoke,
    Choke,
    Interested,
    NotInterested,
    Bitfield(Seq<bool>),
    Request(u32, u32, u32),
    Have(u32),
    Piece(u32, u32, Seq<u8>),
    Cancel(u32, u32, u32),
    Port(u16),
}

impl View for Message {
    type V = MessageModel;

    open spec fn view(&self) -> MessageModel {
        match self {
            Message::KeepAlive => MessageModel::KeepAlive,
            Message::Unchoke => MessageModel::Unchoke,
            Message::Choke => MessageModel::Choke,
            Message::Interested => MessageModel::Interested,
            Message::NotInterested => MessageModel::NotInterested,
            Message::Bitfield(bv) => MessageModel::Bitfield(bitvec_bits(*bv)),
            Message::Request(i, b, l) => MessageModel::Request(*i, *b, *l),
            Message::Have(i) => MessageModel::Have(*i),
            Message::Piece(i, b, block) => MessageModel::Piece(*i, *b, block@),
            Message::Cancel(i, b, l) => MessageModel::Cancel(*i, *b, *l),
            Message::Port(p) => MessageModel::Port(*p),
        }
    }
}

/// What reaches the peer manager: a message from a peer, a block written
/// to disk, a peer joining or leaving, or a block received with the speed
/// at which it came.
pub enum PeerManagerAction {
    MessageAction(Message),
    Download(u32, i64),
    AddPeer,
    RemovePeer,
    Piece(u32, u32, Vec<u8>, i64),
}

/// A peer manager event as a mathematical value.
pub enum ActionModel {
    MessageAction(MessageModel),
    Download(u32, i64),
    AddPeer,
    RemovePeer,
    Piece(u32, u32, Seq<u8>, i64),
}

impl View for PeerManagerAction {
    type V = ActionModel;

    open spec fn view(&self) -> ActionModel {
        match self {
            PeerManagerAction::MessageAction(m) => ActionModel::MessageAction(m@),
            PeerManagerAction::Download(i, b) => ActionModel::Download(*i, *b),
            PeerManagerAction::AddPeer => ActionModel::AddPeer,
            PeerManagerAction::RemovePeer => ActionModel::RemovePeer,
            PeerManagerAction::Piece(i, b, block, speed) => ActionModel::Piece(*i, *b, block@, *speed),
        }
    }
}

/// An event for the peer manager together with the peer it concerns.
pub struct Action {
    pub id: String,
    pub message: PeerManagerAction,
}

/// A request to the file store: read or write a block of a piece.
pub enum FileAction {
    Read(u32, u32, u32),
    Write(u32, u32, Vec<u8>),
}

} // verus!
