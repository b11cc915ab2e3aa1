//! What a client and a host say to each other.

use crate::download::{FilePacket, FileResponseHeader, PacketView, ResponseView};
use crate::tree::{FileTree, TreeView, forest};
use vstd::prelude::*;

verus! {

/// A message. One without content says that something went wrong on the other side.
pub struct Message(pub Option<MessageType>);

/// The content of a message.
pub enum MessageType {
    /// Asks for the trees that the host publishes.
    FileTreeRequest(Vec<FileTree>),
    /// Asks for the file with a hash.
    FileRequest(String),
    /// Announces the packets of a file.
    FileResponse(FileResponseHeader),
    /// Carries a packet of a file.
    FilePacket(FilePacket),
    /// Keeps the connection open.
    KeepAlive,
    /// Carries the trees that the host publishes.
    FileTreeResponse(Vec<FileTree>),
}

/// The mathematical value of a [`MessageType`].
#[verifier::ext_equal]
pub enum ContentView {
    FileTreeRequest(Seq<TreeView>),
    FileRequest(Seq<char>),
    FileResponse(ResponseView),
    FilePacket(PacketView),
    KeepAlive,
    FileTreeResponse(Seq<TreeView>),
}

impl View for MessageType {
    type V = ContentView;

    open spec fn view(&self) -> ContentView {
        match self {
            MessageType::FileTreeRequest(trees) => ContentView::FileTreeRequest(forest(trees@)),
            MessageType::FileRequest(hash) => ContentView::FileRequest(hash@),
            MessageType::FileResponse(response) => ContentView::FileResponse(response@),
            MessageType::FilePacket(packet) => ContentView::FilePacket(packet@),
            MessageType::KeepAlive => ContentView::KeepAlive,
            MessageType::FileTreeResponse(trees) => ContentView::FileTreeResponse(forest(trees@)),
        }
    }
}

impl View for Message {
    type V = Option<ContentView>;

    open spec fn view(&self) -> Option<ContentView> {
        match self.0 {
            Some(content) => Some(content@),
            None => None,
        }
    }
}

/// Whether a message is one that a host sends: a client alone makes requests.
pub open spec fn is_from_host(message: Option<ContentView>) -> bool {
    match message {
        Some(ContentView::FileTreeRequest(_)) => false,
        Some(ContentView::FileRequest(_)) => false,
        _ => true,
    }
}

impl Message {
    /// Whether the message is one that a host sends.
    pub fn from_host(&self) -> (from_host: bool)
        ensures
            from_host == is_from_host(self@),
            !from_host <==> (self.0 matches Some(content) && (content is FileTreeRequest
                || content is FileRequest)),
    {
        match &self.0 {
            Some(MessageType::FileTreeRequest(_)) => false,
            Some(MessageType::FileRequest(_)) => false,
            _ => true,
        }
    }
}

/// The value of a message is made of all that it holds.
pub proof fn lemma_value_of_a_message(message: Message)
    ensures
        match message.0 {
            None => message@ is None,
            Some(MessageType::FileTreeRequest(trees)) => message@ == Some(
                ContentView::FileTreeRequest(forest(trees@)),
            ),
            Some(MessageType::FileRequest(hash)) => message@ == Some(
                ContentView::FileRequest(hash@),
            ),
            Some(MessageType::FileResponse(response)) => message@ == Some(
                ContentView::FileResponse(response@),
            ),
            Some(MessageType::FilePacket(packet)) => message@ == Some(
                ContentView::FilePacket(packet@),
            ),
            Some(MessageType::KeepAlive) => message@ == Some(ContentView::KeepAlive),
            Some(MessageType::FileTreeResponse(trees)) => message@ == Some(
                ContentView::FileTreeResponse(forest(trees@)),
            ),
        },
{
}

} // verus!
