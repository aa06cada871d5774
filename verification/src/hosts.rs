//! The closed sets of commands, events and application messages of the
//! client and server roles.

use vstd::prelude::*;
use crate::packet::{NodeId, Packet};

verus! {

/// The sending half of a channel. Its contents are not visible to the
/// verifier: commands only carry it from the controller to a node.
#[verifier::external_type_specification]
#[verifier::external_body]
#[verifier::reject_recursive_types(T)]
pub struct ExSender<T>(crossbeam_channel::Sender<T>);

/// `crossbeam_channel::Sender::clone` hands out another handle to the same
/// channel. Nothing is claimed of the handle it returns.
pub assume_specification<T>[ <crossbeam_channel::Sender<T> as Clone>::clone ](
    sender: &crossbeam_channel::Sender<T>,
) -> (handle: crossbeam_channel::Sender<T>);

/// What a client reports to the controller.
#[derive(Clone, Debug, PartialEq)]
pub enum ClientEvent {
    PacketSent(Packet),
    MessageReceived(TestMessage),
    ServerTypeReceived(NodeId, NodeId, ServerType),
    ClientListReceived(NodeId, NodeId, Vec<NodeId>),
    FilesListReceived(NodeId, NodeId, Vec<(u64, String)>),
    FileReceived(NodeId, NodeId, FileContent),
    MediaReceived(NodeId, NodeId, Vec<u8>),
    MessageFromReceived(NodeId, NodeId, NodeId, String),
    RegistrationOk(NodeId, NodeId),
    RegistrationError(NodeId, NodeId),
    Error(NodeId, String),
    DebugMessage(NodeId, String),
    /// The route chosen, reported before a send.
    Route(Vec<NodeId>),
}

/// What the controller may ask of a client.
#[derive(Debug)]
pub enum ClientCommand {
    /// Forget the channel towards a neighbouring drone.
    RemoveSender(NodeId),
    /// Store the channel towards a neighbouring drone.
    AddSender(NodeId, crossbeam_channel::Sender<Packet>),
    ServerType(NodeId),
    FilesList(NodeId),
    File(NodeId, u64),
    Media(NodeId, u64),
    RegistrationToChat(NodeId),
    ClientList(NodeId),
    MessageFor(NodeId, NodeId, String),
    RequestNetworkDiscovery,
    ControllerShortcut(Packet),
}

impl Clone for ClientCommand {
    /// The same command; a channel handle in it is another handle to the
    /// same channel.
    fn clone(&self) -> (copy: ClientCommand)
        ensures
            self is AddSender ==> copy is AddSender && copy->AddSender_0 == self->AddSender_0,
            self is ControllerShortcut ==> copy is ControllerShortcut,
            !(self is AddSender) && !(self is ControllerShortcut) ==> copy == *self,
    {
        match self {
            ClientCommand::RemoveSender(id) => ClientCommand::RemoveSender(*id),
            ClientCommand::AddSender(id, sender) => ClientCommand::AddSender(*id, sender.clone()),
            ClientCommand::ServerType(id) => ClientCommand::ServerType(*id),
            ClientCommand::FilesList(id) => ClientCommand::FilesList(*id),
            ClientCommand::File(id, file) => ClientCommand::File(*id, *file),
            ClientCommand::Media(id, media) => ClientCommand::Media(*id, *media),
            ClientCommand::RegistrationToChat(id) => ClientCommand::RegistrationToChat(*id),
            ClientCommand::ClientList(id) => ClientCommand::ClientList(*id),
            ClientCommand::MessageFor(server, to, text) => ClientCommand::MessageFor(
                *server,
                *to,
                text.clone(),
            ),
            ClientCommand::RequestNetworkDiscovery => ClientCommand::RequestNetworkDiscovery,
            ClientCommand::ControllerShortcut(packet) => ClientCommand::ControllerShortcut(packet.clone()),
        }
    }
}

/// The two kinds of client.
#[derive(Clone, Debug)]
pub enum ClientType {
    WebBrowsers,
    ChatClients,
}

/// A structured record, one of the payloads a message can hold.
#[derive(Debug, PartialEq, Clone)]
pub struct CustomStruct {
    pub id: u32,
    pub name: String,
    pub data: Vec<u8>,
}

/// A nested choice, one of the payloads a message can hold.
#[derive(Debug, PartialEq, Clone)]
pub enum CustomEnum {
    Variant1(String),
    /// `value` holds the IEEE 754 bit pattern of a double.
    Variant2 { id: u32, value: u64 },
}

/// Requests a client sends to a server.
#[derive(Debug, PartialEq, Clone)]
pub enum ClientMessages {
    ServerType,
    FilesList,
    File(u64),
    Media(u64),
    RegistrationToChat,
    ClientList,
    MessageFor(NodeId, String),
    ServerMessages(ServerMessages),
}

/// A text file and the media it refers to.
#[derive(Debug, PartialEq, Clone)]
pub struct FileContent {
    pub title: String,
    pub text: String,
    pub media_ids: Vec<(u64, String)>,
}

/// Replies a server sends to a client.
#[derive(Debug, PartialEq, Clone)]
pub enum ServerMessages {
    ServerType(ServerType),
    ClientList(Vec<NodeId>),
    FilesList(Vec<(u64, String)>),
    File(FileContent),
    Media(Vec<u8>),
    Error(String),
    MessageFrom(NodeId, String),
    RegistrationOk,
    RegistrationError(String),
}

/// The payloads that travel through the network in fragments.
#[derive(Debug, PartialEq, Clone)]
pub enum TestMessage {
    Text(String),
    Number(u32),
    Vector(Vec<u8>),
    WebServerMessages(ClientMessages),
    WebClientMessages(ServerMessages),
    Struct(CustomStruct),
    Enum(CustomEnum),
}

/// What a server reports to the controller.
#[derive(Clone, Debug, PartialEq)]
pub enum ServerEvent {
    PacketSent(Packet),
    /// A message is complete.
    MessageReceived(TestMessage),
    Error(NodeId, NodeId, String),
    DebugMessage(NodeId, String),
    /// The route chosen, reported before a send.
    Route(Vec<NodeId>),
}

/// What the controller may ask of a server.
#[derive(Debug)]
pub enum ServerCommand {
    AddSender(NodeId, crossbeam_channel::Sender<Packet>),
    RemoveSender(NodeId),
    AddClient(NodeId),
    SendClients(NodeId),
    SendMessage(NodeId, String),
    ControllerShortcut(Packet),
    RequestNetworkDiscovery,
}

impl Clone for ServerCommand {
    /// The same command; a channel handle in it is another handle to the
    /// same channel.
    fn clone(&self) -> (copy: ServerCommand)
        ensures
            self is AddSender ==> copy is AddSender && copy->AddSender_0 == self->AddSender_0,
            self is ControllerShortcut ==> copy is ControllerShortcut,
            !(self is AddSender) && !(self is ControllerShortcut) ==> copy == *self,
    {
        match self {
            ServerCommand::AddSender(id, sender) => ServerCommand::AddSender(*id, sender.clone()),
            ServerCommand::RemoveSender(id) => ServerCommand::RemoveSender(*id),
            ServerCommand::AddClient(id) => ServerCommand::AddClient(*id),
            ServerCommand::SendClients(id) => ServerCommand::SendClients(*id),
            ServerCommand::SendMessage(id, text) => ServerCommand::SendMessage(*id, text.clone()),
            ServerCommand::ControllerShortcut(packet) => ServerCommand::ControllerShortcut(packet.clone()),
            ServerCommand::RequestNetworkDiscovery => ServerCommand::RequestNetworkDiscovery,
        }
    }
}

/// The two kinds of server.
#[derive(Debug, PartialEq, Clone)]
pub enum ServerType {
    Content,
    Communication,
}

} // verus!
