//! The connection layer's decisions: who is registered, what each
//! incoming message does to the world, and which messages go out to
//! whom, on which kind of channel.
//!
//! Sockets, streams and tasks are the caller's. The caller hands in what
//! arrived and carries out what comes back.

use std::sync::Arc;
use vstd::prelude::*;
use crate::chunk::ChunkCoord;
use crate::commands::WorldCommand;
use crate::events::WorldEvent;
use crate::codec::buffer_view;
use crate::message::{
    client_parse, ClientMessage, ClientMessageView, ServerMessage, ServerMessageView, WireMessage,
};
use crate::storage::SavedChunk;
use crate::terrain::{share, ChunkPayload};
use crate::voxel::VoxelBuffer;
use crate::world::{ChunkLookup, MoveRequest, PlayerAdvance, VoxelWorld, WorldView};

verus! {

/// How a message travels.
#[derive(Copy, Clone, Eq, PartialEq, Debug, Structural)]
pub enum Channel {
    /// On the stream on which the request came.
    Reply,
    /// On a reliable, ordered stream of its own: it must not be lost.
    Reliable,
    /// As an unreliable datagram: a later one makes up for a lost one.
    Datagram,
}

/// A registered client.
#[derive(Debug, Clone, PartialEq, Eq)]
pub struct ClientInfo {
    pub id: u32,
    pub name: String,
}

/// The mathematical value of a [`ClientInfo`].
pub struct ClientView {
    pub id: u32,
    pub name: Seq<char>,
}

impl View for ClientInfo {
    type V = ClientView;

    open spec fn view(&self) -> ClientView {
        ClientView { id: self.id, name: self.name@ }
    }
}

/// A message for the caller to send.
#[derive(Debug, Clone, PartialEq, Eq)]
pub struct Outgoing {
    /// The client that the message is for.
    pub to: u32,
    pub channel: Channel,
    pub message: ServerMessage,
}

/// The mathematical value of an [`Outgoing`].
pub struct OutgoingView {
    pub to: u32,
    pub channel: Channel,
    pub message: ServerMessageView,
}

impl View for Outgoing {
    type V = OutgoingView;

    open spec fn view(&self) -> OutgoingView {
        OutgoingView { to: self.to, channel: self.channel, message: self.message@ }
    }
}

/// The values of the messages of `out`.
pub open spec fn outgoing_view(out: Seq<Outgoing>) -> Seq<OutgoingView> {
    Seq::new(out.len(), |i: int| out[i]@)
}

/// The values of the clients of `clients`.
pub open spec fn clients_view(clients: Seq<ClientInfo>) -> Seq<ClientView> {
    Seq::new(clients.len(), |i: int| clients[i]@)
}

/// The position of client `id` in the registry, if the client is there.
pub open spec fn client_index(clients: Seq<ClientView>, id: u32) -> Option<int> {
    if exists|i: int| 0 <= i < clients.len() && clients[i].id == id {
        Some(choose|i: int| 0 <= i < clients.len() && clients[i].id == id)
    } else {
        None
    }
}

/// Whether the clients stand in ascending order of their numbers.
pub open spec fn registry_ascending(clients: Seq<ClientView>) -> bool {
    forall|i: int, j: int| 0 <= i < j < clients.len() ==> clients[i].id < clients[j].id
}

/// `message` once for every client of `clients`, in their order.
pub open spec fn broadcast_to(clients: Seq<ClientView>, channel: Channel, message: ServerMessageView) -> Seq<
    OutgoingView,
> {
    Seq::new(clients.len(), |i: int| OutgoingView { to: clients[i].id, channel, message })
}

/// For the newcomer `to`: one `PlayerJoined` per client of `clients`.
pub open spec fn roster_for(clients: Seq<ClientView>, to: u32) -> Seq<OutgoingView> {
    Seq::new(
        clients.len(),
        |i: int|
            OutgoingView {
                to,
                channel: Channel::Reliable,
                message: ServerMessageView::PlayerJoined {
                    id: clients[i].id,
                    name: clients[i].name,
                },
            },
    )
}

/// `message` for client `to` if the client is registered, else nothing.
pub open spec fn direct_to(clients: Seq<ClientView>, to: u32, message: ServerMessageView) -> Seq<
    OutgoingView,
> {
    if client_index(clients, to) is Some {
        seq![OutgoingView { to, channel: Channel::Reliable, message }]
    } else {
        Seq::empty()
    }
}

/// The messages that a world event causes: a player's movement goes to
/// everyone as a datagram; a chunk that is loaded or unloaded goes to
/// its player alone, reliably.
pub open spec fn routed(clients: Seq<ClientView>, event: WorldEvent) -> Seq<OutgoingView> {
    match event {
        WorldEvent::PlayerMoved { id, pos, look } => broadcast_to(
            clients,
            Channel::Datagram,
            ServerMessageView::PositionUpdate { id, pos, look },
        ),
        WorldEvent::ChunkLoaded { for_player, pos, data } => direct_to(
            clients,
            for_player,
            ServerMessageView::ChunkLoaded { pos, data: buffer_view(&*data) },
        ),
        WorldEvent::ChunkUnloaded { for_player, pos } => direct_to(
            clients,
            for_player,
            ServerMessageView::ChunkUnloaded { pos },
        ),
    }
}

/// The messages that the world events `events` cause, in their order.
pub open spec fn routed_all(clients: Seq<ClientView>, events: Seq<WorldEvent>) -> Seq<OutgoingView>
    decreases events.len(),
{
    if events.len() == 0 {
        Seq::empty()
    } else {
        routed_all(clients, events.drop_last()) + routed(clients, events.last())
    }
}

/// The server's state, as the contracts speak of it.
pub struct ServerView {
    pub world: WorldView,
    /// The registered clients, in ascending order of their numbers.
    pub clients: Seq<ClientView>,
}

impl ServerView {
    /// Whether another player can join: the numbers are not used up.
    pub open spec fn has_room(self) -> bool {
        self.world.next_id < u32::MAX
    }

    /// The state after a client named `name` has connected.
    pub open spec fn connect(self, name: Seq<char>) -> ServerView {
        ServerView {
            world: self.world.add_player(),
            clients: self.clients.push(ClientView { id: self.world.next_id, name }),
        }
    }

    /// What goes out when a client named `name` connects: the
    /// acknowledgement as the reply, then the roster of the clients
    /// already there for the newcomer, then the newcomer's arrival for
    /// each of them.
    pub open spec fn connect_messages(self, name: Seq<char>) -> Seq<OutgoingView> {
        let id = self.world.next_id;
        seq![
            OutgoingView {
                to: id,
                channel: Channel::Reply,
                message: ServerMessageView::ConnectAck { id, name },
            },
        ] + roster_for(self.clients, id) + broadcast_to(
            self.clients,
            Channel::Reliable,
            ServerMessageView::PlayerJoined { id, name },
        )
    }

    /// The state after client `id` has gone: the client is deregistered
    /// and the client's player leaves the world.
    pub open spec fn disconnect(self, id: u32) -> ServerView {
        match client_index(self.clients, id) {
            Some(i) => ServerView {
                world: self.world.remove_player(id),
                clients: self.clients.remove(i),
            },
            None => self,
        }
    }

    /// What goes out when client `id` has gone: the departure, for each
    /// client that remains.
    pub open spec fn disconnect_messages(self, id: u32) -> Seq<OutgoingView> {
        match client_index(self.clients, id) {
            Some(i) => broadcast_to(
                self.clients.remove(i),
                Channel::Reliable,
                ServerMessageView::PlayerLeft { id, name: self.clients[i].name },
            ),
            None => Seq::empty(),
        }
    }

    /// The state after `message` has arrived from a connection that
    /// speaks for player `id`: an input becomes the player's input,
    /// anything else changes nothing.
    pub open spec fn receive(self, id: u32, message: ClientMessageView) -> ServerView {
        match message {
            ClientMessageView::Input { input } => ServerView {
                world: self.world.set_input(id, input),
                ..self
            },
            _ => self,
        }
    }
}

/// What a connection's task learns from a reliable stream: the state of
/// the server, the player that the connection speaks for, and what is
/// to be sent.
pub struct StreamOutcome {
    pub server: ServerView,
    pub client: Option<u32>,
    pub out: Seq<OutgoingView>,
}

impl ServerView {
    /// What the bytes `bytes` do when they arrive as a datagram on a
    /// connection that speaks for `client`: a well-formed message from a
    /// connected client is received; anything else is dropped.
    pub open spec fn datagram(self, client: Option<u32>, bytes: Seq<u8>) -> ServerView {
        match (client_parse(bytes), client) {
            (Ok(message), Some(id)) => self.receive(id, message),
            _ => self,
        }
    }

    /// What the bytes `bytes` do when they arrive on a reliable stream
    /// of a connection that speaks for `client`: a `Connect` registers a
    /// new player, for whom the connection speaks from then on; any
    /// other well-formed message from a connected client is received;
    /// anything else is dropped.
    pub open spec fn stream(self, client: Option<u32>, bytes: Seq<u8>) -> StreamOutcome {
        match client_parse(bytes) {
            Ok(ClientMessageView::Connect { name }) => if self.has_room() {
                StreamOutcome {
                    server: self.connect(name),
                    client: Some(self.world.next_id),
                    out: self.connect_messages(name),
                }
            } else {
                StreamOutcome { server: self, client, out: Seq::empty() }
            },
            Ok(message) => match client {
                Some(id) => StreamOutcome {
                    server: self.receive(id, message),
                    client,
                    out: Seq::empty(),
                },
                None => StreamOutcome { server: self, client, out: Seq::empty() },
            },
            Err(_) => StreamOutcome { server: self, client, out: Seq::empty() },
        }
    }

    /// The state after the connection that speaks for `client` has
    /// closed.
    pub open spec fn close(self, client: Option<u32>) -> ServerView {
        match client {
            Some(id) => self.disconnect(id),
            None => self,
        }
    }

    /// What goes out after the connection that speaks for `client` has
    /// closed.
    pub open spec fn close_messages(self, client: Option<u32>) -> Seq<OutgoingView> {
        match client {
            Some(id) => self.disconnect_messages(id),
            None => Seq::empty(),
        }
    }
}

/// Disconnection: once a registered client has gone, the registry no
/// longer holds the client's number, it holds every other client as
/// before, and each of them is sent the departure exactly once.
pub proof fn lemma_disconnect(s: ServerView, id: u32)
    requires
        registry_ascending(s.clients),
        client_index(s.clients, id) is Some,
    ensures
        client_index(s.disconnect(id).clients, id) is None,
        s.disconnect(id).clients.len() + 1 == s.clients.len(),
        forall|k: int|
            0 <= k < s.clients.len() && s.clients[k].id != id ==> client_index(
                s.disconnect(id).clients,
                #[trigger] s.clients[k].id,
            ) is Some,
        s.disconnect_messages(id).len() == s.disconnect(id).clients.len(),
        forall|k: int|
            0 <= k < s.disconnect_messages(id).len() ==> {
                &&& (#[trigger] s.disconnect_messages(id)[k]).to == s.disconnect(id).clients[k].id
                &&& s.disconnect_messages(id)[k].to != id
                &&& s.disconnect_messages(id)[k].channel == Channel::Reliable
                &&& s.disconnect_messages(id)[k].message == ServerMessageView::PlayerLeft {
                    id,
                    name: s.clients[client_index(s.clients, id)->Some_0].name,
                }
            },
{
    let i = client_index(s.clients, id)->Some_0;
    let rest = s.clients.remove(i);
    assert forall|k: int| 0 <= k < rest.len() implies rest[k].id != id by {
        let k0 = if k < i { k } else { k + 1 };
        assert(rest[k] == s.clients[k0]);
        if k0 < i {
            assert(s.clients[k0].id < s.clients[i].id);
        } else {
            assert(s.clients[i].id < s.clients[k0].id);
        }
    }
    assert forall|k: int| 0 <= k < s.clients.len() && s.clients[k].id != id implies client_index(
        rest,
        #[trigger] s.clients[k].id,
    ) is Some by {
        let k1 = if k < i { k } else { k - 1 };
        assert(rest[k1] == s.clients[k]);
    }
}

/// The server: the world and the registry of connected clients.
pub struct Server {
    world: VoxelWorld,
    clients: Vec<ClientInfo>,
}

impl View for Server {
    type V = ServerView;

    closed spec fn view(&self) -> ServerView {
        ServerView { world: self.world@, clients: clients_view(self.clients@) }
    }
}

impl ServerMessage {
    /// A copy of the message; a chunk's buffer is shared, not copied.
    pub fn duplicate(&self) -> (m: ServerMessage)
        ensures
            m@ == self@,
    {
        match self {
            ServerMessage::ConnectAck { id, name } => ServerMessage::ConnectAck {
                id: *id,
                name: name.clone(),
            },
            ServerMessage::PlayerJoined { id, name } => ServerMessage::PlayerJoined {
                id: *id,
                name: name.clone(),
            },
            ServerMessage::PlayerLeft { id, name } => ServerMessage::PlayerLeft {
                id: *id,
                name: name.clone(),
            },
            ServerMessage::PositionUpdate { id, pos, look } => ServerMessage::PositionUpdate {
                id: *id,
                pos: *pos,
                look: *look,
            },
            ServerMessage::ChunkLoaded { pos, data } => ServerMessage::ChunkLoaded {
                pos: *pos,
                data: share(data),
            },
            ServerMessage::ChunkUnloaded { pos } => ServerMessage::ChunkUnloaded { pos: *pos },
        }
    }
}

fn push_broadcast(
    out: &mut Vec<Outgoing>,
    clients: &Vec<ClientInfo>,
    channel: Channel,
    message: &ServerMessage,
)
    ensures
        outgoing_view(final(out)@) == outgoing_view(old(out)@) + broadcast_to(
            clients_view(clients@),
            channel,
            message@,
        ),
{
    let ghost want = broadcast_to(clients_view(clients@), channel, message@);
    let mut i: usize = 0;
    assert(outgoing_view(out@) =~= outgoing_view(old(out)@) + want.take(0));
    while i < clients.len()
        invariant
            i <= clients@.len(),
            want == broadcast_to(clients_view(clients@), channel, message@),
            outgoing_view(out@) == outgoing_view(old(out)@) + want.take(i as int),
        decreases clients@.len() - i,
    {
        let ghost before = out@;
        out.push(Outgoing { to: clients[i].id, channel, message: message.duplicate() });
        i += 1;
        assert(outgoing_view(out@) =~= outgoing_view(before).push(want[i as int - 1]));
        assert(outgoing_view(out@) =~= outgoing_view(old(out)@) + want.take(i as int));
    }
    assert(want.take(i as int) =~= want);
}

fn push_roster(out: &mut Vec<Outgoing>, clients: &Vec<ClientInfo>, to: u32)
    ensures
        outgoing_view(final(out)@) == outgoing_view(old(out)@) + roster_for(
            clients_view(clients@),
            to,
        ),
{
    let ghost want = roster_for(clients_view(clients@), to);
    let mut i: usize = 0;
    assert(outgoing_view(out@) =~= outgoing_view(old(out)@) + want.take(0));
    while i < clients.len()
        invariant
            i <= clients@.len(),
            want == roster_for(clients_view(clients@), to),
            outgoing_view(out@) == outgoing_view(old(out)@) + want.take(i as int),
        decreases clients@.len() - i,
    {
        let ghost before = out@;
        out.push(
            Outgoing {
                to,
                channel: Channel::Reliable,
                message: ServerMessage::PlayerJoined {
                    id: clients[i].id,
                    name: clients[i].name.clone(),
                },
            },
        );
        i += 1;
        assert(outgoing_view(out@) =~= outgoing_view(before).push(want[i as int - 1]));
        assert(outgoing_view(out@) =~= outgoing_view(old(out)@) + want.take(i as int));
    }
    assert(want.take(i as int) =~= want);
}

impl Server {
    /// The world is well formed, the clients' numbers ascend, and every
    /// one of them has been given out by the world.
    pub closed spec fn wf(&self) -> bool {
        &&& self.world.wf()
        &&& registry_ascending(self@.clients)
        &&& forall|i: int| 0 <= i < self.clients@.len() ==> self.clients@[i].id < self.world@.next_id
    }

    /// While the registry stays as it is and the world gives out no
    /// number, the server stays well formed.
    proof fn lemma_registry_kept(&self, before: &Server)
        requires
            before.wf(),
            self.world.wf(),
            self.clients == before.clients,
            self.world@.next_id == before.world@.next_id,
        ensures
            self.wf(),
    {
        assert forall|i: int| 0 <= i < self.clients@.len() implies self.clients@[i].id
            < self.world@.next_id by {
            assert(before.clients@[i].id < before.world@.next_id);
        }
        assert(self@.clients =~= before@.clients);
    }

    /// What well-formedness says of the state's value.
    pub proof fn lemma_wf(&self)
        requires
            self.wf(),
        ensures
            registry_ascending(self@.clients),
            forall|i: int| 0 <= i < self@.clients.len() ==> self@.clients[i].id < self@.world.next_id,
    {
        assert forall|i: int| 0 <= i < self@.clients.len() implies self@.clients[i].id
            < self@.world.next_id by {
            assert(self.clients@[i].id < self.world@.next_id);
        }
    }

    /// A server with nobody connected, over the world of the given seed.
    pub fn new(seed: u32) -> (s: Server)
        ensures
            s.wf(),
            s@ == (ServerView { world: WorldView::initial(seed), clients: Seq::empty() }),
    {
        let s = Server { world: VoxelWorld::new(seed), clients: Vec::new() };
        assert(s@.clients =~= Seq::<ClientView>::empty());
        s
    }

    /// The seed of the world's height field.
    pub fn seed(&self) -> (seed: u32)
        ensures
            seed == self@.world.terrain.seed,
    {
        self.world.seed()
    }

    /// The world.
    pub fn world(&self) -> (w: &VoxelWorld)
        requires
            self.wf(),
        ensures
            w.wf(),
            w@ == self@.world,
    {
        &self.world
    }

    /// Sets how far players see and how far beyond that a loaded chunk
    /// may lie, as [`VoxelWorld::set_distances`] does.
    pub fn set_distances(&mut self, render_distance: i32, unload_margin: i32) -> (ok: bool)
        requires
            old(self).wf(),
        ensures
            final(self).wf(),
            ok == (0 <= render_distance && 0 <= unload_margin && render_distance + unload_margin
                <= i32::MAX),
            final(self)@ == if ok {
                ServerView {
                    world: WorldView { render_distance, unload_margin, ..old(self)@.world },
                    ..old(self)@
                }
            } else {
                old(self)@
            },
    {
        let ok = self.world.set_distances(render_distance, unload_margin);
        proof {
            self.lemma_registry_kept(old(self));
        }
        ok
    }

    /// Number of registered clients.
    pub fn client_count(&self) -> (n: usize)
        ensures
            n == self@.clients.len(),
    {
        self.clients.len()
    }

    /// The registered clients, in ascending order of their numbers.
    pub fn clients(&self) -> (clients: &Vec<ClientInfo>)
        ensures
            clients_view(clients@) == self@.clients,
    {
        &self.clients
    }

    fn find_client(&self, id: u32) -> (r: Option<usize>)
        requires
            self.wf(),
        ensures
            match r {
                Some(i) => i < self.clients@.len() && self.clients@[i as int].id == id
                    && client_index(self@.clients, id) == Some(i as int),
                None => client_index(self@.clients, id) is None,
            },
    {
        let mut i: usize = 0;
        while i < self.clients.len()
            invariant
                self.wf(),
                i <= self.clients@.len(),
                forall|k: int| 0 <= k < i ==> self.clients@[k].id != id,
            decreases self.clients@.len() - i,
        {
            if self.clients[i].id == id {
                proof {
                    let clients = self@.clients;
                    assert(clients[i as int].id == id);
                    let j = choose|j: int| 0 <= j < clients.len() && clients[j].id == id;
                    if j != i {
                        if j < i {
                            assert(clients[j].id < clients[i as int].id);
                        } else {
                            assert(clients[i as int].id < clients[j].id);
                        }
                    }
                }
                return Some(i);
            }
            i += 1;
        }
        proof {
            let clients = self@.clients;
            assert forall|k: int| 0 <= k < clients.len() implies clients[k].id != id by {
                assert(self.clients@[k].id != id);
            }
        }
        None
    }

    /// Whether client `id` is registered.
    pub fn is_registered(&self, id: u32) -> (r: bool)
        requires
            self.wf(),
        ensures
            r == (client_index(self@.clients, id) is Some),
    {
        self.find_client(id).is_some()
    }

    /// A client named `name` connects: a player joins the world, the
    /// acknowledgement goes back as the reply, the newcomer is told of
    /// every client already there, the newcomer is registered, and
    /// everyone else is told of the newcomer. `None`, and no change,
    /// when the players' numbers are used up.
    pub fn connect(&mut self, name: String) -> (r: Option<(u32, Vec<Outgoing>)>)
        requires
            old(self).wf(),
        ensures
            final(self).wf(),
            r is Some <==> old(self)@.has_room(),
            match r {
                Some((id, out)) => {
                    &&& id == old(self)@.world.next_id
                    &&& final(self)@ == old(self)@.connect(name@)
                    &&& outgoing_view(out@) == old(self)@.connect_messages(name@)
                },
                None => final(self)@ == old(self)@,
            },
    {
        if self.world.next_id() == u32::MAX {
            return None;
        }
        let id = self.world.add_player();
        let mut out: Vec<Outgoing> = Vec::new();
        out.push(
            Outgoing {
                to: id,
                channel: Channel::Reply,
                message: ServerMessage::ConnectAck { id, name: name.clone() },
            },
        );
        push_roster(&mut out, &self.clients, id);
        let joined = ServerMessage::PlayerJoined { id, name: name.clone() };
        push_broadcast(&mut out, &self.clients, Channel::Reliable, &joined);
        self.clients.push(ClientInfo { id, name });
        proof {
            assert(self@.clients =~= old(self)@.connect(name@).clients);
            assert(outgoing_view(out@) =~= old(self)@.connect_messages(name@));
            assert forall|a: int, b: int| 0 <= a < b < self@.clients.len() implies self@.clients[a].id
                < self@.clients[b].id by {
                if b < old(self).clients@.len() {
                    assert(old(self)@.clients[a].id < old(self)@.clients[b].id);
                } else {
                    assert(old(self).clients@[a].id < old(self).world@.next_id);
                }
            }
        }
        Some((id, out))
    }

    /// Client `id` has gone: the client is deregistered, the client's
    /// player leaves the world, and every client that remains is told.
    /// An unregistered client changes nothing.
    pub fn remove_client(&mut self, id: u32) -> (out: Vec<Outgoing>)
        requires
            old(self).wf(),
        ensures
            final(self).wf(),
            final(self)@ == old(self)@.disconnect(id),
            outgoing_view(out@) == old(self)@.disconnect_messages(id),
    {
        let mut out: Vec<Outgoing> = Vec::new();
        match self.find_client(id) {
            None => {
                assert(outgoing_view(out@) =~= old(self)@.disconnect_messages(id));
            },
            Some(i) => {
                let gone = self.clients.remove(i);
                self.world.remove_player(id);
                let left = ServerMessage::PlayerLeft { id, name: gone.name };
                push_broadcast(&mut out, &self.clients, Channel::Reliable, &left);
                proof {
                    assert(self@.clients =~= old(self)@.clients.remove(i as int));
                    assert(outgoing_view(out@) =~= old(self)@.disconnect_messages(id));
                    assert forall|a: int, b: int|
                        0 <= a < b < self@.clients.len() implies self@.clients[a].id
                        < self@.clients[b].id by {
                        let a0 = if a < i { a } else { a + 1 };
                        let b0 = if b < i { b } else { b + 1 };
                        assert(old(self)@.clients[a0].id < old(self)@.clients[b0].id);
                    }
                    assert forall|k: int| 0 <= k < self.clients@.len() implies self.clients@[k].id
                        < self.world@.next_id by {
                        let k0 = if k < i { k } else { k + 1 };
                        assert(old(self).clients@[k0].id < old(self).world@.next_id);
                    }
                }
            },
        }
        out
    }

    /// A message has arrived from a connection that speaks for player
    /// `id`: an input becomes the player's input; anything else is
    /// ignored.
    pub fn handle_message(&mut self, msg: ClientMessage, id: u32)
        requires
            old(self).wf(),
        ensures
            final(self).wf(),
            final(self)@ == old(self)@.receive(id, msg@),
    {
        match msg {
            ClientMessage::Input { input } => {
                self.world.execute(WorldCommand::PlayerMove { id, input });
            },
            _ => {},
        }
    }

    /// The messages that the world event `event` causes.
    pub fn handle_event(&self, event: &WorldEvent) -> (out: Vec<Outgoing>)
        requires
            self.wf(),
        ensures
            outgoing_view(out@) == routed(self@.clients, *event),
    {
        let mut out: Vec<Outgoing> = Vec::new();
        match event {
            WorldEvent::PlayerMoved { id, pos, look } => {
                let update = ServerMessage::PositionUpdate { id: *id, pos: *pos, look: *look };
                push_broadcast(&mut out, &self.clients, Channel::Datagram, &update);
                assert(outgoing_view(out@) =~= routed(self@.clients, *event));
            },
            WorldEvent::ChunkLoaded { for_player, pos, data } => {
                if self.is_registered(*for_player) {
                    out.push(
                        Outgoing {
                            to: *for_player,
                            channel: Channel::Reliable,
                            message: ServerMessage::ChunkLoaded { pos: *pos, data: share(data) },
                        },
                    );
                }
                assert(outgoing_view(out@) =~= routed(self@.clients, *event));
            },
            WorldEvent::ChunkUnloaded { for_player, pos } => {
                if self.is_registered(*for_player) {
                    out.push(
                        Outgoing {
                            to: *for_player,
                            channel: Channel::Reliable,
                            message: ServerMessage::ChunkUnloaded { pos: *pos },
                        },
                    );
                }
                assert(outgoing_view(out@) =~= routed(self@.clients, *event));
            },
        }
        out
    }

    /// The messages that the world events `events` cause, in their
    /// order.
    pub fn handle_events(&self, events: &Vec<WorldEvent>) -> (out: Vec<Outgoing>)
        requires
            self.wf(),
        ensures
            outgoing_view(out@) == routed_all(self@.clients, events@),
    {
        let mut out: Vec<Outgoing> = Vec::new();
        let mut i: usize = 0;
        assert(events@.take(0) =~= Seq::<WorldEvent>::empty());
        assert(outgoing_view(out@) =~= routed_all(self@.clients, events@.take(0)));
        while i < events.len()
            invariant
                self.wf(),
                i <= events@.len(),
                outgoing_view(out@) == routed_all(self@.clients, events@.take(i as int)),
            decreases events@.len() - i,
        {
            let mut more = self.handle_event(&events[i]);
            let ghost before = out@;
            let ghost added = more@;
            out.append(&mut more);
            proof {
                let seen = events@.take(i as int + 1);
                assert(seen.drop_last() =~= events@.take(i as int));
                assert(seen.last() == events@[i as int]);
                assert(outgoing_view(out@) =~= outgoing_view(before) + outgoing_view(added));
            }
            i += 1;
        }
        assert(events@.take(i as int) =~= events@);
        out
    }

    /// Bytes have arrived as a datagram on a connection that speaks for
    /// `client`. Malformed bytes, and bytes from a connection that has
    /// not connected, are dropped.
    pub fn on_datagram(&mut self, client: Option<u32>, bytes: &[u8])
        requires
            old(self).wf(),
        ensures
            final(self).wf(),
            final(self)@ == old(self)@.datagram(client, bytes@),
    {
        match ClientMessage::deserialize(bytes) {
            Ok(message) => match client {
                Some(id) => {
                    self.handle_message(message, id);
                },
                None => {},
            },
            Err(_) => {},
        }
    }

    /// Bytes have arrived on a reliable stream of a connection that
    /// speaks for `client`. Returns the player that the connection
    /// speaks for from now on, and what is to be sent.
    pub fn on_stream(&mut self, client: Option<u32>, bytes: &[u8]) -> (r: (Option<u32>, Vec<Outgoing>))
        requires
            old(self).wf(),
        ensures
            final(self).wf(),
            final(self)@ == old(self)@.stream(client, bytes@).server,
            r.0 == old(self)@.stream(client, bytes@).client,
            outgoing_view(r.1@) == old(self)@.stream(client, bytes@).out,
    {
        match ClientMessage::deserialize(bytes) {
            Ok(ClientMessage::Connect { name }) => {
                match self.connect(name) {
                    Some((id, out)) => (Some(id), out),
                    None => {
                        let out: Vec<Outgoing> = Vec::new();
                        assert(outgoing_view(out@) =~= Seq::<OutgoingView>::empty());
                        (client, out)
                    },
                }
            },
            Ok(message) => {
                match client {
                    Some(id) => {
                        self.handle_message(message, id);
                    },
                    None => {},
                }
                let out: Vec<Outgoing> = Vec::new();
                assert(outgoing_view(out@) =~= Seq::<OutgoingView>::empty());
                (client, out)
            },
            Err(_) => {
                let out: Vec<Outgoing> = Vec::new();
                assert(outgoing_view(out@) =~= Seq::<OutgoingView>::empty());
                (client, out)
            },
        }
    }

    /// The connection that speaks for `client` has closed or failed.
    pub fn on_close(&mut self, client: Option<u32>) -> (out: Vec<Outgoing>)
        requires
            old(self).wf(),
        ensures
            final(self).wf(),
            final(self)@ == old(self)@.close(client),
            outgoing_view(out@) == old(self)@.close_messages(client),
    {
        match client {
            Some(id) => self.remove_client(id),
            None => {
                let out: Vec<Outgoing> = Vec::new();
                assert(outgoing_view(out@) =~= Seq::<OutgoingView>::empty());
                out
            },
        }
    }

    /// The players whose input asks for movement this tick.
    pub fn moving_players(&self) -> (movers: Vec<MoveRequest>)
        ensures
            movers@ == crate::world::model::move_requests(self@.world.players),
    {
        self.world.moving_players()
    }

    /// The first half of the world's tick, as [`VoxelWorld::begin_tick`]
    /// does it; the registry stays as it is.
    pub fn begin_tick(&mut self, advanced: &Vec<PlayerAdvance>)
        requires
            old(self).wf(),
        ensures
            final(self).wf(),
            final(self)@.clients == old(self)@.clients,
            final(self)@.world.same_but_saves(
                WorldView {
                    evicted: Seq::empty(),
                    ..old(self)@.world.process_inputs(advanced@).sync()
                },
            ),
            crate::world::model::saved_from(
                old(self)@.world.saves,
                final(self)@.world.saves,
                old(self)@.world.process_inputs(advanced@).sync().evicted,
            ),
    {
        self.world.begin_tick(advanced);
        proof {
            self.lemma_registry_kept(old(self));
        }
    }

    /// The chunks whose files the caller is to read before the second
    /// half of the tick.
    pub fn pending_lookups(&self) -> (lookups: &Vec<ChunkLookup>)
        ensures
            lookups@ == self@.world.lookups,
    {
        self.world.pending_lookups()
    }

    /// The chunks that the files `files` stand for, one by one.
    pub fn read_stored(&self, files: &Vec<Option<Vec<u8>>>) -> (r: Vec<Option<Arc<VoxelBuffer>>>)
        ensures
            r@.len() == files@.len(),
            forall|i: int|
                0 <= i < files@.len() ==> crate::storage::shared_view(#[trigger] r@[i])
                    == crate::storage::stored_chunk(crate::storage::file_view(files@[i])),
    {
        self.world.read_stored(files)
    }

    /// The second half of the world's tick, and the routing of its
    /// events: returns what is to be sent.
    pub fn finish_tick(
        &mut self,
        stored: Vec<Option<Arc<VoxelBuffer>>>,
        results: Vec<ChunkPayload>,
    ) -> (out: Vec<Outgoing>)
        requires
            old(self).wf(),
        ensures
            final(self).wf(),
            final(self)@.clients == old(self)@.clients,
            final(self)@.world == old(self)@.world.resolve(stored@).poll(results@).drained(),
            outgoing_view(out@) == routed_all(
                old(self)@.clients,
                old(self)@.world.resolve(stored@).poll(results@).events,
            ),
    {
        let events = self.world.finish_tick(stored, results);
        proof {
            crate::world::laws::lemma_next_id_untouched(old(self)@.world, stored@, results@);
            self.lemma_registry_kept(old(self));
        }
        self.handle_events(&events)
    }

    /// Hands out the generation jobs that have been queued.
    pub fn take_requests(&mut self) -> (jobs: Vec<ChunkCoord>)
        requires
            old(self).wf(),
        ensures
            final(self).wf(),
            final(self)@.clients == old(self)@.clients,
            jobs@ == old(self)@.world.terrain.queue,
            final(self)@.world == (WorldView {
                terrain: old(self)@.world.terrain.drained(),
                ..old(self)@.world
            }),
    {
        let jobs = self.world.take_requests();
        proof {
            self.lemma_registry_kept(old(self));
        }
        jobs
    }

    /// Hands out the files waiting to be written.
    pub fn take_saves(&mut self) -> (files: Vec<SavedChunk>)
        requires
            old(self).wf(),
        ensures
            final(self).wf(),
            final(self)@.clients == old(self)@.clients,
            files@ == old(self)@.world.saves,
            final(self)@.world == (WorldView { saves: Seq::empty(), ..old(self)@.world }),
    {
        let files = self.world.take_saves();
        proof {
            self.lemma_registry_kept(old(self));
        }
        files
    }
}

} // verus!
