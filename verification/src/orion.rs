use rand::Rng;
use vstd::prelude::*;

use crate::keys::{distinct_by, push_keeps_distinct, update_keeps_distinct};
use crate::text::is_ascii_alphanumeric;

verus! {

broadcast use vstd::seq_lib::group_seq_properties;

/// Number of characters in a room's id.
pub const GROUP_ID_LEN: usize = 16;

/// The user name that every connecting client gets.
pub const USERNAME: &'static str = "john";

/// The line that a client receives when it connects.
pub const WELCOME_MESSAGE: &'static str = "\nWelcome to Orion!\n";

/// A socket address as plain values: the family, the IP address as a
/// number (an IPv4 address in its low 32 bits), the port, and for IPv6 the
/// flow information and scope id. Two addresses are the same exactly when
/// all of these are.
#[derive(Debug, Clone, Copy, PartialEq, Eq, Structural)]
pub struct PeerAddress {
    pub ipv6: bool,
    pub ip: u128,
    pub port: u16,
    pub flowinfo: u32,
    pub scope_id: u32,
}

/// A connected client: a handle that stands for its connection, its user
/// name and the address it connected from.
#[derive(Debug)]
pub struct Client {
    pub stream: u64,
    pub username: String,
    pub address: PeerAddress,
}

/// What a client holds, as plain values.
pub struct ClientView {
    pub stream: u64,
    pub username: Seq<char>,
    pub address: PeerAddress,
}

impl View for Client {
    type V = ClientView;

    open spec fn view(&self) -> ClientView {
        ClientView { stream: self.stream, username: self.username@, address: self.address }
    }
}

impl Clone for Client {
    fn clone(&self) -> (r: Client)
        ensures
            r@ == self@,
    {
        Client { stream: self.stream, username: self.username.clone(), address: self.address }
    }
}

impl Client {
    pub fn new(stream: u64, username: String, address: PeerAddress) -> (c: Client)
        ensures
            c@ == (ClientView { stream, username: username@, address }),
    {
        Client { stream, username, address }
    }
}

/// Keeps the clients whose address is not `address`.
pub open spec fn elsewhere(address: PeerAddress) -> spec_fn(ClientView) -> bool {
    |c: ClientView| c.address != address
}

/// A client's address.
pub open spec fn address_of() -> spec_fn(ClientView) -> PeerAddress {
    |c: ClientView| c.address
}

/// No two clients share an address.
pub open spec fn unique_addresses(clients: Seq<ClientView>) -> bool {
    distinct_by(clients, address_of())
}

/// Whether a client with this address is in the list.
pub open spec fn has_address(clients: Seq<ClientView>, address: PeerAddress) -> bool {
    exists|i: int| 0 <= i < clients.len() && #[trigger] clients[i].address == address
}

/// The list after `client` is put in: it takes the place of the client with
/// the same address, or goes at the end where there is none.
pub open spec fn inserted(clients: Seq<ClientView>, client: ClientView) -> Seq<ClientView> {
    if has_address(clients, client.address) {
        let i = choose|i: int| 0 <= i < clients.len() && #[trigger] clients[i].address == client.address;
        clients.update(i, client)
    } else {
        clients.push(client)
    }
}

/// An id as the server draws them: `GROUP_ID_LEN` ASCII letters and digits.
pub open spec fn valid_group_id(id: Seq<char>) -> bool {
    &&& id.len() == GROUP_ID_LEN
    &&& forall|i: int| 0 <= i < id.len() ==> #[trigger] is_ascii_alphanumeric(id[i])
}

/// The chat room: the connected clients, one per address, in the order in
/// which they first connected, with the room's name and id.
#[derive(Debug)]
pub struct Group {
    clients: Vec<Client>,
    group_name: String,
    group_id: String,
}

/// What a room holds, as plain values.
pub struct GroupState {
    pub clients: Seq<ClientView>,
    pub group_name: Seq<char>,
    pub group_id: Seq<char>,
}

impl View for Group {
    type V = GroupState;

    closed spec fn view(&self) -> GroupState {
        GroupState {
            clients: self.clients@.map_values(|c: Client| c@),
            group_name: self.group_name@,
            group_id: self.group_id@,
        }
    }
}

impl Group {
    #[verifier::type_invariant]
    closed spec fn addresses_unique(self) -> bool {
        unique_addresses(self.clients@.map_values(|c: Client| c@))
    }
}

/// `rand::Rng::sample(rand::distr::Alphanumeric)` on the thread's generator.
/// The source of `Distribution<u8> for Alphanumeric` picks from the bytes of
/// `A`-`Z`, `a`-`z`, `0`-`9`; which one is left to chance and is not stated.
#[verifier::external_body]
fn random_alphanumeric() -> (b: u8)
    ensures
        is_ascii_alphanumeric(b as char),
{
    rand::rng().sample(rand::distr::Alphanumeric)
}

/// The clients of the list whose address is not `address`, in order.
fn clients_except(clients: &Vec<Client>, address: PeerAddress) -> (r: Vec<Client>)
    ensures
        r@.map_values(|c: Client| c@) == clients@.map_values(|c: Client| c@).filter(
            elsewhere(address),
        ),
{
    let ghost all = clients@.map_values(|c: Client| c@);
    let mut r: Vec<Client> = Vec::new();
    let mut i: usize = 0;
    while i < clients.len()
        invariant
            i <= clients@.len(),
            all == clients@.map_values(|c: Client| c@),
            r@.map_values(|c: Client| c@) == all.subrange(0, i as int).filter(elsewhere(address)),
        decreases clients@.len() - i,
    {
        let ghost before = r@.map_values(|c: Client| c@);
        assert(all.subrange(0, i + 1) == all.subrange(0, i as int).push(all[i as int]));
        proof {
            all.subrange(0, i as int).lemma_filter_push(all[i as int], elsewhere(address));
        }
        if clients[i].address != address {
            r.push(clients[i].clone());
            assert(r@.map_values(|c: Client| c@) == before.push(all[i as int]));
        } else {
            assert(r@.map_values(|c: Client| c@) == before);
        }
        i = i + 1;
    }
    assert(all.subrange(0, i as int) == all);
    r
}

/// Where in the list the client with this address stands, if any.
fn find_address(clients: &Vec<Client>, address: PeerAddress) -> (r: Option<usize>)
    ensures
        r matches Some(i) ==> i < clients@.len() && clients@[i as int].address == address,
        r is None ==> !has_address(clients@.map_values(|c: Client| c@), address),
{
    let ghost all = clients@.map_values(|c: Client| c@);
    let mut i: usize = 0;
    while i < clients.len()
        invariant
            i <= clients@.len(),
            all == clients@.map_values(|c: Client| c@),
            forall|k: int| 0 <= k < i ==> #[trigger] all[k].address != address,
        decreases clients@.len() - i,
    {
        if clients[i].address == address {
            return Some(i);
        }
        i = i + 1;
    }
    None
}

impl Group {
    /// An empty room with the given name and a random id.
    pub fn new(group_name: String) -> (g: Group)
        ensures
            g@.clients == Seq::<ClientView>::empty(),
            g@.group_name == group_name@,
            valid_group_id(g@.group_id),
    {
        let mut group_id = String::new();
        let mut n: usize = 0;
        while n < GROUP_ID_LEN
            invariant
                n <= GROUP_ID_LEN,
                group_id@.len() == n,
                forall|i: int| 0 <= i < group_id@.len() ==> #[trigger] is_ascii_alphanumeric(group_id@[i]),
            decreases GROUP_ID_LEN - n,
        {
            let b = random_alphanumeric();
            group_id.push(b as char);
            n = n + 1;
        }
        let g = Group { clients: Vec::new(), group_name, group_id };
        assert(g.clients@.map_values(|c: Client| c@) =~= Seq::<ClientView>::empty());
        g
    }

    /// Puts a client in the room; one that connected from the same address
    /// before is replaced.
    pub fn insert(&mut self, client: Client)
        ensures
            final(self)@ == (GroupState { clients: inserted(old(self)@.clients, client@), ..old(self)@ }),
            unique_addresses(final(self)@.clients),
    {
        proof { use_type_invariant(&*self); }
        let ghost all = self.clients@.map_values(|c: Client| c@);
        let ghost view = client@;
        match find_address(&self.clients, client.address) {
            Some(i) => {
                let mut clients = Vec::new();
                std::mem::swap(&mut clients, &mut self.clients);
                clients.set(i, client);
                proof {
                    let j = choose|j: int| 0 <= j < all.len() && #[trigger] all[j].address == view.address;
                    assert(all[i as int].address == view.address);
                    assert(all[j] == all[i as int]);
                    assert(j == i);
                    assert(inserted(all, view) == all.update(i as int, view));
                    assert(clients@.map_values(|c: Client| c@) =~= all.update(i as int, view));
                    insert_places_client(all, view);
                }
                self.clients = clients;
            },
            None => {
                assert(inserted(all, view) == all.push(view));
                let mut clients = Vec::new();
                std::mem::swap(&mut clients, &mut self.clients);
                clients.push(client);
                proof {
                    assert(clients@.map_values(|c: Client| c@) =~= all.push(view));
                    insert_places_client(all, view);
                }
                self.clients = clients;
            },
        }
    }

    /// Takes the client with the same address as `client` out of the room.
    pub fn remove(&mut self, client: Client)
        ensures
            final(self)@ == (GroupState {
                clients: old(self)@.clients.filter(elsewhere(client.address)),
                ..old(self)@
            }),
            unique_addresses(final(self)@.clients),
    {
        proof { use_type_invariant(&*self); }
        let kept = clients_except(&self.clients, client.address);
        proof { lemma_filter_keeps_unique(self@.clients, elsewhere(client.address)); }
        self.clients = kept;
    }

    /// The clients that a message of `sender` goes to: all in the room but
    /// the one at the sender's address, in the room's order.
    pub fn recipients(&self, sender: &Client) -> (r: Vec<Client>)
        ensures
            r@.map_values(|c: Client| c@) == self@.clients.filter(elsewhere(sender.address)),
            unique_addresses(r@.map_values(|c: Client| c@)),
            forall|k: int| 0 <= k < r@.len() ==> (#[trigger] r@[k]).address != sender.address,
            forall|k: int|
                0 <= k < self@.clients.len() && (#[trigger] self@.clients[k]).address != sender.address
                    ==> r@.map_values(|c: Client| c@).contains(self@.clients[k]),
    {
        proof {
            use_type_invariant(self);
            lemma_filter_keeps_unique(self@.clients, elsewhere(sender.address));
            recipients_are_the_others(self@.clients, sender.address);
        }
        let r = clients_except(&self.clients, sender.address);
        proof {
            let rv = r@.map_values(|c: Client| c@);
            assert forall|k: int| 0 <= k < r@.len() implies (#[trigger] r@[k]).address != sender.address by {
                assert(rv[k] == r@[k]@);
            }
        }
        r
    }

    /// The room's name.
    pub fn group_name(&self) -> (r: &String)
        ensures
            r@ == self@.group_name,
    {
        &self.group_name
    }

    /// The room's id.
    pub fn group_id(&self) -> (r: &String)
        ensures
            r@ == self@.group_id,
    {
        &self.group_id
    }

    /// The room's clients, in order.
    pub fn clients(&self) -> (r: Vec<Client>)
        ensures
            r@.map_values(|c: Client| c@) == self@.clients,
            unique_addresses(r@.map_values(|c: Client| c@)),
    {
        proof { use_type_invariant(self); }
        let mut r: Vec<Client> = Vec::new();
        let mut i: usize = 0;
        while i < self.clients.len()
            invariant
                i <= self.clients@.len(),
                r@.len() == i,
                forall|k: int| 0 <= k < i ==> (#[trigger] r@[k])@ == self.clients@[k]@,
            decreases self.clients@.len() - i,
        {
            r.push(self.clients[i].clone());
            i = i + 1;
        }
        assert(r@.map_values(|c: Client| c@) =~= self@.clients);
        r
    }
}

/// A sublist of a list without shared addresses has none either.
pub proof fn lemma_filter_keeps_unique(clients: Seq<ClientView>, pred: spec_fn(ClientView) -> bool)
    requires
        unique_addresses(clients),
    ensures
        unique_addresses(clients.filter(pred)),
    decreases clients.len(),
{
    reveal(Seq::filter);
    if clients.len() > 0 {
        let rest = clients.drop_last();
        assert(unique_addresses(rest)) by {
            assert forall|i: int, j: int|
                0 <= i < rest.len() && 0 <= j < rest.len() && i != j implies #[trigger] rest[i].address
                != #[trigger] rest[j].address by {
                assert(rest[i] == clients[i] && rest[j] == clients[j]);
            }
        }
        lemma_filter_keeps_unique(rest, pred);
        let f = rest.filter(pred);
        if pred(clients.last()) {
            assert forall|k: int| 0 <= k < f.len() implies #[trigger] f[k].address != clients.last().address by {
                assert(rest.contains(f[k])) by {
                    lemma_filtered_from(rest, pred, k);
                }
                let m = choose|m: int| 0 <= m < rest.len() && rest[m] == f[k];
                assert(clients[m] == rest[m]);
            }
            push_keeps_distinct(f, clients.last(), address_of());
        }
    }
}

/// Every element of a filtered list comes from the list.
pub proof fn lemma_filtered_from(s: Seq<ClientView>, pred: spec_fn(ClientView) -> bool, k: int)
    requires
        0 <= k < s.filter(pred).len(),
    ensures
        s.contains(s.filter(pred)[k]),
    decreases s.len(),
{
    reveal(Seq::filter);
    if s.len() > 0 {
        let rest = s.drop_last();
        let f = rest.filter(pred);
        if k < f.len() {
            lemma_filtered_from(rest, pred, k);
            let m = choose|m: int| 0 <= m < rest.len() && rest[m] == f[k];
            assert(s[m] == rest[m]);
        } else {
            assert(s[s.len() - 1] == s.filter(pred)[k]);
        }
    }
}

/// An event that a connection's thread hands to the room's thread.
pub enum Message {
    /// A client connected.
    Connect(Client),
    /// A client went away.
    Disconnect(Client),
    /// A client sent bytes.
    New { sender: Client, msg: Vec<u8> },
}

/// What the room's thread does about an event.
pub enum Action {
    /// Send `WELCOME_MESSAGE` to this client.
    Welcome(Client),
    /// Report that the client at this address left.
    Departed(PeerAddress),
    /// Send the bytes to each of these clients.
    Deliver { recipients: Vec<Client>, msg: Vec<u8> },
}

/// What an event does to the room, as plain values.
pub enum RoomEvent {
    Joined(ClientView),
    Left(PeerAddress),
    Said(PeerAddress),
}

pub open spec fn event_of(message: Message) -> RoomEvent {
    match message {
        Message::Connect(c) => RoomEvent::Joined(c@),
        Message::Disconnect(c) => RoomEvent::Left(c.address),
        Message::New { sender, .. } => RoomEvent::Said(sender.address),
    }
}

/// The room's clients after one event: a client that joins is put in, the
/// clients at an address that leaves are taken out, and a message changes
/// nothing.
pub open spec fn room_step(clients: Seq<ClientView>, event: RoomEvent) -> Seq<ClientView> {
    match event {
        RoomEvent::Joined(c) => inserted(clients, c),
        RoomEvent::Left(a) => clients.filter(elsewhere(a)),
        RoomEvent::Said(_) => clients,
    }
}

/// The room's clients after a run of events, in order.
pub open spec fn room_after(clients: Seq<ClientView>, events: Seq<RoomEvent>) -> Seq<ClientView>
    decreases events.len(),
{
    if events.len() == 0 {
        clients
    } else {
        room_step(room_after(clients, events.drop_last()), events.last())
    }
}

/// Handles one event: a connecting client is put in the room and welcomed, a
/// leaving one is taken out, and a message goes to every other client.
pub fn handle_server_message(group: &mut Group, message: Message) -> (action: Action)
    ensures
        unique_addresses(final(group)@.clients),
        final(group)@.clients == room_step(old(group)@.clients, event_of(message)),
        match message {
            Message::Connect(c) => {
                &&& final(group)@ == (GroupState { clients: inserted(old(group)@.clients, c@), ..old(group)@ })
                &&& action matches Action::Welcome(w) && w@ == c@
            },
            Message::Disconnect(c) => {
                &&& final(group)@ == (GroupState {
                    clients: old(group)@.clients.filter(elsewhere(c.address)),
                    ..old(group)@
                })
                &&& action == Action::Departed(c.address)
            },
            Message::New { sender, msg } => {
                &&& final(group)@ == old(group)@
                &&& action matches Action::Deliver { recipients, msg: m } && recipients@.map_values(
                    |c: Client| c@,
                ) == old(group)@.clients.filter(elsewhere(sender.address)) && m@ == msg@
            },
        },
        message matches Message::Connect(c) ==> final(group)@.clients.contains(c@)
            && final(group)@.group_id == old(group)@.group_id,
        message matches Message::Disconnect(c) ==> !has_address(final(group)@.clients, c.address)
            && forall|k: int|
            0 <= k < old(group)@.clients.len() && (#[trigger] old(group)@.clients[k]).address
                != c.address ==> final(group)@.clients.contains(old(group)@.clients[k]),
        message matches Message::New { sender, .. } ==> (action matches Action::Deliver { recipients, .. }
            && forall|k: int| 0 <= k < recipients@.len() ==> (#[trigger] recipients@[k]).address != sender.address),
{
    proof { use_type_invariant(&*group); }
    match message {
        Message::Connect(client) => {
            let welcomed = client.clone();
            proof { insert_places_client(group@.clients, client@); }
            group.insert(client);
            Action::Welcome(welcomed)
        },
        Message::Disconnect(client) => {
            let address = client.address;
            proof {
                lemma_left_is_absent(group@.clients, address);
                recipients_are_the_others(group@.clients, address);
            }
            group.remove(client);
            Action::Departed(address)
        },
        Message::New { sender, msg } => {
            let recipients = group.recipients(&sender);
            Action::Deliver { recipients, msg }
        },
    }
}

/// What a connection's thread passes on after a read of `n` bytes into
/// `buf`, and whether the connection is over.
pub struct ReadStep {
    pub messages: Vec<Message>,
    pub closed: bool,
}

/// Which kind of event a message is.
#[derive(Debug, Clone, Copy, PartialEq, Eq, Structural)]
pub enum MessageKind {
    Connect,
    Disconnect,
    New,
}

pub open spec fn kind(message: Message) -> MessageKind {
    match message {
        Message::Connect(_) => MessageKind::Connect,
        Message::Disconnect(_) => MessageKind::Disconnect,
        Message::New { .. } => MessageKind::New,
    }
}

pub open spec fn kinds(messages: Seq<Message>) -> Seq<MessageKind> {
    messages.map_values(|m: Message| kind(m))
}

/// The kinds of what a connection passes on after a read: `Some(n)` for a
/// read of `n` bytes, `None` for a failed read.
pub open spec fn read_kinds(read: Option<nat>) -> Seq<MessageKind> {
    match read {
        Some(n) => if n == 0 {
            seq![MessageKind::New, MessageKind::Disconnect]
        } else {
            seq![MessageKind::New]
        },
        None => seq![MessageKind::Disconnect],
    }
}

/// After a read of `n` bytes: the bytes go to the room as a message of the
/// client; a read of no bytes means that the client closed the connection,
/// so its departure follows and the connection is over.
pub fn after_read(client: &Client, buf: &[u8], n: usize) -> (step: ReadStep)
    requires
        n <= buf@.len(),
    ensures
        step.closed == (n == 0),
        step.messages@.len() == (if n == 0 { 2int } else { 1int }),
        step.messages@[0] matches Message::New { sender, msg } && sender@ == client@ && msg@
            == buf@.subrange(0, n as int),
        n == 0 ==> (step.messages@[1] matches Message::Disconnect(c) && c@ == client@),
        kinds(step.messages@) == read_kinds(Some(n as nat)),
{
    let mut bytes: Vec<u8> = Vec::new();
    let mut i: usize = 0;
    while i < n
        invariant
            n <= buf@.len(),
            i <= n,
            bytes@ == buf@.subrange(0, i as int),
        decreases n - i,
    {
        bytes.push(buf[i]);
        i = i + 1;
        assert(bytes@ == buf@.subrange(0, i as int));
    }
    let mut messages: Vec<Message> = Vec::new();
    messages.push(Message::New { sender: client.clone(), msg: bytes });
    if n == 0 {
        messages.push(Message::Disconnect(client.clone()));
        assert(kinds(messages@) =~= read_kinds(Some(n as nat)));
        ReadStep { messages, closed: true }
    } else {
        assert(kinds(messages@) =~= read_kinds(Some(n as nat)));
        ReadStep { messages, closed: false }
    }
}

/// After a failed read: the client's departure goes to the room and the
/// connection is over.
pub fn after_read_error(client: &Client) -> (step: ReadStep)
    ensures
        step.closed,
        step.messages@.len() == 1,
        step.messages@[0] matches Message::Disconnect(c) && c@ == client@,
        kinds(step.messages@) == read_kinds(None),
{
    let mut messages: Vec<Message> = Vec::new();
    messages.push(Message::Disconnect(client.clone()));
    assert(kinds(messages@) =~= read_kinds(None));
    ReadStep { messages, closed: true }
}

/// Putting a client in the room and then taking out whoever has its address
/// gives the room back, where no client had that address before.
pub proof fn remove_undoes_insert(clients: Seq<ClientView>, client: ClientView)
    requires
        unique_addresses(clients),
        !has_address(clients, client.address),
    ensures
        inserted(clients, client).filter(elsewhere(client.address)) == clients,
{
    assert(inserted(clients, client) == clients.push(client));
    clients.lemma_filter_push(client, elsewhere(client.address));
    lemma_filter_keeps_all(clients, client.address);
}

/// Filtering out an address that no client has keeps every client.
pub proof fn lemma_filter_keeps_all(clients: Seq<ClientView>, address: PeerAddress)
    requires
        !has_address(clients, address),
    ensures
        clients.filter(elsewhere(address)) == clients,
    decreases clients.len(),
{
    reveal(Seq::filter);
    if clients.len() > 0 {
        let rest = clients.drop_last();
        assert(!has_address(rest, address)) by {
            if has_address(rest, address) {
                let k = choose|k: int| 0 <= k < rest.len() && #[trigger] rest[k].address == address;
                assert(clients[k].address == address);
            }
        }
        lemma_filter_keeps_all(rest, address);
        assert(clients.last().address != address) by {
            assert(clients[clients.len() - 1].address != address);
        }
        assert(rest.push(clients.last()) =~= clients);
    }
}

/// After a client is put in the room, the room holds exactly that client at
/// its address, and still has one client per address.
pub proof fn insert_places_client(clients: Seq<ClientView>, client: ClientView)
    requires
        unique_addresses(clients),
    ensures
        inserted(clients, client).contains(client),
        unique_addresses(inserted(clients, client)),
{
    let r = inserted(clients, client);
    if has_address(clients, client.address) {
        let i = choose|i: int| 0 <= i < clients.len() && #[trigger] clients[i].address == client.address;
        assert(r[i] == client);
        update_keeps_distinct(clients, i, client, address_of());
    } else {
        assert(r[clients.len() as int] == client);
        assert forall|k: int| 0 <= k < clients.len() implies (address_of())(#[trigger] clients[k]) != (
        address_of())(client) by {
            if clients[k].address == client.address {
                assert(has_address(clients, client.address));
            }
        }
        push_keeps_distinct(clients, client, address_of());
    }
}

/// A message reaches every client of the room but those at the sender's
/// address, and no client at the sender's address.
pub proof fn recipients_are_the_others(clients: Seq<ClientView>, sender: PeerAddress)
    ensures
        forall|k: int|
            0 <= k < clients.filter(elsewhere(sender)).len() ==> (#[trigger] clients.filter(
                elsewhere(sender),
            )[k]).address != sender,
        forall|k: int|
            0 <= k < clients.len() && (#[trigger] clients[k]).address != sender ==> clients.filter(
                elsewhere(sender),
            ).contains(clients[k]),
{
    broadcast use vstd::seq_lib::group_filter_ensures;
    assert forall|k: int|
        0 <= k < clients.filter(elsewhere(sender)).len() implies (#[trigger] clients.filter(
            elsewhere(sender),
        )[k]).address != sender by {
        clients.lemma_filter_pred(elsewhere(sender), k);
    }
    assert forall|k: int|
        0 <= k < clients.len() && (#[trigger] clients[k]).address != sender implies clients.filter(
            elsewhere(sender),
        ).contains(clients[k]) by {
        clients.lemma_filter_contains(elsewhere(sender), k);
    }
}

/// No client of the filtered list is at `address` where none of the list is.
proof fn lemma_filter_keeps_absent(
    clients: Seq<ClientView>,
    pred: spec_fn(ClientView) -> bool,
    address: PeerAddress,
)
    requires
        !has_address(clients, address),
    ensures
        !has_address(clients.filter(pred), address),
{
    let f = clients.filter(pred);
    if has_address(f, address) {
        let k = choose|k: int| 0 <= k < f.len() && #[trigger] f[k].address == address;
        lemma_filtered_from(clients, pred, k);
        let m = choose|m: int| 0 <= m < clients.len() && clients[m] == f[k];
        assert(clients[m].address == address);
    }
}

/// After a departure of `address`, no client is at that address.
proof fn lemma_left_is_absent(clients: Seq<ClientView>, address: PeerAddress)
    ensures
        !has_address(room_step(clients, RoomEvent::Left(address)), address),
{
    broadcast use vstd::seq_lib::group_filter_ensures;
    let f = clients.filter(elsewhere(address));
    if has_address(f, address) {
        let k = choose|k: int| 0 <= k < f.len() && #[trigger] f[k].address == address;
        clients.lemma_filter_pred(elsewhere(address), k);
    }
}

/// An event other than a join from `address` brings no client at `address`.
proof fn lemma_step_keeps_absent(clients: Seq<ClientView>, event: RoomEvent, address: PeerAddress)
    requires
        !has_address(clients, address),
        !(event matches RoomEvent::Joined(c) && c.address == address),
    ensures
        !has_address(room_step(clients, event), address),
{
    match event {
        RoomEvent::Joined(c) => {
            let r = inserted(clients, c);
            if has_address(r, address) {
                let k = choose|k: int| 0 <= k < r.len() && #[trigger] r[k].address == address;
                if has_address(clients, c.address) {
                    let i = choose|i: int| 0 <= i < clients.len() && #[trigger] clients[i].address == c.address;
                    if k != i {
                        assert(r[k] == clients[k]);
                    }
                } else {
                    if k < clients.len() {
                        assert(r[k] == clients[k]);
                    }
                }
            }
        },
        RoomEvent::Left(a) => {
            lemma_filter_keeps_absent(clients, elsewhere(a), address);
        },
        RoomEvent::Said(_) => {},
    }
}

/// Once a client at `address` has left, no client is at that address, and
/// so no message reaches that address, until a client connects from it
/// again: over any run of events that starts with the departure and holds
/// no join from `address`.
pub proof fn departed_address_hears_nothing(
    clients: Seq<ClientView>,
    events: Seq<RoomEvent>,
    address: PeerAddress,
    sender: PeerAddress,
)
    requires
        events.len() > 0,
        events[0] == RoomEvent::Left(address),
        forall|i: int|
            0 <= i < events.len() ==> !(#[trigger] events[i] matches RoomEvent::Joined(c) && c.address
                == address),
    ensures
        !has_address(room_after(clients, events), address),
        forall|k: int|
            0 <= k < room_after(clients, events).filter(elsewhere(sender)).len() ==> (
            #[trigger] room_after(clients, events).filter(elsewhere(sender))[k]).address != address,
    decreases events.len(),
{
    let rest = events.drop_last();
    if events.len() == 1 {
        assert(rest.len() == 0);
        lemma_left_is_absent(clients, address);
    } else {
        assert(rest[0] == events[0]);
        assert forall|i: int|
            0 <= i < rest.len() implies !(#[trigger] rest[i] matches RoomEvent::Joined(c) && c.address
                == address) by {
            assert(rest[i] == events[i]);
        }
        departed_address_hears_nothing(clients, rest, address, sender);
        assert(events.last() == events[events.len() - 1]);
        lemma_step_keeps_absent(room_after(clients, rest), events.last(), address);
    }
    let room = room_after(clients, events);
    lemma_filter_keeps_absent(room, elsewhere(sender), address);
    assert forall|k: int|
        0 <= k < room.filter(elsewhere(sender)).len() implies (#[trigger] room.filter(
            elsewhere(sender),
        )[k]).address != address by {
        if room.filter(elsewhere(sender))[k].address == address {
            assert(has_address(room.filter(elsewhere(sender)), address));
        }
    }
}

/// The kinds of what a connection passes on over a run of reads.
pub open spec fn run_kinds(reads: Seq<Option<nat>>) -> Seq<MessageKind>
    decreases reads.len(),
{
    if reads.len() == 0 {
        Seq::<MessageKind>::empty()
    } else {
        run_kinds(reads.drop_last()) + read_kinds(reads.last())
    }
}

proof fn lemma_reads_with_bytes(reads: Seq<Option<nat>>)
    requires
        forall|i: int| 0 <= i < reads.len() ==> (#[trigger] reads[i] matches Some(n) && n > 0),
    ensures
        run_kinds(reads).len() == reads.len(),
        forall|i: int| 0 <= i < reads.len() ==> #[trigger] run_kinds(reads)[i] == MessageKind::New,
    decreases reads.len(),
{
    if reads.len() > 0 {
        let rest = reads.drop_last();
        assert forall|i: int| 0 <= i < rest.len() implies (#[trigger] rest[i] matches Some(n) && n > 0) by {
            assert(rest[i] == reads[i]);
        }
        lemma_reads_with_bytes(rest);
        assert(reads[reads.len() - 1] == reads.last());
    }
}

/// Over a connection, which reads until a read gives no bytes or fails:
/// the connection first passes on its `Connect`, and nothing else is a
/// `Connect`; a `Disconnect` comes at most once, and only as the last event;
/// it does come where the last read closed the connection. What a
/// connection cut short by a failed send passes on is a beginning of this
/// run, so the same holds of it but for the closing `Disconnect`.
pub proof fn connection_opens_and_closes_once(reads: Seq<Option<nat>>)
    requires
        reads.len() > 0,
        forall|i: int| 0 <= i < reads.len() - 1 ==> (#[trigger] reads[i] matches Some(n) && n > 0),
    ensures
        ({
            let all = seq![MessageKind::Connect] + run_kinds(reads);
            &&& all[0] == MessageKind::Connect
            &&& forall|i: int| 0 < i < all.len() ==> #[trigger] all[i] != MessageKind::Connect
            &&& forall|i: int| 0 <= i < all.len() - 1 ==> #[trigger] all[i] != MessageKind::Disconnect
            &&& forall|i: int, j: int|
                0 <= i < all.len() && 0 <= j < all.len() && #[trigger] all[i] == MessageKind::Disconnect
                    && #[trigger] all[j] == MessageKind::Disconnect ==> i == j
            &&& (reads.last() matches Some(n) ==> n == 0) ==> all.last() == MessageKind::Disconnect
        }),
{
    let rest = reads.drop_last();
    assert forall|i: int| 0 <= i < rest.len() implies (#[trigger] rest[i] matches Some(n) && n > 0) by {
        assert(rest[i] == reads[i]);
    }
    lemma_reads_with_bytes(rest);
    let all = seq![MessageKind::Connect] + run_kinds(reads);
    assert(run_kinds(reads) == run_kinds(rest) + read_kinds(reads.last()));
    let tail = read_kinds(reads.last());
    assert forall|i: int| 0 < i < all.len() implies #[trigger] all[i] != MessageKind::Connect by {
        if i - 1 < rest.len() {
            assert(all[i] == run_kinds(rest)[i - 1]);
        } else {
            assert(all[i] == tail[i - 1 - rest.len()]);
        }
    }
    assert forall|i: int| 0 <= i < all.len() - 1 implies #[trigger] all[i] != MessageKind::Disconnect by {
        if i > 0 {
            if i - 1 < rest.len() {
                assert(all[i] == run_kinds(rest)[i - 1]);
            } else {
                assert(all[i] == tail[i - 1 - rest.len()]);
            }
        }
    }
    assert(all.last() == tail.last());
}

} // verus!
