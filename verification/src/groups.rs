use rand::Rng;
use vstd::prelude::*;
use vstd::utf8::*;

use crate::keys::{distinct_by, push_keeps_distinct};
use crate::text::{debug_line, quoted_line, same_text};
use crate::wire::{decode_text, strip_line_ending};

verus! {

/// Number of characters in a group's id.
pub const SEED_LEN: usize = 32;

/// How many random ids are drawn at most before the first id of
/// `spare_seed`'s series that no group of the book holds is taken instead.
pub const SEED_ATTEMPTS: u32 = 4294967295;

/// The characters of a group's id: `0`-`9` then `a`-`z`.
pub open spec fn seed_char_at(index: int) -> char {
    if index < 10 {
        ('0' as int + index) as char
    } else {
        ('a' as int + (index - 10)) as char
    }
}

pub open spec fn is_seed_char(c: char) -> bool {
    ('0' <= c && c <= '9') || ('a' <= c && c <= 'z')
}

/// An id as the server draws them: `SEED_LEN` characters of `0`-`9`, `a`-`z`.
pub open spec fn valid_seed(id: Seq<char>) -> bool {
    &&& id.len() == SEED_LEN
    &&& forall|i: int| 0 <= i < id.len() ==> #[trigger] is_seed_char(id[i])
}

/// `rand::Rng::random_range(0..bound)` on the thread's generator. Its
/// documentation: the value lies in the half-open range, and the call panics
/// on an empty range, which `requires` leaves out. Which value comes is left
/// to chance and is not stated.
#[verifier::external_body]
fn random_below(bound: usize) -> (r: usize)
    requires
        bound > 0,
    ensures
        r < bound,
{
    rand::rng().random_range(0..bound)
}

/// The id character with the given index in `0123456789abcdefghijklmnopqrstuvwxyz`.
pub fn seed_char(index: usize) -> (c: char)
    requires
        index < 36,
    ensures
        c == seed_char_at(index as int),
        is_seed_char(c),
{
    let code: u8 = if index < 10 {
        48u8 + (index as u8)
    } else {
        87u8 + (index as u8)
    };
    code as char
}

/// A random id: `SEED_LEN` characters, each drawn from `0`-`9`, `a`-`z`.
pub fn random_seed() -> (id: String)
    ensures
        valid_seed(id@),
{
    let mut id = String::new();
    let mut n: usize = 0;
    while n < SEED_LEN
        invariant
            n <= SEED_LEN,
            id@.len() == n,
            forall|i: int| 0 <= i < id@.len() ==> #[trigger] is_seed_char(id@[i]),
        decreases SEED_LEN - n,
    {
        let c = seed_char(random_below(36));
        id.push(c);
        n = n + 1;
    }
    id
}

/// The value of an id character: `0`-`9` count 0 to 9, `a`-`z` count 10 to 35.
pub open spec fn seed_digit(c: char) -> int {
    if '0' <= c && c <= '9' {
        c as int - '0' as int
    } else {
        c as int - 'a' as int + 10
    }
}

/// `36` to the power `len`: how many ids of `len` characters there are.
pub open spec fn seed_power(len: nat) -> nat
    decreases len,
{
    if len == 0 {
        1
    } else {
        36 * seed_power((len - 1) as nat)
    }
}

/// The number `k` written with `len` id characters in base 36, most
/// significant first, padded with `0`.
pub open spec fn spare_seed(k: nat, len: nat) -> Seq<char>
    decreases len,
{
    if len == 0 {
        Seq::<char>::empty()
    } else {
        spare_seed(k / 36, (len - 1) as nat).push(seed_char_at((k % 36) as int))
    }
}

/// The number that id characters spell in base 36.
pub open spec fn seed_number(s: Seq<char>) -> int
    decreases s.len(),
{
    if s.len() == 0 {
        0
    } else {
        seed_number(s.drop_last()) * 36 + seed_digit(s.last())
    }
}

proof fn lemma_seed_char_digit(d: int)
    requires
        0 <= d < 36,
    ensures
        seed_digit(seed_char_at(d)) == d,
        is_seed_char(seed_char_at(d)),
{
}

proof fn lemma_spare_seed_valid(k: nat, len: nat)
    ensures
        spare_seed(k, len).len() == len,
        forall|i: int| 0 <= i < len ==> #[trigger] is_seed_char(spare_seed(k, len)[i]),
    decreases len,
{
    if len > 0 {
        lemma_spare_seed_valid(k / 36, (len - 1) as nat);
        lemma_seed_char_digit((k % 36) as int);
        let prefix = spare_seed(k / 36, (len - 1) as nat);
        assert forall|i: int| 0 <= i < len implies #[trigger] is_seed_char(spare_seed(k, len)[i]) by {
            if i < len - 1 {
                assert(spare_seed(k, len)[i] == prefix[i]);
            }
        }
    }
}

proof fn lemma_spare_seed_number(k: nat, len: nat)
    requires
        k < seed_power(len),
    ensures
        seed_number(spare_seed(k, len)) == k,
    decreases len,
{
    if len > 0 {
        let p = seed_power((len - 1) as nat);
        assert(k / 36 < p) by (nonlinear_arith)
            requires
                k < 36 * p,
        ;
        lemma_spare_seed_number(k / 36, (len - 1) as nat);
        lemma_seed_char_digit((k % 36) as int);
        let s = spare_seed(k, len);
        assert(s.drop_last() == spare_seed(k / 36, (len - 1) as nat));
    } else {
        assert(seed_power(0) == 1);
    }
}

proof fn lemma_seed_power_exceeds_usize()
    ensures
        seed_power(32) > usize::MAX,
{
    reveal_with_fuel(seed_power, 33);
    assert(seed_power(32) > 0xffff_ffff_ffff_ffff);
}

/// Distinct numbers up to `usize::MAX` give distinct ids.
pub proof fn spare_seeds_distinct(a: nat, b: nat)
    requires
        a <= usize::MAX,
        b <= usize::MAX,
        a != b,
    ensures
        spare_seed(a, SEED_LEN as nat) != spare_seed(b, SEED_LEN as nat),
{
    lemma_seed_power_exceeds_usize();
    lemma_spare_seed_number(a, 32);
    lemma_spare_seed_number(b, 32);
}

/// A book of `n` groups cannot hold all of the `n + 1` ids
/// `spare_seed(0, ..)` to `spare_seed(n, ..)`.
pub proof fn spare_seed_left(book: Seq<GroupView>)
    requires
        book.len() <= usize::MAX,
    ensures
        exists|k: int| 0 <= k <= book.len() && !book_has_id(book, #[trigger] spare_seed(k as nat, SEED_LEN as nat)),
{
    if forall|k: int| 0 <= k <= book.len() ==> book_has_id(book, #[trigger] spare_seed(k as nat, SEED_LEN as nat)) {
        lemma_all_spare_seeds_taken(book);
    }
}

proof fn lemma_all_spare_seeds_taken(book: Seq<GroupView>)
    requires
        book.len() <= usize::MAX,
        forall|k: int| 0 <= k <= book.len() ==> book_has_id(book, #[trigger] spare_seed(k as nat, SEED_LEN as nat)),
    ensures
        book.len() < book.len(),
{
    broadcast use vstd::seq_lib::seq_to_set_is_finite;
    let n = book.len();
    let candidates = Seq::new(n + 1, |k: int| spare_seed(k as nat, SEED_LEN as nat));
    let ids = book.map_values(|g: GroupView| g.id);
    assert(candidates.no_duplicates()) by {
        assert forall|i: int, j: int|
            0 <= i < candidates.len() && 0 <= j < candidates.len() && i != j implies candidates[i]
            != candidates[j] by {
            spare_seeds_distinct(i as nat, j as nat);
        }
    }
    candidates.unique_seq_to_set();
    ids.lemma_cardinality_of_set();
    assert(candidates.to_set().subset_of(ids.to_set())) by {
        assert forall|c: Seq<char>| candidates.to_set().contains(c) implies ids.to_set().contains(c) by {
            let k = choose|k: int| 0 <= k < candidates.len() && candidates[k] == c;
            assert(book_has_id(book, spare_seed(k as nat, SEED_LEN as nat)));
            let i = choose|i: int| 0 <= i < book.len() && #[trigger] book[i].id == spare_seed(
                k as nat,
                SEED_LEN as nat,
            );
            assert(ids[i] == c);
        }
    }
    vstd::set_lib::lemma_len_subset(candidates.to_set(), ids.to_set());
}

/// The id `spare_seed(k, len)`.
fn spare_seed_text(k: usize, len: usize) -> (s: String)
    ensures
        s@ == spare_seed(k as nat, len as nat),
    decreases len,
{
    if len == 0 {
        String::new()
    } else {
        let mut s = spare_seed_text(k / 36, len - 1);
        s.push(seed_char(k % 36));
        s
    }
}

/// The client lists that groups share, each kept once: a group made by
/// `Group::new` gets a list of its own, and every copy of that group (a clone,
/// or the copy that the book keeps) reads and extends that same list. Each
/// client is a handle that stands for its connection; a list holds the
/// clients in the order in which they joined.
#[derive(Debug)]
pub struct ClientMaps {
    lists: Vec<Vec<u64>>,
}

impl View for ClientMaps {
    type V = Seq<Seq<u64>>;

    closed spec fn view(&self) -> Seq<Seq<u64>> {
        self.lists@.map_values(|l: Vec<u64>| l@)
    }
}

/// The clients of the list with key `key`; none where there is no such list.
pub open spec fn clients_of(maps: Seq<Seq<u64>>, key: int) -> Seq<u64> {
    if 0 <= key < maps.len() {
        maps[key]
    } else {
        Seq::<u64>::empty()
    }
}

/// The lists after `client` joins the list with key `key`.
pub open spec fn with_member(maps: Seq<Seq<u64>>, key: int, client: u64) -> Seq<Seq<u64>> {
    if 0 <= key < maps.len() {
        maps.update(key, maps[key].push(client))
    } else {
        maps
    }
}

impl ClientMaps {
    /// No lists yet.
    pub fn new() -> (maps: ClientMaps)
        ensures
            maps@ == Seq::<Seq<u64>>::empty(),
    {
        ClientMaps { lists: Vec::new() }
    }

    /// Opens a new, empty list and gives its key.
    fn open_list(&mut self) -> (key: usize)
        ensures
            final(self)@ == old(self)@.push(Seq::<u64>::empty()),
            key == old(self)@.len(),
    {
        let key = self.lists.len();
        self.lists.push(Vec::new());
        assert(self@ =~= old(self)@.push(Seq::<u64>::empty()));
        key
    }

    /// The clients of the list with key `key`, in the order in which they joined.
    pub fn members(&self, key: usize) -> (r: Vec<u64>)
        ensures
            r@ == clients_of(self@, key as int),
    {
        if key < self.lists.len() {
            self.lists[key].clone()
        } else {
            Vec::new()
        }
    }

    /// Adds `client` at the end of the list with key `key`.
    fn add_member(&mut self, key: usize, client: u64)
        ensures
            final(self)@ == with_member(old(self)@, key as int, client),
    {
        if key < self.lists.len() {
            let mut list = self.lists[key].clone();
            list.push(client);
            self.lists.set(key, list);
            assert(self@ =~= with_member(old(self)@, key as int, client));
        }
    }
}

/// A chat group: its name and password, the id that the server drew for it,
/// the key of its list of clients in `ClientMaps`, and whether it is open.
/// Copies of a group hold the same key, so they share one list of clients.
#[derive(Debug)]
pub struct Group {
    name: String,
    id: String,
    password: String,
    clients: usize,
    open: bool,
}

/// What a group holds, as plain values.
pub struct GroupView {
    pub name: Seq<char>,
    pub id: Seq<char>,
    pub password: Seq<char>,
    pub clients: nat,
    pub open: bool,
}

impl GroupView {
    /// The group with its open flag flipped.
    pub open spec fn toggled(self) -> GroupView {
        GroupView { open: !self.open, ..self }
    }
}

impl View for Group {
    type V = GroupView;

    closed spec fn view(&self) -> GroupView {
        GroupView {
            name: self.name@,
            id: self.id@,
            password: self.password@,
            clients: self.clients as nat,
            open: self.open,
        }
    }
}

impl Clone for Group {
    fn clone(&self) -> (r: Group)
        ensures
            r@ == self@,
    {
        Group {
            name: self.name.clone(),
            id: self.id.clone(),
            password: self.password.clone(),
            clients: self.clients,
            open: self.open,
        }
    }
}

/// The groups that the server knows of, in the order in which they were added.
pub struct GroupBook {
    groups: Vec<Group>,
}

impl View for GroupBook {
    type V = Seq<GroupView>;

    closed spec fn view(&self) -> Seq<GroupView> {
        self.groups@.map_values(|g: Group| g@)
    }
}

impl Clone for GroupBook {
    fn clone(&self) -> (r: GroupBook)
        ensures
            r@ == self@,
    {
        let mut groups: Vec<Group> = Vec::new();
        let mut i: usize = 0;
        while i < self.groups.len()
            invariant
                i <= self.groups@.len(),
                groups@.len() == i,
                forall|k: int| 0 <= k < i ==> (#[trigger] groups@[k])@ == self.groups@[k]@,
            decreases self.groups@.len() - i,
        {
            groups.push(self.groups[i].clone());
            i = i + 1;
        }
        assert(groups@.map_values(|g: Group| g@) =~= self.groups@.map_values(|g: Group| g@));
        GroupBook { groups }
    }
}

/// Whether some group of the book has the id.
pub open spec fn book_has_id(book: Seq<GroupView>, id: Seq<char>) -> bool {
    exists|i: int| 0 <= i < book.len() && #[trigger] book[i].id == id
}

/// No two groups of the book share an id.
pub open spec fn distinct_ids(book: Seq<GroupView>) -> bool {
    distinct_by(book, |g: GroupView| g.id)
}

impl GroupBook {
    /// An empty book.
    pub fn new() -> (book: GroupBook)
        ensures
            book@ == Seq::<GroupView>::empty(),
    {
        GroupBook { groups: Vec::new() }
    }

    /// Adds a copy of the group at the end of the book.
    pub fn add_group(&mut self, group: &Group)
        ensures
            final(self)@ == old(self)@.push(group@),
    {
        self.groups.push(group.clone());
        assert(self@ == old(self)@.push(group@));
    }

    /// The positions of the closed groups of the book, in increasing order.
    pub fn closed_groups(&self) -> (r: Vec<usize>)
        ensures
            forall|j: int| 0 <= j < r@.len() ==> r@[j] < self@.len() && !self@[#[trigger] r@[j] as int].open,
            forall|j: int, k: int| 0 <= j < k < r@.len() ==> #[trigger] r@[j] < #[trigger] r@[k],
            forall|i: int| 0 <= i < self@.len() && !(#[trigger] self@[i]).open ==> r@.contains(i as usize),
    {
        let n = self.groups.len();
        let mut r: Vec<usize> = Vec::new();
        let mut i: usize = 0;
        while i < n
            invariant
                n == self@.len(),
                i <= n,
                forall|j: int| 0 <= j < r@.len() ==> r@[j] < i && !self@[#[trigger] r@[j] as int].open,
                forall|j: int, k: int| 0 <= j < k < r@.len() ==> #[trigger] r@[j] < #[trigger] r@[k],
                forall|m: int| 0 <= m < i && !(#[trigger] self@[m]).open ==> r@.contains(m as usize),
            decreases n - i,
        {
            let ghost before = r@;
            if !self.groups[i].open {
                assert(!self@[i as int].open);
                r.push(i);
                assert(r@[r@.len() - 1] == i);
            }
            assert forall|m: int| 0 <= m < i + 1 && !(#[trigger] self@[m]).open implies r@.contains(m as usize) by {
                if m < i {
                    let j = choose|j: int| 0 <= j < before.len() && before[j] == m as usize;
                    assert(r@[j] == before[j]);
                } else {
                    assert(r@[r@.len() - 1] == i);
                }
            }
            i = i + 1;
        }
        r
    }

    /// The number of groups in the book.
    pub fn len(&self) -> (n: usize)
        ensures
            n == self@.len(),
    {
        self.groups.len()
    }

    /// The group at the given position.
    pub fn group(&self, index: usize) -> (g: &Group)
        requires
            index < self@.len(),
        ensures
            g@ == self@[index as int],
    {
        &self.groups[index]
    }
}

impl Group {
    /// Whether some group of the book already has this id.
    pub fn id_exists(id: String, group_book: &GroupBook) -> (r: bool)
        ensures
            r == book_has_id(group_book@, id@),
    {
        let mut i: usize = 0;
        while i < group_book.groups.len()
            invariant
                i <= group_book@.len(),
                group_book@.len() == group_book.groups@.len(),
                forall|k: int| 0 <= k < i ==> #[trigger] group_book@[k].id != id@,
            decreases group_book@.len() - i,
        {
            if group_book.groups[i].id == id {
                assert(group_book@[i as int].id == id@);
                return true;
            }
            i = i + 1;
        }
        false
    }

    /// The first of the ids `spare_seed(0, ..)`, `spare_seed(1, ..)`, ... that
    /// no group of the book holds; one of the first `len + 1` is free
    /// (`spare_seed_left`).
    pub fn unused_seed(group_book: &GroupBook) -> (id: String)
        ensures
            valid_seed(id@),
            !book_has_id(group_book@, id@),
    {
        let n = group_book.len();
        let mut k: usize = 0;
        while k < n
            invariant
                n == group_book@.len(),
                k <= n,
                forall|j: int| 0 <= j < k ==> book_has_id(group_book@, #[trigger] spare_seed(j as nat, SEED_LEN as nat)),
            decreases n - k,
        {
            let candidate = spare_seed_text(k, SEED_LEN);
            if !Group::id_exists(candidate.clone(), group_book) {
                proof {
                    lemma_spare_seed_valid(k as nat, SEED_LEN as nat);
                }
                return candidate;
            }
            k = k + 1;
        }
        let candidate = spare_seed_text(n, SEED_LEN);
        proof {
            lemma_spare_seed_valid(n as nat, SEED_LEN as nat);
        }
        if Group::id_exists(candidate.clone(), group_book) {
            proof { spare_seed_left(group_book@); }
        }
        candidate
    }

    /// Draws random ids until one is found that no group of the book holds.
    /// After `SEED_ATTEMPTS` draws that all hit an id of the book it takes
    /// `unused_seed` instead, so an id always comes back.
    pub fn generate_random_seed(group_book: &GroupBook) -> (id: String)
        ensures
            valid_seed(id@),
            !book_has_id(group_book@, id@),
    {
        let mut attempt: u32 = 0;
        while attempt < SEED_ATTEMPTS
            decreases SEED_ATTEMPTS - attempt,
        {
            let candidate = random_seed();
            if !Group::id_exists(candidate.clone(), group_book) {
                return candidate;
            }
            attempt = attempt + 1;
        }
        Group::unused_seed(group_book)
    }

    /// A new closed group with an id that no group of the book holds, and a
    /// new, empty list of clients in `client_maps`.
    pub fn new(password: String, group_book: &GroupBook, name: String, client_maps: &mut ClientMaps) -> (g: Group)
        ensures
            g@.name == name@,
            g@.password == password@,
            !g@.open,
            valid_seed(g@.id),
            !book_has_id(group_book@, g@.id),
            g@.clients == old(client_maps)@.len(),
            final(client_maps)@ == old(client_maps)@.push(Seq::<u64>::empty()),
            clients_of(final(client_maps)@, g@.clients as int) == Seq::<u64>::empty(),
    {
        let id = Group::generate_random_seed(group_book);
        let clients = client_maps.open_list();
        Group { name, id, password, clients, open: false }
    }

    /// Adds a client to the group, after those that joined before it. The
    /// group's list is shared: every copy of the group sees the client
    /// (`join_seen_by_every_copy`), and no other list changes.
    pub fn add_client(&self, client_maps: &mut ClientMaps, client: u64)
        ensures
            final(client_maps)@ == with_member(old(client_maps)@, self@.clients as int, client),
    {
        client_maps.add_member(self.clients, client);
    }

    /// Leaves the group as it is.
    pub fn get_clients(&mut self)
        ensures
            final(self)@ == old(self)@,
    {
    }

    /// The clients of the group, in the order in which they joined.
    pub fn clients(&self, client_maps: &ClientMaps) -> (r: Vec<u64>)
        ensures
            r@ == clients_of(client_maps@, self@.clients as int),
    {
        client_maps.members(self.clients)
    }

    /// A copy of the group's id.
    pub fn get_id(&self) -> (r: String)
        ensures
            r@ == self@.id,
    {
        self.id.clone()
    }

    /// The group's name.
    pub fn name(&self) -> (r: &String)
        ensures
            r@ == self@.name,
    {
        &self.name
    }

    /// Opens a closed group, closes an open one.
    pub fn change_status(&mut self)
        ensures
            final(self)@ == old(self)@.toggled(),
    {
        self.open = !self.open;
    }

    /// Whether the group is open.
    pub fn get_status(&self) -> (r: bool)
        ensures
            r == self@.open,
    {
        self.open
    }
}

/// Flipping a group's status twice gives the group back.
pub proof fn status_toggle_twice(g: GroupView)
    ensures
        g.toggled().toggled() == g,
{
}

/// A client that joins a group is seen by every copy of that group: by every
/// group value with the same list, after those that joined before; the
/// lists of other groups do not change.
pub proof fn join_seen_by_every_copy(maps: Seq<Seq<u64>>, group: GroupView, copy: GroupView, other: GroupView, client: u64)
    requires
        group.clients < maps.len(),
        copy.clients == group.clients,
        other.clients != group.clients,
    ensures
        clients_of(with_member(maps, group.clients as int, client), copy.clients as int)
            == clients_of(maps, copy.clients as int).push(client),
        clients_of(with_member(maps, group.clients as int, client), other.clients as int)
            == clients_of(maps, other.clients as int),
{
}


/// The reply to `--help`.
pub const HELP_MESSAGE: &'static str = "\n
    Create chat group:  --create-group\n
    Join chat group:    --join-group\n
    Show public groups: --show-groups\n
    Exit the server:    --exit-server\n
";

/// A request line of a client that has not joined a group yet.
#[derive(Debug, Clone, Copy, PartialEq, Eq, Structural)]
pub enum Request {
    Help,
    CreateGroup,
    JoinGroup,
    ShowGroups,
    ExitServer,
    Unrecognized,
}

/// The request that a line of text makes: one of the five commands, spelled
/// exactly, or none.
pub open spec fn request_of(text: Seq<char>) -> Request {
    if text == "--help"@ {
        Request::Help
    } else if text == "--create-group"@ {
        Request::CreateGroup
    } else if text == "--join-group"@ {
        Request::JoinGroup
    } else if text == "--show-groups"@ {
        Request::ShowGroups
    } else if text == "--exit-server"@ {
        Request::ExitServer
    } else {
        Request::Unrecognized
    }
}

/// The five commands are spelled differently, so a line names at most one.
pub proof fn command_spellings_differ()
    ensures
        "--help"@ != "--create-group"@,
        "--help"@ != "--join-group"@,
        "--help"@ != "--show-groups"@,
        "--help"@ != "--exit-server"@,
        "--create-group"@ != "--join-group"@,
        "--create-group"@ != "--show-groups"@,
        "--create-group"@ != "--exit-server"@,
        "--join-group"@ != "--show-groups"@,
        "--join-group"@ != "--exit-server"@,
        "--show-groups"@ != "--exit-server"@,
{
    reveal_strlit("--help");
    reveal_strlit("--create-group");
    reveal_strlit("--join-group");
    reveal_strlit("--show-groups");
    reveal_strlit("--exit-server");
    assert("--help"@.len() != "--create-group"@.len());
    assert("--help"@.len() != "--join-group"@.len());
    assert("--help"@.len() != "--show-groups"@.len());
    assert("--help"@.len() != "--exit-server"@.len());
    assert("--create-group"@.len() != "--join-group"@.len());
    assert("--create-group"@.len() != "--show-groups"@.len());
    assert("--create-group"@.len() != "--exit-server"@.len());
    assert("--join-group"@[2] != "--show-groups"@[2]);
    assert("--join-group"@[2] != "--exit-server"@[2]);
    assert("--show-groups"@[2] != "--exit-server"@[2]);
}

/// Reads the request in a line of text.
pub fn parse_request(text: &str) -> (r: Request)
    ensures
        r == request_of(text@),
        (r == Request::Help) == (text@ == "--help"@),
        (r == Request::CreateGroup) == (text@ == "--create-group"@),
        (r == Request::JoinGroup) == (text@ == "--join-group"@),
        (r == Request::ShowGroups) == (text@ == "--show-groups"@),
        (r == Request::ExitServer) == (text@ == "--exit-server"@),
{
    proof { command_spellings_differ(); }
    if same_text(text, "--help") {
        Request::Help
    } else if same_text(text, "--create-group") {
        Request::CreateGroup
    } else if same_text(text, "--join-group") {
        Request::JoinGroup
    } else if same_text(text, "--show-groups") {
        Request::ShowGroups
    } else if same_text(text, "--exit-server") {
        Request::ExitServer
    } else {
        Request::Unrecognized
    }
}

/// Reads the request in a chunk of `size` bytes received into `data`: the
/// chunk without its line ending, decoded as UTF-8. `None` where those bytes
/// are not UTF-8.
pub fn read_request(data: &[u8], size: usize) -> (r: Option<Request>)
    requires
        2 <= size <= data@.len() + 2,
    ensures
        r is Some <==> valid_utf8(data@.subrange(0, size - 2)),
        r matches Some(q) ==> q == request_of(decode_utf8(data@.subrange(0, size - 2))),
{
    let line = strip_line_ending(data, size);
    match decode_text(line.as_slice()) {
        Ok(text) => Some(parse_request(text.as_str())),
        Err(_) => None,
    }
}

/// What happened on a client's connection while it chooses a group.
#[derive(Debug, Clone, Copy, PartialEq, Eq, Structural)]
pub enum Event {
    /// A request line arrived.
    Received(Request),
    /// The read gave no bytes.
    NoData,
    /// Nothing was there to read yet.
    WouldBlock,
    /// The read failed.
    Failed,
}

/// How the connection goes on after a reply.
#[derive(Debug, Clone, Copy, PartialEq, Eq, Structural)]
pub enum Next {
    /// Keep reading requests.
    Continue,
    /// The client joined the current group: stop reading requests and relay
    /// its messages to the group.
    Joined,
    /// Shut the connection down and stop reading requests.
    Shutdown,
}

/// The lines to send back to the client, in order, and how to go on.
pub struct Reply {
    pub messages: Vec<String>,
    pub next: Next,
}

/// The characters of each string.
pub open spec fn texts(v: Seq<String>) -> Seq<Seq<char>> {
    v.map_values(|m: String| m@)
}

/// The lines that answer `--show-groups`: a heading, then each group's name,
/// in the book's order.
pub open spec fn show_groups_lines(book: Seq<GroupView>) -> Seq<Seq<char>> {
    seq!["\nthis are all the groups!"@] + book.map_values(|g: GroupView| debug_line(g.name))
}

/// A group as `--create-group` makes it: named `test`, without password,
/// closed, with an id that no group of the book holds, and with a new list
/// of clients, the next one of `maps`.
pub open spec fn fresh_test_group(g: GroupView, book: Seq<GroupView>, maps: Seq<Seq<u64>>) -> bool {
    &&& g.name == "test"@
    &&& g.password == ""@
    &&& !g.open
    &&& valid_seed(g.id)
    &&& !book_has_id(book, g.id)
    &&& g.clients == maps.len()
}

/// What a connection's requests work on: the book, the group that the
/// connection would join, and the client lists.
pub struct SessionView {
    pub book: Seq<GroupView>,
    pub group: GroupView,
    pub maps: Seq<Seq<u64>>,
}

/// How a request is answered: the lines sent back, how the connection goes
/// on, and the book, current group and client lists afterwards.
pub open spec fn answers(
    request: Request,
    client: u64,
    before: SessionView,
    lines: Seq<Seq<char>>,
    next: Next,
    after: SessionView,
) -> bool {
    match request {
        Request::Help => {
            &&& lines == seq![HELP_MESSAGE@]
            &&& next == Next::Continue
            &&& after == before
        },
        Request::CreateGroup => {
            &&& lines == seq!["\nyou created a group"@]
            &&& next == Next::Continue
            &&& fresh_test_group(after.group, before.book, before.maps)
            &&& after.book == before.book.push(after.group)
            &&& after.maps == before.maps.push(Seq::<u64>::empty())
        },
        Request::JoinGroup => {
            &&& lines == seq!["\nyou joined a group"@]
            &&& next == Next::Joined
            &&& after.book == before.book
            &&& after.group == before.group
            &&& after.maps == with_member(before.maps, before.group.clients as int, client)
        },
        Request::ShowGroups => {
            &&& lines == show_groups_lines(before.book)
            &&& next == Next::Continue
            &&& after == before
        },
        Request::ExitServer => {
            &&& lines.len() == 0
            &&& next == Next::Shutdown
            &&& after == before
        },
        Request::Unrecognized => {
            &&& lines.len() == 0
            &&& next == Next::Continue
            &&& after == before
        },
    }
}

/// Answers a request of the client `client`. `buffer_group` is the group
/// that the connection would join: `--create-group` makes a new group, adds
/// it to the book and makes it the current one; `--join-group` adds the
/// client to the current group's list of clients, which its copy in the book
/// shares. The other requests change nothing.
pub fn handle_request(
    group_book: &mut GroupBook,
    buffer_group: &mut Group,
    client_maps: &mut ClientMaps,
    request: Request,
    client: u64,
) -> (reply: Reply)
    ensures
        distinct_ids(old(group_book)@) ==> distinct_ids(final(group_book)@),
        answers(
            request,
            client,
            SessionView { book: old(group_book)@, group: old(buffer_group)@, maps: old(client_maps)@ },
            texts(reply.messages@),
            reply.next,
            SessionView { book: final(group_book)@, group: final(buffer_group)@, maps: final(client_maps)@ },
        ),
        request == Request::Help ==> reply.messages@.len() == 1 && reply.messages@[0]@ == HELP_MESSAGE@
            && reply.next == Next::Continue,
        request == Request::CreateGroup ==> reply.messages@.len() == 1 && reply.messages@[0]@
            == "\nyou created a group"@ && reply.next == Next::Continue
            && final(group_book)@.len() == old(group_book)@.len() + 1
            && final(group_book)@.last() == final(buffer_group)@
            && final(buffer_group)@.name == "test"@
            && !book_has_id(old(group_book)@, final(buffer_group)@.id),
        request == Request::JoinGroup ==> reply.messages@.len() == 1 && reply.messages@[0]@
            == "\nyou joined a group"@ && reply.next == Next::Joined,
        request == Request::ShowGroups ==> {
            &&& reply.messages@.len() == old(group_book)@.len() + 1
            &&& reply.messages@[0]@ == "\nthis are all the groups!"@
            &&& forall|k: int|
                0 <= k < old(group_book)@.len() ==> (#[trigger] reply.messages@[k + 1])@ == debug_line(
                    old(group_book)@[k].name,
                )
            &&& reply.next == Next::Continue
        },
        request == Request::ExitServer ==> reply.messages@.len() == 0 && reply.next == Next::Shutdown,
        request == Request::Unrecognized ==> reply.messages@.len() == 0 && reply.next == Next::Continue,
{
    let mut messages: Vec<String> = Vec::new();
    let reply = match request {
        Request::Help => {
            messages.push(HELP_MESSAGE.to_string());
            assert(texts(messages@) =~= seq![HELP_MESSAGE@]);
            Reply { messages, next: Next::Continue }
        },
        Request::CreateGroup => {
            messages.push("\nyou created a group".to_string());
            assert(texts(messages@) =~= seq!["\nyou created a group"@]);
            let group = Group::new("".to_string(), group_book, "test".to_string(), client_maps);
            group_book.add_group(&group);
            *buffer_group = group;
            Reply { messages, next: Next::Continue }
        },
        Request::JoinGroup => {
            messages.push("\nyou joined a group".to_string());
            assert(texts(messages@) =~= seq!["\nyou joined a group"@]);
            buffer_group.add_client(client_maps, client);
            Reply { messages, next: Next::Joined }
        },
        Request::ShowGroups => {
            messages.push("\nthis are all the groups!".to_string());
            let n = group_book.len();
            let mut i: usize = 0;
            while i < n
                invariant
                    n == group_book@.len(),
                    i <= n,
                    texts(messages@) == seq!["\nthis are all the groups!"@] + group_book@.subrange(
                        0,
                        i as int,
                    ).map_values(|g: GroupView| debug_line(g.name)),
                decreases n - i,
            {
                let line = quoted_line(group_book.group(i).name());
                let ghost prev = texts(messages@);
                let ghost shown = group_book@.subrange(0, i as int);
                messages.push(line);
                assert(texts(messages@) =~= prev.push(line@));
                assert(group_book@.subrange(0, i + 1) =~= shown.push(group_book@[i as int]));
                assert(shown.push(group_book@[i as int]).map_values(|g: GroupView| debug_line(g.name))
                    =~= shown.map_values(|g: GroupView| debug_line(g.name)).push(
                    debug_line(group_book@[i as int].name),
                ));
                i = i + 1;
            }
            assert(group_book@.subrange(0, n as int) == group_book@);
            Reply { messages, next: Next::Continue }
        },
        Request::ExitServer => Reply { messages, next: Next::Shutdown },
        Request::Unrecognized => Reply { messages, next: Next::Continue },
    };
    proof {
        let before = SessionView { book: old(group_book)@, group: old(buffer_group)@, maps: old(client_maps)@ };
        let after = SessionView { book: group_book@, group: buffer_group@, maps: client_maps@ };
        let lines = texts(reply.messages@);
        assert(lines.len() == reply.messages@.len());
        assert forall|k: int| 0 <= k < reply.messages@.len() implies (#[trigger] reply.messages@[k])@ == lines[k] by {}
        match request {
            Request::Help => help_law(client, before, lines, reply.next, after),
            Request::CreateGroup => create_group_law(client, before, lines, reply.next, after),
            Request::JoinGroup => join_group_law(client, before, lines, reply.next, after),
            Request::ShowGroups => {
                show_groups_law(client, before, lines, reply.next, after);
                assert forall|k: int| 0 <= k < before.book.len() implies (#[trigger] reply.messages@[k
                    + 1])@ == debug_line(before.book[k].name) by {
                    assert(reply.messages@[k + 1]@ == lines[k + 1]);
                }
            },
            Request::ExitServer => exit_server_law(client, before, lines, reply.next, after),
            Request::Unrecognized => unrecognized_law(client, before, lines, reply.next, after),
        }
        if distinct_ids(old(group_book)@) {
            answers_keep_ids_distinct(
                request,
                client,
                SessionView { book: old(group_book)@, group: old(buffer_group)@, maps: old(client_maps)@ },
                texts(reply.messages@),
                reply.next,
                SessionView { book: group_book@, group: buffer_group@, maps: client_maps@ },
            );
        }
    }
    reply
}

/// Decides what to do on an event of a connection that has not joined a
/// group yet: a request is answered as `handle_request` says; a read without
/// bytes, or with nothing to read yet, changes nothing; a failed read shuts
/// the connection down.
pub fn handle_event(
    group_book: &mut GroupBook,
    buffer_group: &mut Group,
    client_maps: &mut ClientMaps,
    event: Event,
    client: u64,
) -> (reply: Reply)
    ensures
        distinct_ids(old(group_book)@) ==> distinct_ids(final(group_book)@),
        event matches Event::Received(q) ==> answers(
            q,
            client,
            SessionView { book: old(group_book)@, group: old(buffer_group)@, maps: old(client_maps)@ },
            texts(reply.messages@),
            reply.next,
            SessionView { book: final(group_book)@, group: final(buffer_group)@, maps: final(client_maps)@ },
        ),
        event == Event::Received(Request::Help) ==> reply.messages@.len() == 1 && reply.messages@[0]@
            == HELP_MESSAGE@ && reply.next == Next::Continue,
        event == Event::Received(Request::CreateGroup) ==> reply.messages@.len() == 1
            && reply.messages@[0]@ == "\nyou created a group"@ && reply.next == Next::Continue
            && final(group_book)@.len() == old(group_book)@.len() + 1,
        event == Event::Received(Request::JoinGroup) ==> reply.messages@.len() == 1
            && reply.messages@[0]@ == "\nyou joined a group"@ && reply.next == Next::Joined,
        event == Event::Received(Request::ShowGroups) ==> {
            &&& reply.messages@.len() == old(group_book)@.len() + 1
            &&& reply.messages@[0]@ == "\nthis are all the groups!"@
            &&& forall|k: int|
                0 <= k < old(group_book)@.len() ==> (#[trigger] reply.messages@[k + 1])@ == debug_line(
                    old(group_book)@[k].name,
                )
            &&& reply.next == Next::Continue
        },
        event == Event::Received(Request::ExitServer) ==> reply.messages@.len() == 0 && reply.next
            == Next::Shutdown,
        event == Event::Received(Request::Unrecognized) ==> reply.messages@.len() == 0 && reply.next
            == Next::Continue,
        !(event is Received) ==> {
            &&& reply.messages@.len() == 0
            &&& reply.next == (if event is Failed {
                Next::Shutdown
            } else {
                Next::Continue
            })
            &&& final(group_book)@ == old(group_book)@
            &&& final(buffer_group)@ == old(buffer_group)@
            &&& final(client_maps)@ == old(client_maps)@
        },
{
    match event {
        Event::Received(request) => handle_request(group_book, buffer_group, client_maps, request, client),
        Event::NoData => Reply { messages: Vec::new(), next: Next::Continue },
        Event::WouldBlock => Reply { messages: Vec::new(), next: Next::Continue },
        Event::Failed => Reply { messages: Vec::new(), next: Next::Shutdown },
    }
}

/// `--help` is answered, whatever the state, with one line, the help text,
/// and the connection keeps reading requests; nothing changes.
pub proof fn help_law(client: u64, before: SessionView, lines: Seq<Seq<char>>, next: Next, after: SessionView)
    requires
        answers(Request::Help, client, before, lines, next, after),
    ensures
        lines.len() == 1,
        lines[0] == HELP_MESSAGE@,
        next == Next::Continue,
        after.book == before.book,
        after.group == before.group,
        after.maps == before.maps,
{
}

/// `--create-group` is answered, whatever the state, with one line saying
/// so, and the connection keeps reading requests; the book gains exactly one
/// group, the new current group, at its end.
pub proof fn create_group_law(client: u64, before: SessionView, lines: Seq<Seq<char>>, next: Next, after: SessionView)
    requires
        answers(Request::CreateGroup, client, before, lines, next, after),
    ensures
        lines.len() == 1,
        lines[0] == "\nyou created a group"@,
        next == Next::Continue,
        after.book.len() == before.book.len() + 1,
        after.book.last() == after.group,
        forall|k: int| 0 <= k < before.book.len() ==> #[trigger] after.book[k] == before.book[k],
        after.group.name == "test"@,
        !book_has_id(before.book, after.group.id),
{
}

/// `--join-group` is answered, whatever the state, with one line saying so,
/// and the connection goes over to relaying: it reads no more requests.
pub proof fn join_group_law(client: u64, before: SessionView, lines: Seq<Seq<char>>, next: Next, after: SessionView)
    requires
        answers(Request::JoinGroup, client, before, lines, next, after),
    ensures
        lines.len() == 1,
        lines[0] == "\nyou joined a group"@,
        next == Next::Joined,
        after.book == before.book,
        after.group == before.group,
        before.group.clients < before.maps.len() ==> clients_of(after.maps, before.group.clients as int)
            == clients_of(before.maps, before.group.clients as int).push(client),
{
}

/// `--show-groups` is answered, whatever the book, with one line more than
/// the book has groups: the heading, then the name of each group, quoted, in
/// the book's order; nothing changes and the connection keeps reading.
pub proof fn show_groups_law(client: u64, before: SessionView, lines: Seq<Seq<char>>, next: Next, after: SessionView)
    requires
        answers(Request::ShowGroups, client, before, lines, next, after),
    ensures
        lines.len() == before.book.len() + 1,
        lines[0] == "\nthis are all the groups!"@,
        forall|k: int| 0 <= k < before.book.len() ==> #[trigger] lines[k + 1] == debug_line(before.book[k].name),
        next == Next::Continue,
        after.book == before.book,
        after.group == before.group,
        after.maps == before.maps,
{
    assert forall|k: int| 0 <= k < before.book.len() implies #[trigger] lines[k + 1] == debug_line(
        before.book[k].name,
    ) by {
        assert(lines[k + 1] == before.book.map_values(|g: GroupView| debug_line(g.name))[k]);
    }
}

/// `--exit-server` is answered, whatever the state, with no line, and the
/// connection is shut down; nothing else changes.
pub proof fn exit_server_law(client: u64, before: SessionView, lines: Seq<Seq<char>>, next: Next, after: SessionView)
    requires
        answers(Request::ExitServer, client, before, lines, next, after),
    ensures
        lines.len() == 0,
        next == Next::Shutdown,
        after.book == before.book,
        after.group == before.group,
        after.maps == before.maps,
{
}

/// A line that is no command gets no answer, changes nothing, and the
/// connection keeps reading requests.
pub proof fn unrecognized_law(client: u64, before: SessionView, lines: Seq<Seq<char>>, next: Next, after: SessionView)
    requires
        answers(Request::Unrecognized, client, before, lines, next, after),
    ensures
        lines.len() == 0,
        next == Next::Continue,
        after.book == before.book,
        after.group == before.group,
        after.maps == before.maps,
{
}

/// Whatever request a client makes, a book whose ids are distinct keeps them
/// distinct: a group that the server adds has an id that no group held.
pub proof fn answers_keep_ids_distinct(
    request: Request,
    client: u64,
    before: SessionView,
    lines: Seq<Seq<char>>,
    next: Next,
    after: SessionView,
)
    requires
        answers(request, client, before, lines, next, after),
        distinct_ids(before.book),
    ensures
        distinct_ids(after.book),
{
    if request == Request::CreateGroup {
        assert forall|i: int| 0 <= i < before.book.len() implies (|g: GroupView| g.id)(
            #[trigger] before.book[i],
        ) != (|g: GroupView| g.id)(after.group) by {
            if before.book[i].id == after.group.id {
                assert(book_has_id(before.book, after.group.id));
            }
        }
        push_keeps_distinct(before.book, after.group, |g: GroupView| g.id);
    }
}

/// Only `--create-group` and `--join-group` change anything. Creating adds
/// exactly one group at the end of the book, with a new empty list of
/// clients, and keeps everything else; joining changes no group and only
/// the current group's list of clients, which every copy of the group
/// shares: there the client comes last, after those that were there.
pub proof fn only_create_and_join_change_state(
    request: Request,
    client: u64,
    before: SessionView,
    lines: Seq<Seq<char>>,
    next: Next,
    after: SessionView,
)
    requires
        answers(request, client, before, lines, next, after),
        before.group.clients < before.maps.len(),
    ensures
        request != Request::CreateGroup && request != Request::JoinGroup ==> after == before,
        request == Request::CreateGroup ==> {
            &&& after.book.len() == before.book.len() + 1
            &&& after.book.subrange(0, before.book.len() as int) == before.book
            &&& after.book.last() == after.group
            &&& clients_of(after.maps, after.group.clients as int) == Seq::<u64>::empty()
            &&& forall|k: int| 0 <= k < before.maps.len() ==> #[trigger] after.maps[k] == before.maps[k]
        },
        request == Request::JoinGroup ==> {
            &&& after.book == before.book
            &&& after.group == before.group
            &&& forall|h: GroupView|
                h.clients == before.group.clients ==> #[trigger] clients_of(after.maps, h.clients as int)
                    == clients_of(before.maps, h.clients as int).push(client)
            &&& forall|k: int|
                0 <= k < before.maps.len() && k != before.group.clients ==> #[trigger] after.maps[k]
                    == before.maps[k]
        },
{
    if request == Request::CreateGroup {
        assert(before.book.push(after.group).subrange(0, before.book.len() as int) == before.book);
    }
}

/// After `--create-group`, the new group and its copy in the book share one
/// list: a later `--join-group` puts the client into the book's copy too.
pub proof fn create_then_join_reaches_book(
    client: u64,
    s0: SessionView,
    lines1: Seq<Seq<char>>,
    next1: Next,
    s1: SessionView,
    lines2: Seq<Seq<char>>,
    next2: Next,
    s2: SessionView,
)
    requires
        answers(Request::CreateGroup, client, s0, lines1, next1, s1),
        answers(Request::JoinGroup, client, s1, lines2, next2, s2),
    ensures
        s2.book.last() == s2.group,
        clients_of(s2.maps, s2.book.last().clients as int) == seq![client],
{
    assert(s1.group.clients < s1.maps.len());
    assert(clients_of(s1.maps, s1.group.clients as int) == Seq::<u64>::empty());
}

/// How many of the requests are `--create-group`.
pub open spec fn creates(requests: Seq<Request>) -> nat
    decreases requests.len(),
{
    if requests.len() == 0 {
        0
    } else {
        creates(requests.drop_last()) + if requests.last() == Request::CreateGroup {
            1nat
        } else {
            0nat
        }
    }
}

/// Over a run of requests on one connection, the book only grows by the
/// groups that `--create-group` makes: one each, added after the groups
/// that were there, which stay as they were; each added group is a `test`
/// group without password, closed, with a drawn id.
pub proof fn book_grows_only_by_creates(
    requests: Seq<Request>,
    client: u64,
    states: Seq<SessionView>,
    lines: Seq<Seq<Seq<char>>>,
    nexts: Seq<Next>,
)
    requires
        states.len() == requests.len() + 1,
        lines.len() == requests.len(),
        nexts.len() == requests.len(),
        forall|i: int|
            0 <= i < requests.len() ==> answers(
                #[trigger] requests[i],
                client,
                states[i],
                lines[i],
                nexts[i],
                states[i + 1],
            ),
    ensures
        states.last().book.len() == states[0].book.len() + creates(requests),
        states.last().book.subrange(0, states[0].book.len() as int) == states[0].book,
        forall|k: int|
            states[0].book.len() <= k < states.last().book.len() ==> {
                &&& (#[trigger] states.last().book[k]).name == "test"@
                &&& states.last().book[k].password == ""@
                &&& !states.last().book[k].open
                &&& valid_seed(states.last().book[k].id)
            },
    decreases requests.len(),
{
    let first = states[0].book;
    if requests.len() == 0 {
        assert(first.subrange(0, first.len() as int) == first);
    } else {
        let n = requests.len() - 1;
        let rs = requests.drop_last();
        let ss = states.drop_last();
        assert forall|i: int| 0 <= i < rs.len() implies answers(
            #[trigger] rs[i],
            client,
            ss[i],
            lines.drop_last()[i],
            nexts.drop_last()[i],
            ss[i + 1],
        ) by {
            assert(rs[i] == requests[i]);
            assert(answers(requests[i], client, states[i], lines[i], nexts[i], states[i + 1]));
        }
        book_grows_only_by_creates(rs, client, ss, lines.drop_last(), nexts.drop_last());
        let mid = ss.last().book;
        let last = states.last().book;
        assert(ss.last() == states[n]);
        assert(states.last() == states[n + 1]);
        assert(answers(requests[n], client, states[n], lines[n], nexts[n], states[n + 1]));
        assert(requests.last() == requests[n]);
        assert(ss[0] == states[0]);
        if requests[n] == Request::CreateGroup {
            assert(last == mid.push(states[n + 1].group));
            assert(last.subrange(0, first.len() as int) == mid.subrange(0, first.len() as int));
            assert forall|k: int| first.len() <= k < last.len() implies {
                &&& (#[trigger] last[k]).name == "test"@
                &&& last[k].password == ""@
                &&& !last[k].open
                &&& valid_seed(last[k].id)
            } by {
                if k < mid.len() {
                    assert(last[k] == mid[k]);
                }
            }
        } else {
            assert(last == mid);
        }
    }
}

} // verus!
