use orion_chat::groups::{
    handle_event, handle_request, parse_request, read_request, seed_char, ClientMaps, Event, Group,
    GroupBook, Next, Request, HELP_MESSAGE, SEED_LEN,
};

fn is_seed_char(c: char) -> bool {
    c.is_ascii_digit() || c.is_ascii_lowercase()
}

fn first_group(book: &GroupBook, maps: &mut ClientMaps) -> Group {
    Group::new("".to_string(), book, "test".to_string(), maps)
}

#[test]
fn seed_chars_cover_charset() {
    let all: String = (0..36).map(seed_char).collect();
    assert_eq!(all, "0123456789abcdefghijklmnopqrstuvwxyz");
}

#[test]
fn new_group_has_fresh_valid_id() {
    let book = GroupBook::new();
    let mut maps = ClientMaps::new();
    let g = Group::new("pw".to_string(), &book, "room".to_string(), &mut maps);
    let id = g.get_id();
    assert_eq!(id.chars().count(), SEED_LEN);
    assert!(id.chars().all(is_seed_char));
    assert_eq!(g.name(), "room");
    assert!(g.clients(&maps).is_empty());
    assert!(!g.get_status());
}

#[test]
fn ids_differ_between_groups() {
    let mut book = GroupBook::new();
    let mut maps = ClientMaps::new();
    for _ in 0..20 {
        let g = Group::new("".to_string(), &book, "g".to_string(), &mut maps);
        assert!(!Group::id_exists(g.get_id(), &book));
        book.add_group(&g);
    }
    for i in 0..book.len() {
        for j in 0..book.len() {
            if i != j {
                assert_ne!(book.group(i).get_id(), book.group(j).get_id());
            }
        }
    }
}

#[test]
fn id_exists_finds_added_group() {
    let mut book = GroupBook::new();
    let mut maps = ClientMaps::new();
    let g = first_group(&book, &mut maps);
    assert!(!Group::id_exists(g.get_id(), &book));
    book.add_group(&g);
    assert!(Group::id_exists(g.get_id(), &book));
    assert!(!Group::id_exists("nope".to_string(), &book));
}

#[test]
fn add_group_appends_copy() {
    let mut book = GroupBook::new();
    let mut maps = ClientMaps::new();
    let a = first_group(&book, &mut maps);
    book.add_group(&a);
    let b = first_group(&book, &mut maps);
    book.add_group(&b);
    assert_eq!(book.len(), 2);
    assert_eq!(book.group(0).get_id(), a.get_id());
    assert_eq!(book.group(1).get_id(), b.get_id());
}

#[test]
fn status_toggles() {
    let book = GroupBook::new();
    let mut maps = ClientMaps::new();
    let mut g = first_group(&book, &mut maps);
    g.change_status();
    assert!(g.get_status());
    g.change_status();
    assert!(!g.get_status());
}

#[test]
fn clients_join_in_order() {
    let book = GroupBook::new();
    let mut maps = ClientMaps::new();
    let mut g = first_group(&book, &mut maps);
    g.add_client(&mut maps, 5);
    g.add_client(&mut maps, 2);
    g.get_clients();
    assert_eq!(g.clients(&maps), vec![5, 2]);
}

#[test]
fn clones_share_clients() {
    let book = GroupBook::new();
    let mut maps = ClientMaps::new();
    let g = first_group(&book, &mut maps);
    let copy = g.clone();
    let other = first_group(&book, &mut maps);
    g.add_client(&mut maps, 7);
    assert_eq!(copy.clients(&maps), vec![7]);
    copy.add_client(&mut maps, 8);
    assert_eq!(g.clients(&maps), vec![7, 8]);
    assert!(other.clients(&maps).is_empty());
}

#[test]
fn cloned_book_shares_clients() {
    let mut book = GroupBook::new();
    let mut maps = ClientMaps::new();
    let g = first_group(&book, &mut maps);
    book.add_group(&g);
    let copy = book.clone();
    g.add_client(&mut maps, 3);
    assert_eq!(book.group(0).clients(&maps), vec![3]);
    assert_eq!(copy.group(0).clients(&maps), vec![3]);
}

#[test]
fn parses_each_command() {
    assert_eq!(parse_request("--help"), Request::Help);
    assert_eq!(parse_request("--create-group"), Request::CreateGroup);
    assert_eq!(parse_request("--join-group"), Request::JoinGroup);
    assert_eq!(parse_request("--show-groups"), Request::ShowGroups);
    assert_eq!(parse_request("--exit-server"), Request::ExitServer);
    assert_eq!(parse_request("--help "), Request::Unrecognized);
    assert_eq!(parse_request("hello"), Request::Unrecognized);
    assert_eq!(parse_request(""), Request::Unrecognized);
}

#[test]
fn reads_request_from_terminal_line() {
    let mut data = [0u8; 1200];
    data[..8].copy_from_slice(b"--help\r\n");
    assert_eq!(read_request(&data, 8), Some(Request::Help));
    data[..2].copy_from_slice(b"\r\n");
    assert_eq!(read_request(&data, 2), Some(Request::Unrecognized));
    let bad = [0xffu8, b'\r', b'\n'];
    assert_eq!(read_request(&bad, 3), None);
}

#[test]
fn help_reply() {
    let mut book = GroupBook::new();
    let mut maps = ClientMaps::new();
    let mut g = first_group(&book, &mut maps);
    let reply = handle_request(&mut book, &mut g, &mut maps, Request::Help, 1);
    assert_eq!(reply.messages, vec![HELP_MESSAGE.to_string()]);
    assert_eq!(reply.next, Next::Continue);
    assert_eq!(book.len(), 0);
    assert!(HELP_MESSAGE.contains("--create-group"));
    assert!(HELP_MESSAGE.starts_with("\n\n    Create chat group:  --create-group\n\n"));
}

#[test]
fn create_group_reply_and_effect() {
    let mut book = GroupBook::new();
    let mut maps = ClientMaps::new();
    let mut g = Group::new("".to_string(), &book, "first".to_string(), &mut maps);
    let before = g.get_id();
    let reply = handle_request(&mut book, &mut g, &mut maps, Request::CreateGroup, 1);
    assert_eq!(reply.messages, vec!["\nyou created a group".to_string()]);
    assert_eq!(reply.next, Next::Continue);
    assert_eq!(book.len(), 1);
    assert_eq!(g.name(), "test");
    assert_ne!(g.get_id(), before);
    assert_eq!(book.group(0).get_id(), g.get_id());
    assert!(g.clients(&maps).is_empty());
}

#[test]
fn join_group_adds_client() {
    let mut book = GroupBook::new();
    let mut maps = ClientMaps::new();
    let mut g = first_group(&book, &mut maps);
    let reply = handle_request(&mut book, &mut g, &mut maps, Request::JoinGroup, 42);
    assert_eq!(reply.messages, vec!["\nyou joined a group".to_string()]);
    assert_eq!(reply.next, Next::Joined);
    assert_eq!(g.clients(&maps), vec![42]);
    assert_eq!(book.len(), 0);
}

#[test]
fn show_groups_lists_names() {
    let mut book = GroupBook::new();
    let mut maps = ClientMaps::new();
    let mut g = first_group(&book, &mut maps);
    handle_request(&mut book, &mut g, &mut maps, Request::CreateGroup, 1);
    handle_request(&mut book, &mut g, &mut maps, Request::CreateGroup, 1);
    let mut other = Group::new("".to_string(), &book, "a \"b\"".to_string(), &mut maps);
    book.add_group(&other);
    let reply = handle_request(&mut book, &mut other, &mut maps, Request::ShowGroups, 1);
    assert_eq!(
        reply.messages,
        vec![
            "\nthis are all the groups!".to_string(),
            "\n\"test\"".to_string(),
            "\n\"test\"".to_string(),
            "\n\"a \\\"b\\\"\"".to_string(),
        ]
    );
    assert_eq!(reply.next, Next::Continue);
}

#[test]
fn exit_server_shuts_down() {
    let mut book = GroupBook::new();
    let mut maps = ClientMaps::new();
    let mut g = first_group(&book, &mut maps);
    let reply = handle_request(&mut book, &mut g, &mut maps, Request::ExitServer, 1);
    assert!(reply.messages.is_empty());
    assert_eq!(reply.next, Next::Shutdown);
}

#[test]
fn unknown_request_is_ignored() {
    let mut book = GroupBook::new();
    let mut maps = ClientMaps::new();
    let mut g = first_group(&book, &mut maps);
    let reply = handle_request(&mut book, &mut g, &mut maps, Request::Unrecognized, 1);
    assert!(reply.messages.is_empty());
    assert_eq!(reply.next, Next::Continue);
    assert_eq!(book.len(), 0);
}

#[test]
fn read_events() {
    let mut book = GroupBook::new();
    let mut maps = ClientMaps::new();
    let mut g = first_group(&book, &mut maps);
    let r = handle_event(&mut book, &mut g, &mut maps, Event::NoData, 1);
    assert!(r.messages.is_empty());
    assert_eq!(r.next, Next::Continue);
    let r = handle_event(&mut book, &mut g, &mut maps, Event::WouldBlock, 1);
    assert_eq!(r.next, Next::Continue);
    let r = handle_event(&mut book, &mut g, &mut maps, Event::Failed, 1);
    assert!(r.messages.is_empty());
    assert_eq!(r.next, Next::Shutdown);
    let r = handle_event(&mut book, &mut g, &mut maps, Event::Received(Request::JoinGroup), 9);
    assert_eq!(r.next, Next::Joined);
    assert_eq!(g.clients(&maps), vec![9]);
}

#[test]
fn book_clone_keeps_groups() {
    let mut book = GroupBook::new();
    let mut maps = ClientMaps::new();
    let g = first_group(&book, &mut maps);
    book.add_group(&g);
    let copy = book.clone();
    assert_eq!(copy.len(), 1);
    assert_eq!(copy.group(0).get_id(), g.get_id());
}

#[test]
fn unused_seed_takes_first_free_number() {
    let mut book = GroupBook::new();
    let mut maps = ClientMaps::new();
    assert_eq!(Group::unused_seed(&book), "0".repeat(32));
    let g = first_group(&book, &mut maps);
    book.add_group(&g);
    let spare = Group::unused_seed(&book);
    assert_eq!(spare.chars().count(), SEED_LEN);
    assert!(!Group::id_exists(spare.clone(), &book));
}

#[test]
fn generate_random_seed_is_fresh() {
    let mut book = GroupBook::new();
    let mut maps = ClientMaps::new();
    for _ in 0..10 {
        let id = Group::generate_random_seed(&book);
        assert_eq!(id.chars().count(), SEED_LEN);
        assert!(id.chars().all(is_seed_char));
        assert!(!Group::id_exists(id, &book));
        let g = first_group(&book, &mut maps);
        book.add_group(&g);
    }
}

#[test]
fn join_reaches_copy_in_book() {
    let mut book = GroupBook::new();
    let mut maps = ClientMaps::new();
    let mut g = first_group(&book, &mut maps);
    handle_request(&mut book, &mut g, &mut maps, Request::CreateGroup, 1);
    handle_request(&mut book, &mut g, &mut maps, Request::CreateGroup, 1);
    let reply = handle_request(&mut book, &mut g, &mut maps, Request::JoinGroup, 8);
    assert_eq!(reply.next, Next::Joined);
    assert_eq!(g.clients(&maps), vec![8]);
    assert_eq!(book.group(1).clients(&maps), vec![8]);
    assert!(book.group(0).clients(&maps).is_empty());
    assert_eq!(book.group(1).get_id(), g.get_id());
}

#[test]
fn join_of_unlisted_group_leaves_book_lists() {
    let mut book = GroupBook::new();
    let mut maps = ClientMaps::new();
    let listed = first_group(&book, &mut maps);
    book.add_group(&listed);
    let mut g = first_group(&book, &mut maps);
    handle_request(&mut book, &mut g, &mut maps, Request::JoinGroup, 3);
    assert_eq!(g.clients(&maps), vec![3]);
    assert!(book.group(0).clients(&maps).is_empty());
}

#[test]
fn every_create_group_adds_one_group() {
    let mut book = GroupBook::new();
    let mut maps = ClientMaps::new();
    let mut g = first_group(&book, &mut maps);
    for n in 1..=5 {
        handle_request(&mut book, &mut g, &mut maps, Request::CreateGroup, 1);
        assert_eq!(book.len(), n);
        assert_eq!(book.group(n - 1).get_id(), g.get_id());
    }
    handle_request(&mut book, &mut g, &mut maps, Request::ShowGroups, 1);
    handle_request(&mut book, &mut g, &mut maps, Request::JoinGroup, 1);
    assert_eq!(book.len(), 5);
}

#[test]
fn closed_groups_lists_positions() {
    let mut book = GroupBook::new();
    let mut maps = ClientMaps::new();
    assert!(book.closed_groups().is_empty());
    for i in 0..4 {
        let mut g = first_group(&book, &mut maps);
        if i % 2 == 1 {
            g.change_status();
        }
        book.add_group(&g);
    }
    assert_eq!(book.closed_groups(), vec![0, 2]);
}

#[test]
fn members_of_unknown_list_is_empty() {
    let maps = ClientMaps::new();
    assert!(maps.members(4).is_empty());
}
