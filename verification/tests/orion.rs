use orion_chat::orion::{
    after_read, handle_server_message, Action, Client, Group, Message, PeerAddress, GROUP_ID_LEN,
    WELCOME_MESSAGE,
};

fn addr(port: u16) -> PeerAddress {
    PeerAddress { ipv6: false, ip: 0x7f00_0001, port, flowinfo: 0, scope_id: 0 }
}

fn client(stream: u64, port: u16) -> Client {
    Client::new(stream, "john".to_string(), addr(port))
}

fn ports(clients: &[Client]) -> Vec<u16> {
    clients.iter().map(|c| c.address.port).collect()
}

#[test]
fn new_room_is_empty() {
    let g = Group::new("sample".to_string());
    assert!(g.clients().is_empty());
    assert!(g.recipients(&client(0, 1)).is_empty());
}

#[test]
fn room_id_is_alphanumeric() {
    for _ in 0..50 {
        let g = Group::new("sample".to_string());
        assert_eq!(g.group_name(), "sample");
        assert_eq!(g.group_id().chars().count(), GROUP_ID_LEN);
        assert!(g.group_id().chars().all(|c| c.is_ascii_alphanumeric()));
    }
}

#[test]
fn insert_replaces_same_address() {
    let mut g = Group::new("sample".to_string());
    g.insert(client(1, 10));
    g.insert(client(2, 20));
    g.insert(client(3, 10));
    let all = g.clients();
    assert_eq!(ports(&all), vec![10, 20]);
    assert_eq!(all[0].stream, 3);
}

#[test]
fn remove_takes_out_address() {
    let mut g = Group::new("sample".to_string());
    g.insert(client(1, 10));
    g.insert(client(2, 20));
    g.remove(client(9, 10));
    assert_eq!(ports(&g.clients()), vec![20]);
    g.remove(client(9, 99));
    assert_eq!(ports(&g.clients()), vec![20]);
}

#[test]
fn insert_then_remove_restores() {
    let mut g = Group::new("sample".to_string());
    g.insert(client(1, 10));
    g.insert(client(2, 20));
    g.insert(client(3, 30));
    g.remove(client(3, 30));
    assert_eq!(ports(&g.clients()), vec![10, 20]);
}

#[test]
fn message_goes_to_others() {
    let mut g = Group::new("sample".to_string());
    g.insert(client(1, 10));
    g.insert(client(2, 20));
    g.insert(client(3, 30));
    assert_eq!(ports(&g.recipients(&client(2, 20))), vec![10, 30]);
    assert_eq!(ports(&g.recipients(&client(7, 70))), vec![10, 20, 30]);
}

#[test]
fn server_handles_connect_message_disconnect() {
    let mut g = Group::new("sample".to_string());
    match handle_server_message(&mut g, Message::Connect(client(1, 10))) {
        Action::Welcome(c) => assert_eq!(c.address, addr(10)),
        _ => panic!("expected a welcome"),
    }
    handle_server_message(&mut g, Message::Connect(client(2, 20)));
    match handle_server_message(&mut g, Message::New { sender: client(1, 10), msg: b"hi".to_vec() }) {
        Action::Deliver { recipients, msg } => {
            assert_eq!(ports(&recipients), vec![20]);
            assert_eq!(msg, b"hi".to_vec());
        }
        _ => panic!("expected a delivery"),
    }
    match handle_server_message(&mut g, Message::Disconnect(client(1, 10))) {
        Action::Departed(a) => assert_eq!(a, addr(10)),
        _ => panic!("expected a departure"),
    }
    assert_eq!(ports(&g.clients()), vec![20]);
    assert_eq!(WELCOME_MESSAGE, "\nWelcome to Orion!\n");
}

#[test]
fn read_of_bytes_becomes_message() {
    let c = client(4, 40);
    let buf = b"hello world".to_vec();
    let step = after_read(&c, &buf, 5);
    assert!(!step.closed);
    assert_eq!(step.messages.len(), 1);
    match &step.messages[0] {
        Message::New { sender, msg } => {
            assert_eq!(sender.stream, 4);
            assert_eq!(msg, &b"hello".to_vec());
        }
        _ => panic!("expected a message"),
    }
}

#[test]
fn empty_read_closes_connection() {
    let c = client(4, 40);
    let step = after_read(&c, &[0u8; 64], 0);
    assert!(step.closed);
    assert_eq!(step.messages.len(), 2);
    assert!(matches!(&step.messages[0], Message::New { msg, .. } if msg.is_empty()));
    assert!(matches!(&step.messages[1], Message::Disconnect(d) if d.address == addr(40)));
}

#[test]
fn failed_read_closes_with_departure() {
    let c = client(4, 40);
    let step = orion_chat::orion::after_read_error(&c);
    assert!(step.closed);
    assert_eq!(step.messages.len(), 1);
    assert!(matches!(&step.messages[0], Message::Disconnect(d) if d.address == addr(40)));
}

#[test]
fn departed_address_gets_nothing_until_it_returns() {
    let mut g = Group::new("sample".to_string());
    handle_server_message(&mut g, Message::Connect(client(1, 10)));
    handle_server_message(&mut g, Message::Connect(client(2, 20)));
    handle_server_message(&mut g, Message::Disconnect(client(1, 10)));
    handle_server_message(&mut g, Message::Connect(client(3, 30)));
    match handle_server_message(&mut g, Message::New { sender: client(3, 30), msg: b"x".to_vec() }) {
        Action::Deliver { recipients, .. } => assert_eq!(ports(&recipients), vec![20]),
        _ => panic!("expected a delivery"),
    }
    handle_server_message(&mut g, Message::Connect(client(5, 10)));
    match handle_server_message(&mut g, Message::New { sender: client(3, 30), msg: b"y".to_vec() }) {
        Action::Deliver { recipients, .. } => assert_eq!(ports(&recipients), vec![20, 10]),
        _ => panic!("expected a delivery"),
    }
}

#[test]
fn connection_events_open_and_close_once() {
    let c = client(4, 40);
    let mut sent = vec![Message::Connect(c.clone())];
    for n in [3usize, 7, 0] {
        let step = after_read(&c, &[b'a'; 64], n);
        sent.extend(step.messages);
        if step.closed {
            break;
        }
    }
    assert_eq!(sent.len(), 5);
    assert!(matches!(sent[0], Message::Connect(_)));
    assert!(sent[1..4].iter().all(|m| matches!(m, Message::New { .. })));
    assert!(matches!(sent[4], Message::Disconnect(_)));
}
