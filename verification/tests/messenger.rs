use rustlabs::messenger::cipher::{decode_message, encrypt_decrypt};
use rustlabs::messenger::client::{frame, signal_of, ClientState, Signal};
use rustlabs::messenger::commands::{
    command_type_of, history_lobby_header, history_user_header, parse_message, without_nul,
    CommandType, Commands, LoginOutcome, SendOutcome,
};
use rustlabs::messenger::connections::ConnectionManager;
use rustlabs::messenger::records::{
    add_new_login, count_nr_messages, delete_client, delete_lobby, find_lobby,
    find_user_in_connected_users, find_user_in_users, last_fifty, remove_login, ClientLine, LobbyScan,
    create_lobby, CreateLobby,
};
use rustlabs::messenger::session::{AfterCommand, Dispatch, LobbyStep, Session};
use rustlabs::text::chars_of;

fn some_lines(ls: &[&str]) -> Vec<Option<String>> {
    ls.iter().map(|l| Some(String::from(*l))).collect()
}

fn strings(ls: &[&str]) -> Vec<String> {
    ls.iter().map(|l| String::from(*l)).collect()
}

fn logged_in(user: &str) -> Session {
    let mut s = Session::new();
    let parsed = parse_message(&format!("-login {}\0\0", user)).unwrap();
    s.finish(&parsed, true);
    s
}

#[test]
fn xor_cipher() {
    assert_eq!(encrypt_decrypt(&[1, 2, 3, 4], &[255, 0]), vec![254, 2, 252, 4]);
    assert_eq!(encrypt_decrypt(&[], &[7]), Vec::<u8>::new());
}

#[test]
fn xor_cipher_twice_gives_data_back() {
    let key = [245, 44, 154, 236, 202];
    let data: Vec<u8> = (0..=255u8).collect();
    let once = encrypt_decrypt(&data, &key);
    assert_ne!(once, data);
    assert_eq!(encrypt_decrypt(&once, &key), data);
}

#[test]
fn decoding_messages() {
    assert_eq!(decode_message(&[0x68, 0x69, 0xff], 3, &[0]), "hi\u{FFFD}");
    assert_eq!(decode_message(&[0x69, 0x68, 0x01], 2, &[1]), "hi");
    assert_eq!(decode_message(&[0x69, 0x68], 0, &[1]), "");
}

#[test]
fn decoding_replaces_invalid_sequences() {
    assert_eq!(decode_message(&[0x61, 0xff, 0x62], 3, &[0]), "a\u{FFFD}b");
    assert_eq!(decode_message("é".as_bytes(), 2, &[0]), "é");
}

#[test]
fn command_words() {
    assert_eq!(command_type_of(&chars_of("-join")), CommandType::JoinLobby);
    assert_eq!(command_type_of(&chars_of("-historyuser")), CommandType::HistoryUser);
    assert_eq!(command_type_of(&chars_of("-quit")), CommandType::Quit);
    assert_eq!(command_type_of(&chars_of("-x")), CommandType::Unknown);
    assert_eq!(command_type_of(&chars_of("")), CommandType::Unknown);
}

#[test]
fn parsing_messages() {
    let p = parse_message("-login ana\0\0").unwrap();
    assert_eq!(p.command_type, CommandType::Login);
    assert_eq!(p.rest_of_message, "ana");
    assert_eq!(p.subtext, "ana\0\0");
    let p = parse_message("-help\0\0").unwrap();
    assert_eq!(p.command_type, CommandType::Help);
    assert_eq!(p.rest_of_message, "");
    assert_eq!(p.subtext, "-help\0\0");
    let p = parse_message("-send bob hi there").unwrap();
    assert_eq!(p.command_type, CommandType::Send);
    assert_eq!(p.rest_of_message, "bob");
    assert_eq!(p.subtext, "bob hi there");
    assert!(parse_message("-help").is_none());
}

#[test]
fn given_names() {
    let c = Commands::new(CommandType::Login, String::from("ana\0\0"), None);
    assert_eq!(c.given_name(), "ana");
    let c = Commands::new(CommandType::JoinLobby, String::from("lob \0\0x"), None);
    assert_eq!(c.given_name(), "lob");
}

#[test]
fn login_outcomes() {
    let users = some_lines(&["bob,ana", "carl"]);
    let connected = some_lines(&["127.0.0.1:5"]);
    let c = Commands::new(CommandType::Login, String::from("ana\0\0"), None);
    assert_eq!(c.login_outcome(&users, &connected), LoginOutcome::Success);
    let c = Commands::new(CommandType::Login, String::from("dan\0\0"), None);
    assert_eq!(c.login_outcome(&users, &connected), LoginOutcome::NotRegistered);
    assert_eq!(c.login_outcome(&[None], &connected), LoginOutcome::ReadError);
    let c = Commands::new(CommandType::Login, String::from("ana\0\0"), None);
    let busy = some_lines(&["127.0.0.1:6 - ana"]);
    assert_eq!(c.login_outcome(&users, &busy), LoginOutcome::AlreadyConnected);
}

#[test]
fn registration_names() {
    let c = Commands::new(CommandType::Register, String::from("bob\0\0"), None);
    assert_eq!(c.register_name(), Some(String::from("bob")));
    let c = Commands::new(CommandType::Register, String::from(" \0bob"), None);
    assert_eq!(c.register_name(), None);
    let c = Commands::new(CommandType::Register, String::from("bo!b"), None);
    assert_eq!(c.register_name(), None);
    let c = Commands::new(CommandType::Register, String::from("bob smith\0"), None);
    assert_eq!(c.register_name(), None);
    let c = Commands::new(CommandType::Register, String::from("  Émile7  "), None);
    assert_eq!(c.register_name(), Some(String::from("Émile7")));
}

#[test]
fn send_outcomes() {
    let users = some_lines(&["ana", "bob"]);
    let c = Commands::new(CommandType::Send, String::from("bob hello there\0\0"), Some(String::from("ana")));
    match c.send_outcome(&users) {
        SendOutcome::Deliver { recipient, entry } => {
            assert_eq!(recipient, "bob");
            assert_eq!(entry, "[From ana]: hello there");
        }
        _ => panic!("expected a delivery"),
    }
    let c = Commands::new(CommandType::Send, String::from("ana hi"), Some(String::from("ana")));
    assert!(matches!(c.send_outcome(&users), SendOutcome::SelfMessage));
    let c = Commands::new(CommandType::Send, String::from("zed hi"), Some(String::from("ana")));
    assert!(matches!(c.send_outcome(&users), SendOutcome::NotRegistered));
    let c = Commands::new(CommandType::Send, String::from("bob hi"), None);
    assert!(matches!(c.send_outcome(&users), SendOutcome::NotConnected));
}

#[test]
fn reply_outcomes() {
    let history = vec![
        Some(String::from("[bob]: hi all")),
        Some(String::from("[carl]: yo")),
        None,
    ];
    let c = Commands::new(
        CommandType::Reply,
        String::from("[ana]: -reply bob thanks a lot\0\0"),
        Some(String::from("lob")),
    );
    let r = c.reply_outcome(&history).unwrap();
    assert_eq!(r.history, "replied to:( [bob]: hi all ) =>> [ana]: thanks a lot");
    assert_eq!(r.broadcast, "replied to:( [bob]: hi all ) =>> [ana]: thanks a lot");
    let c = Commands::new(CommandType::Reply, String::from("[ana]: -reply zed x"), Some(String::from("lob")));
    assert!(c.reply_outcome(&history).is_none());
    let c = Commands::new(CommandType::Reply, String::from("[ana]: -reply"), Some(String::from("lob")));
    let r = c.reply_outcome(&history).unwrap();
    assert_eq!(r.history, "replied to:( [carl]: yo ) =>> [ana]:");
}

#[test]
fn headers_and_nul_removal() {
    assert_eq!(history_user_header("ana"), "      ---- History of inbox for < ana > ----\n");
    assert_eq!(history_lobby_header("lob"), "    ---- History of conversation from < lob > ----\n");
    assert_eq!(without_nul("a\0b\0"), "ab");
}

#[test]
fn session_dispatch() {
    let s = Session::new();
    let p = parse_message("-create lob\0").unwrap();
    assert!(matches!(s.dispatch(&p), Dispatch::NotConnected));
    let p = parse_message("-login ana\0\0").unwrap();
    match s.dispatch(&p) {
        Dispatch::Run(c) => {
            assert_eq!(c.command_type, CommandType::Login);
            assert_eq!(c.command_received, "ana\0\0");
            assert_eq!(c.user, Some(String::from("ana")));
        }
        Dispatch::NotConnected => panic!("login needs no user"),
    }
    let p = parse_message("-inbox\0").unwrap();
    match s.dispatch(&p) {
        Dispatch::Run(c) => assert_eq!(c.user, Some(String::new())),
        Dispatch::NotConnected => panic!("inbox needs no user"),
    }
}

#[test]
fn session_login_logout() {
    let mut s = logged_in("ana");
    assert!(s.connected);
    assert_eq!(s.user, Some(String::from("ana")));
    let p = parse_message("-create lob\0").unwrap();
    match s.dispatch(&p) {
        Dispatch::Run(c) => assert_eq!(c.user, Some(String::from("ana"))),
        Dispatch::NotConnected => panic!("ana is logged in"),
    }
    let failed = parse_message("-login bob\0").unwrap();
    s.finish(&failed, false);
    assert_eq!(s.user, Some(String::from("ana")));
    let out = parse_message("-logout\0").unwrap();
    s.finish(&out, true);
    assert!(!s.connected);
    assert_eq!(s.user, None);
}

#[test]
fn session_lobby_steps() {
    let mut s = logged_in("ana");
    assert!(s.lobby_step(b"hello", "lob").is_none());
    s.enter_lobby(String::from("lob"));
    assert!(s.connected_to_a_lobby);
    match s.lobby_step(b"hello all\0\0", "lob") {
        Some(LobbyStep::Broadcast { lobby, history, message }) => {
            assert_eq!(lobby, "lob");
            assert_eq!(history, "[ana]: hello all");
            assert_eq!(message, "[ana]: hello all\0\0");
        }
        _ => panic!("expected a broadcast"),
    }
    assert!(matches!(s.lobby_step(b"-quitlobby\0\0", "lob"), Some(LobbyStep::QuitLobby)));
    match s.lobby_step(b"-reply bob hi", "lob") {
        Some(LobbyStep::Reply(c)) => {
            assert_eq!(c.command_type, CommandType::Reply);
            assert_eq!(c.command_received, "[ana]: -reply bob hi");
            assert_eq!(c.user, Some(String::from("lob")));
        }
        _ => panic!("expected a reply"),
    }
    assert!(s.lobby_step(&[0xff, 0x00], "lob").is_none());
    s.leave_lobby();
    assert!(!s.connected_to_a_lobby);
    assert_eq!(s.lobby, None);
}

#[test]
fn connection_manager_lobbies() {
    let mut m = ConnectionManager::new();
    m.add_connection(String::from("1.1.1.1:1"));
    m.add_connection(String::from("2.2.2.2:2"));
    m.add_connection(String::from("3.3.3.3:3"));
    assert!(m.connect_to_a_lobby(String::from("lob"), "1.1.1.1:1"));
    assert!(!m.connect_to_a_lobby(String::from("other"), "1.1.1.1:1"));
    assert!(m.connect_to_a_lobby(String::from("lob"), "2.2.2.2:2"));
    assert_eq!(m.connections[0].1, Some(String::from("lob")));
    let (to, text) = m.send("lob", "[a]: hi\0\0", "1.1.1.1:1");
    assert_eq!(to, vec![1]);
    assert_eq!(text, "[a]: hi");
    let (to, _) = m.send("nowhere", "x", "1.1.1.1:1");
    assert!(to.is_empty());
    assert!(m.remove_user_from_lobby("2.2.2.2:2"));
    assert_eq!(m.connections[1].1, None);
    assert!(!m.remove_user_from_lobby("9.9.9.9:9"));
}

#[test]
fn connected_clients_file() {
    let lines = vec![
        ClientLine { text: String::from("127.0.0.1:5"), parsed: Some(String::from("127.0.0.1:5")) },
        ClientLine { text: String::from("127.0.0.1:6 - ana"), parsed: None },
        ClientLine { text: String::from("127.0.0.1:7"), parsed: Some(String::from("127.0.0.1:7")) },
    ];
    assert_eq!(delete_client(&lines, "127.0.0.1:5"), strings(&["127.0.0.1:6 - ana", "127.0.0.1:7"]));
    assert_eq!(
        add_new_login(&strings(&["127.0.0.1:5", " 127.0.0.1:6 "]), "127.0.0.1:6", "ana"),
        strings(&["127.0.0.1:5", " 127.0.0.1:6  - ana"])
    );
    assert_eq!(
        remove_login(&strings(&["127.0.0.1:6 - ana", "127.0.0.1:5 - bob"]), "127.0.0.1:6", "ana"),
        strings(&["127.0.0.1:6", "127.0.0.1:5 - bob"])
    );
}

#[test]
fn login_then_logout_restores_the_line() {
    let start = strings(&["127.0.0.1:6"]);
    let with = add_new_login(&start, "127.0.0.1:6", "ana");
    assert_eq!(with, strings(&["127.0.0.1:6 - ana"]));
    assert_eq!(remove_login(&with, "127.0.0.1:6", "ana"), start);
}

#[test]
fn user_lists() {
    assert_eq!(count_nr_messages("a\nb\n"), 2);
    assert_eq!(count_nr_messages(""), 0);
    assert_eq!(count_nr_messages("a"), 1);
    assert!(!find_user_in_users(&some_lines(&[" ana ", "bob"]), "ana"));
    assert!(find_user_in_users(&some_lines(&[" ana ", "bob"]), "zed"));
    assert!(!find_user_in_users(&[None, Some(String::from("zed"))], "zed"));
    assert!(find_user_in_connected_users(&some_lines(&["x - ana"]), "ana"));
    assert!(!find_user_in_connected_users(&[None, Some(String::from("ana"))], "ana"));
    assert!(!find_user_in_connected_users(&[], "ana"));
}

#[test]
fn lobby_lists() {
    assert_eq!(find_lobby(&some_lines(&["a", " lob "]), "lob"), LobbyScan::Found);
    assert_eq!(find_lobby(&[None], "lob"), LobbyScan::ReadError);
    assert_eq!(find_lobby(&[], "lob"), LobbyScan::Missing);
    assert_eq!(delete_lobby("a\nlob\nb\nlob\n", "lob"), (strings(&["a", "b"]), true));
    assert_eq!(delete_lobby("a\n", "x"), (strings(&["a"]), false));
}

#[test]
fn last_fifty_lines() {
    let mut lines: Vec<Option<String>> = (0..60).map(|i| Some(format!("l{}", i))).collect();
    lines.insert(30, None);
    let expected: Vec<String> = (10..60).map(|i| format!("l{}", i)).collect();
    assert_eq!(last_fifty(&lines), expected);
    assert_eq!(last_fifty(&some_lines(&["a", "b"])), strings(&["a", "b"]));
}

#[test]
fn client_signals() {
    assert_eq!(signal_of("\nLogin successfully!\n You have 0 unread messages!"), Some(Signal::Login));
    assert_eq!(signal_of("Logout successfully!!"), Some(Signal::Logout));
    assert_eq!(
        signal_of("\n--- CHAT GROUP ---\n For quit this session, use -quitlobby\n"),
        Some(Signal::Lobby)
    );
    assert_eq!(
        signal_of("\nDisconnected successfully from lobby!\n Continue with -help to see available commands!\n"),
        Some(Signal::QuitLobby)
    );
    assert_eq!(signal_of("hello"), None);
}

#[test]
fn client_state_refusals_and_prompt() {
    let mut s = ClientState::new();
    assert_eq!(s.prompt(), Some("[logout]: "));
    assert_eq!(s.refusal("-logout"), Some(String::from("\nUser already disconnected!\n")));
    assert_eq!(s.refusal("-historylobby x"), Some(String::from("\nUser not connected!\n")));
    assert_eq!(s.refusal("-login ana"), None);
    s.apply(Signal::Login);
    assert_eq!(s.prompt(), Some("[login]: "));
    assert_eq!(s.refusal("-login ana"), Some(String::from("\nUser already connected!\n")));
    assert_eq!(s.refusal("-historylobby x"), None);
    s.apply(Signal::Lobby);
    assert_eq!(s.prompt(), None);
    assert_eq!(
        s.refusal("-historylobby x"),
        Some(String::from("\nYou must quit this lobby to see history of conversation from lobby!\n"))
    );
    s.apply(Signal::QuitLobby);
    s.apply(Signal::Logout);
    assert!(!s.connected && !s.lobby);
}

#[test]
fn client_frames() {
    let f = frame("  -login ana \n");
    assert_eq!(f.len(), 50);
    assert_eq!(&f[..10], b"-login ana");
    assert!(f[10..].iter().all(|&b| b == 0));
    let long = "x".repeat(60);
    assert_eq!(frame(&long), vec![b'x'; 50]);
}

#[test]
fn what_follows_a_command() {
    let mut s = logged_in("ana");
    let quit = parse_message("-quit\0").unwrap();
    assert!(matches!(s.finish(&quit, true), AfterCommand::Disconnect));
    let join = parse_message("-join lob\0\0").unwrap();
    match s.finish(&join, true) {
        AfterCommand::Join(name) => assert_eq!(name, "lob"),
        _ => panic!("a successful join places the client"),
    }
    assert!(matches!(s.finish(&join, false), AfterCommand::Continue));
    let help = parse_message("-help\0").unwrap();
    assert!(matches!(s.finish(&help, true), AfterCommand::Continue));
    assert_eq!(s.user, Some(String::from("ana")));
}

#[test]
fn lobby_messages_go_to_the_last_second_word() {
    let mut s = logged_in("ana");
    s.enter_lobby(String::from("lob"));
    match s.lobby_step(b"hi", "other") {
        Some(LobbyStep::Broadcast { lobby, .. }) => assert_eq!(lobby, "other"),
        _ => panic!("expected a broadcast"),
    }
    match s.lobby_step(b"-reply bob hi", "other") {
        Some(LobbyStep::Reply(c)) => assert_eq!(c.user, Some(String::from("lob"))),
        _ => panic!("expected a reply"),
    }
}

#[test]
fn end_of_stream_steps() {
    let s = Session::new();
    let e = s.end_of_stream(false);
    assert_eq!(e.user, "");
    assert!(e.close && !e.leave_lobby);
    let mut s = logged_in("ana");
    s.enter_lobby(String::from("lob"));
    let e = s.end_of_stream(true);
    assert_eq!(e.user, "ana");
    assert!(e.leave_lobby && !e.close);
}

#[test]
fn registrations() {
    let users = some_lines(&["ana", " bob "]);
    let c = Commands::new(CommandType::Register, String::from("carl\0\0"), None);
    assert_eq!(c.registration(&users), Some(String::from("carl")));
    let c = Commands::new(CommandType::Register, String::from("bob\0\0"), None);
    assert_eq!(c.registration(&users), None);
    let c = Commands::new(CommandType::Register, String::from("b!b\0"), None);
    assert_eq!(c.registration(&users), None);
    let c = Commands::new(CommandType::Register, String::from("carl\0"), None);
    assert_eq!(c.registration(&[None]), None);
}

#[test]
fn creating_lobbies() {
    match create_lobby(&some_lines(&["a", "b"]), "lob") {
        CreateLobby::Append(t) => assert_eq!(t, "lob\n"),
        _ => panic!("a new lobby is appended"),
    }
    assert!(matches!(create_lobby(&some_lines(&["a", " lob "]), "lob"), CreateLobby::Exists));
    assert!(matches!(create_lobby(&[None], "lob"), CreateLobby::ReadError));
    let mut content = String::from("a\n");
    for _ in 0..2 {
        let lines: Vec<Option<String>> = content.lines().map(|l| Some(l.to_string())).collect();
        if let CreateLobby::Append(t) = create_lobby(&lines, "lob") {
            content.push_str(&t);
        }
    }
    assert_eq!(content, "a\nlob\n");
}
