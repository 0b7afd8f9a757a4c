use tiny::conn::{parse_servername, Conn, ConnEv, ConnStatus};

fn new_conn(nicks: &[&str]) -> Conn {
    Conn::new(
        "irc.example.net",
        nicks.iter().map(|n| n.to_string()).collect(),
        "alice_user",
        "Alice",
        vec!["#dev".to_string()],
        None,
    )
}

#[test]
fn test_parse_servername_1() {
    let args = vec![
        "tiny_test".to_owned(),
        "Your host is adams.freenode.net[94.125.182.252/8001], \
         running version ircd-seven-1.1.4"
            .to_owned(),
    ];
    assert_eq!(parse_servername(&args), Some("adams.freenode.net".to_owned()));
}

#[test]
fn test_parse_servername_2() {
    let args = vec!["Your host is adams.freenode.net[94.125.182.252/8001], \
                     running version ircd-seven-1.1.4"
        .to_owned()];
    assert_eq!(parse_servername(&args), Some("adams.freenode.net".to_owned()));
}

#[test]
fn parse_servername_without_bracket() {
    let args = vec!["me".to_owned(), "Your host is somewhere".to_owned()];
    assert_eq!(parse_servername(&args), None);
    assert_eq!(parse_servername(&vec![]), None);
    assert_eq!(parse_servername(&vec!["short".to_owned()]), None);
}

#[test]
fn introduces_on_first_message() {
    let mut c = new_conn(&["alice", "bob"]);
    let mut evs = vec![];
    let mut out = vec![];
    c.handle_line(":s NOTICE * :hello", &mut evs, &mut out);
    assert_eq!(out, vec!["NICK alice\r\n".to_owned(), "USER alice_user 0 * :Alice\r\n".to_owned()]);
    assert_eq!(c.get_status(), ConnStatus::PingPong { ticks_passed: 0 });
    assert_eq!(evs.len(), 1);
    assert!(matches!(evs[0], ConnEv::Msg(_)));
}

#[test]
fn ping_reply() {
    let mut c = new_conn(&["alice"]);
    let mut evs = vec![];
    let mut out = vec![];
    c.handle_line(":s NOTICE * :hello", &mut evs, &mut out);
    out.clear();
    c.handle_line("PING :irc.example.net", &mut evs, &mut out);
    assert_eq!(out, vec!["PONG :irc.example.net\r\n".to_owned()]);
}

#[test]
fn nick_in_use_tries_next() {
    let mut c = new_conn(&["alice", "bob"]);
    let mut evs = vec![];
    let mut out = vec![];
    c.handle_line(":s NOTICE * :hello", &mut evs, &mut out);
    out.clear();
    c.handle_line(":s 433 * alice :in use", &mut evs, &mut out);
    assert_eq!(out, vec!["NICK bob\r\n".to_owned()]);
    assert_eq!(c.get_nick(), "bob");
    assert!(!c.is_nick_accepted());
    out.clear();
    c.handle_line(":s 001 bob :welcome", &mut evs, &mut out);
    assert!(c.is_nick_accepted());
    assert_eq!(out, vec!["JOIN #dev\r\n".to_owned()]);
}

#[test]
fn nick_in_use_appends_underscore_after_list() {
    let mut c = new_conn(&["alice"]);
    let mut evs = vec![];
    let mut out = vec![];
    c.handle_line(":s 433 * alice :in use", &mut evs, &mut out);
    assert_eq!(out.last().unwrap(), "NICK alice_\r\n");
    assert_eq!(c.get_nick(), "alice_");
}

#[test]
fn welcome_identifies_with_nickserv() {
    let mut c = Conn::new("s", vec!["alice".to_owned()], "u", "r", vec![], Some("pw".to_owned()));
    let mut evs = vec![];
    let mut out = vec![];
    c.handle_line(":s 001 alice :welcome", &mut evs, &mut out);
    assert_eq!(out.last().unwrap(), "PRIVMSG NickServ :IDENTIFY pw\r\n");
}

#[test]
fn ping_timeout_and_reconnect() {
    let mut c = new_conn(&["alice"]);
    let mut evs = vec![];
    let mut out = vec![];
    c.handle_line(
        ":s 002 alice :Your host is irc.example.net[1.2.3.4/6667], running version x",
        &mut evs,
        &mut out,
    );
    out.clear();
    evs.clear();
    for _ in 0..59 {
        c.tick(&mut evs, &mut out);
    }
    assert!(out.is_empty());
    c.tick(&mut evs, &mut out);
    assert_eq!(out, vec!["PING :irc.example.net\r\n".to_owned()]);
    assert_eq!(c.get_status(), ConnStatus::WaitPong { ticks_passed: 0 });
    for _ in 0..59 {
        c.tick(&mut evs, &mut out);
    }
    assert!(evs.is_empty());
    c.tick(&mut evs, &mut out);
    assert_eq!(evs.len(), 1);
    assert!(matches!(evs[0], ConnEv::Disconnected));
    for _ in 0..29 {
        c.tick(&mut evs, &mut out);
    }
    assert_eq!(evs.len(), 1);
    c.tick(&mut evs, &mut out);
    assert!(matches!(evs[1], ConnEv::Reconnect));
    assert_eq!(c.get_status(), ConnStatus::Introduce);
}

#[test]
fn bytes_reset_ping_timer() {
    let mut c = new_conn(&["alice"]);
    let mut evs = vec![];
    let mut out = vec![];
    c.handle_line(":s NOTICE * :hello", &mut evs, &mut out);
    for _ in 0..30 {
        c.tick(&mut evs, &mut out);
    }
    assert_eq!(c.get_status(), ConnStatus::PingPong { ticks_passed: 30 });
    c.reset_ticks();
    assert_eq!(c.get_status(), ConnStatus::PingPong { ticks_passed: 0 });
}

#[test]
fn own_nick_change_is_followed() {
    let mut c = new_conn(&["alice"]);
    let mut evs = vec![];
    let mut out = vec![];
    c.handle_line(":alice!a@h NICK :alicia", &mut evs, &mut out);
    assert_eq!(c.get_nick(), "alicia");
    assert!(matches!(&evs[0], ConnEv::NickChange(n) if n == "alicia"));
}

#[test]
fn incoming_bytes_are_framed_and_handled() {
    let mut c = new_conn(&["alice"]);
    let mut evs = vec![];
    let mut out = vec![];
    c.read_incoming_msg(b":s NOTICE * :hi\r\nPING :irc.exa", &mut evs, &mut out);
    assert_eq!(out.len(), 2);
    c.read_incoming_msg(b"mple.net\r\n", &mut evs, &mut out);
    assert_eq!(out.last().unwrap(), "PONG :irc.example.net\r\n");
    assert_eq!(evs.len(), 2);
    c.read_incoming_msg(b"", &mut evs, &mut out);
    assert!(matches!(evs.last().unwrap(), ConnEv::Disconnected));
    assert_eq!(c.get_status(), ConnStatus::Disconnected { ticks_passed: 0 });
}

#[test]
fn invalid_utf8_is_replaced() {
    let mut c = new_conn(&["alice"]);
    let mut evs = vec![];
    let mut out = vec![];
    c.read_incoming_msg(b":bob!b@h PRIVMSG alice :caf\xe9\r\n", &mut evs, &mut out);
    match &evs[0] {
        ConnEv::Msg(m) => match &m.cmd {
            tiny::wire::Cmd::Privmsg { msg, .. } => assert_eq!(msg, "caf\u{FFFD}"),
            _ => panic!("expected PRIVMSG"),
        },
        _ => panic!("expected a message"),
    }
}

#[test]
fn own_nick_change_ignores_case() {
    let mut c = new_conn(&["alice"]);
    let mut evs = vec![];
    let mut out = vec![];
    c.handle_line(":ALICE!a@h NICK :alicia", &mut evs, &mut out);
    assert_eq!(c.get_nick(), "alicia");
}

#[test]
fn long_lines_are_cut_to_the_limit() {
    let long: String = std::iter::repeat('é').take(400).collect();
    let l = tiny::conn::join(&long);
    assert_eq!(l.len(), 511);
    assert!(l.ends_with("\r\n"));
    assert!(l.starts_with("JOIN éé"));
    assert_eq!(tiny::conn::nick("bob"), "NICK bob\r\n");
}
