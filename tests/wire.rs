use tiny::wire::{parse, read_lines, to_line, Cmd, Msg, Pfx};

#[test]
fn parses_privmsg_with_user_prefix() {
    let m = parse(":bob!b@h PRIVMSG #dev :hi alice!").unwrap();
    match m.pfx {
        Some(Pfx::User { ref nick, ref user }) => {
            assert_eq!(nick, "bob");
            assert_eq!(user, "!b@h");
        }
        _ => panic!("expected a user prefix"),
    }
    match m.cmd {
        Cmd::Privmsg { ref target, ref msg, is_notice } => {
            assert_eq!(target, "#dev");
            assert_eq!(msg, "hi alice!");
            assert!(!is_notice);
        }
        _ => panic!("expected PRIVMSG"),
    }
}

#[test]
fn parses_commands_without_regard_to_case() {
    let m = parse("ping :irc.example.net").unwrap();
    assert!(matches!(m.cmd, Cmd::Ping { ref server } if server == "irc.example.net"));
    assert!(m.pfx.is_none());
}

#[test]
fn parses_numeric_reply() {
    let m = parse(":s 353 alice = #dev :@bob alice +carol").unwrap();
    assert!(matches!(m.pfx, Some(Pfx::Server(ref s)) if s == "s"));
    match m.cmd {
        Cmd::Reply { num, ref params } => {
            assert_eq!(num, 353);
            assert_eq!(params, &vec!["alice".to_owned(), "=".to_owned(), "#dev".to_owned(), "@bob alice +carol".to_owned()]);
        }
        _ => panic!("expected a reply"),
    }
}

#[test]
fn malformed_lines_are_refused() {
    assert!(parse("").is_none());
    assert!(parse(":prefix-only").is_none());
    assert!(parse(":pfx ").is_none());
}

#[test]
fn other_commands_keep_their_word() {
    let m = parse("FOO a b :c d").unwrap();
    match m.cmd {
        Cmd::Other { ref cmd, ref params } => {
            assert_eq!(cmd, "FOO");
            assert_eq!(params, &vec!["a".to_owned(), "b".to_owned(), "c d".to_owned()]);
        }
        _ => panic!("expected Other"),
    }
}

#[test]
fn serializes_canonically() {
    let m = Msg {
        pfx: Some(Pfx::User { nick: "bob".to_owned(), user: "!b@h".to_owned() }),
        cmd: Cmd::Privmsg { target: "#dev".to_owned(), msg: "hi there".to_owned(), is_notice: false },
    };
    assert_eq!(to_line(&m), ":bob!b@h PRIVMSG #dev :hi there");
    let r = Msg { pfx: None, cmd: Cmd::Reply { num: 1, params: vec!["alice".to_owned(), "welcome".to_owned()] } };
    assert_eq!(to_line(&r), "001 alice :welcome");
}

#[test]
fn round_trip_of_messages() {
    let msgs = vec![
        Msg { pfx: None, cmd: Cmd::Join { chan: "#dev".to_owned() } },
        Msg { pfx: Some(Pfx::Server("irc.example.net".to_owned())), cmd: Cmd::Ping { server: "x y".to_owned() } },
        Msg { pfx: None, cmd: Cmd::Part { chan: "#dev".to_owned(), msg: Some("bye now".to_owned()) } },
        Msg { pfx: None, cmd: Cmd::Quit { msg: None } },
        Msg { pfx: None, cmd: Cmd::Privmsg { target: "bob".to_owned(), msg: "".to_owned(), is_notice: true } },
        Msg { pfx: None, cmd: Cmd::Reply { num: 433, params: vec!["*".to_owned(), "alice".to_owned(), "in use".to_owned()] } },
        Msg { pfx: None, cmd: Cmd::Cap { client: "*".to_owned(), subcommand: "LS".to_owned(), params: "sasl multi-prefix".to_owned() } },
    ];
    for m in &msgs {
        let line = to_line(m);
        let back = parse(&line).unwrap();
        assert_eq!(to_line(&back), line);
    }
    let back = parse(&to_line(&msgs[2])).unwrap();
    assert!(matches!(back.cmd, Cmd::Part { ref chan, msg: Some(ref m) } if chan == "#dev" && m == "bye now"));
}

#[test]
fn framing_over_chunks() {
    let input: &[u8] = b"PING :a\r\n:s 001 x :hi\x00 there\r\npartial";
    let mut buf = vec![];
    let mut lines = vec![];
    for chunk in input.chunks(5) {
        lines.extend(read_lines(&mut buf, chunk));
    }
    assert_eq!(lines, vec![b"PING :a\r\n".to_vec(), b":s 001 x :hi there\r\n".to_vec()]);
    assert_eq!(buf, b"partial".to_vec());
    let mut all: Vec<u8> = lines.concat();
    all.extend(&buf);
    let kept: Vec<u8> = input.iter().cloned().filter(|b| *b != 0 && *b != 2 && *b != 4).collect();
    assert_eq!(all, kept);
}

#[test]
fn framing_accepts_bare_line_feed() {
    let mut buf = vec![];
    let lines = read_lines(&mut buf, b"a\nb\n");
    assert_eq!(lines, vec![b"a\n".to_vec(), b"b\n".to_vec()]);
    assert!(buf.is_empty());
}

#[test]
fn stray_soh_bytes_are_dropped() {
    let mut buf = vec![];
    let lines = read_lines(&mut buf, b":b!u@h PRIVMSG a :\x01ACTION wa\x01ves\x01\r\na\x01b\n");
    assert_eq!(lines, vec![b":b!u@h PRIVMSG a :\x01ACTION waves\x01\r\n".to_vec(), b"ab\n".to_vec()]);
}
