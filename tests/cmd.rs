use tiny::cmd::{parse_port, split_words, Cmd};

#[test]
fn parses_connect() {
    assert!(matches!(Cmd::parse("connect"), Ok(Cmd::Connect(None))));
    assert!(matches!(Cmd::parse("connect irc.example.net:6667"), Ok(Cmd::Connect(Some(("irc.example.net", 6667))))));
    assert!(Cmd::parse("connect irc.example.net").is_err());
    assert!(Cmd::parse("connect a:b").is_err());
    assert!(Cmd::parse("connect a:70000").is_err());
    assert!(Cmd::parse("connect a:1 b:2").is_err());
}

#[test]
fn parses_join_and_msg() {
    match Cmd::parse("join #a #b") {
        Ok(Cmd::Join { chans }) => assert_eq!(chans, vec!["#a", "#b"]),
        _ => panic!("expected join"),
    }
    assert!(Cmd::parse("join").is_err());
    assert!(matches!(Cmd::parse("msg bob  hi  there"), Ok(Cmd::Msg { target: "bob", msg: "hi  there" })));
    assert!(Cmd::parse("msg bob").is_err());
}

#[test]
fn parses_other_commands() {
    assert!(matches!(Cmd::parse("me waves hello"), Ok(Cmd::Me { msg: "waves hello" })));
    assert!(Cmd::parse("me").is_err());
    assert!(matches!(Cmd::parse("away"), Ok(Cmd::Away { reason: None })));
    assert!(matches!(Cmd::parse("away gone fishing"), Ok(Cmd::Away { reason: Some("gone fishing") })));
    assert!(matches!(Cmd::parse("nick bob"), Ok(Cmd::Nick { nick: "bob" })));
    assert!(Cmd::parse("nick a b").is_err());
    assert!(matches!(Cmd::parse("switch dev"), Ok(Cmd::Switch { str: "dev" })));
    assert!(Cmd::parse("switch").is_err());
    assert!(matches!(Cmd::parse("close"), Ok(Cmd::Close)));
    assert!(matches!(Cmd::parse("reload"), Ok(Cmd::Reload)));
    assert!(matches!(Cmd::parse("names"), Ok(Cmd::Names)));
    assert!(matches!(Cmd::parse("topic"), Ok(Cmd::Topic)));
    assert!(matches!(Cmd::parse("clear"), Ok(Cmd::Clear)));
    assert!(matches!(Cmd::parse("ignore"), Ok(Cmd::Ignore)));
    assert!(Cmd::parse("bogus").is_err());
    assert!(Cmd::parse("   ").is_err());
}

#[test]
fn ports() {
    assert_eq!(parse_port("6667"), Some(6667));
    assert_eq!(parse_port("+7"), Some(7));
    assert_eq!(parse_port("65535"), Some(65535));
    assert_eq!(parse_port("65536"), None);
    assert_eq!(parse_port(""), None);
    assert_eq!(parse_port("+"), None);
    assert_eq!(parse_port("1x"), None);
}

#[test]
fn words_split_on_any_white_space() {
    assert_eq!(split_words(" a\tb\u{3000}c  "), vec!["a", "b", "c"]);
}
