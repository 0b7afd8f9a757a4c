use tiny::conn::ConnEv;
use tiny::router::{decode_ctcp, handle_conn_ev, handle_irc_msg, send_msg, Ctcp};
use tiny::tabs::{LineKind, TabStyle, Tiny};
use tiny::ui::MsgSource;
use tiny::wire::parse;

const SERV: &str = "irc.example.net";

fn route(ui: &mut Tiny, line: &str) -> Vec<String> {
    let mut out = vec![];
    let m = parse(line).unwrap();
    handle_irc_msg(ui, SERV, "alice", true, &m, 100, &mut out);
    out
}

fn total_lines(ui: &Tiny) -> usize {
    (0..ui.num_tabs()).map(|i| ui.tab(i).lines.len()).sum()
}

#[test]
fn ping_produces_no_ui_event() {
    let mut ui = Tiny::new(80, 24);
    ui.new_server_tab_(SERV);
    let out = route(&mut ui, "PING :irc.example.net");
    assert!(out.is_empty());
    assert_eq!(ui.num_tabs(), 1);
    assert_eq!(total_lines(&ui), 0);
}

#[test]
fn highlight_goes_to_mentions() {
    let mut ui = Tiny::new(80, 24);
    ui.new_server_tab_(SERV);
    ui.new_chan_tab_(SERV, "#dev");
    route(&mut ui, ":bob!b@h PRIVMSG #dev :hi alice!");
    let c = ui.find_chan_tab_idx(SERV, "#dev").unwrap();
    let tab = ui.tab(c);
    let l = tab.lines.last().unwrap();
    assert_eq!(l.kind, LineKind::Privmsg { highlight: true, action: false });
    assert_eq!(l.sender, "bob");
    assert_eq!(l.text, "hi alice!");
    assert_eq!(tab.style, TabStyle::Highlight);
    let m = ui.find_serv_tab_idx("mentions").unwrap();
    assert_eq!(ui.tab(m).lines.last().unwrap().text, "bob in irc.example.net:#dev: hi alice!");
}

#[test]
fn plain_channel_message_marks_new_msg() {
    let mut ui = Tiny::new(80, 24);
    ui.new_server_tab_(SERV);
    ui.new_chan_tab_(SERV, "#dev");
    route(&mut ui, ":bob!b@h PRIVMSG #dev :hello all");
    let c = ui.find_chan_tab_idx(SERV, "#dev").unwrap();
    assert_eq!(ui.tab(c).style, TabStyle::NewMsg);
    assert!(ui.find_serv_tab_idx("mentions").is_none());
}

#[test]
fn join_echo_and_names() {
    let mut ui = Tiny::new(80, 24);
    ui.new_server_tab_(SERV);
    route(&mut ui, ":alice!a@h JOIN #dev");
    route(&mut ui, ":s 353 alice = #dev :@bob alice +carol");
    route(&mut ui, ":s 366 alice #dev :End of /NAMES list.");
    let c = ui.find_chan_tab_idx(SERV, "#dev").unwrap();
    let names = &ui.tab(c).names;
    assert!(names.has_nick("alice"));
    assert!(names.has_nick("bob"));
    assert!(names.has_nick("carol"));
    assert!(!names.has_nick("dave"));
}

#[test]
fn part_quit_and_nick_update_membership() {
    let mut ui = Tiny::new(80, 24);
    ui.new_server_tab_(SERV);
    route(&mut ui, ":alice!a@h JOIN #dev");
    route(&mut ui, ":bob!b@h JOIN #dev");
    route(&mut ui, ":carol!c@h JOIN #dev");
    route(&mut ui, ":dave!d@h JOIN #dev");
    route(&mut ui, ":bob!b@h PART #dev");
    route(&mut ui, ":carol!c@h QUIT :bye");
    route(&mut ui, ":dave!d@h NICK :david");
    let c = ui.find_chan_tab_idx(SERV, "#dev").unwrap();
    let names = &ui.tab(c).names;
    assert!(!names.has_nick("bob"));
    assert!(!names.has_nick("carol"));
    assert!(!names.has_nick("dave"));
    assert!(names.has_nick("david"));
}

#[test]
fn version_request_is_answered() {
    let mut ui = Tiny::new(80, 24);
    ui.new_server_tab_(SERV);
    let out = route(&mut ui, ":bob!b@h PRIVMSG alice :\u{1}VERSION\u{1}");
    assert_eq!(out.len(), 1);
    assert!(out[0].starts_with("NOTICE bob :\u{1}VERSION "));
    assert!(out[0].ends_with("\u{1}\r\n"));
    assert_eq!(ui.tab(0).lines.last().unwrap().text, "Received version request from bob");
}

#[test]
fn ctcp_action_decoding() {
    assert!(matches!(decode_ctcp("\u{1}ACTION waves\u{1}"), Ctcp::Action("waves")));
    assert!(matches!(decode_ctcp("\u{1}VERSION\u{1}"), Ctcp::Version));
    assert!(matches!(decode_ctcp("\u{1}PING 1\u{1}"), Ctcp::Other("PING 1")));
    assert!(matches!(decode_ctcp("hello"), Ctcp::Plain("hello")));
}

#[test]
fn notice_without_user_tab_goes_to_server_tab() {
    let mut ui = Tiny::new(80, 24);
    ui.new_server_tab_(SERV);
    route(&mut ui, ":bob!b@h NOTICE alice :psst");
    assert_eq!(ui.num_tabs(), 1);
    assert_eq!(ui.tab(0).lines.last().unwrap().text, "psst");
    route(&mut ui, ":bob!b@h PRIVMSG alice :hey");
    assert!(ui.does_user_tab_exist(SERV, "bob"));
}

#[test]
fn other_servers_are_untouched() {
    let mut ui = Tiny::new(80, 24);
    ui.new_server_tab_("other.net");
    ui.new_chan_tab_("other.net", "#dev");
    ui.new_server_tab_(SERV);
    route(&mut ui, ":s 001 alice :Welcome");
    route(&mut ui, "ERROR :closing");
    route(&mut ui, ":bob!b@h PRIVMSG #dev :hi alice");
    assert_eq!(ui.tab(0).lines.len(), 0);
    assert_eq!(ui.tab(1).lines.len(), 0);
    let c = ui.find_chan_tab_idx(SERV, "#dev").unwrap();
    assert_eq!(ui.tab(c).lines.len(), 1);
    let st = ui.find_serv_tab_idx(SERV).unwrap();
    assert_eq!(ui.tab(st).lines.len(), 2);
}

#[test]
fn nick_in_use_before_welcome_shows_nothing() {
    let mut ui = Tiny::new(80, 24);
    ui.new_server_tab_(SERV);
    let m = parse(":s 433 * alice :in use").unwrap();
    let mut out = vec![];
    handle_irc_msg(&mut ui, SERV, "alice", false, &m, 0, &mut out);
    assert_eq!(total_lines(&ui), 0);
    handle_irc_msg(&mut ui, SERV, "alice", true, &m, 0, &mut out);
    assert_eq!(ui.tab(0).lines.last().unwrap().kind, LineKind::Error);
}

#[test]
fn disconnect_is_shown_on_all_server_tabs() {
    let mut ui = Tiny::new(80, 24);
    ui.new_server_tab_(SERV);
    ui.new_chan_tab_(SERV, "#dev");
    let mut out = vec![];
    handle_conn_ev(&mut ui, SERV, "alice", true, &ConnEv::Disconnected, 0, &mut out);
    assert_eq!(ui.tab(0).lines.last().unwrap().kind, LineKind::Error);
    assert_eq!(ui.tab(1).lines.last().unwrap().kind, LineKind::Error);
}

#[test]
fn long_message_is_split() {
    let mut ui = Tiny::new(80, 24);
    ui.new_server_tab_(SERV);
    ui.new_chan_tab_(SERV, "#dev");
    let text: String = std::iter::repeat('x').take(1000).collect();
    let from = MsgSource::Chan { serv_name: SERV.to_owned(), chan_name: "#dev".to_owned() };
    let mut out = vec![];
    send_msg(&mut ui, &from, "alice", &text, 0, false, &mut out);
    assert!(out.len() >= 2);
    let mut payload = String::new();
    for l in &out {
        assert!(l.len() <= 512);
        let m = parse(l.trim_end_matches("\r\n")).unwrap();
        match m.cmd {
            tiny::wire::Cmd::Privmsg { target, msg, .. } => {
                assert_eq!(target, "#dev");
                payload.push_str(&msg);
            }
            _ => panic!("expected PRIVMSG"),
        }
    }
    assert_eq!(payload, text);
    let c = ui.find_chan_tab_idx(SERV, "#dev").unwrap();
    assert_eq!(ui.tab(c).lines.len(), out.len());
}

#[test]
fn long_multibyte_message_splits_at_char_boundaries() {
    let mut ui = Tiny::new(80, 24);
    let text: String = std::iter::repeat('é').take(600).collect();
    let from = MsgSource::User { serv_name: SERV.to_owned(), nick: "bob".to_owned() };
    let mut out = vec![];
    send_msg(&mut ui, &from, "alice", &text, 0, true, &mut out);
    assert!(out.len() >= 3);
    for l in &out {
        assert!(l.len() <= 512);
        assert!(l.starts_with("PRIVMSG bob :\u{1}ACTION "));
    }
}

#[test]
fn server_tab_refuses_messages() {
    let mut ui = Tiny::new(80, 24);
    ui.new_server_tab_(SERV);
    let from = MsgSource::Serv { serv_name: SERV.to_owned() };
    let mut out = vec![];
    send_msg(&mut ui, &from, "alice", "hello", 0, false, &mut out);
    assert!(out.is_empty());
    assert_eq!(ui.tab(0).lines.last().unwrap().kind, LineKind::ClientErr);
}

#[test]
fn nick_change_renames_user_tab() {
    let mut ui = Tiny::new(80, 24);
    ui.new_server_tab_(SERV);
    route(&mut ui, ":dave!d@h PRIVMSG alice :hi");
    assert!(ui.does_user_tab_exist(SERV, "dave"));
    route(&mut ui, ":dave!d@h NICK :david");
    assert!(!ui.does_user_tab_exist(SERV, "dave"));
    assert!(ui.does_user_tab_exist(SERV, "david"));
}

#[test]
fn ignore_hides_joins_but_keeps_membership() {
    let mut ui = Tiny::new(80, 24);
    ui.new_server_tab_(SERV);
    route(&mut ui, ":alice!a@h JOIN #dev");
    route(&mut ui, ":bob!b@h JOIN #dev");
    let c = ui.find_chan_tab_idx(SERV, "#dev").unwrap();
    assert_eq!(ui.tab(c).lines.last().unwrap().kind, LineKind::Join);
    let n = ui.tab(c).lines.len();
    ui.apply_op(&tiny::ui::MsgTarget::Chan { serv_name: SERV, chan_name: "#dev" }, &tiny::tabs::TabOp::Ignore(None));
    route(&mut ui, ":carol!c@h JOIN #dev");
    route(&mut ui, ":bob!b@h PART #dev");
    assert_eq!(ui.tab(c).lines.len(), n);
    assert!(ui.tab(c).names.has_nick("carol"));
    assert!(!ui.tab(c).names.has_nick("bob"));
}

#[test]
fn kick_removes_member() {
    let mut ui = Tiny::new(80, 24);
    ui.new_server_tab_(SERV);
    route(&mut ui, ":alice!a@h JOIN #dev");
    route(&mut ui, ":bob!b@h JOIN #dev");
    route(&mut ui, ":op!o@h KICK #dev bob :bye");
    let c = ui.find_chan_tab_idx(SERV, "#dev").unwrap();
    assert!(!ui.tab(c).names.has_nick("bob"));
}

#[test]
fn own_join_matches_nick_without_case() {
    let mut ui = Tiny::new(80, 24);
    ui.new_server_tab_(SERV);
    route(&mut ui, ":ALICE!a@h JOIN #dev");
    assert!(ui.find_chan_tab_idx(SERV, "#dev").is_some());
}

#[test]
fn closed_event_ends_events() {
    let mut ui = Tiny::new(80, 24);
    ui.new_server_tab_(SERV);
    let mut out = vec![];
    assert!(handle_conn_ev(&mut ui, SERV, "alice", true, &ConnEv::Closed, 0, &mut out));
    assert!(!handle_conn_ev(&mut ui, SERV, "alice", true, &ConnEv::Reconnect, 0, &mut out));
    assert_eq!(ui.tab(0).lines.last().unwrap().text, "Reconnecting...");
}
