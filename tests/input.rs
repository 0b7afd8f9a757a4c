use tiny::input::{handle_input_line, InputAction};
use tiny::tabs::{LineKind, Tiny};

fn ui_with_chan() -> Tiny {
    let mut ui = Tiny::new(80, 24);
    ui.new_server_tab_("s");
    ui.new_chan_tab_("s", "#dev");
    ui.select_tab(1);
    ui
}

#[test]
fn plain_line_goes_to_channel() {
    let mut ui = ui_with_chan();
    let mut out = vec![];
    handle_input_line(&mut ui, "alice", "hello", 0, &mut out);
    assert_eq!(out, vec!["PRIVMSG #dev :hello\r\n".to_owned()]);
    assert_eq!(ui.tab(1).lines.last().unwrap().sender, "alice");
}

#[test]
fn commands_make_protocol_lines() {
    let mut ui = ui_with_chan();
    let mut out = vec![];
    handle_input_line(&mut ui, "alice", "/join #a #b", 0, &mut out);
    handle_input_line(&mut ui, "alice", "/away lunch", 0, &mut out);
    handle_input_line(&mut ui, "alice", "/nick bob", 0, &mut out);
    assert_eq!(out, vec!["JOIN #a\r\n", "JOIN #b\r\n", "AWAY :lunch\r\n", "NICK bob\r\n"]);
}

#[test]
fn close_parts_channel() {
    let mut ui = ui_with_chan();
    let mut out = vec![];
    handle_input_line(&mut ui, "alice", "/close", 0, &mut out);
    assert_eq!(out, vec!["PART #dev\r\n".to_owned()]);
    assert_eq!(ui.num_tabs(), 1);
    assert_eq!(ui.active_idx(), 0);
}

#[test]
fn msg_opens_user_tab() {
    let mut ui = ui_with_chan();
    let mut out = vec![];
    handle_input_line(&mut ui, "alice", "/msg bob hi there", 0, &mut out);
    assert_eq!(out, vec!["PRIVMSG bob :hi there\r\n".to_owned()]);
    assert!(ui.does_user_tab_exist("s", "bob"));
}

#[test]
fn bad_command_shows_error() {
    let mut ui = ui_with_chan();
    let mut out = vec![];
    let r = handle_input_line(&mut ui, "alice", "/frobnicate", 0, &mut out);
    assert!(matches!(r, InputAction::Continue));
    assert!(out.is_empty());
    assert_eq!(ui.tab(1).lines.last().unwrap().kind, LineKind::ClientErr);
    assert!(matches!(handle_input_line(&mut ui, "alice", "/connect a:1", 0, &mut out), InputAction::Connect(Some(_))));
}

#[test]
fn server_filter() {
    let none: Vec<String> = vec![];
    assert!(tiny::input::server_selected("irc.libera.chat", &none));
    let f = vec!["oftc".to_owned(), "libera".to_owned()];
    assert!(tiny::input::server_selected("irc.libera.chat", &f));
    assert!(!tiny::input::server_selected("irc.example.net", &f));
}

#[test]
fn names_and_topic_commands() {
    let mut ui = ui_with_chan();
    let mut out = vec![];
    ui.apply_op(&tiny::ui::MsgTarget::Chan { serv_name: "s", chan_name: "#dev" }, &tiny::tabs::TabOp::AddNick("bob", None));
    ui.apply_op(&tiny::ui::MsgTarget::Chan { serv_name: "s", chan_name: "#dev" }, &tiny::tabs::TabOp::AddNick("carol", None));
    handle_input_line(&mut ui, "alice", "/names", 0, &mut out);
    assert_eq!(ui.tab(1).lines.last().unwrap().text, "bob carol");
    handle_input_line(&mut ui, "alice", "/topic", 0, &mut out);
    assert_eq!(ui.tab(1).lines.last().unwrap().text, "No topic set");
    handle_input_line(&mut ui, "alice", "/clear", 0, &mut out);
    assert!(ui.tab(1).lines.is_empty());
    assert!(out.is_empty());
}

#[test]
fn ignore_on_server_tab_sets_all_tabs() {
    let mut ui = ui_with_chan();
    ui.select_tab(0);
    let mut out = vec![];
    handle_input_line(&mut ui, "alice", "/ignore", 0, &mut out);
    assert!(ui.tab(0).ignore);
    assert!(ui.tab(1).ignore);
    handle_input_line(&mut ui, "alice", "/ignore", 0, &mut out);
    assert!(!ui.tab(0).ignore && !ui.tab(1).ignore);
}
