use tiny::tabs::{LineKind, TabOp, TabStyle, Tiny};
use tiny::ui::{MsgSource, MsgTarget};

fn serv_of(ui: &Tiny, i: usize) -> String {
    ui.tab(i).src.serv_name().to_owned()
}

fn names(ui: &Tiny) -> Vec<String> {
    (0..ui.num_tabs()).map(|i| ui.tab(i).src.visible_name().to_owned()).collect()
}

#[test]
fn channel_tabs_follow_their_server() {
    let mut ui = Tiny::new(80, 24);
    ui.new_server_tab_("a");
    ui.new_server_tab_("b");
    ui.new_chan_tab_("a", "#x");
    ui.new_user_tab_("b", "bob");
    ui.new_chan_tab_("a", "#y");
    ui.new_chan_tab_("c", "#z");
    assert_eq!(names(&ui), vec!["a", "#x", "#y", "b", "bob", "c", "#z"]);
    ui.close_chan_tab("a", "#x");
    ui.close_server_tab("b");
    assert_eq!(names(&ui), vec!["a", "#y", "c", "#z"]);
    for i in 1..ui.num_tabs() {
        if serv_of(&ui, i) != serv_of(&ui, i - 1) {
            assert!(matches!(ui.tab(i).src, MsgSource::Serv { .. }));
        }
    }
}

#[test]
fn opening_twice_returns_none() {
    let mut ui = Tiny::new(80, 24);
    assert_eq!(ui.new_server_tab_("a"), Some(0));
    assert_eq!(ui.new_server_tab_("a"), None);
    assert_eq!(ui.new_chan_tab_("a", "#x"), Some(1));
    assert_eq!(ui.new_chan_tab_("a", "#x"), None);
}

#[test]
fn closing_active_tab_selects_previous() {
    let mut ui = Tiny::new(80, 24);
    ui.new_server_tab_("a");
    ui.new_chan_tab_("a", "#x");
    ui.new_chan_tab_("a", "#y");
    ui.select_tab(2);
    ui.close_chan_tab("a", "#x");
    assert_eq!(ui.active_idx(), 1);
    ui.close_chan_tab("a", "#y");
    assert_eq!(ui.active_idx(), 0);
    ui.new_chan_tab_("a", "#z");
    ui.select_tab(0);
    ui.close_server_tab("a");
    assert_eq!(ui.active_idx(), 0);
    assert_eq!(ui.num_tabs(), 0);
}

#[test]
fn closing_another_tab_keeps_active_tab() {
    let mut ui = Tiny::new(80, 24);
    ui.new_server_tab_("a");
    ui.new_chan_tab_("a", "#x");
    ui.new_chan_tab_("a", "#y");
    ui.select_tab(2);
    ui.close_chan_tab("a", "#x");
    assert_eq!(ui.tab(ui.active_idx()).src.visible_name(), "#y");
}

#[test]
fn next_and_prev_wrap() {
    let mut ui = Tiny::new(80, 24);
    ui.new_server_tab_("a");
    ui.new_chan_tab_("a", "#x");
    ui.next_tab();
    assert_eq!(ui.active_idx(), 1);
    ui.next_tab();
    assert_eq!(ui.active_idx(), 0);
    ui.prev_tab();
    assert_eq!(ui.active_idx(), 1);
}

#[test]
fn switch_by_substring() {
    let mut ui = Tiny::new(80, 24);
    ui.new_server_tab_("irc.example.net");
    ui.new_chan_tab_("irc.example.net", "#rust");
    ui.new_user_tab_("irc.example.net", "bob");
    ui.switch("ob");
    assert_eq!(ui.active_idx(), 2);
    ui.switch("nothing");
    assert_eq!(ui.active_idx(), 2);
}

#[test]
fn switch_keys_prefer_unused_letters() {
    let mut ui = Tiny::new(80, 24);
    ui.new_server_tab_("dev");
    ui.new_chan_tab_("dev", "#dev");
    assert_eq!(ui.tab(0).switch, Some('d'));
    assert_eq!(ui.tab(1).switch, Some('e'));
    ui.new_chan_tab_("dev", "#123");
    assert_eq!(ui.tab(2).switch, None);
}

#[test]
fn style_only_rises_until_reset() {
    let mut ui = Tiny::new(80, 24);
    ui.new_server_tab_("a");
    let t = MsgTarget::Server { serv_name: "a" };
    ui.apply_op(&t, &TabOp::Style(TabStyle::Highlight));
    ui.apply_op(&t, &TabOp::Style(TabStyle::NewMsg));
    assert_eq!(ui.tab(0).style, TabStyle::Highlight);
    ui.apply_op(&t, &TabOp::Style(TabStyle::Normal));
    assert_eq!(ui.tab(0).style, TabStyle::Normal);
}

#[test]
fn lines_stay_with_their_server() {
    let mut ui = Tiny::new(80, 24);
    ui.new_server_tab_("a");
    ui.new_server_tab_("b");
    ui.new_chan_tab_("b", "#x");
    ui.add_line(&MsgTarget::AllServTabs { serv_name: "b" }, LineKind::Error, "", "oops", 7);
    assert_eq!(ui.tab(0).lines.len(), 0);
    assert_eq!(ui.tab(1).lines.len(), 1);
    assert_eq!(ui.tab(2).lines.len(), 1);
    assert_eq!(ui.tab(2).lines[0].text, "oops");
    assert_eq!(ui.tab(2).lines[0].ts, 7);
}

#[test]
fn target_opens_missing_tab() {
    let mut ui = Tiny::new(80, 24);
    ui.add_line(&MsgTarget::User { serv_name: "a", nick: "bob" }, LineKind::Msg, "bob", "hey", 0);
    assert_eq!(names(&ui), vec!["a", "bob"]);
    assert_eq!(ui.tab(1).lines.len(), 1);
    assert_eq!(ui.tab(0).lines.len(), 0);
    assert!(ui.does_user_tab_exist("a", "bob"));
    ui.add_line(&MsgTarget::AllUserTabs { serv_name: "a", nick: "carol" }, LineKind::Msg, "", "x", 0);
    assert_eq!(ui.num_tabs(), 2);
}

#[test]
fn ignore_toggles() {
    let mut ui = Tiny::new(80, 24);
    ui.new_server_tab_("a");
    let t = MsgTarget::Server { serv_name: "a" };
    let before = ui.tab(0).ignore;
    ui.apply_op(&t, &TabOp::Ignore(None));
    assert_eq!(ui.tab(0).ignore, !before);
    ui.apply_op(&t, &TabOp::Ignore(Some(false)));
    assert!(!ui.tab(0).ignore);
}

#[test]
fn tab_bar_scrolls_to_active_tab() {
    let mut ui = Tiny::new(20, 10);
    ui.new_server_tab_("aaaa");
    ui.new_chan_tab_("aaaa", "#bbbb");
    ui.new_chan_tab_("aaaa", "#cccc");
    ui.new_chan_tab_("aaaa", "#dddd");
    assert_eq!(ui.rendered_tabs(), (0, 3));
    assert!(!ui.draw_left_arrow());
    assert!(ui.draw_right_arrow());
    ui.select_tab(3);
    let (first, end) = ui.rendered_tabs();
    assert!(first <= 3 && 3 < end);
    assert!(first > 0);
    assert!(ui.draw_left_arrow());
    ui.select_tab(0);
    assert_eq!(ui.rendered_tabs().0, 0);
    ui.resize(200, 10);
    assert_eq!(ui.rendered_tabs(), (0, 4));
    assert!(!ui.draw_right_arrow());
}

#[test]
fn user_tabs_match_nick_without_case() {
    let mut ui = Tiny::new(80, 24);
    ui.new_user_tab_("a", "Bob");
    assert!(ui.does_user_tab_exist("a", "bob"));
    assert_eq!(ui.new_user_tab_("a", "BOB"), None);
    assert_eq!(ui.find_user_tab_idx("a", "bOb"), Some(1));
    ui.close_user_tab("a", "bob");
    assert_eq!(ui.num_tabs(), 1);
}
