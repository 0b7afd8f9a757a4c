//! The input dispatcher: a line typed in the active tab becomes protocol
//! lines for its server and changes of the tabs.

use vstd::prelude::*;
use vstd::string::*;
use crate::cmd::{parse_cmd, Cmd, CmdView};
use crate::router::{send_msg, send_target, sent};
use crate::wire::{strings_view, strs_view};
use crate::conn::{join_line, nick_line};
use crate::names::joined;
use crate::tabs::{tab_key, active_after_removal, added_line, after_removal, applied, chan_key, serv_key, user_key, OpV};
use crate::ui::TargetV;
use crate::split::{fit_line, fitted};
use crate::text::{contains_seq, str_contains};
use crate::tabs::{LineKind, TabOp, Tiny};
use crate::ui::{MsgSource, MsgTarget};

verus! {

/// What the caller of the dispatcher has to do besides sending the lines.
pub enum InputAction {
    /// Nothing more.
    Continue,
    /// Open a connection: to the given server, or again to the current one.
    Connect(Option<(String, u16)>),
    /// Read the configuration again.
    Reload,
}

fn line3(a: &str, b: &str, c: &str) -> (r: String)
    ensures
        r@ == a@ + b@ + c@,
{
    let mut r = String::new();
    r.append(a);
    r.append(b);
    r.append(c);
    r
}

/// A line that holds a slash command.
pub open spec fn is_cmd(line: Seq<char>) -> bool {
    line.len() > 0 && line[0] == '/'
}

/// What a slash command (`None` for a refused one) typed in the active tab
/// of `b` does to the tabs (`b` to `a`) and the outgoing lines (`o0` to `o1`).
pub open spec fn cmd_done(b: Tiny, a: Tiny, o0: Seq<Seq<char>>, o1: Seq<Seq<char>>, c: Option<CmdView>, nick: Seq<char>, ts: i64) -> bool {
    let src = b.tab_seq()[b.active()].src;
    match c {
        None => o1 == o0 && a.keys() == b.keys() && exists|e: Seq<char>|
            added_line(b.tab_seq(), a.tab_seq(), a.active(), TargetV::CurrentTab, (LineKind::ClientErr, seq![], e, ts)),
        Some(CmdView::Join(chans)) => o1 == o0 + chans.map_values(|ch: Seq<char>| join_line(ch)) && a == b,
        Some(CmdView::Away(None)) => o1 == o0.push(fitted("AWAY"@)) && a == b,
        Some(CmdView::Away(Some(r))) => o1 == o0.push(fitted("AWAY :"@ + r)) && a == b,
        Some(CmdView::Nick(n)) => o1 == o0.push(nick_line(n)) && a == b,
        Some(CmdView::Msg(t, text)) => sent(o0, o1, t, text, false),
        Some(CmdView::Me(text)) => send_target(src) matches Some(t) ==> sent(o0, o1, t, text, true),
        Some(CmdView::Close) => match src {
            MsgSource::Serv { serv_name } => o1 == o0.push(fitted("QUIT :Leaving"@)) && !a.keys().contains(serv_key(serv_name@)),
            MsgSource::Chan { serv_name, chan_name } => o1 == o0.push(fitted("PART "@ + chan_name@))
                && exists|i: int| 0 <= i < b.keys().len() && b.keys()[i] == chan_key(serv_name@, chan_name@) && a.keys() == b.keys().remove(i),
            MsgSource::User { serv_name, nick } => o1 == o0
                && exists|i: int| 0 <= i < b.keys().len() && b.keys()[i] == user_key(serv_name@, nick@) && a.keys() == b.keys().remove(i),
        },
        Some(CmdView::Clear) => o1 == o0 && applied(b.tab_seq(), a.tab_seq(), a.active(), TargetV::CurrentTab, OpV::Clear)
            && a.keys() == b.keys(),
        Some(CmdView::Ignore) => o1 == o0 && match src {
            MsgSource::Serv { serv_name } => applied(b.tab_seq(), a.tab_seq(), a.active(), TargetV::AllServTabs(serv_name@),
                OpV::Ignore(Some(!b.tab_seq()[b.active()].ignore))),
            _ => applied(b.tab_seq(), a.tab_seq(), a.active(), TargetV::CurrentTab, OpV::Ignore(None)),
        },
        Some(CmdView::Switch(_)) => o1 == o0 && a.keys() == b.keys(),
        Some(CmdView::Names) => o1 == o0 && a.keys() == b.keys() && added_line(b.tab_seq(), a.tab_seq(), a.active(), TargetV::CurrentTab,
            (LineKind::ClientNotify, seq![], match src {
                MsgSource::Chan { .. } => joined(b.tab_seq()[b.active()].names.nicks_view()),
                _ => "/names works in channel tabs"@,
            }, ts)),
        Some(CmdView::Topic) => o1 == o0 && a.keys() == b.keys() && added_line(b.tab_seq(), a.tab_seq(), a.active(), TargetV::CurrentTab,
            (LineKind::Topic, seq![], match b.tab_seq()[b.active()].topic {
                Some(t) => t@,
                None => "No topic set"@,
            }, ts)),
        _ => o1 == o0 && a == b,
    }
}

/// Handles a line typed in the active tab, whose server's nick is `nick`.
/// A line that starts with `/` is a command (see `Cmd::parse`); any other
/// line is sent to the tab's channel or nick. Lines for the active tab's
/// server go to `out`.
pub fn handle_input_line(ui: &mut Tiny, nick: &str, line: &str, ts: i64, out: &mut Vec<String>) -> (r: InputAction)
    requires
        old(ui).wf(),
    ensures
        final(ui).wf(),
        r is Connect ==> line@.len() > 0 && line@[0] == '/' && parse_cmd(line@.drop_first()) matches Some(CmdView::Connect(_)),
        r is Reload ==> line@.len() > 0 && line@[0] == '/' && parse_cmd(line@.drop_first()) matches Some(CmdView::Reload),
        old(ui).tab_seq().len() > 0 && !(line@.len() > 0 && line@[0] == '/') ==> (send_target(
            old(ui).tab_seq()[old(ui).active()].src,
        ) matches Some(t) ==> sent(strings_view(old(out)@), strings_view(final(out)@), t, line@, false)),
        old(ui).tab_seq().len() > 0 && !(line@.len() > 0 && line@[0] == '/') && send_target(
            old(ui).tab_seq()[old(ui).active()].src,
        ) is None ==> strings_view(final(out)@) == strings_view(old(out)@),
        old(ui).tab_seq().len() > 0 && is_cmd(line@) ==> cmd_done(*old(ui), *final(ui), strings_view(old(out)@),
            strings_view(final(out)@), parse_cmd(line@.drop_first()), nick@, ts),
{
    if ui.num_tabs() == 0 {
        return InputAction::Continue;
    }
    let a = ui.active_idx();
    let from: MsgSource = match &ui.tab(a).src {
        MsgSource::Serv { serv_name } => MsgSource::Serv { serv_name: serv_name.as_str().to_owned() },
        MsgSource::Chan { serv_name, chan_name } => MsgSource::Chan {
            serv_name: serv_name.as_str().to_owned(),
            chan_name: chan_name.as_str().to_owned(),
        },
        MsgSource::User { serv_name, nick } => MsgSource::User {
            serv_name: serv_name.as_str().to_owned(),
            nick: nick.as_str().to_owned(),
        },
    };
    let n = line.unicode_len();
    if n == 0 || line.get_char(0) != '/' {
        send_msg(ui, &from, nick, line, ts, false, out);
        return InputAction::Continue;
    }
    let rest = line.substring_char(1, n);
    assert(rest@ =~= line@.drop_first());
    proof {
        reveal_strlit("");
        assert(""@ =~= Seq::<char>::empty());
        assert(old(ui).keys()[a as int] == tab_key(old(ui).tab_seq()[a as int]));
        assert(old(ui).keys().contains(tab_key(old(ui).tab_seq()[a as int])));
    }
    let cur = MsgTarget::CurrentTab;
    match Cmd::parse(rest) {
        Err(e) => {
            ui.add_line(&cur, LineKind::ClientErr, "", e.as_str(), ts);
            proof {
                reveal_strlit("");
                assert(""@ =~= Seq::<char>::empty());
                assert(added_line(old(ui).tab_seq(), ui.tab_seq(), ui.active(), TargetV::CurrentTab, (LineKind::ClientErr, seq![], e@, ts)));
            }
            InputAction::Continue
        },
        Ok(Cmd::Connect(None)) => InputAction::Connect(None),
        Ok(Cmd::Connect(Some((host, port)))) => InputAction::Connect(Some((host.to_owned(), port))),
        Ok(Cmd::Reload) => InputAction::Reload,
        Ok(Cmd::Join { chans }) => {
            let ghost o0 = strings_view(out@);
            let mut i: usize = 0;
            while i < chans.len()
                invariant
                    i <= chans@.len(),
                    strings_view(out@) == o0 + strs_view(chans@).subrange(0, i as int).map_values(|ch: Seq<char>| join_line(ch)),
                decreases chans@.len() - i,
            {
                let l = crate::conn::join(chans[i]);
                let ghost before = strings_view(out@);
                out.push(l);
                assert(strings_view(out@) =~= before.push(l@));
                assert(strs_view(chans@).subrange(0, i + 1) =~= strs_view(chans@).subrange(0, i as int).push(chans@[i as int]@));
                assert(strings_view(out@) =~= o0 + strs_view(chans@).subrange(0, i + 1).map_values(|ch: Seq<char>| join_line(ch)));
                i = i + 1;
            }
            assert(strs_view(chans@).subrange(0, i as int) =~= strs_view(chans@));
            InputAction::Continue
        },
        Ok(Cmd::Msg { target, msg }) => {
            let to = MsgSource::User { serv_name: from.serv_name().to_owned(), nick: target.to_owned() };
            send_msg(ui, &to, nick, msg, ts, false, out);
            InputAction::Continue
        },
        Ok(Cmd::Me { msg }) => {
            send_msg(ui, &from, nick, msg, ts, true, out);
            InputAction::Continue
        },
        Ok(Cmd::Away { reason }) => {
            let ghost o0 = strings_view(out@);
            match reason {
                Some(r) => {
                    let b = line3("AWAY :", r, "");
                    proof {
                        reveal_strlit("");
                        assert(b@ =~= "AWAY :"@ + r@);
                    }
                    out.push(fit_line(b.as_str()))
                },
                None => out.push(fit_line("AWAY")),
            }
            assert(strings_view(out@) =~= o0.push(out@.last()@));
            InputAction::Continue
        },
        Ok(Cmd::Nick { nick: new_nick }) => {
            let ghost o0 = strings_view(out@);
            out.push(crate::conn::nick(new_nick));
            assert(strings_view(out@) =~= o0.push(out@.last()@));
            InputAction::Continue
        },
        Ok(Cmd::Close) => {
            let ghost o0 = strings_view(out@);
            match &from {
                MsgSource::Serv { serv_name } => {
                    out.push(fit_line("QUIT :Leaving"));
                    assert(strings_view(out@) =~= o0.push(out@.last()@));
                    ui.close_server_tab(serv_name.as_str());
                    proof {
                        if ui.keys().contains(serv_key(serv_name@)) {
                            let j = choose|j: int| 0 <= j < ui.keys().len() && ui.keys()[j] == serv_key(serv_name@);
                            assert(ui.keys()[j].1 == serv_name@);
                            if old(ui).keys().contains(serv_key(serv_name@)) {
                                let (a0, b0) = choose|a0: int, b0: int| 0 <= a0 < b0 <= old(ui).keys().len() && old(ui).keys()[a0] == serv_key(serv_name@)
                                    && (forall|i: int| 0 <= i < old(ui).keys().len() ==> (a0 <= i < b0 <==> #[trigger] old(ui).keys()[i].1 == serv_name@))
                                    && ui.keys() == old(ui).keys().subrange(0, a0) + old(ui).keys().subrange(b0, old(ui).keys().len() as int)
                                    && ui.active() == active_after_removal(old(ui).active(), a0, b0, old(ui).keys().len() - (b0 - a0))
                                    && after_removal(old(ui).tab_seq(), old(ui).active(), ui.tab_seq(), ui.active(), a0, b0);
                                if j < a0 {
                                    assert(old(ui).keys()[j] == ui.keys()[j]);
                                } else {
                                    assert(old(ui).keys()[j + (b0 - a0)] == ui.keys()[j]);
                                }
                            } else {
                                assert(ui.keys() == old(ui).keys());
                            }
                        }
                    }
                },
                MsgSource::Chan { serv_name, chan_name } => {
                    let b = line3("PART ", chan_name.as_str(), "");
                    proof {
                        reveal_strlit("");
                        assert(b@ =~= "PART "@ + chan_name@);
                    }
                    out.push(fit_line(b.as_str()));
                    assert(strings_view(out@) =~= o0.push(out@.last()@));
                    ui.close_chan_tab(serv_name.as_str(), chan_name.as_str());
                },
                MsgSource::User { serv_name, nick: n } => {
                    ui.close_user_tab(serv_name.as_str(), n.as_str());
                },
            }
            InputAction::Continue
        },
        Ok(Cmd::Names) => {
            let t = match &from {
                MsgSource::Chan { .. } => ui.tab(a).names.nicks_line(),
                _ => "/names works in channel tabs".to_owned(),
            };
            ui.add_line(&cur, LineKind::ClientNotify, "", t.as_str(), ts);
            InputAction::Continue
        },
        Ok(Cmd::Topic) => {
            let t = match &ui.tab(a).topic {
                Some(t) => t.as_str().to_owned(),
                None => "No topic set".to_owned(),
            };
            ui.add_line(&cur, LineKind::Topic, "", t.as_str(), ts);
            InputAction::Continue
        },
        Ok(Cmd::Clear) => {
            ui.apply_op(&cur, &TabOp::Clear);
            InputAction::Continue
        },
        Ok(Cmd::Switch { str }) => {
            ui.switch(str);
            InputAction::Continue
        },
        Ok(Cmd::Ignore) => {
            match &from {
                MsgSource::Serv { serv_name } => {
                    let v = !ui.tab(a).ignore;
                    ui.apply_op(&MsgTarget::AllServTabs { serv_name: serv_name.as_str() }, &TabOp::Ignore(Some(v)));
                },
                _ => ui.apply_op(&cur, &TabOp::Ignore(None)),
            }
            InputAction::Continue
        },
    }
}

/// Whether a configured server is connected at startup: with no filters,
/// every one; otherwise those whose address contains one of the filters.
pub fn server_selected(addr: &str, filters: &Vec<String>) -> (r: bool)
    ensures
        r == (filters@.len() == 0 || exists|i: int| 0 <= i < filters@.len() && contains_seq(addr@, #[trigger] filters@[i]@)),
{
    if filters.len() == 0 {
        return true;
    }
    let mut i: usize = 0;
    while i < filters.len()
        invariant
            i <= filters@.len(),
            forall|j: int| 0 <= j < i ==> !contains_seq(addr@, #[trigger] filters@[j]@),
        decreases filters@.len() - i,
    {
        if str_contains(addr, filters[i].as_str()) {
            return true;
        }
        i = i + 1;
    }
    false
}

} // verus!
