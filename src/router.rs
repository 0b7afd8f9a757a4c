//! The message router: turns connection events and protocol messages into
//! changes of the tabs, and answers CTCP VERSION requests.

use vstd::prelude::*;
use vstd::string::*;
use crate::cmd::split_words;
use crate::conn::ConnEv;
use crate::tabs::{
    added_line, applied, chan_key, created_key, kept_outside, opened_keys, tab_key, target_serv, user_key,
    with_serv, LineKind, OpV, Tab, TabKey, TabOp, TabStyle, Tiny,
};
use crate::names::joined;
use crate::cmd::words;
use crate::text::{contains_seq, eq_fold, fold, strip_prefix};
use crate::text::{contains_ignore_case, drop_nick_prefix, eq_ignore_case, str_eq};
use crate::wire::{strings_view, Cmd, CmdV, Msg, MsgV, Pfx, PfxV};
use crate::ui::{MsgSource, MsgTarget, TargetV};
use crate::split::{byte_len, char_len_exec, concat_all, split_chunks, strs_of, MAX_LINE};
use crate::wire::{pfx_view, strs_view};
use crate::split::{fit_line, fitted};
use crate::conn::privmsg_line;

verus! {

/// The name of the pseudo-server whose tab collects the messages that
/// mention us.
pub open spec fn mentions() -> Seq<char> {
    seq!['m', 'e', 'n', 't', 'i', 'o', 'n', 's']
}

/// Every tab of `new` that belongs to neither `s1` nor `s2` was already a
/// tab of `old`, unchanged.
pub open spec fn kept_outside2(old: Seq<Tab>, new: Seq<Tab>, s1: Seq<char>, s2: Seq<char>) -> bool {
    forall|i: int|
        0 <= i < new.len() && (#[trigger] tab_key(new[i])).1 != s1 && tab_key(new[i]).1 != s2
            ==> old.contains(new[i])
}

proof fn lemma_kept2_step(a: Seq<Tab>, b: Seq<Tab>, c: Seq<Tab>, s1: Seq<char>, s2: Seq<char>, s: Seq<char>)
    requires
        kept_outside2(a, b, s1, s2),
        kept_outside(b, c, s),
        s == s1 || s == s2,
    ensures
        kept_outside2(a, c, s1, s2),
{
    assert forall|i: int|
        0 <= i < c.len() && (#[trigger] tab_key(c[i])).1 != s1 && tab_key(c[i]).1 != s2 implies a.contains(c[i]) by {
        let j = choose|j: int| 0 <= j < b.len() && b[j] == c[i];
        assert(tab_key(b[j]).1 != s1);
    }
}

/// Where a router step may write: a target of the server, or of the
/// mentions pseudo-server.
pub open spec fn allowed(target: TargetV, serv: Seq<char>) -> bool {
    target_serv(target) == Some(serv) || target_serv(target) == Some(mentions())
}

/// One change the router makes to the tabs.
pub enum StepV {
    /// A line for a target (see `Tiny::add_line`).
    Line(TargetV, LineKind, Seq<char>, Seq<char>, i64),
    /// A change for a target (see `Tiny::apply_op`).
    Op(TargetV, OpV),
    /// A channel tab opened (see `Tiny::new_chan_tab_`).
    OpenChan(Seq<char>, Seq<char>),
    /// A privmsg tab following a nick change (see `Tiny::rename_user_tab`).
    RenameUser(Seq<char>, Seq<char>, Seq<char>),
}

/// What one step does, from tabs `b` to tabs `a`, as the tab operation it
/// names states it.
pub open spec fn step_ok(b: Tiny, a: Tiny, st: StepV) -> bool {
    &&& a.wf()
    &&& match st {
        StepV::Line(t, k, snd, txt, ts) => added_line(b.tab_seq(), a.tab_seq(), a.active(), t, (k, snd, txt, ts))
            && (a.keys() == b.keys() ==> a.active() == b.active())
            && (target_serv(t) matches Some(s) ==> kept_outside(b.tab_seq(), a.tab_seq(), s)),
        StepV::Op(t, o) => applied(b.tab_seq(), a.tab_seq(), a.active(), t, o)
            && (a.keys() == b.keys() ==> a.active() == b.active())
            && (a.keys() == b.keys() || (created_key(t) is Some && a.keys().contains(created_key(t)->0)))
            && (target_serv(t) matches Some(s) ==> kept_outside(b.tab_seq(), a.tab_seq(), s)),
        StepV::OpenChan(s, c) => (b.keys().contains(chan_key(s, c)) ==> a.keys() == b.keys() && a.active() == b.active())
            && (!b.keys().contains(chan_key(s, c)) ==> exists|r: int|
                opened_keys(b.keys(), s, chan_key(s, c), r) && a.keys() == with_serv(b.keys(), s).insert(r, chan_key(s, c)))
            && kept_outside(b.tab_seq(), a.tab_seq(), s),
        StepV::RenameUser(s, o, n) => a.active() == b.active()
            && ((b.keys().contains(user_key(s, o)) && !b.keys().contains(user_key(s, n))) ==> exists|i: int|
                0 <= i < b.keys().len() && b.keys()[i] == user_key(s, o) && a.keys() == b.keys().update(i, user_key(s, n)))
            && (!(b.keys().contains(user_key(s, o)) && !b.keys().contains(user_key(s, n))) ==> a.keys() == b.keys())
            && kept_outside(b.tab_seq(), a.tab_seq(), s),
    }
}

/// `steps` took the tabs through `states`, one step each.
pub open spec fn ran(states: Seq<Tiny>, steps: Seq<StepV>) -> bool {
    &&& states.len() == steps.len() + 1
    &&& forall|i: int| 0 <= i < steps.len() ==> step_ok(states[i], states[i + 1], #[trigger] steps[i])
}

/// The tabs went from `old` to `new` by exactly `steps`.
pub open spec fn did(old: Tiny, new: Tiny, steps: Seq<StepV>) -> bool {
    exists|states: Seq<Tiny>| ran(states, steps) && states[0] == old && states.last() == new
}

pub type Trace = (Seq<Tiny>, Seq<StepV>);

pub open spec fn trace_ok(tr: Trace, start: Tiny, now: Tiny, serv: Seq<char>) -> bool {
    &&& ran(tr.0, tr.1)
    &&& tr.0[0] == start
    &&& tr.0.last() == now
    &&& kept_outside2(start.tab_seq(), now.tab_seq(), serv, mentions())
}

proof fn lemma_trace_push(tr: Trace, start: Tiny, b: Tiny, a: Tiny, serv: Seq<char>, st: StepV, s: Seq<char>)
    requires
        trace_ok(tr, start, b, serv),
        step_ok(b, a, st),
        kept_outside(b.tab_seq(), a.tab_seq(), s),
        s == serv || s == mentions(),
    ensures
        trace_ok((tr.0.push(a), tr.1.push(st)), start, a, serv),
{
    let states = tr.0.push(a);
    let steps = tr.1.push(st);
    assert forall|i: int| 0 <= i < steps.len() implies step_ok(states[i], states[i + 1], #[trigger] steps[i]) by {
        if i < tr.1.len() {
            assert(states[i] == tr.0[i] && states[i + 1] == tr.0[i + 1] && steps[i] == tr.1[i]);
        } else {
            assert(states[i] == b);
        }
    }
    lemma_kept2_step(start.tab_seq(), b.tab_seq(), a.tab_seq(), serv, mentions(), s);
}

proof fn lemma_trace_start(ui: Tiny, serv: Seq<char>) -> (tr: Trace)
    ensures
        trace_ok(tr, ui, ui, serv),
        tr.1 == Seq::<StepV>::empty(),
{
    let t = (seq![ui], Seq::<StepV>::empty());
    let st = ui.tab_seq();
    assert forall|i: int|
        0 <= i < st.len() && (#[trigger] tab_key(st[i])).1 != serv && tab_key(st[i]).1 != mentions()
        implies st.contains(st[i]) by {
        assert(st[i] == st[i]);
    }
    t
}

/// Adds a line for `target`, one step of the trace.
fn line(ui: &mut Tiny, target: &MsgTarget, kind: LineKind, sender: &str, text: &str, ts: i64, serv: &str,
    start: Ghost<Tiny>, tr: Ghost<Trace>) -> (r: Ghost<Trace>)
    requires
        old(ui).wf(),
        allowed(target@, serv@),
        trace_ok(tr@, start@, *old(ui), serv@),
    ensures
        final(ui).wf(),
        trace_ok(r@, start@, *final(ui), serv@),
        r@.1 == tr@.1.push(StepV::Line(target@, kind, sender@, text@, ts)),
{
    let ghost before = *ui;
    ui.add_line(target, kind, sender, text, ts);
    proof {
        lemma_trace_push(tr@, start@, before, *ui, serv@, StepV::Line(target@, kind, sender@, text@, ts), target_serv(target@)->0);
    }
    Ghost((tr@.0.push(*ui), tr@.1.push(StepV::Line(target@, kind, sender@, text@, ts))))
}

/// Applies `o` for `target`, one step of the trace.
fn op(ui: &mut Tiny, target: &MsgTarget, o: &TabOp, serv: &str, start: Ghost<Tiny>, tr: Ghost<Trace>) -> (r: Ghost<Trace>)
    requires
        old(ui).wf(),
        allowed(target@, serv@),
        trace_ok(tr@, start@, *old(ui), serv@),
    ensures
        final(ui).wf(),
        trace_ok(r@, start@, *final(ui), serv@),
        r@.1 == tr@.1.push(StepV::Op(target@, o@)),
{
    let ghost before = *ui;
    ui.apply_op(target, o);
    proof {
        lemma_trace_push(tr@, start@, before, *ui, serv@, StepV::Op(target@, o@), target_serv(target@)->0);
    }
    Ghost((tr@.0.push(*ui), tr@.1.push(StepV::Op(target@, o@))))
}

fn open_chan(ui: &mut Tiny, serv: &str, chan: &str, start: Ghost<Tiny>, tr: Ghost<Trace>) -> (r: Ghost<Trace>)
    requires
        old(ui).wf(),
        trace_ok(tr@, start@, *old(ui), serv@),
    ensures
        final(ui).wf(),
        trace_ok(r@, start@, *final(ui), serv@),
        r@.1 == tr@.1.push(StepV::OpenChan(serv@, chan@)),
{
    let ghost before = *ui;
    let r = ui.new_chan_tab_(serv, chan);
    proof {
        if !before.keys().contains(chan_key(serv@, chan@)) {
            assert(opened_keys(before.keys(), serv@, chan_key(serv@, chan@), r->0 as int));
        }
        lemma_trace_push(tr@, start@, before, *ui, serv@, StepV::OpenChan(serv@, chan@), serv@);
    }
    Ghost((tr@.0.push(*ui), tr@.1.push(StepV::OpenChan(serv@, chan@))))
}

fn rename_user(ui: &mut Tiny, serv: &str, o: &str, n: &str, start: Ghost<Tiny>, tr: Ghost<Trace>) -> (r: Ghost<Trace>)
    requires
        old(ui).wf(),
        trace_ok(tr@, start@, *old(ui), serv@),
    ensures
        final(ui).wf(),
        trace_ok(r@, start@, *final(ui), serv@),
        r@.1 == tr@.1.push(StepV::RenameUser(serv@, o@, n@)),
{
    let ghost before = *ui;
    ui.rename_user_tab(serv, o, n);
    proof {
        lemma_trace_push(tr@, start@, before, *ui, serv@, StepV::RenameUser(serv@, o@, n@), serv@);
    }
    Ghost((tr@.0.push(*ui), tr@.1.push(StepV::RenameUser(serv@, o@, n@))))
}

/// `a` then `b`.
fn cat(a: &str, b: &str) -> (r: String)
    ensures
        r@ == a@ + b@,
{
    let mut r = String::new();
    r.append(a);
    r.append(b);
    r
}

/// The parameters joined with single spaces.
fn join_params(params: &Vec<String>) -> (r: String)
    ensures
        r@ == joined(strings_view(params@)),
{
    let mut r = String::new();
    let mut i: usize = 0;
    while i < params.len()
        invariant
            i <= params@.len(),
            r@ == joined(strings_view(params@).subrange(0, i as int)),
        decreases params@.len() - i,
    {
        let ghost pre = strings_view(params@).subrange(0, i as int);
        proof {
            reveal_strlit(" ");
            assert(strings_view(params@).subrange(0, i + 1).drop_last() =~= pre);
        }
        if i > 0 {
            r.append(" ");
        }
        r.append(params[i].as_str());
        proof {
            let nx = strings_view(params@).subrange(0, i + 1);
            if i == 0 {
                assert(r@ =~= nx[0]);
            } else {
                assert(r@ =~= joined(pre) + seq![' '] + nx.last());
            }
        }
        i = i + 1;
    }
    assert(strings_view(params@).subrange(0, i as int) =~= strings_view(params@));
    r
}

/// What a PRIVMSG or NOTICE body carries.
pub enum Ctcp<'a> {
    /// No CTCP: the text itself.
    Plain(&'a str),
    /// `ACTION <text>`.
    Action(&'a str),
    /// A version request.
    Version,
    /// Another CTCP command, kept as it is.
    Other(&'a str),
}

pub open spec fn ctcp_delim() -> char {
    '\u{1}'
}

/// CTCP decoding: a body that begins and ends with byte 0x01 is a CTCP
/// message; `ACTION ` starts an action, `VERSION` is a version request.
pub open spec fn ctcp_view(m: Seq<char>) -> (int, Seq<char>) {
    if m.len() >= 2 && m[0] == ctcp_delim() && m.last() == ctcp_delim() {
        let inner = m.subrange(1, m.len() - 1);
        if inner.len() >= 7 && inner.subrange(0, 7) == seq!['A', 'C', 'T', 'I', 'O', 'N', ' '] {
            (1, inner.subrange(7, inner.len() as int))
        } else if inner == seq!['V', 'E', 'R', 'S', 'I', 'O', 'N'] {
            (2, seq![])
        } else {
            (3, inner)
        }
    } else {
        (0, m)
    }
}

impl<'a> Ctcp<'a> {
    pub open spec fn view_pair(&self) -> (int, Seq<char>) {
        match self {
            Ctcp::Plain(s) => (0, s@),
            Ctcp::Action(s) => (1, s@),
            Ctcp::Version => (2, seq![]),
            Ctcp::Other(s) => (3, s@),
        }
    }
}

/// Decodes a CTCP message in a PRIVMSG or NOTICE body.
pub fn decode_ctcp(m: &str) -> (r: Ctcp)
    ensures
        r.view_pair() == ctcp_view(m@),
{
    let n = m.unicode_len();
    if n >= 2 && m.get_char(0) == '\u{1}' && m.get_char(n - 1) == '\u{1}' {
        let inner = m.substring_char(1, n - 1);
        proof {
            reveal_strlit("ACTION ");
            reveal_strlit("VERSION");
            assert(m@.last() == m@[n - 1]);
        }
        if n - 2 >= 7 && str_eq(inner.substring_char(0, 7), "ACTION ") {
            assert("ACTION "@ =~= seq!['A', 'C', 'T', 'I', 'O', 'N', ' ']);
            Ctcp::Action(inner.substring_char(7, n - 2))
        } else if str_eq(inner, "VERSION") {
            assert("VERSION"@ =~= seq!['V', 'E', 'R', 'S', 'I', 'O', 'N']);
            Ctcp::Version
        } else {
            proof {
                assert("ACTION "@ =~= seq!['A', 'C', 'T', 'I', 'O', 'N', ' ']);
                assert("VERSION"@ =~= seq!['V', 'E', 'R', 'S', 'I', 'O', 'N']);
            }
            Ctcp::Other(inner)
        }
    } else {
        proof {
            if m@.len() >= 2 {
                assert(m@.last() == m@[n - 1]);
            }
        }
        Ctcp::Plain(m)
    }
}

/// A CTCP VERSION request from a user.
pub open spec fn is_version_request(m: MsgV) -> bool {
    m.0 matches Some(PfxV::User(_, _)) && m.1 matches CmdV::Privmsg(_, text, _) && ctcp_view(text).0 == 2
}

/// The answer to a CTCP VERSION request from `nick`.
pub open spec fn version_reply(nick: Seq<char>) -> Seq<char> {
    fitted(seq!['N', 'O', 'T', 'I', 'C', 'E', ' '] + nick + seq![' ', ':', ctcp_delim(), 'V', 'E', 'R', 'S', 'I', 'O', 'N', ' ']
        + VERSION_STR@ + seq![ctcp_delim()])
}

/// Whether a message target names a channel.
pub fn is_chan_name(t: &str) -> (r: bool)
    ensures
        r == (t@.len() > 0 && (t@[0] == '#' || t@[0] == '&')),
{
    if t.unicode_len() == 0 {
        false
    } else {
        let c = t.get_char(0);
        c == '#' || c == '&'
    }
}

/// The name and version this client answers CTCP VERSION with.
pub const VERSION_STR: &'static str = "tiny 0.1";

/// The text shown in the mentions tab for a message that mentions us.
pub open spec fn mention_text(origin: Seq<char>, serv: Seq<char>, chan: Seq<char>, body: Seq<char>) -> Seq<char> {
    origin + " in "@ + serv + ":"@ + chan + ": "@ + body
}

pub open spec fn is_chan(t: Seq<char>) -> bool {
    t.len() > 0 && (t[0] == '#' || t[0] == '&')
}

/// What a PRIVMSG or NOTICE does.
pub open spec fn plan_privmsg(pfx: PfxV, target: Seq<char>, text: Seq<char>, is_notice: bool, serv: Seq<char>,
    nick: Seq<char>, ts: i64, keys: Seq<TabKey>) -> Seq<StepV> {
    let origin = match pfx {
        PfxV::Server(_) => serv,
        PfxV::User(n, _) => n,
    };
    let dec = ctcp_view(text);
    if pfx is User && dec.0 == 2 {
        let t = if keys.contains(user_key(serv, origin)) { TargetV::User(serv, origin) } else { TargetV::Server(serv) };
        seq![StepV::Line(t, LineKind::Client, seq![], "Received version request from "@ + origin, ts)]
    } else {
        let body = if dec.0 == 2 { text } else { dec.1 };
        let action = dec.0 == 1;
        if is_chan(target) {
            let t = TargetV::Chan(serv, target);
            if contains_seq(fold(body), fold(nick)) {
                seq![
                    StepV::Line(t, LineKind::Privmsg { highlight: true, action }, origin, body, ts),
                    StepV::Op(t, OpV::Style(TabStyle::Highlight)),
                    StepV::Line(TargetV::Server(mentions()), LineKind::Msg, seq![], mention_text(origin, serv, target, body), ts),
                    StepV::Op(TargetV::Server(mentions()), OpV::Style(TabStyle::Highlight)),
                ]
            } else {
                seq![
                    StepV::Line(t, LineKind::Privmsg { highlight: false, action }, origin, body, ts),
                    StepV::Op(t, OpV::Style(TabStyle::NewMsg)),
                ]
            }
        } else {
            let t = match pfx {
                PfxV::User(n, _) => if is_notice && !keys.contains(user_key(serv, n)) {
                    TargetV::Server(serv)
                } else {
                    TargetV::User(serv, n)
                },
                PfxV::Server(_) => TargetV::Server(serv),
            };
            let style = if eq_fold(target, nick) { TabStyle::Highlight } else { TabStyle::NewMsg };
            seq![
                StepV::Line(t, LineKind::Privmsg { highlight: false, action }, origin, body, ts),
                StepV::Op(t, OpV::Style(style)),
            ]
        }
    }
}

/// The steps that add the nicks of a 353 reply.
pub open spec fn names_steps(serv: Seq<char>, chan: Seq<char>, ws: Seq<Seq<char>>) -> Seq<StepV> {
    ws.map_values(|w: Seq<char>| StepV::Op(TargetV::Chan(serv, chan), OpV::AddNick(w, None)))
}

/// A reply or unknown command from a server shown in the server tab.
pub open spec fn server_text(pfx: Option<PfxV>, serv: Seq<char>, ps: Seq<Seq<char>>, ts: i64) -> Seq<StepV> {
    match pfx {
        Some(PfxV::Server(from)) => seq![
            StepV::Line(TargetV::Server(serv), LineKind::Privmsg { highlight: false, action: false }, from, joined(ps), ts),
            StepV::Op(TargetV::Server(serv), OpV::Style(TabStyle::NewMsg)),
        ],
        _ => seq![],
    }
}

/// What a numeric reply does.
pub open spec fn plan_reply(pfx: Option<PfxV>, n: int, ps: Seq<Seq<char>>, serv: Seq<char>, accepted: bool, ts: i64) -> Seq<StepV> {
    let np = ps.len();
    let st = TargetV::Server(serv);
    if n <= 3 || n == 251 || n == 255 || n == 372 || n == 375 || n == 376 || n == 250 || n == 265 || n == 266 {
        if np > 0 { seq![StepV::Line(st, LineKind::Msg, seq![], ps[np - 1], ts)] } else { seq![] }
    } else if n == 4 || n == 5 || (252 <= n <= 254) {
        seq![StepV::Line(st, LineKind::Msg, seq![], joined(ps), ts)]
    } else if n == 332 {
        if np >= 2 {
            let t = TargetV::Chan(serv, ps[np - 2]);
            seq![StepV::Op(t, OpV::Topic(ps[np - 1])), StepV::Line(t, LineKind::Topic, seq![], ps[np - 1], ts)]
        } else { seq![] }
    } else if n == 353 {
        if np >= 4 { names_steps(serv, ps[2], words(ps[3])) } else { seq![] }
    } else if n == 366 {
        seq![]
    } else if n == 305 || n == 306 {
        if np >= 2 { seq![StepV::Line(TargetV::AllServTabs(serv), LineKind::Client, seq![], ps[1], ts)] } else { seq![] }
    } else if n == 401 {
        if np >= 3 { seq![StepV::Line(TargetV::User(serv, ps[1]), LineKind::Client, seq![], ps[2], ts)] } else { seq![] }
    } else if n == 301 {
        if np >= 3 {
            seq![StepV::Line(TargetV::User(serv, ps[1]), LineKind::Client, seq![], ps[1] + " is away: "@ + ps[2], ts)]
        } else { seq![] }
    } else if n == 433 {
        if accepted {
            seq![StepV::Line(TargetV::AllServTabs(serv), LineKind::Error, seq![], "Nickname is already in use"@, ts)]
        } else { seq![] }
    } else {
        server_text(pfx, serv, ps, ts)
    }
}

/// What routing a message from server `serv` (our nick there `nick`) does
/// to the tabs, step by step; `keys` are the tabs before.
pub open spec fn plan_msg(m: MsgV, serv: Seq<char>, nick: Seq<char>, accepted: bool, ts: i64, keys: Seq<TabKey>) -> Seq<StepV> {
    match m.1 {
        CmdV::Privmsg(target, text, is_notice) => match m.0 {
            Some(p) => plan_privmsg(p, target, text, is_notice, serv, nick, ts, keys),
            None => seq![],
        },
        CmdV::Join(chan) => match m.0 {
            Some(PfxV::User(n, _)) => if eq_fold(n, nick) {
                seq![StepV::OpenChan(serv, chan)]
            } else {
                let bare = strip_prefix(n);
                seq![StepV::Op(TargetV::Chan(serv, chan), OpV::AddNick(bare, Some(ts)))]
                    + if keys.contains(user_key(serv, bare)) {
                        seq![StepV::Op(TargetV::User(serv, bare), OpV::AddNick(bare, Some(ts)))]
                    } else { seq![] }
            },
            _ => seq![],
        },
        CmdV::Part(chan, _) => match m.0 {
            Some(PfxV::User(n, _)) => if !eq_fold(n, nick) {
                seq![StepV::Op(TargetV::Chan(serv, chan), OpV::RemoveNick(n, Some(ts)))]
            } else { seq![] },
            _ => seq![],
        },
        CmdV::Quit(_) => match m.0 {
            Some(PfxV::User(n, _)) => seq![StepV::Op(TargetV::AllUserTabs(serv, n), OpV::RemoveNick(n, Some(ts)))],
            _ => seq![],
        },
        CmdV::Nick(new_nick) => match m.0 {
            Some(PfxV::User(n, _)) => seq![
                StepV::Op(TargetV::AllUserTabs(serv, n), OpV::RenameNick(n, new_nick, ts)),
                StepV::RenameUser(serv, n, new_nick),
            ] + if eq_fold(n, nick) { seq![StepV::Op(TargetV::AllServTabs(serv), OpV::SetNick(new_nick))] } else { seq![] },
            _ => seq![],
        },
        CmdV::Ping(_) => seq![],
        CmdV::Pong(_) => seq![],
        CmdV::Authenticate(_) => seq![],
        CmdV::Error(text) => seq![StepV::Line(TargetV::AllServTabs(serv), LineKind::Error, seq![], text, ts)],
        CmdV::Topic(chan, topic) => seq![
            StepV::Op(TargetV::Chan(serv, chan), OpV::Topic(topic)),
            StepV::Line(TargetV::Chan(serv, chan), LineKind::Topic, seq![], topic, ts),
        ],
        CmdV::Cap(_, sub, caps) => {
            let sasl = words(caps).contains("sasl"@);
            if sub == "NAK"@ && sasl {
                seq![StepV::Line(TargetV::Server(serv), LineKind::Error, seq![], "Server rejected using SASL authentication capability"@, ts)]
            } else if sub == "LS"@ && !sasl {
                seq![StepV::Line(TargetV::Server(serv), LineKind::Error, seq![], "Server does not support SASL authentication"@, ts)]
            } else { seq![] }
        },
        CmdV::Reply(n, ps) => plan_reply(m.0, n, ps, serv, accepted, ts),
        CmdV::Other(w, ps) => if eq_fold(w, "KICK"@) && ps.len() >= 2 {
            seq![StepV::Op(TargetV::Chan(serv, ps[0]), OpV::RemoveNick(ps[1], Some(ts)))]
        } else {
            server_text(m.0, serv, ps, ts)
        },
    }
}

/// Routes one message from server `serv`, on which our nick is `nick`, to
/// the tabs: exactly the steps of `plan_msg`. Answers to the server (CTCP
/// VERSION replies) go to `out`. Only tabs of `serv` and of the mentions
/// pseudo-server change.
pub fn handle_irc_msg(ui: &mut Tiny, serv: &str, nick: &str, nick_accepted: bool, msg: &Msg, ts: i64, out: &mut Vec<String>)
    requires
        old(ui).wf(),
    ensures
        final(ui).wf(),
        did(*old(ui), *final(ui), plan_msg(msg@, serv@, nick@, nick_accepted, ts, old(ui).keys())),
        kept_outside2(old(ui).tab_seq(), final(ui).tab_seq(), serv@, mentions()),
        is_version_request(msg@) ==> strings_view(final(out)@) == strings_view(old(out)@).push(version_reply(msg@.0->0->User_0)),
        !is_version_request(msg@) ==> final(out)@ == old(out)@,
{
    let ghost start = *ui;
    let ghost keys = ui.keys();
    let ghost mut tr: Trace = lemma_trace_start(*ui, serv@);
    let ghost plan = plan_msg(msg@, serv@, nick@, nick_accepted, ts, keys);
    proof {
        reveal_strlit("mentions");
    }
    let mentions_name = "mentions";
    assert(mentions_name@ =~= mentions());
    match &msg.cmd {
        Cmd::Privmsg { target, msg: text, is_notice } => {
            let origin: &str = match &msg.pfx {
                None => {
                    return;
                },
                Some(Pfx::Server(_)) => serv,
                Some(Pfx::User { nick: n, .. }) => n.as_str(),
            };
            let is_user = match &msg.pfx {
                Some(Pfx::User { .. }) => true,
                _ => false,
            };
            let has_origin_tab = ui.does_user_tab_exist(serv, origin);
            let dec = decode_ctcp(text.as_str());
            let is_version = match dec {
                Ctcp::Version => true,
                _ => false,
            };
            if is_user && is_version {
                let t = if has_origin_tab {
                    MsgTarget::User { serv_name: serv, nick: origin }
                } else {
                    MsgTarget::Server { serv_name: serv }
                };
                let m = cat("Received version request from ", origin);
                let tr1 = line(ui, &t, LineKind::Client, "", m.as_str(), ts, serv, Ghost(start), Ghost(tr));
                proof {
                    tr = tr1@;
                    reveal_strlit("");
                    assert(""@ =~= Seq::<char>::empty());
                    assert(tr.1 =~= plan);
                }
                proof {
                    reveal_strlit("NOTICE ");
                    reveal_strlit(" :\u{1}VERSION ");
                    reveal_strlit("\u{1}");
                }
                let mut body = String::new();
                body.append("NOTICE ");
                body.append(origin);
                body.append(" :\u{1}VERSION ");
                body.append(VERSION_STR);
                body.append("\u{1}");
                assert(body@ =~= seq!['N', 'O', 'T', 'I', 'C', 'E', ' '] + origin@ + seq![' ', ':', ctcp_delim(), 'V', 'E', 'R', 'S', 'I', 'O', 'N', ' ']
                    + VERSION_STR@ + seq![ctcp_delim()]);
                let reply = fit_line(body.as_str());
                let ghost before = strings_view(out@);
                out.push(reply);
                assert(strings_view(out@) =~= before.push(reply@));
                return;
            }
            let (body, is_action) = match dec {
                Ctcp::Version => (text.as_str(), false),
                Ctcp::Action(b) => (b, true),
                Ctcp::Plain(b) => (b, false),
                Ctcp::Other(b) => (b, false),
            };
            proof {
                reveal_strlit("");
                assert(""@ =~= Seq::<char>::empty());
            }
            if is_chan_name(target.as_str()) {
                let t = MsgTarget::Chan { serv_name: serv, chan_name: target.as_str() };
                if contains_ignore_case(body, nick) {
                    let tr1 = line(ui, &t, LineKind::Privmsg { highlight: true, action: is_action }, origin, body, ts, serv, Ghost(start), Ghost(tr));
                    let tr2 = op(ui, &t, &TabOp::Style(TabStyle::Highlight), serv, Ghost(start), tr1);
                    let mt = MsgTarget::Server { serv_name: mentions_name };
                    let m1 = cat(origin, " in ");
                    let m2 = cat(m1.as_str(), serv);
                    let m3 = cat(m2.as_str(), ":");
                    let m4 = cat(m3.as_str(), target.as_str());
                    let m5 = cat(m4.as_str(), ": ");
                    let m = cat(m5.as_str(), body);
                    let tr3 = line(ui, &mt, LineKind::Msg, "", m.as_str(), ts, serv, Ghost(start), tr2);
                    let tr4 = op(ui, &mt, &TabOp::Style(TabStyle::Highlight), serv, Ghost(start), tr3);
                    proof {
                        tr = tr4@;
                        assert(tr.1 =~= plan);
                    }
                } else {
                    let tr1 = line(ui, &t, LineKind::Privmsg { highlight: false, action: is_action }, origin, body, ts, serv, Ghost(start), Ghost(tr));
                    let tr2 = op(ui, &t, &TabOp::Style(TabStyle::NewMsg), serv, Ghost(start), tr1);
                    proof {
                        tr = tr2@;
                        assert(tr.1 =~= plan);
                    }
                }
            } else {
                let t = match &msg.pfx {
                    Some(Pfx::User { nick: n, .. }) => {
                        if *is_notice && !has_origin_tab {
                            MsgTarget::Server { serv_name: serv }
                        } else {
                            MsgTarget::User { serv_name: serv, nick: n.as_str() }
                        }
                    },
                    _ => MsgTarget::Server { serv_name: serv },
                };
                let tr1 = line(ui, &t, LineKind::Privmsg { highlight: false, action: is_action }, origin, body, ts, serv, Ghost(start), Ghost(tr));
                let style = if eq_ignore_case(target.as_str(), nick) {
                    TabStyle::Highlight
                } else {
                    TabStyle::NewMsg
                };
                let tr2 = op(ui, &t, &TabOp::Style(style), serv, Ghost(start), tr1);
                proof {
                    tr = tr2@;
                    assert(tr.1 =~= plan);
                }
            }
        },
        Cmd::Join { chan } => {
            if let Some(Pfx::User { nick: n, .. }) = &msg.pfx {
                if eq_ignore_case(n.as_str(), nick) {
                    let tr1 = open_chan(ui, serv, chan.as_str(), Ghost(start), Ghost(tr));
                    proof {
                        tr = tr1@;
                        assert(tr.1 =~= plan);
                    }
                } else {
                    let bare = drop_nick_prefix(n.as_str());
                    let has_tab = ui.does_user_tab_exist(serv, bare);
                    let t = MsgTarget::Chan { serv_name: serv, chan_name: chan.as_str() };
                    let tr1 = op(ui, &t, &TabOp::AddNick(bare, Some(ts)), serv, Ghost(start), Ghost(tr));
                    proof { tr = tr1@; }
                    if has_tab {
                        let ut = MsgTarget::User { serv_name: serv, nick: bare };
                        let tr2 = op(ui, &ut, &TabOp::AddNick(bare, Some(ts)), serv, Ghost(start), Ghost(tr));
                        proof { tr = tr2@; }
                    }
                    proof {
                        assert(tr.1 =~= plan);
                    }
                }
            }
        },
        Cmd::Part { chan, .. } => {
            if let Some(Pfx::User { nick: n, .. }) = &msg.pfx {
                if !eq_ignore_case(n.as_str(), nick) {
                    let t = MsgTarget::Chan { serv_name: serv, chan_name: chan.as_str() };
                    let tr1 = op(ui, &t, &TabOp::RemoveNick(n.as_str(), Some(ts)), serv, Ghost(start), Ghost(tr));
                    proof {
                        tr = tr1@;
                        assert(tr.1 =~= plan);
                    }
                }
            }
        },
        Cmd::Quit { .. } => {
            if let Some(Pfx::User { nick: n, .. }) = &msg.pfx {
                let t = MsgTarget::AllUserTabs { serv_name: serv, nick: n.as_str() };
                let tr1 = op(ui, &t, &TabOp::RemoveNick(n.as_str(), Some(ts)), serv, Ghost(start), Ghost(tr));
                proof {
                    tr = tr1@;
                    assert(tr.1 =~= plan);
                }
            }
        },
        Cmd::Nick { nick: new_nick } => {
            if let Some(Pfx::User { nick: n, .. }) = &msg.pfx {
                let t = MsgTarget::AllUserTabs { serv_name: serv, nick: n.as_str() };
                let tr1 = op(ui, &t, &TabOp::RenameNick(n.as_str(), new_nick.as_str(), ts), serv, Ghost(start), Ghost(tr));
                let tr2 = rename_user(ui, serv, n.as_str(), new_nick.as_str(), Ghost(start), tr1);
                proof { tr = tr2@; }
                if eq_ignore_case(n.as_str(), nick) {
                    let st = MsgTarget::AllServTabs { serv_name: serv };
                    let tr3 = op(ui, &st, &TabOp::SetNick(new_nick.as_str()), serv, Ghost(start), Ghost(tr));
                    proof { tr = tr3@; }
                }
                proof {
                    assert(tr.1 =~= plan);
                }
            }
        },
        Cmd::Ping { .. } | Cmd::Pong { .. } | Cmd::Authenticate { .. } => {},
        Cmd::Error { msg: text } => {
            let t = MsgTarget::AllServTabs { serv_name: serv };
            let tr1 = line(ui, &t, LineKind::Error, "", text.as_str(), ts, serv, Ghost(start), Ghost(tr));
            proof {
                tr = tr1@;
                reveal_strlit("");
                assert(""@ =~= Seq::<char>::empty());
                assert(tr.1 =~= plan);
            }
        },
        Cmd::Topic { chan, topic } => {
            let t = MsgTarget::Chan { serv_name: serv, chan_name: chan.as_str() };
            let tr1 = op(ui, &t, &TabOp::Topic(topic.as_str()), serv, Ghost(start), Ghost(tr));
            let tr2 = line(ui, &t, LineKind::Topic, "", topic.as_str(), ts, serv, Ghost(start), tr1);
            proof {
                tr = tr2@;
                reveal_strlit("");
                assert(""@ =~= Seq::<char>::empty());
                assert(tr.1 =~= plan);
            }
        },
        Cmd::Cap { subcommand, params, .. } => {
            let caps = split_words(params.as_str());
            let mut has_sasl = false;
            let mut i: usize = 0;
            while i < caps.len()
                invariant
                    i <= caps@.len(),
                    has_sasl == strs_view(caps@).subrange(0, i as int).contains("sasl"@),
                decreases caps@.len() - i,
            {
                let ghost pre = strs_view(caps@).subrange(0, i as int);
                if str_eq(caps[i], "sasl") {
                    has_sasl = true;
                }
                proof {
                    let nx = strs_view(caps@).subrange(0, i + 1);
                    assert(nx =~= pre.push(caps@[i as int]@));
                    if pre.contains("sasl"@) {
                        let k = choose|k: int| 0 <= k < pre.len() && pre[k] == "sasl"@;
                        assert(nx[k] == "sasl"@);
                    }
                    if nx.contains("sasl"@) && !pre.contains("sasl"@) {
                        let k = choose|k: int| 0 <= k < nx.len() && nx[k] == "sasl"@;
                        if k < pre.len() {
                            assert(pre[k] == nx[k]);
                        }
                    }
                    if has_sasl && !pre.contains("sasl"@) {
                        assert(nx[i as int] == "sasl"@);
                    }
                }
                i = i + 1;
            }
            assert(strs_view(caps@).subrange(0, i as int) =~= strs_view(caps@));
            let t = MsgTarget::Server { serv_name: serv };
            proof {
                reveal_strlit("");
                assert(""@ =~= Seq::<char>::empty());
            }
            if str_eq(subcommand.as_str(), "NAK") && has_sasl {
                let tr1 = line(ui, &t, LineKind::Error, "", "Server rejected using SASL authentication capability", ts, serv, Ghost(start), Ghost(tr));
                proof { tr = tr1@; }
            } else if str_eq(subcommand.as_str(), "LS") && !has_sasl {
                let tr1 = line(ui, &t, LineKind::Error, "", "Server does not support SASL authentication", ts, serv, Ghost(start), Ghost(tr));
                proof { tr = tr1@; }
            }
            proof {
                assert(tr.1 =~= plan);
            }
        },
        Cmd::Reply { num, params } => {
            let tr1 = route_reply(ui, serv, nick_accepted, &msg.pfx, *num, params, ts, Ghost(start), Ghost(tr));
            proof {
                tr = tr1@;
                assert(tr.1 =~= plan);
            }
        },
        Cmd::Other { cmd, params } => {
            if eq_ignore_case(cmd.as_str(), "KICK") && params.len() >= 2 {
                let t = MsgTarget::Chan { serv_name: serv, chan_name: params[0].as_str() };
                let tr1 = op(ui, &t, &TabOp::RemoveNick(params[1].as_str(), Some(ts)), serv, Ghost(start), Ghost(tr));
                proof {
                    tr = tr1@;
                    reveal_strlit("KICK");
                    assert(tr.1 =~= plan);
                }
            } else {
                let tr1 = route_server_text(ui, serv, &msg.pfx, params, ts, Ghost(start), Ghost(tr));
                proof {
                    tr = tr1@;
                    reveal_strlit("KICK");
                    assert(tr.1 =~= plan);
                }
            }
        },
    }
    proof {
        assert(tr.1 == plan);
        assert(did(start, *ui, plan));
    }
}

fn route_server_text(ui: &mut Tiny, serv: &str, pfx: &Option<Pfx>, params: &Vec<String>, ts: i64, start: Ghost<Tiny>, tr: Ghost<Trace>) -> (r: Ghost<Trace>)
    requires
        old(ui).wf(),
        trace_ok(tr@, start@, *old(ui), serv@),
    ensures
        final(ui).wf(),
        trace_ok(r@, start@, *final(ui), serv@),
        r@.1 == tr@.1 + server_text(pfx_view(*pfx), serv@, strings_view(params@), ts),
{
    if let Some(Pfx::Server(from)) = pfx {
        let st = MsgTarget::Server { serv_name: serv };
        let m = join_params(params);
        let tr1 = line(ui, &st, LineKind::Privmsg { highlight: false, action: false }, from.as_str(), m.as_str(), ts, serv, start, tr);
        let tr2 = op(ui, &st, &TabOp::Style(TabStyle::NewMsg), serv, start, tr1);
        assert(tr2@.1 =~= tr@.1 + server_text(pfx_view(*pfx), serv@, strings_view(params@), ts));
        tr2
    } else {
        assert(tr@.1 =~= tr@.1 + server_text(pfx_view(*pfx), serv@, strings_view(params@), ts));
        tr
    }
}

fn route_reply(ui: &mut Tiny, serv: &str, accepted: bool, pfx: &Option<Pfx>, n: u16, params: &Vec<String>, ts: i64, start: Ghost<Tiny>, tr: Ghost<Trace>) -> (r: Ghost<Trace>)
    requires
        old(ui).wf(),
        trace_ok(tr@, start@, *old(ui), serv@),
    ensures
        final(ui).wf(),
        trace_ok(r@, start@, *final(ui), serv@),
        r@.1 == tr@.1 + plan_reply(pfx_view(*pfx), n as int, strings_view(params@), serv@, accepted, ts),
{
    let ghost ps = strings_view(params@);
    let ghost pv = pfx_view(*pfx);
    let ghost want = plan_reply(pv, n as int, ps, serv@, accepted, ts);
    let np = params.len();
    let st = MsgTarget::Server { serv_name: serv };
    proof {
        reveal_strlit("");
        assert(""@ =~= Seq::<char>::empty());
    }
    if n <= 3 || n == 251 || n == 255 || n == 372 || n == 375 || n == 376 || n == 250 || n == 265 || n == 266 {
        if np > 0 {
            let r = line(ui, &st, LineKind::Msg, "", params[np - 1].as_str(), ts, serv, start, tr);
            assert(r@.1 =~= tr@.1 + want);
            r
        } else {
            assert(tr@.1 =~= tr@.1 + want);
            tr
        }
    } else if n == 4 || n == 5 || (n >= 252 && n <= 254) {
        let m = join_params(params);
        let r = line(ui, &st, LineKind::Msg, "", m.as_str(), ts, serv, start, tr);
        assert(r@.1 =~= tr@.1 + want);
        r
    } else if n == 332 {
        if np >= 2 {
            let t = MsgTarget::Chan { serv_name: serv, chan_name: params[np - 2].as_str() };
            let r1 = op(ui, &t, &TabOp::Topic(params[np - 1].as_str()), serv, start, tr);
            let r = line(ui, &t, LineKind::Topic, "", params[np - 1].as_str(), ts, serv, start, r1);
            assert(r@.1 =~= tr@.1 + want);
            r
        } else {
            assert(tr@.1 =~= tr@.1 + want);
            tr
        }
    } else if n == 353 {
        if np >= 4 {
            let t = MsgTarget::Chan { serv_name: serv, chan_name: params[2].as_str() };
            let names = split_words(params[3].as_str());
            let mut r = tr;
            let mut i: usize = 0;
            while i < names.len()
                invariant
                    ui.wf(),
                    i <= names@.len(),
                    np == params@.len(),
                    np >= 4,
                    t@ == TargetV::Chan(serv@, params@[2]@),
                    strs_view(names@) == words(params@[3]@),
                    trace_ok(r@, start@, *ui, serv@),
                    r@.1 == tr@.1 + names_steps(serv@, params@[2]@, strs_view(names@).subrange(0, i as int)),
                decreases names@.len() - i,
            {
                let r1 = op(ui, &t, &TabOp::AddNick(names[i], None), serv, start, r);
                proof {
                    assert(strs_view(names@).subrange(0, i + 1) =~= strs_view(names@).subrange(0, i as int).push(names@[i as int]@));
                    assert(names_steps(serv@, params@[2]@, strs_view(names@).subrange(0, i + 1)) =~= names_steps(serv@, params@[2]@, strs_view(names@).subrange(0, i as int)).push(StepV::Op(t@, OpV::AddNick(names@[i as int]@, None))));
                }
                r = r1;
                i = i + 1;
                assert(r@.1 =~= tr@.1 + names_steps(serv@, params@[2]@, strs_view(names@).subrange(0, i as int)));
            }
            assert(strs_view(names@).subrange(0, i as int) =~= words(params@[3]@));
            assert(ps[2] == params@[2]@ && ps[3] == params@[3]@);
            r
        } else {
            assert(tr@.1 =~= tr@.1 + want);
            tr
        }
    } else if n == 366 {
        assert(tr@.1 =~= tr@.1 + want);
        tr
    } else if n == 305 || n == 306 {
        if np >= 2 {
            let t = MsgTarget::AllServTabs { serv_name: serv };
            let r = line(ui, &t, LineKind::Client, "", params[1].as_str(), ts, serv, start, tr);
            assert(r@.1 =~= tr@.1 + want);
            r
        } else {
            assert(tr@.1 =~= tr@.1 + want);
            tr
        }
    } else if n == 401 {
        if np >= 3 {
            let t = MsgTarget::User { serv_name: serv, nick: params[1].as_str() };
            let r = line(ui, &t, LineKind::Client, "", params[2].as_str(), ts, serv, start, tr);
            assert(r@.1 =~= tr@.1 + want);
            r
        } else {
            assert(tr@.1 =~= tr@.1 + want);
            tr
        }
    } else if n == 301 {
        if np >= 3 {
            let t = MsgTarget::User { serv_name: serv, nick: params[1].as_str() };
            let m1 = cat(params[1].as_str(), " is away: ");
            let m = cat(m1.as_str(), params[2].as_str());
            let r = line(ui, &t, LineKind::Client, "", m.as_str(), ts, serv, start, tr);
            assert(r@.1 =~= tr@.1 + want);
            r
        } else {
            assert(tr@.1 =~= tr@.1 + want);
            tr
        }
    } else if n == 433 {
        if accepted {
            let t = MsgTarget::AllServTabs { serv_name: serv };
            let r = line(ui, &t, LineKind::Error, "", "Nickname is already in use", ts, serv, start, tr);
            assert(r@.1 =~= tr@.1 + want);
            r
        } else {
            assert(tr@.1 =~= tr@.1 + want);
            tr
        }
    } else {
        route_server_text(ui, serv, pfx, params, ts, start, tr)
    }
}

/// Bytes of a string in UTF-8.
fn utf8_len(s: &str) -> (r: usize)
    requires
        s@.len() <= 4096,
    ensures
        r == byte_len(s@),
        r <= 4 * s@.len(),
{
    let n = s.unicode_len();
    let mut total: usize = 0;
    let mut i: usize = 0;
    while i < n
        invariant
            n == s@.len(),
            n <= 4096,
            i <= n,
            total == byte_len(s@.subrange(0, i as int)),
            total <= 4 * i,
        decreases n - i,
    {
        assert(s@.subrange(0, i + 1).drop_last() =~= s@.subrange(0, i as int));
        total = total + char_len_exec(s.get_char(i));
        i = i + 1;
    }
    assert(s@.subrange(0, i as int) =~= s@);
    total
}

/// `PRIVMSG <target> :\x01ACTION <msg>\x01`.
pub open spec fn action_line(target: Seq<char>, msg: Seq<char>) -> Seq<char> {
    privmsg_line(target, seq![ctcp_delim(), 'A', 'C', 'T', 'I', 'O', 'N', ' '] + msg + seq![ctcp_delim()])
}

/// The lines that send `chunks` to `target`, as actions or as messages.
pub open spec fn chunk_lines(target: Seq<char>, chunks: Seq<Seq<char>>, action: bool) -> Seq<Seq<char>> {
    chunks.map_values(|c: Seq<char>| if action { action_line(target, c) } else { privmsg_line(target, c) })
}

/// The PRIVMSG target for a message typed in a tab: the channel, or the nick.
pub open spec fn send_target(from: MsgSource) -> Option<Seq<char>> {
    match from {
        MsgSource::Serv { .. } => None,
        MsgSource::Chan { chan_name, .. } => Some(chan_name@),
        MsgSource::User { nick, .. } => Some(nick@),
    }
}

/// Bytes a PRIVMSG line to `target` takes besides its text.
pub open spec fn overhead(target: Seq<char>, action: bool) -> nat {
    byte_len(target) + 12 + if action { 9nat } else { 0nat }
}

/// The tab that shows what we send from tab `from`: the channel, the
/// privmsg tab, or the server tab for NickServ and ChanServ.
pub open spec fn echo_target(from: MsgSource) -> TargetV {
    match from {
        MsgSource::Serv { serv_name } => TargetV::Server(serv_name@),
        MsgSource::Chan { serv_name, chan_name } => TargetV::Chan(serv_name@, chan_name@),
        MsgSource::User { serv_name, nick } => if eq_fold(nick@, "nickserv"@) || eq_fold(nick@, "chanserv"@) {
            TargetV::Server(serv_name@)
        } else {
            TargetV::User(serv_name@, nick@)
        },
    }
}

/// Each chunk sent, shown from us in the tab.
pub open spec fn echo_steps(t: TargetV, nick: Seq<char>, chunks: Seq<Seq<char>>, action: bool, ts: i64) -> Seq<StepV> {
    chunks.map_values(|c: Seq<char>| StepV::Line(t, LineKind::Privmsg { highlight: false, action }, nick, c, ts))
}

/// What sending `msg` to `target` added to the outgoing lines `old`,
/// giving `new`: nothing, when the message is empty or the target too long
/// for a line; else PRIVMSGs whose texts, one after another, are `msg`,
/// each line within the line limit.
pub open spec fn sent(old: Seq<Seq<char>>, new: Seq<Seq<char>>, t: Seq<char>, msg: Seq<char>, action: bool) -> bool {
    &&& (new == old || exists|chunks: Seq<Seq<char>>|
        concat_all(chunks) == msg
            && (forall|i: int| 0 <= i < chunks.len() ==> byte_len(#[trigger] chunks[i]) + overhead(t, action) <= MAX_LINE && chunks[i].len() > 0)
            && new == old + chunk_lines(t, chunks, action))
    &&& (new == old <==> (msg.len() == 0 || t.len() > 4096 || overhead(t, action) + 4 > MAX_LINE))
}

/// Sends a message typed in tab `from` (as a CTCP ACTION when
/// `ctcp_action`): split at character boundaries into PRIVMSGs that fit the
/// line limit, each echoed to the tab. A server tab takes no messages: it
/// shows an error instead.
pub fn send_msg(ui: &mut Tiny, from: &MsgSource, nick: &str, msg: &str, ts: i64, ctcp_action: bool, out: &mut Vec<String>)
    requires
        old(ui).wf(),
    ensures
        final(ui).wf(),
        send_target(*from) is None ==> strings_view(final(out)@) == strings_view(old(out)@),
        send_target(*from) matches Some(t) ==> sent(strings_view(old(out)@), strings_view(final(out)@), t, msg@, ctcp_action),
        strings_view(final(out)@) == strings_view(old(out)@) ==> final(ui).keys() == old(ui).keys() && exists|e: Seq<char>|
            added_line(old(ui).tab_seq(), final(ui).tab_seq(), final(ui).active(), TargetV::CurrentTab, (LineKind::ClientErr, seq![], e, ts)),
        send_target(*from) is Some && strings_view(final(out)@) != strings_view(old(out)@) ==> exists|chunks: Seq<Seq<char>>|
            concat_all(chunks) == msg@ && strings_view(final(out)@) == strings_view(old(out)@) + chunk_lines(send_target(*from)->0, chunks, ctcp_action)
                && did(*old(ui), *final(ui), echo_steps(echo_target(*from), nick@, chunks, ctcp_action, ts)),
{
    proof {
        reveal_strlit("PRIVMSG ");
    }
    let (target, tab_target): (&str, MsgTarget) = match from {
        MsgSource::Serv { serv_name } => {
            ui.add_line(&MsgTarget::CurrentTab, LineKind::ClientErr, "", "Use `/msg <target> <text>` to send a message from a server tab", ts);
            proof {
                reveal_strlit("");
                assert(""@ =~= Seq::<char>::empty());
                assert(added_line(old(ui).tab_seq(), ui.tab_seq(), ui.active(), TargetV::CurrentTab, (LineKind::ClientErr, seq![], "Use `/msg <target> <text>` to send a message from a server tab"@, ts)));
            }
            return;
        },
        MsgSource::Chan { serv_name, chan_name } => (chan_name.as_str(), MsgTarget::Chan { serv_name: serv_name.as_str(), chan_name: chan_name.as_str() }),
        MsgSource::User { serv_name, nick: n } => {
            let t = if eq_ignore_case(n.as_str(), "nickserv") || eq_ignore_case(n.as_str(), "chanserv") {
                MsgTarget::Server { serv_name: serv_name.as_str() }
            } else {
                MsgTarget::User { serv_name: serv_name.as_str(), nick: n.as_str() }
            };
            (n.as_str(), t)
        },
    };
    if target.unicode_len() > 4096 || msg.unicode_len() == 0 {
        ui.add_line(&MsgTarget::CurrentTab, LineKind::ClientErr, "", "Can't send this message", ts);
            proof {
                reveal_strlit("");
                assert(""@ =~= Seq::<char>::empty());
                assert(added_line(old(ui).tab_seq(), ui.tab_seq(), ui.active(), TargetV::CurrentTab, (LineKind::ClientErr, seq![], "Can't send this message"@, ts)));
            }
        return;
    }
    let over = utf8_len(target) + 12 + if ctcp_action { 9 } else { 0 };
    if over + 4 > MAX_LINE {
        ui.add_line(&MsgTarget::CurrentTab, LineKind::ClientErr, "", "Can't send this message", ts);
            proof {
                reveal_strlit("");
                assert(""@ =~= Seq::<char>::empty());
                assert(added_line(old(ui).tab_seq(), ui.tab_seq(), ui.active(), TargetV::CurrentTab, (LineKind::ClientErr, seq![], "Can't send this message"@, ts)));
            }
        return;
    }
    let chunks = split_chunks(msg, MAX_LINE - over);
    let ghost base = strings_view(out@);
    let ghost start = *ui;
    let mut tr: Ghost<Trace> = Ghost(lemma_trace_start(*ui, from.serv_view()));
    let serv = from.serv_name();
    assert(tab_target@ == echo_target(*from));
    let mut i: usize = 0;
    while i < chunks.len()
        invariant
            ui.wf(),
            i <= chunks@.len(),
            strings_view(out@) == base + chunk_lines(target@, strs_of(chunks@).subrange(0, i as int), ctcp_action),
            serv@ == from.serv_view(),
            tab_target@ == echo_target(*from),
            allowed(tab_target@, serv@),
            trace_ok(tr@, start, *ui, serv@),
            tr@.1 == echo_steps(echo_target(*from), nick@, strs_of(chunks@).subrange(0, i as int), ctcp_action, ts),
        decreases chunks@.len() - i,
    {
        let c = chunks[i];
        let l = if ctcp_action {
            let mut body = String::new();
            proof {
                reveal_strlit("\u{1}ACTION ");
                reveal_strlit("\u{1}");
            }
            body.append("\u{1}ACTION ");
            body.append(c);
            body.append("\u{1}");
            assert(body@ =~= seq![ctcp_delim(), 'A', 'C', 'T', 'I', 'O', 'N', ' '] + c@ + seq![ctcp_delim()]);
            crate::conn::privmsg(target, body.as_str())
        } else {
            crate::conn::privmsg(target, c)
        };
        let ghost before = strings_view(out@);
        out.push(l);
        proof {
            assert(strings_view(out@) =~= before.push(l@));
            assert(strs_of(chunks@).subrange(0, i + 1) =~= strs_of(chunks@).subrange(0, i as int).push(c@));
            assert(chunk_lines(target@, strs_of(chunks@).subrange(0, i + 1), ctcp_action) =~= chunk_lines(target@, strs_of(chunks@).subrange(0, i as int), ctcp_action).push(l@));
        }
        let tr1 = line(ui, &tab_target, LineKind::Privmsg { highlight: false, action: ctcp_action }, nick, c, ts, serv, Ghost(start), tr);
        proof {
            assert(tr1@.1 =~= echo_steps(echo_target(*from), nick@, strs_of(chunks@).subrange(0, i + 1), ctcp_action, ts));
        }
        tr = tr1;
        i = i + 1;
    }
    proof {
        assert(strs_of(chunks@).subrange(0, i as int) =~= strs_of(chunks@));
        let cs = strs_of(chunks@);
        assert(forall|k: int| 0 <= k < cs.len() ==> byte_len(#[trigger] cs[k]) + overhead(target@, ctcp_action) <= MAX_LINE && cs[k].len() > 0) by {
            assert forall|k: int| 0 <= k < cs.len() implies byte_len(#[trigger] cs[k]) + overhead(target@, ctcp_action) <= MAX_LINE && cs[k].len() > 0 by {
                assert(cs[k] == chunks@[k]@);
            }
        }
        if strings_view(out@) == base {
            assert(chunk_lines(target@, cs, ctcp_action).len() == 0);
            assert(cs.len() == 0);
            assert(concat_all(cs) == Seq::<char>::empty());
        }
        assert(did(start, *ui, echo_steps(echo_target(*from), nick@, cs, ctcp_action, ts)));
    }
}

/// What showing a connection event of server `serv` does to the tabs.
pub open spec fn plan_conn_ev(ev: ConnEv, serv: Seq<char>, nick: Seq<char>, accepted: bool, ts: i64, keys: Seq<TabKey>) -> Seq<StepV> {
    let t = TargetV::AllServTabs(serv);
    match ev {
        ConnEv::Disconnected => seq![
            StepV::Line(t, LineKind::Error, seq![], "Disconnected. Will try to reconnect in 30 seconds."@, ts),
            StepV::Op(t, OpV::ClearNicks),
        ],
        ConnEv::Reconnect => seq![StepV::Line(t, LineKind::Client, seq![], "Reconnecting..."@, ts)],
        ConnEv::IoErr(e) => seq![StepV::Line(t, LineKind::Error, seq![], "Connection error: "@ + e@, ts)],
        ConnEv::NickChange(n) => seq![StepV::Op(t, OpV::SetNick(n@))],
        ConnEv::Msg(m) => plan_msg(m@, serv, nick, accepted, ts, keys),
        ConnEv::Closed => seq![],
    }
}

/// Shows a connection event of server `serv` in its tabs: exactly the
/// steps of `plan_conn_ev`; a protocol message goes to `handle_irc_msg`.
/// Only tabs of `serv` and of the mentions pseudo-server change. Returns
/// whether the event ends the connection's events (`Closed`).
pub fn handle_conn_ev(ui: &mut Tiny, serv: &str, nick: &str, nick_accepted: bool, ev: &ConnEv, ts: i64, out: &mut Vec<String>) -> (r: bool)
    requires
        old(ui).wf(),
    ensures
        r == (ev is Closed),
        final(ui).wf(),
        did(*old(ui), *final(ui), plan_conn_ev(*ev, serv@, nick@, nick_accepted, ts, old(ui).keys())),
        kept_outside2(old(ui).tab_seq(), final(ui).tab_seq(), serv@, mentions()),
        !(ev is Msg) ==> final(out)@ == old(out)@,
{
    if let ConnEv::Msg(m) = ev {
        handle_irc_msg(ui, serv, nick, nick_accepted, m, ts, out);
        return false;
    }
    let ghost start = *ui;
    let ghost plan = plan_conn_ev(*ev, serv@, nick@, nick_accepted, ts, ui.keys());
    let ghost tr0: Trace = lemma_trace_start(*ui, serv@);
    proof {
        reveal_strlit("");
        assert(""@ =~= Seq::<char>::empty());
    }
    let t = MsgTarget::AllServTabs { serv_name: serv };
    let tr = match ev {
        ConnEv::Disconnected => {
            let tr1 = line(ui, &t, LineKind::Error, "", "Disconnected. Will try to reconnect in 30 seconds.", ts, serv, Ghost(start), Ghost(tr0));
            op(ui, &t, &TabOp::ClearNicks, serv, Ghost(start), tr1)
        },
        ConnEv::Reconnect => {
            line(ui, &t, LineKind::Client, "", "Reconnecting...", ts, serv, Ghost(start), Ghost(tr0))
        },
        ConnEv::IoErr(e) => {
            let m = cat("Connection error: ", e.as_str());
            line(ui, &t, LineKind::Error, "", m.as_str(), ts, serv, Ghost(start), Ghost(tr0))
        },
        ConnEv::NickChange(n) => {
            op(ui, &t, &TabOp::SetNick(n.as_str()), serv, Ghost(start), Ghost(tr0))
        },
        ConnEv::Msg(_) | ConnEv::Closed => Ghost(tr0),
    };
    proof {
        assert(tr@.1 =~= plan);
        assert(did(start, *ui, plan));
    }
    match ev {
        ConnEv::Closed => true,
        _ => false,
    }
}

} // verus!
