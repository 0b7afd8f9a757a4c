//! The per-server connection state machine: introduction, nick negotiation,
//! ping/pong and reconnection. It decides; the caller does the I/O, hands
//! it received lines and one tick a second, and sends the lines it returns.

use vstd::prelude::*;
use vstd::string::*;
use crate::text::{eq_fold, eq_ignore_case, to_chars};
use crate::split::{fit_line, fitted};
use crate::wire::{bytes_view, clean_line, frame_step, parse, parse_line, read_lines, strings_view, Cmd, CmdV, Msg, MsgV, Pfx, PfxV};

verus! {

/// Ticks without a message from the server before we send a PING.
pub const PING_TICKS: u8 = 60;
/// Ticks after a PING without a message before we consider the connection lost.
pub const PONG_TICKS: u8 = 60;
/// Ticks between a disconnect and the next connection attempt.
pub const RECONNECT_TICKS: u8 = 30;

/// Where a connection stands.
#[derive(Debug, Clone, Copy, PartialEq, Eq, Structural)]
pub enum ConnStatus {
    /// Connected, not introduced yet: we introduce ourselves on the first message.
    Introduce,
    /// Ticks since the last message from the server.
    PingPong { ticks_passed: u8 },
    /// Ticks since we sent a PING.
    WaitPong { ticks_passed: u8 },
    /// Ticks since the connection was lost.
    Disconnected { ticks_passed: u8 },
}

/// What the connection tells its user.
pub enum ConnEv {
    /// The connection was lost (or timed out).
    Disconnected,
    /// Time to connect again.
    Reconnect,
    /// An I/O error, in words.
    IoErr(String),
    /// Our nick changed.
    NickChange(String),
    /// A message from the server.
    Msg(Msg),
    /// The server was removed; no more events come.
    Closed,
}

/// State of the TLS handshake of a connection.
pub enum SslConnectStatus {
    WantWrite,
    WantRead,
    JustConnected,
    AlreadyConnected,
}

/// The next status after one tick.
pub open spec fn tick_status(s: ConnStatus) -> ConnStatus {
    match s {
        ConnStatus::Introduce => ConnStatus::Introduce,
        ConnStatus::PingPong { ticks_passed: t } => if t + 1 >= PING_TICKS {
            ConnStatus::WaitPong { ticks_passed: 0 }
        } else {
            ConnStatus::PingPong { ticks_passed: (t + 1) as u8 }
        },
        ConnStatus::WaitPong { ticks_passed: t } => if t + 1 >= PONG_TICKS {
            ConnStatus::Disconnected { ticks_passed: 0 }
        } else {
            ConnStatus::WaitPong { ticks_passed: (t + 1) as u8 }
        },
        ConnStatus::Disconnected { ticks_passed: t } => if t + 1 >= RECONNECT_TICKS {
            ConnStatus::Introduce
        } else {
            ConnStatus::Disconnected { ticks_passed: (t + 1) as u8 }
        },
    }
}

pub open spec fn ping_line(host: Seq<char>) -> Seq<char> {
    fitted(seq!['P', 'I', 'N', 'G', ' ', ':'] + host)
}

pub open spec fn pong_line(server: Seq<char>) -> Seq<char> {
    fitted(seq!['P', 'O', 'N', 'G', ' ', ':'] + server)
}

pub open spec fn nick_line(nick: Seq<char>) -> Seq<char> {
    fitted(seq!['N', 'I', 'C', 'K', ' '] + nick)
}

pub open spec fn user_line(user: Seq<char>, realname: Seq<char>) -> Seq<char> {
    fitted(seq!['U', 'S', 'E', 'R', ' '] + user + seq![' ', '0', ' ', '*', ' ', ':'] + realname)
}

pub open spec fn join_line(chan: Seq<char>) -> Seq<char> {
    fitted(seq!['J', 'O', 'I', 'N', ' '] + chan)
}

pub open spec fn privmsg_line(target: Seq<char>, msg: Seq<char>) -> Seq<char> {
    fitted(seq!['P', 'R', 'I', 'V', 'M', 'S', 'G', ' '] + target + seq![' ', ':'] + msg)
}

pub open spec fn identify_line(pass: Seq<char>) -> Seq<char> {
    privmsg_line(seq!['N', 'i', 'c', 'k', 'S', 'e', 'r', 'v'], seq!['I', 'D', 'E', 'N', 'T', 'I', 'F', 'Y', ' '] + pass)
}

/// `PING :<host>`.
pub fn ping(host: &str) -> (r: String)
    ensures
        r@ == ping_line(host@),
{
    proof {
        reveal_strlit("PING :");
    }
    let mut r = String::new();
    r.append("PING :");
    r.append(host);
    assert(r@ =~= seq!['P', 'I', 'N', 'G', ' ', ':'] + host@);
    fit_line(r.as_str())
}

/// `PONG :<server>`.
pub fn pong(server: &str) -> (r: String)
    ensures
        r@ == pong_line(server@),
{
    proof {
        reveal_strlit("PONG :");
    }
    let mut r = String::new();
    r.append("PONG :");
    r.append(server);
    assert(r@ =~= seq!['P', 'O', 'N', 'G', ' ', ':'] + server@);
    fit_line(r.as_str())
}

/// `NICK <nick>`.
pub fn nick(n: &str) -> (r: String)
    ensures
        r@ == nick_line(n@),
{
    proof {
        reveal_strlit("NICK ");
    }
    let mut r = String::new();
    r.append("NICK ");
    r.append(n);
    assert(r@ =~= seq!['N', 'I', 'C', 'K', ' '] + n@);
    fit_line(r.as_str())
}

/// `USER <user> 0 * :<realname>`.
pub fn user(u: &str, realname: &str) -> (r: String)
    ensures
        r@ == user_line(u@, realname@),
{
    proof {
        reveal_strlit("USER ");
        reveal_strlit(" 0 * :");
    }
    let mut r = String::new();
    r.append("USER ");
    r.append(u);
    r.append(" 0 * :");
    r.append(realname);
    assert(r@ =~= seq!['U', 'S', 'E', 'R', ' '] + u@ + seq![' ', '0', ' ', '*', ' ', ':'] + realname@);
    fit_line(r.as_str())
}

/// `JOIN <chan>`.
pub fn join(chan: &str) -> (r: String)
    ensures
        r@ == join_line(chan@),
{
    proof {
        reveal_strlit("JOIN ");
    }
    let mut r = String::new();
    r.append("JOIN ");
    r.append(chan);
    assert(r@ =~= seq!['J', 'O', 'I', 'N', ' '] + chan@);
    fit_line(r.as_str())
}

/// `PRIVMSG <target> :<msg>`.
pub fn privmsg(target: &str, msg: &str) -> (r: String)
    ensures
        r@ == privmsg_line(target@, msg@),
{
    proof {
        reveal_strlit("PRIVMSG ");
        reveal_strlit(" :");
    }
    let mut r = String::new();
    r.append("PRIVMSG ");
    r.append(target);
    r.append(" :");
    r.append(msg);
    assert(r@ =~= seq!['P', 'R', 'I', 'V', 'M', 'S', 'G', ' '] + target@ + seq![' ', ':'] + msg@);
    fit_line(r.as_str())
}

/// Index of the first `c` in `s`, or the length.
pub open spec fn first_index(s: Seq<char>, c: char) -> nat
    decreases s.len(),
{
    if s.len() == 0 {
        0
    } else if s[0] == c {
        0
    } else {
        1 + first_index(s.drop_first(), c)
    }
}

/// The server name in the parameters of a 002 RPL_YOURHOST reply, whose text
/// reads `Your host is <servername>[<address>], running version <version>`:
/// the text from its fourteenth character up to the first `[`.
pub open spec fn servername(params: Seq<Seq<char>>) -> Option<Seq<char>> {
    if params.len() == 0 {
        None
    } else {
        let msg = if params.len() > 1 {
            params[1]
        } else {
            params[0]
        };
        if msg.len() < 13 {
            None
        } else {
            let s1 = msg.subrange(13, msg.len() as int);
            let k = first_index(s1, '[');
            if k >= s1.len() {
                None
            } else {
                Some(s1.subrange(0, k as int))
            }
        }
    }
}

/// Try to parse the server name in a 002 RPL_YOURHOST reply.
pub fn parse_servername(params: &Vec<String>) -> (r: Option<String>)
    ensures
        match r {
            Some(s) => servername(strings_view(params@)) == Some(s@),
            None => servername(strings_view(params@)) is None,
        },
{
    if params.len() == 0 {
        return None;
    }
    let msg: &str = if params.len() > 1 {
        params[1].as_str()
    } else {
        params[0].as_str()
    };
    let cs = to_chars(msg);
    let n = cs.len();
    if n < 13 {
        return None;
    }
    let mut j: usize = 13;
    assert(msg@.subrange(13, n as int).subrange(0, 0) =~= msg@.subrange(13, 13));
    while j < n && cs[j] != '['
        invariant
            n == cs@.len(),
            cs@ == msg@,
            13 <= j <= n,
            first_index(msg@.subrange(13, n as int), '[') == (j - 13) + first_index(msg@.subrange(j as int, n as int), '['),
        decreases n - j,
    {
        assert(msg@.subrange(j as int, n as int).drop_first() =~= msg@.subrange(j + 1, n as int));
        j = j + 1;
    }
    if j == n {
        return None;
    }
    let r = msg.substring_char(13, j);
    assert(r@ =~= msg@.subrange(13, n as int).subrange(0, j - 13));
    Some(r.to_owned())
}

/// A connection to one server.
pub struct Conn {
    serv_name: String,
    /// Nicks to try, the preferred first.
    nicks: Vec<String>,
    /// Index in `nicks` of the nick last tried.
    nick_idx: usize,
    /// Our nick: the one last tried or accepted.
    current_nick: String,
    /// Whether the server welcomed us under `current_nick`.
    nick_accepted: bool,
    username: String,
    realname: String,
    /// Server name for PINGs, from 002 RPL_YOURHOST.
    host: Option<String>,
    status: ConnStatus,
    /// Channels to join once welcomed.
    auto_join: Vec<String>,
    /// NickServ password, if any.
    nickserv_ident: Option<String>,
    /// Received bytes of a line not complete yet.
    buf: Vec<u8>,
}

/// The nick tried after `cur` was refused: the next one of the list, or
/// `cur` with an underscore once the list is used up.
pub open spec fn next_nick(nicks: Seq<Seq<char>>, idx: int, cur: Seq<char>) -> (int, Seq<char>) {
    if idx + 1 < nicks.len() {
        (idx + 1, nicks[idx + 1])
    } else {
        (idx, cur.push('_'))
    }
}

pub open spec fn join_lines(chans: Seq<Seq<char>>) -> Seq<Seq<char>> {
    chans.map_values(|c: Seq<char>| join_line(c))
}

impl Conn {
    pub closed spec fn serv_view(&self) -> Seq<char> { self.serv_name@ }
    pub closed spec fn nicks_view(&self) -> Seq<Seq<char>> { strings_view(self.nicks@) }
    pub closed spec fn nick_idx_view(&self) -> int { self.nick_idx as int }
    pub closed spec fn nick_view(&self) -> Seq<char> { self.current_nick@ }
    pub closed spec fn accepted(&self) -> bool { self.nick_accepted }
    pub closed spec fn user_view(&self) -> Seq<char> { self.username@ }
    pub closed spec fn realname_view(&self) -> Seq<char> { self.realname@ }
    pub closed spec fn host_view(&self) -> Option<Seq<char>> {
        match self.host {
            Some(h) => Some(h@),
            None => None,
        }
    }
    pub closed spec fn status_view(&self) -> ConnStatus { self.status }
    pub closed spec fn auto_join_view(&self) -> Seq<Seq<char>> { strings_view(self.auto_join@) }
    pub closed spec fn ident_view(&self) -> Option<Seq<char>> {
        match self.nickserv_ident {
            Some(h) => Some(h@),
            None => None,
        }
    }

    pub open spec fn wf(&self) -> bool {
        &&& self.nicks_view().len() > 0
        &&& 0 <= self.nick_idx_view() < self.nicks_view().len()
    }

    /// A connection that will introduce itself with the first nick of `nicks`.
    pub fn new(
        serv_name: &str,
        nicks: Vec<String>,
        username: &str,
        realname: &str,
        auto_join: Vec<String>,
        nickserv_ident: Option<String>,
    ) -> (r: Conn)
        requires
            nicks@.len() > 0,
        ensures
            r.wf(),
            r.serv_view() == serv_name@,
            r.nicks_view() == strings_view(nicks@),
            r.nick_idx_view() == 0,
            r.nick_view() == strings_view(nicks@)[0],
            !r.accepted(),
            r.host_view() is None,
            r.status_view() == ConnStatus::Introduce,
            r.auto_join_view() == strings_view(auto_join@),
            r.user_view() == username@,
            r.realname_view() == realname@,
    {
        let first = nicks[0].as_str().to_owned();
        Conn {
            serv_name: serv_name.to_owned(),
            nicks,
            nick_idx: 0,
            current_nick: first,
            nick_accepted: false,
            username: username.to_owned(),
            realname: realname.to_owned(),
            host: None,
            status: ConnStatus::Introduce,
            auto_join,
            nickserv_ident,
            buf: Vec::new(),
        }
    }

    pub fn get_serv_name(&self) -> (r: &str)
        ensures
            r@ == self.serv_view(),
    {
        self.serv_name.as_str()
    }

    pub fn get_nick(&self) -> (r: &str)
        ensures
            r@ == self.nick_view(),
    {
        self.current_nick.as_str()
    }

    pub fn is_nick_accepted(&self) -> (r: bool)
        ensures
            r == self.accepted(),
    {
        self.nick_accepted
    }

    pub fn get_status(&self) -> (r: ConnStatus)
        ensures
            r == self.status_view(),
    {
        self.status
    }

    /// Advances the timers by one tick: after `PING_TICKS` quiet ticks a PING
    /// goes out (when the server name is known), after `PONG_TICKS` more the
    /// connection counts as lost, and `RECONNECT_TICKS` later it is time to
    /// connect again.
    pub fn tick(&mut self, evs: &mut Vec<ConnEv>, out: &mut Vec<String>)
        requires
            old(self).wf(),
        ensures
            final(self).wf(),
            final(self).status_view() == tick_status(old(self).status_view()),
            final(self).nick_view() == old(self).nick_view(),
            final(self).accepted() == (old(self).accepted() && !(final(self).status_view() is Disconnected)
                && !(old(self).status_view() is Disconnected)),
            final(self).host_view() == old(self).host_view(),
            strings_view(final(out)@) == if (old(self).status_view() matches ConnStatus::PingPong { ticks_passed: t }
                && t + 1 >= PING_TICKS && old(self).host_view() is Some) {
                strings_view(old(out)@).push(ping_line(old(self).host_view()->0))
            } else {
                strings_view(old(out)@)
            },
            final(evs)@.len() == old(evs)@.len() + if (old(self).status_view() matches ConnStatus::WaitPong { ticks_passed: t } && t + 1 >= PONG_TICKS)
                || (old(self).status_view() matches ConnStatus::Disconnected { ticks_passed: t } && t + 1 >= RECONNECT_TICKS) {
                1int
            } else {
                0int
            },
            forall|i: int| 0 <= i < old(evs)@.len() ==> #[trigger] final(evs)@[i] == old(evs)@[i],
            (old(self).status_view() matches ConnStatus::WaitPong { ticks_passed: t } && t + 1 >= PONG_TICKS)
                ==> final(evs)@.last() is Disconnected,
            (old(self).status_view() matches ConnStatus::Disconnected { ticks_passed: t } && t + 1 >= RECONNECT_TICKS)
                ==> final(evs)@.last() is Reconnect,
    {
        match self.status {
            ConnStatus::Introduce => {},
            ConnStatus::PingPong { ticks_passed } => {
                if ticks_passed >= PING_TICKS - 1 {
                    if let Some(h) = &self.host {
                        let l = ping(h.as_str());
                        out.push(l);
                        assert(strings_view(out@) =~= strings_view(old(out)@).push(ping_line(self.host_view()->0)));
                    }
                    self.status = ConnStatus::WaitPong { ticks_passed: 0 };
                } else {
                    self.status = ConnStatus::PingPong { ticks_passed: ticks_passed + 1 };
                }
            },
            ConnStatus::WaitPong { ticks_passed } => {
                if ticks_passed >= PONG_TICKS - 1 {
                    evs.push(ConnEv::Disconnected);
                    self.status = ConnStatus::Disconnected { ticks_passed: 0 };
                    self.nick_accepted = false;
                } else {
                    self.status = ConnStatus::WaitPong { ticks_passed: ticks_passed + 1 };
                }
            },
            ConnStatus::Disconnected { ticks_passed } => {
                self.nick_accepted = false;
                if ticks_passed >= RECONNECT_TICKS - 1 {
                    evs.push(ConnEv::Reconnect);
                    self.status = ConnStatus::Introduce;
                } else {
                    self.status = ConnStatus::Disconnected { ticks_passed: ticks_passed + 1 };
                }
            },
        }
    }

    /// Any bytes from the server restart the ping timer.
    pub fn reset_ticks(&mut self)
        requires
            old(self).wf(),
        ensures
            final(self).wf(),
            final(self).status_view() == match old(self).status_view() {
                ConnStatus::PingPong { .. } => ConnStatus::PingPong { ticks_passed: 0 },
                ConnStatus::WaitPong { .. } => ConnStatus::PingPong { ticks_passed: 0 },
                s => s,
            },
            final(self).nick_view() == old(self).nick_view(),
            final(self).accepted() == old(self).accepted(),
            final(self).host_view() == old(self).host_view(),
            final(self).buf_view() == old(self).buf_view(),
    {
        match self.status {
            ConnStatus::PingPong { .. } | ConnStatus::WaitPong { .. } => {
                self.status = ConnStatus::PingPong { ticks_passed: 0 };
            },
            _ => {},
        }
    }

    /// The connection was lost: wait `RECONNECT_TICKS` ticks, then reconnect.
    pub fn disconnected(&mut self)
        requires
            old(self).wf(),
        ensures
            final(self).wf(),
            final(self).status_view() == (ConnStatus::Disconnected { ticks_passed: 0 }),
            !final(self).accepted(),
            final(self).nick_view() == old(self).nick_view(),
            final(self).buf_view() == old(self).buf_view(),
    {
        self.status = ConnStatus::Disconnected { ticks_passed: 0 };
        self.nick_accepted = false;
    }

    /// A new transport is up: introduce ourselves again with the first nick,
    /// with no bytes pending.
    pub fn reconnect(&mut self)
        requires
            old(self).wf(),
        ensures
            final(self).wf(),
            final(self).status_view() == ConnStatus::Introduce,
            !final(self).accepted(),
            final(self).nick_idx_view() == 0,
            final(self).nick_view() == final(self).nicks_view()[0],
            final(self).nicks_view() == old(self).nicks_view(),
            final(self).buf_view().len() == 0,
    {
        self.buf = Vec::new();
        self.status = ConnStatus::Introduce;
        self.nick_accepted = false;
        self.nick_idx = 0;
        self.current_nick = self.nicks[0].as_str().to_owned();
    }
}

pub open spec fn pong_part(m: MsgV) -> Seq<Seq<char>> {
    match m.1 {
        CmdV::Ping(s) => seq![pong_line(s)],
        _ => seq![],
    }
}

pub open spec fn is_nick_in_use(m: MsgV) -> bool {
    m.1 matches CmdV::Reply(n, _) && n == 433
}

pub open spec fn is_welcome(m: MsgV) -> bool {
    m.1 matches CmdV::Reply(n, _) && n == 1
}

/// A NICK message about `nick` itself (nicks compared without regard to
/// ASCII case).
pub open spec fn renames(m: MsgV, nick: Seq<char>) -> bool {
    m.0 matches Some(PfxV::User(n, _)) && eq_fold(n, nick) && m.1 is Nick
}

/// What handling message `m` does: connection `c0` becomes `c1`, the
/// outgoing lines `o0` become `o1`, the events `e0` become `e1`.
pub open spec fn msg_done(c0: Conn, c1: Conn, o0: Seq<Seq<char>>, o1: Seq<Seq<char>>, e0: Seq<ConnEv>, e1: Seq<ConnEv>, m: MsgV) -> bool {
    &&& o1 == o0 + pong_part(m) + c0.intro_part()
                + c0.retry_part(m) + c0.welcome_part(m)
    &&& c1.status_view() == if c0.status_view() == ConnStatus::Introduce {
                ConnStatus::PingPong { ticks_passed: 0 }
            } else {
                c0.status_view()
            }
    &&& c1.nick_view() == if is_nick_in_use(m) && !c0.accepted() {
                next_nick(c0.nicks_view(), c0.nick_idx_view(), c0.nick_view()).1
            } else if renames(m, c0.nick_view()) {
                m.1->Nick_0
            } else {
                c0.nick_view()
            }
    &&& c1.accepted() == (c0.accepted() || is_welcome(m))
    &&& c1.host_view() == if m.1 matches CmdV::Reply(n, ps) && n == 2 && servername(ps) is Some {
                servername(m.1->Reply_1)
            } else {
                c0.host_view()
            }
    &&& e1.len() == e0.len() + if renames(m, c0.nick_view()) { 2int } else { 1int }
    &&& forall|i: int| 0 <= i < e0.len() ==> #[trigger] e1[i] == e0[i]
    &&& e1.last() matches ConnEv::Msg(x) && x@ == m
    &&& renames(m, c0.nick_view()) ==> (e1[e0.len() as int] matches ConnEv::NickChange(n) && n@ == m.1->Nick_0)
    &&& c1.buf_view() == c0.buf_view()
    &&& c1.wf()
}

/// What handling a received line does (a malformed one changes nothing).
pub open spec fn line_done(c0: Conn, c1: Conn, o0: Seq<Seq<char>>, o1: Seq<Seq<char>>, e0: Seq<ConnEv>, e1: Seq<ConnEv>, l: Seq<char>) -> bool {
    match parse_line(l) {
        None => c1 == c0 && o1 == o0 && e1 == e0,
        Some(m) => msg_done(c0, c1, o0, o1, e0, e1, m),
    }
}

impl Conn {
    pub open spec fn intro_part(&self) -> Seq<Seq<char>> {
        if self.status_view() == ConnStatus::Introduce {
            seq![nick_line(self.nick_view()), user_line(self.user_view(), self.realname_view())]
        } else {
            seq![]
        }
    }

    pub open spec fn retry_part(&self, m: MsgV) -> Seq<Seq<char>> {
        if is_nick_in_use(m) && !self.accepted() {
            seq![nick_line(next_nick(self.nicks_view(), self.nick_idx_view(), self.nick_view()).1)]
        } else {
            seq![]
        }
    }

    pub open spec fn welcome_part(&self, m: MsgV) -> Seq<Seq<char>> {
        if is_welcome(m) {
            join_lines(self.auto_join_view()) + match self.ident_view() {
                Some(p) => seq![identify_line(p)],
                None => seq![],
            }
        } else {
            seq![]
        }
    }

    fn send_joins(&self, out: &mut Vec<String>)
        ensures
            strings_view(final(out)@) == strings_view(old(out)@) + join_lines(self.auto_join_view()),
    {
        let mut i: usize = 0;
        while i < self.auto_join.len()
            invariant
                i <= self.auto_join@.len(),
                strings_view(out@) == strings_view(old(out)@) + join_lines(strings_view(self.auto_join@).subrange(0, i as int)),
            decreases self.auto_join@.len() - i,
        {
            let l = join(self.auto_join[i].as_str());
            let ghost before = strings_view(out@);
            out.push(l);
            proof {
                assert(strings_view(out@) =~= before.push(l@));
                assert(join_lines(strings_view(self.auto_join@).subrange(0, i + 1)) =~= join_lines(strings_view(self.auto_join@).subrange(0, i as int)).push(l@));
                assert(strings_view(out@) =~= strings_view(old(out)@) + join_lines(strings_view(self.auto_join@).subrange(0, i + 1)));
            }
            i = i + 1;
        }
        assert(strings_view(self.auto_join@).subrange(0, i as int) =~= self.auto_join_view());
    }

    fn push_line(out: &mut Vec<String>, l: String)
        ensures
            strings_view(final(out)@) == strings_view(old(out)@).push(l@),
    {
        out.push(l);
        assert(strings_view(out@) =~= strings_view(old(out)@).push(l@));
    }

    /// Acts on a message from the server: answers PINGs, introduces us on
    /// the first message, tries the next nick while ours is refused, joins
    /// the configured channels and identifies once welcomed, learns the
    /// server name from 002, follows our own nick changes; then hands the
    /// message on.
    pub fn handle_msg(&mut self, msg: Msg, evs: &mut Vec<ConnEv>, out: &mut Vec<String>)
        requires
            old(self).wf(),
        ensures
            final(self).wf(),
            msg_done(*old(self), *final(self), strings_view(old(out)@), strings_view(final(out)@), old(evs)@, final(evs)@, msg@),
            final(self).buf_view() == old(self).buf_view(),
    {
        if let Cmd::Ping { server } = &msg.cmd {
            Self::push_line(out, pong(server.as_str()));
        }
        let ghost o1 = strings_view(out@);
        if self.status == ConnStatus::Introduce {
            Self::push_line(out, nick(self.current_nick.as_str()));
            Self::push_line(out, user(self.username.as_str(), self.realname.as_str()));
            self.status = ConnStatus::PingPong { ticks_passed: 0 };
        }
        let ghost o2 = strings_view(out@);
        let ghost pre = *self;
        match &msg.cmd {
            Cmd::Reply { num, params } => {
                if *num == 433 && !self.nick_accepted {
                    if self.nick_idx < self.nicks.len() - 1 {
                        self.nick_idx = self.nick_idx + 1;
                        self.current_nick = self.nicks[self.nick_idx].as_str().to_owned();
                    } else {
                        proof { reveal_strlit("_"); }
                        self.current_nick.append("_");
                        assert(self.current_nick@ =~= pre.nick_view().push('_'));
                    }
                    Self::push_line(out, nick(self.current_nick.as_str()));
                } else if *num == 1 {
                    self.nick_accepted = true;
                    self.send_joins(out);
                    if let Some(p) = &self.nickserv_ident {
                        proof {
                            reveal_strlit("NickServ");
                            reveal_strlit("IDENTIFY ");
                        }
                        let mut body = String::new();
                        body.append("IDENTIFY ");
                        body.append(p.as_str());
                        let l = privmsg("NickServ", body.as_str());
                        assert("NickServ"@ =~= seq!['N', 'i', 'c', 'k', 'S', 'e', 'r', 'v']);
                        assert(body@ =~= seq!['I', 'D', 'E', 'N', 'T', 'I', 'F', 'Y', ' '] + p@);
                        assert(l@ == identify_line(p@));
                        Self::push_line(out, l);
                    }
                } else if *num == 2 {
                    if let Some(h) = parse_servername(params) {
                        self.host = Some(h);
                    }
                }
            },
            _ => {},
        }
        proof {
            assert(strings_view(out@) =~= strings_view(old(out)@) + pong_part(msg@) + old(self).intro_part()
                + old(self).retry_part(msg@) + old(self).welcome_part(msg@));
        }
        if let Some(Pfx::User { nick: from, .. }) = &msg.pfx {
            if let Cmd::Nick { nick: new_nick } = &msg.cmd {
                if eq_ignore_case(from.as_str(), self.current_nick.as_str()) {
                    self.current_nick = new_nick.as_str().to_owned();
                    evs.push(ConnEv::NickChange(new_nick.as_str().to_owned()));
                }
            }
        }
        evs.push(ConnEv::Msg(msg));
    }

    /// Acts on one line received from the server (without its line ending);
    /// a malformed line is dropped.
    pub fn handle_line(&mut self, line: &str, evs: &mut Vec<ConnEv>, out: &mut Vec<String>)
        requires
            old(self).wf(),
        ensures
            final(self).wf(),
            line_done(*old(self), *final(self), strings_view(old(out)@), strings_view(final(out)@), old(evs)@, final(evs)@, line@),
    {
        match parse(line) {
            Some(m) => self.handle_msg(m, evs, out),
            None => {},
        }
    }
}

/// The text of received bytes, as `String::from_utf8_lossy` reads them.
pub uninterp spec fn lossy(b: Seq<u8>) -> Seq<char>;

/// Relies on `String::from_utf8_lossy`: the text depends on the bytes alone.
#[verifier::external_body]
fn decode_lossy(b: &[u8]) -> (r: String)
    ensures
        r@ == lossy(b@),
{
    String::from_utf8_lossy(b).into_owned()
}

/// A line without its line ending (`\n`, with a `\r` before it).
pub open spec fn strip_eol(s: Seq<char>) -> Seq<char> {
    let s1 = if s.len() > 0 && s.last() == '\n' { s.drop_last() } else { s };
    if s1.len() > 0 && s1.last() == '\r' { s1.drop_last() } else { s1 }
}

fn strip_eol_exec(s: &str) -> (r: &str)
    ensures
        r@ == strip_eol(s@),
{
    let n = s.unicode_len();
    let n1 = if n > 0 && s.get_char(n - 1) == '\n' { n - 1 } else { n };
    let n2 = if n1 > 0 && s.get_char(n1 - 1) == '\r' { n1 - 1 } else { n1 };
    let r = s.substring_char(0, n2);
    proof {
        let s1 = if s@.len() > 0 && s@.last() == '\n' { s@.drop_last() } else { s@ };
        assert(s1 =~= s@.subrange(0, n1 as int));
        assert(r@ =~= strip_eol(s@));
    }
    r
}

impl Conn {
    pub closed spec fn buf_view(&self) -> Seq<u8> {
        self.buf@
    }

    /// Takes in bytes read from the server: no bytes means the server closed
    /// the connection; otherwise the ping timer restarts and each line now
    /// complete is handled in order (see `handle_line`), the rest kept for
    /// later.
    pub fn read_incoming_msg(&mut self, bytes: &[u8], evs: &mut Vec<ConnEv>, out: &mut Vec<String>)
        requires
            old(self).wf(),
        ensures
            final(self).wf(),
            bytes@.len() == 0 ==> final(self).status_view() == (ConnStatus::Disconnected { ticks_passed: 0 })
                && !final(self).accepted() && final(self).nick_view() == old(self).nick_view()
                && final(self).buf_view() == old(self).buf_view()
                && final(evs)@ == old(evs)@.push(ConnEv::Disconnected) && final(out)@ == old(out)@,
            bytes@.len() > 0 ==> handled_all(*old(self), *final(self), strings_view(old(out)@), strings_view(final(out)@),
                old(evs)@, final(evs)@, bytes@),
    {
        if bytes.len() == 0 {
            self.disconnected();
            evs.push(ConnEv::Disconnected);
            assert(evs@ =~= old(evs)@.push(ConnEv::Disconnected));
            return;
        }
        self.reset_ticks();
        let mut buf = Vec::new();
        std::mem::swap(&mut buf, &mut self.buf);
        let ghost b0 = buf@;
        assert(b0 == old(self).buf_view());
        let lines = read_lines(&mut buf, bytes);
        self.buf = buf;
        proof {
            let ls0 = incoming_lines(old(self).buf_view(), bytes@);
            assert(bytes_view(lines@).len() == lines@.len());
            assert forall|k: int| 0 <= k < ls0.len() implies #[trigger] ls0[k] == strip_eol(lossy(lines@[k]@)) by {
                assert(bytes_view(lines@)[k] == lines@[k]@);
            }
        }
        let ghost c0 = *self;
        let ghost mut cs: Seq<Conn> = seq![*self];
        let ghost mut os: Seq<Seq<Seq<char>>> = seq![strings_view(out@)];
        let ghost mut es: Seq<Seq<ConnEv>> = seq![evs@];
        let ghost ls = incoming_lines(old(self).buf_view(), bytes@);
        let mut i: usize = 0;
        while i < lines.len()
            invariant
                self.wf(),
                i <= lines@.len(),
                lines@.len() == ls.len(),
                forall|k: int| 0 <= k < ls.len() ==> #[trigger] ls[k] == strip_eol(lossy(lines@[k]@)),
                cs.len() == i + 1 && os.len() == i + 1 && es.len() == i + 1,
                cs[0] == c0 && os[0] == strings_view(old(out)@) && es[0] == old(evs)@,
                cs.last() == *self && os.last() == strings_view(out@) && es.last() == evs@,
                forall|k: int| 0 <= k < i ==> line_done(cs[k], cs[k + 1], os[k], os[k + 1], es[k], es[k + 1], #[trigger] ls[k]),
            decreases lines@.len() - i,
        {
            let text = decode_lossy(lines[i].as_slice());
            let l = strip_eol_exec(text.as_str());
            self.handle_line(l, evs, out);
            proof {
                cs = cs.push(*self);
                os = os.push(strings_view(out@));
                es = es.push(evs@);
                assert forall|k: int| 0 <= k < i + 1 implies line_done(cs[k], cs[k + 1], os[k], os[k + 1], es[k], es[k + 1], #[trigger] ls[k]) by {
                    if k == i {
                        assert(ls[k] == l@);
                    }
                }
            }
            i = i + 1;
        }
        proof {
            assert(conn_reset(*old(self), c0, incoming_buf(old(self).buf_view(), bytes@)));
            assert(handled_all(*old(self), *self, strings_view(old(out)@), strings_view(out@), old(evs)@, evs@, bytes@)) by {
                assert(folded(cs, os, es, ls));
            }
        }
    }
}

/// The text of each line that `bytes` complete, pending bytes `buf`.
pub open spec fn incoming_lines(buf: Seq<u8>, bytes: Seq<u8>) -> Seq<Seq<char>> {
    frame_step(buf, bytes).0.map_values(|l: Seq<u8>| strip_eol(lossy(clean_line(l))))
}

/// The bytes left pending.
pub open spec fn incoming_buf(buf: Seq<u8>, bytes: Seq<u8>) -> Seq<u8> {
    frame_step(buf, bytes).1
}

/// `c1` is `c0` after bytes came in: the ping timer restarted and the
/// pending bytes are `buf`.
pub open spec fn conn_reset(c0: Conn, c1: Conn, buf: Seq<u8>) -> bool {
    &&& c1.wf()
    &&& c1.status_view() == match c0.status_view() {
        ConnStatus::PingPong { .. } => ConnStatus::PingPong { ticks_passed: 0 },
        ConnStatus::WaitPong { .. } => ConnStatus::PingPong { ticks_passed: 0 },
        s => s,
    }
    &&& c1.nick_view() == c0.nick_view()
    &&& c1.accepted() == c0.accepted()
    &&& c1.host_view() == c0.host_view()
    &&& c1.buf_view() == buf
}

/// The lines `ls` were handled one after another, through the states `cs`,
/// outgoing lines `os` and events `es`.
pub open spec fn folded(cs: Seq<Conn>, os: Seq<Seq<Seq<char>>>, es: Seq<Seq<ConnEv>>, ls: Seq<Seq<char>>) -> bool {
    &&& cs.len() == ls.len() + 1 && os.len() == ls.len() + 1 && es.len() == ls.len() + 1
    &&& forall|k: int| 0 <= k < ls.len() ==> line_done(cs[k], cs[k + 1], os[k], os[k + 1], es[k], es[k + 1], #[trigger] ls[k])
}

/// What taking in non-empty `bytes` does: the timer restarts, the pending
/// bytes become the rest after the complete lines, and the text of each
/// complete line is handled in order.
pub open spec fn handled_all(c0: Conn, c1: Conn, o0: Seq<Seq<char>>, o1: Seq<Seq<char>>, e0: Seq<ConnEv>, e1: Seq<ConnEv>, bytes: Seq<u8>) -> bool {
    exists|cs: Seq<Conn>, os: Seq<Seq<Seq<char>>>, es: Seq<Seq<ConnEv>>|
        folded(cs, os, es, incoming_lines(c0.buf_view(), bytes))
            && conn_reset(c0, cs[0], incoming_buf(c0.buf_view(), bytes))
            && os[0] == o0 && es[0] == e0 && cs.last() == c1 && os.last() == o1 && es.last() == e1
}

} // verus!
