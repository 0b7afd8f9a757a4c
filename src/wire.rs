//! The IRC wire codec: framing of a byte stream into lines, parsing of a line
//! into a message, and the message's canonical line.

use vstd::prelude::*;
use vstd::string::*;
use crate::text::to_chars;

verus! {

/// Index of the first space in `s`, or its length if it has none.
pub open spec fn first_space(s: Seq<char>) -> nat
    decreases s.len(),
{
    if s.len() == 0 {
        0
    } else if s[0] == ' ' {
        0
    } else {
        1 + first_space(s.drop_first())
    }
}

pub open spec fn has_space(s: Seq<char>) -> bool {
    exists|i: int| 0 <= i < s.len() && s[i] == ' '
}

/// A parameter that can stand before the last one: not empty, no space, and
/// no leading colon.
pub open spec fn middle_ok(p: Seq<char>) -> bool {
    p.len() > 0 && !has_space(p) && p[0] != ':'
}

/// Parameters after a command word: each starts after a space; one that
/// starts with a colon takes the rest of the line.
pub open spec fn parse_params(r: Seq<char>) -> Seq<Seq<char>>
    decreases r.len(),
{
    if r.len() == 0 {
        seq![]
    } else {
        let t = r.drop_first();
        if t.len() > 0 && t[0] == ':' {
            seq![t.drop_first()]
        } else {
            let k = if first_space(t) <= t.len() {
                first_space(t) as int
            } else {
                t.len() as int
            };
            seq![t.subrange(0, k)] + parse_params(t.subrange(k, t.len() as int))
        }
    }
}

/// Parameters as sent: the last one always as a trailing parameter.
pub open spec fn ser_params(ps: Seq<Seq<char>>) -> Seq<char>
    decreases ps.len(),
{
    if ps.len() == 0 {
        seq![]
    } else if ps.len() == 1 {
        seq![' ', ':'] + ps[0]
    } else {
        seq![' '] + ps[0] + ser_params(ps.drop_first())
    }
}

pub open spec fn params_ok(ps: Seq<Seq<char>>) -> bool {
    forall|i: int| 0 <= i < ps.len() - 1 ==> middle_ok(#[trigger] ps[i])
}

proof fn lemma_first_space_no_space(s: Seq<char>)
    requires
        !has_space(s),
    ensures
        first_space(s) == s.len(),
    decreases s.len(),
{
    if s.len() > 0 {
        assert(s[0] != ' ');
        assert(!has_space(s.drop_first())) by {
            if has_space(s.drop_first()) {
                let i = choose|i: int| 0 <= i < s.drop_first().len() && s.drop_first()[i] == ' ';
                assert(s[i + 1] == ' ');
            }
        }
        lemma_first_space_no_space(s.drop_first());
    }
}

proof fn lemma_first_space_concat(a: Seq<char>, b: Seq<char>)
    requires
        !has_space(a),
        b.len() == 0 || b[0] == ' ',
    ensures
        first_space(a + b) == a.len(),
    decreases a.len(),
{
    if a.len() == 0 {
        assert(a + b =~= b);
        if b.len() > 0 {
            assert(b[0] == ' ');
        }
    } else {
        assert(a[0] != ' ');
        assert((a + b).drop_first() =~= a.drop_first() + b);
        assert(!has_space(a.drop_first())) by {
            if has_space(a.drop_first()) {
                let i = choose|i: int| 0 <= i < a.drop_first().len() && a.drop_first()[i] == ' ';
                assert(a[i + 1] == ' ');
            }
        }
        lemma_first_space_concat(a.drop_first(), b);
    }
}

proof fn lemma_ser_params_start(ps: Seq<Seq<char>>)
    ensures
        ser_params(ps).len() == 0 || ser_params(ps)[0] == ' ',
        ps.len() > 0 ==> ser_params(ps).len() > 0,
{
}

/// Parameters come back from their serialization.
pub proof fn lemma_params_round_trip(ps: Seq<Seq<char>>)
    requires
        params_ok(ps),
    ensures
        parse_params(ser_params(ps)) == ps,
    decreases ps.len(),
{
    if ps.len() == 0 {
    } else if ps.len() == 1 {
        let r = seq![' ', ':'] + ps[0];
        assert(r.drop_first() =~= seq![':'] + ps[0]);
        assert((seq![':'] + ps[0]).drop_first() =~= ps[0]);
        assert(parse_params(r) =~= seq![ps[0]]);
        assert(seq![ps[0]] =~= ps);
    } else {
        let rest = ps.drop_first();
        assert(params_ok(rest)) by {
            assert forall|i: int| 0 <= i < rest.len() - 1 implies middle_ok(#[trigger] rest[i]) by {
                assert(rest[i] == ps[i + 1]);
            }
        }
        lemma_params_round_trip(rest);
        let r = seq![' '] + ps[0] + ser_params(rest);
        let t = ps[0] + ser_params(rest);
        assert(r.drop_first() =~= t);
        assert(middle_ok(ps[0]));
        assert(t[0] == ps[0][0]);
        lemma_ser_params_start(rest);
        lemma_first_space_concat(ps[0], ser_params(rest));
        assert(t.subrange(0, ps[0].len() as int) =~= ps[0]);
        assert(t.subrange(ps[0].len() as int, t.len() as int) =~= ser_params(rest));
        assert(parse_params(r) == seq![ps[0]] + parse_params(ser_params(rest)));
        assert(seq![ps[0]] + rest =~= ps);
    }
}

/// Where a message came from.
pub enum Pfx {
    /// A server name: no `!` nor `@` in it.
    Server(String),
    /// A user: the nick, then the rest from the first `!` or `@` on
    /// (`!user@host`, `@host`).
    User { nick: String, user: String },
}

/// A message's command and parameters.
#[allow(inconsistent_fields)]
pub enum Cmd {
    /// PRIVMSG, or NOTICE when `is_notice`.
    Privmsg { target: String, msg: String, is_notice: bool },
    Join { chan: String },
    Part { chan: String, msg: Option<String> },
    Quit { msg: Option<String> },
    Nick { nick: String },
    Ping { server: String },
    Pong { server: String },
    Error { msg: String },
    Topic { chan: String, topic: String },
    /// CAP with the client, the subcommand and the space-separated capabilities.
    Cap { client: String, subcommand: String, params: String },
    Authenticate { param: String },
    /// A three-digit numeric reply.
    Reply { num: u16, params: Vec<String> },
    /// Any other command, or a known one with other parameters.
    Other { cmd: String, params: Vec<String> },
}

pub struct Msg {
    pub pfx: Option<Pfx>,
    pub cmd: Cmd,
}

/// A prefix, as seen in contracts.
pub enum PfxV {
    Server(Seq<char>),
    User(Seq<char>, Seq<char>),
}

/// A command, as seen in contracts.
pub enum CmdV {
    Privmsg(Seq<char>, Seq<char>, bool),
    Join(Seq<char>),
    Part(Seq<char>, Option<Seq<char>>),
    Quit(Option<Seq<char>>),
    Nick(Seq<char>),
    Ping(Seq<char>),
    Pong(Seq<char>),
    Error(Seq<char>),
    Topic(Seq<char>, Seq<char>),
    Cap(Seq<char>, Seq<char>, Seq<char>),
    Authenticate(Seq<char>),
    Reply(int, Seq<Seq<char>>),
    Other(Seq<char>, Seq<Seq<char>>),
}

pub type MsgV = (Option<PfxV>, CmdV);

pub open spec fn opt_view(o: Option<String>) -> Option<Seq<char>> {
    match o {
        Some(s) => Some(s@),
        None => None,
    }
}

pub open spec fn strings_view(v: Seq<String>) -> Seq<Seq<char>> {
    v.map_values(|s: String| s@)
}

impl View for Pfx {
    type V = PfxV;

    open spec fn view(&self) -> PfxV {
        match self {
            Pfx::Server(s) => PfxV::Server(s@),
            Pfx::User { nick, user } => PfxV::User(nick@, user@),
        }
    }
}

impl View for Cmd {
    type V = CmdV;

    open spec fn view(&self) -> CmdV {
        match self {
            Cmd::Privmsg { target, msg, is_notice } => CmdV::Privmsg(target@, msg@, *is_notice),
            Cmd::Join { chan } => CmdV::Join(chan@),
            Cmd::Part { chan, msg } => CmdV::Part(chan@, opt_view(*msg)),
            Cmd::Quit { msg } => CmdV::Quit(opt_view(*msg)),
            Cmd::Nick { nick } => CmdV::Nick(nick@),
            Cmd::Ping { server } => CmdV::Ping(server@),
            Cmd::Pong { server } => CmdV::Pong(server@),
            Cmd::Error { msg } => CmdV::Error(msg@),
            Cmd::Topic { chan, topic } => CmdV::Topic(chan@, topic@),
            Cmd::Cap { client, subcommand, params } => CmdV::Cap(client@, subcommand@, params@),
            Cmd::Authenticate { param } => CmdV::Authenticate(param@),
            Cmd::Reply { num, params } => CmdV::Reply(*num as int, strings_view(params@)),
            Cmd::Other { cmd, params } => CmdV::Other(cmd@, strings_view(params@)),
        }
    }
}

pub open spec fn pfx_view(p: Option<Pfx>) -> Option<PfxV> {
    match p {
        Some(p) => Some(p@),
        None => None,
    }
}

impl View for Msg {
    type V = MsgV;

    open spec fn view(&self) -> MsgV {
        (pfx_view(self.pfx), self.cmd@)
    }
}

pub open spec fn upper_char(c: char) -> char {
    if 'a' <= c && c <= 'z' {
        (((c as u8) - 32) as u8) as char
    } else {
        c
    }
}

/// ASCII upper-casing: commands are matched without regard to case.
pub open spec fn upper(s: Seq<char>) -> Seq<char> {
    Seq::new(s.len(), |i: int| upper_char(s[i]))
}

pub open spec fn w_privmsg() -> Seq<char> { seq!['P', 'R', 'I', 'V', 'M', 'S', 'G'] }
pub open spec fn w_notice() -> Seq<char> { seq!['N', 'O', 'T', 'I', 'C', 'E'] }
pub open spec fn w_join() -> Seq<char> { seq!['J', 'O', 'I', 'N'] }
pub open spec fn w_part() -> Seq<char> { seq!['P', 'A', 'R', 'T'] }
pub open spec fn w_quit() -> Seq<char> { seq!['Q', 'U', 'I', 'T'] }
pub open spec fn w_nick() -> Seq<char> { seq!['N', 'I', 'C', 'K'] }
pub open spec fn w_ping() -> Seq<char> { seq!['P', 'I', 'N', 'G'] }
pub open spec fn w_pong() -> Seq<char> { seq!['P', 'O', 'N', 'G'] }
pub open spec fn w_error() -> Seq<char> { seq!['E', 'R', 'R', 'O', 'R'] }
pub open spec fn w_topic() -> Seq<char> { seq!['T', 'O', 'P', 'I', 'C'] }
pub open spec fn w_cap() -> Seq<char> { seq!['C', 'A', 'P'] }
pub open spec fn w_authenticate() -> Seq<char> {
    seq!['A', 'U', 'T', 'H', 'E', 'N', 'T', 'I', 'C', 'A', 'T', 'E']
}

pub open spec fn is_digit(c: char) -> bool {
    '0' <= c && c <= '9'
}

pub open spec fn digit_val(c: char) -> int {
    (c as int) - ('0' as int)
}

pub open spec fn is_reply_word(w: Seq<char>) -> bool {
    w.len() == 3 && is_digit(w[0]) && is_digit(w[1]) && is_digit(w[2])
}

pub open spec fn reply_num(w: Seq<char>) -> int {
    digit_val(w[0]) * 100 + digit_val(w[1]) * 10 + digit_val(w[2])
}

pub open spec fn digit_char(d: int) -> char {
    ((d + ('0' as int)) as u8) as char
}

/// A reply number as three digits.
pub open spec fn reply_word(n: int) -> Seq<char> {
    seq![digit_char(n / 100), digit_char((n / 10) % 10), digit_char(n % 10)]
}

/// The command that a word and parameters make.
pub open spec fn to_cmd(w: Seq<char>, ps: Seq<Seq<char>>) -> CmdV {
    let u = upper(w);
    if u == w_privmsg() && ps.len() == 2 {
        CmdV::Privmsg(ps[0], ps[1], false)
    } else if u == w_notice() && ps.len() == 2 {
        CmdV::Privmsg(ps[0], ps[1], true)
    } else if u == w_join() && ps.len() == 1 {
        CmdV::Join(ps[0])
    } else if u == w_part() && ps.len() == 1 {
        CmdV::Part(ps[0], None)
    } else if u == w_part() && ps.len() == 2 {
        CmdV::Part(ps[0], Some(ps[1]))
    } else if u == w_quit() && ps.len() == 0 {
        CmdV::Quit(None)
    } else if u == w_quit() && ps.len() == 1 {
        CmdV::Quit(Some(ps[0]))
    } else if u == w_nick() && ps.len() == 1 {
        CmdV::Nick(ps[0])
    } else if u == w_ping() && ps.len() == 1 {
        CmdV::Ping(ps[0])
    } else if u == w_pong() && ps.len() == 1 {
        CmdV::Pong(ps[0])
    } else if u == w_error() && ps.len() == 1 {
        CmdV::Error(ps[0])
    } else if u == w_topic() && ps.len() == 2 {
        CmdV::Topic(ps[0], ps[1])
    } else if u == w_cap() && ps.len() == 3 {
        CmdV::Cap(ps[0], ps[1], ps[2])
    } else if u == w_authenticate() && ps.len() == 1 {
        CmdV::Authenticate(ps[0])
    } else if is_reply_word(w) {
        CmdV::Reply(reply_num(w), ps)
    } else {
        CmdV::Other(w, ps)
    }
}

/// The word a command is sent with.
pub open spec fn cmd_word(c: CmdV) -> Seq<char> {
    match c {
        CmdV::Privmsg(_, _, n) => if n { w_notice() } else { w_privmsg() },
        CmdV::Join(_) => w_join(),
        CmdV::Part(_, _) => w_part(),
        CmdV::Quit(_) => w_quit(),
        CmdV::Nick(_) => w_nick(),
        CmdV::Ping(_) => w_ping(),
        CmdV::Pong(_) => w_pong(),
        CmdV::Error(_) => w_error(),
        CmdV::Topic(_, _) => w_topic(),
        CmdV::Cap(_, _, _) => w_cap(),
        CmdV::Authenticate(_) => w_authenticate(),
        CmdV::Reply(n, _) => reply_word(n),
        CmdV::Other(w, _) => w,
    }
}

/// The parameters a command is sent with.
pub open spec fn cmd_params(c: CmdV) -> Seq<Seq<char>> {
    match c {
        CmdV::Privmsg(t, m, _) => seq![t, m],
        CmdV::Join(c) => seq![c],
        CmdV::Part(c, m) => match m {
            Some(m) => seq![c, m],
            None => seq![c],
        },
        CmdV::Quit(m) => match m {
            Some(m) => seq![m],
            None => seq![],
        },
        CmdV::Nick(n) => seq![n],
        CmdV::Ping(s) => seq![s],
        CmdV::Pong(s) => seq![s],
        CmdV::Error(m) => seq![m],
        CmdV::Topic(c, t) => seq![c, t],
        CmdV::Cap(c, s, p) => seq![c, s, p],
        CmdV::Authenticate(p) => seq![p],
        CmdV::Reply(_, ps) => ps,
        CmdV::Other(_, ps) => ps,
    }
}

pub open spec fn is_sep(c: char) -> bool {
    c == '!' || c == '@'
}

/// Index of the first `!` or `@`, or the length.
pub open spec fn first_sep(s: Seq<char>) -> nat
    decreases s.len(),
{
    if s.len() == 0 {
        0
    } else if is_sep(s[0]) {
        0
    } else {
        1 + first_sep(s.drop_first())
    }
}

pub open spec fn parse_pfx(p: Seq<char>) -> PfxV {
    let k = first_sep(p);
    if k >= p.len() {
        PfxV::Server(p)
    } else {
        PfxV::User(p.subrange(0, k as int), p.subrange(k as int, p.len() as int))
    }
}

pub open spec fn ser_pfx(p: PfxV) -> Seq<char> {
    match p {
        PfxV::Server(s) => s,
        PfxV::User(n, u) => n + u,
    }
}

pub open spec fn split_at_space(s: Seq<char>) -> (Seq<char>, Seq<char>) {
    let k = if first_space(s) <= s.len() {
        first_space(s) as int
    } else {
        s.len() as int
    };
    (s.subrange(0, k), s.subrange(k, s.len() as int))
}

pub open spec fn parse_body(pfx: Option<PfxV>, rest: Seq<char>) -> Option<MsgV> {
    let (w, ps) = split_at_space(rest);
    if w.len() == 0 {
        None
    } else {
        Some((pfx, to_cmd(w, parse_params(ps))))
    }
}

/// A line (without its line ending) as a message; `None` for a malformed one.
pub open spec fn parse_line(l: Seq<char>) -> Option<MsgV> {
    if l.len() > 0 && l[0] == ':' {
        let b = l.drop_first();
        let (p, rest) = split_at_space(b);
        if rest.len() == 0 {
            None
        } else {
            parse_body(Some(parse_pfx(p)), rest.drop_first())
        }
    } else {
        parse_body(None, l)
    }
}

/// The canonical line of a message, without line ending.
pub open spec fn ser_line(m: MsgV) -> Seq<char> {
    let body = cmd_word(m.1) + ser_params(cmd_params(m.1));
    match m.0 {
        Some(p) => seq![':'] + ser_pfx(p) + seq![' '] + body,
        None => body,
    }
}

pub open spec fn has_sep(s: Seq<char>) -> bool {
    exists|i: int| 0 <= i < s.len() && is_sep(s[i])
}

pub open spec fn pfx_ok(p: PfxV) -> bool {
    match p {
        PfxV::Server(s) => !has_space(s) && !has_sep(s),
        PfxV::User(n, u) => !has_space(n) && !has_sep(n) && !has_space(u) && u.len() > 0 && is_sep(u[0]),
    }
}

/// A message that its canonical line stands for: prefix without spaces,
/// parameters before the last one without spaces, and an `Other` command
/// that no known command or reply claims.
pub open spec fn msg_ok(m: MsgV) -> bool {
    &&& m.0 matches Some(p) ==> pfx_ok(p)
    &&& params_ok(cmd_params(m.1))
    &&& m.1 matches CmdV::Reply(n, _) ==> 0 <= n < 1000
    &&& m.1 matches CmdV::Other(w, ps) ==> w.len() > 0 && !has_space(w) && w[0] != ':' && to_cmd(w, ps) == m.1
}

proof fn lemma_upper_words()
    ensures
        upper(w_privmsg()) == w_privmsg(),
        upper(w_notice()) == w_notice(),
        upper(w_join()) == w_join(),
        upper(w_part()) == w_part(),
        upper(w_quit()) == w_quit(),
        upper(w_nick()) == w_nick(),
        upper(w_ping()) == w_ping(),
        upper(w_pong()) == w_pong(),
        upper(w_error()) == w_error(),
        upper(w_topic()) == w_topic(),
        upper(w_cap()) == w_cap(),
        upper(w_authenticate()) == w_authenticate(),
{
    assert(upper(w_privmsg()) =~= w_privmsg());
    assert(upper(w_notice()) =~= w_notice());
    assert(upper(w_join()) =~= w_join());
    assert(upper(w_part()) =~= w_part());
    assert(upper(w_quit()) =~= w_quit());
    assert(upper(w_nick()) =~= w_nick());
    assert(upper(w_ping()) =~= w_ping());
    assert(upper(w_pong()) =~= w_pong());
    assert(upper(w_error()) =~= w_error());
    assert(upper(w_topic()) =~= w_topic());
    assert(upper(w_cap()) =~= w_cap());
    assert(upper(w_authenticate()) =~= w_authenticate());
}

proof fn lemma_reply_word(n: int)
    requires
        0 <= n < 1000,
    ensures
        is_reply_word(reply_word(n)),
        reply_num(reply_word(n)) == n,
        upper(reply_word(n)) == reply_word(n),
        !has_space(reply_word(n)),
        reply_word(n)[0] != ':',
{
    let w = reply_word(n);
    assert(0 <= n / 100 < 10) by (nonlinear_arith) requires 0 <= n < 1000;
    assert(0 <= (n / 10) % 10 < 10) by (nonlinear_arith) requires 0 <= n < 1000;
    assert(0 <= n % 10 < 10) by (nonlinear_arith) requires 0 <= n < 1000;
    assert(digit_val(w[0]) == n / 100);
    assert(digit_val(w[1]) == (n / 10) % 10);
    assert(digit_val(w[2]) == n % 10);
    assert((n / 100) * 100 + ((n / 10) % 10) * 10 + n % 10 == n) by (nonlinear_arith)
        requires 0 <= n < 1000;
    assert(upper(w) =~= w);
}

/// A known command comes back from its word and parameters.
proof fn lemma_cmd_round_trip(c: CmdV)
    requires
        c matches CmdV::Reply(n, _) ==> 0 <= n < 1000,
        c matches CmdV::Other(w, ps) ==> to_cmd(w, ps) == c,
    ensures
        to_cmd(cmd_word(c), cmd_params(c)) == c,
{
    lemma_upper_words();
    match c {
        CmdV::Reply(n, ps) => {
            lemma_reply_word(n);
            let w = reply_word(n);
            assert(w != w_privmsg() && w != w_notice() && w != w_join() && w != w_part() && w != w_quit() && w != w_nick() && w != w_ping() && w != w_pong() && w != w_error() && w != w_topic() && w != w_authenticate());
            assert(w != w_cap()) by {
                assert(w[0] != w_cap()[0]);
            }
        },
        CmdV::Part(ch, m) => {
            assert(w_part() != w_privmsg() && w_part() != w_notice());
            assert(w_part()[0] != w_join()[0]);
        },
        CmdV::Quit(m) => {
            assert(w_quit()[0] != w_join()[0] && w_quit()[0] != w_part()[0]);
        },
        CmdV::Nick(_) => {
            assert(w_nick()[0] != w_join()[0] && w_nick()[0] != w_part()[0] && w_nick()[0] != w_quit()[0]);
        },
        CmdV::Ping(_) => {
            assert(w_ping()[0] != w_join()[0] && w_ping()[1] != w_part()[1] && w_ping()[0] != w_quit()[0] && w_ping()[0] != w_nick()[0]);
        },
        CmdV::Pong(_) => {
            assert(w_pong()[0] != w_join()[0] && w_pong()[1] != w_part()[1] && w_pong()[0] != w_quit()[0] && w_pong()[0] != w_nick()[0] && w_pong()[1] != w_ping()[1]);
        },
        CmdV::Error(_) => {
        },
        CmdV::Topic(_, _) => {
            assert(w_topic()[0] != w_error()[0]);
        },
        CmdV::Cap(_, _, _) => {
        },
        CmdV::Authenticate(_) => {
        },
        _ => {},
    }
}

proof fn lemma_no_space_words(c: CmdV)
    requires
        c matches CmdV::Reply(n, _) ==> 0 <= n < 1000,
        c matches CmdV::Other(w, _) ==> w.len() > 0 && !has_space(w) && w[0] != ':',
    ensures
        !has_space(cmd_word(c)),
        cmd_word(c).len() > 0,
        cmd_word(c)[0] != ':',
{
    match c {
        CmdV::Reply(n, _) => {
            lemma_reply_word(n);
        },
        CmdV::Other(_, _) => {},
        _ => {
            let w = cmd_word(c);
            assert forall|i: int| 0 <= i < w.len() implies w[i] != ' ' by {}
        },
    }
}

proof fn lemma_first_sep_concat(a: Seq<char>, b: Seq<char>)
    requires
        !has_sep(a),
        b.len() > 0 && is_sep(b[0]),
    ensures
        first_sep(a + b) == a.len(),
    decreases a.len(),
{
    if a.len() == 0 {
        assert(a + b =~= b);
    } else {
        assert(!is_sep(a[0]));
        assert((a + b).drop_first() =~= a.drop_first() + b);
        assert(!has_sep(a.drop_first())) by {
            if has_sep(a.drop_first()) {
                let i = choose|i: int| 0 <= i < a.drop_first().len() && is_sep(a.drop_first()[i]);
                assert(a[i + 1] == a.drop_first()[i]);
            }
        }
        lemma_first_sep_concat(a.drop_first(), b);
    }
}

proof fn lemma_first_sep_none(a: Seq<char>)
    requires
        !has_sep(a),
    ensures
        first_sep(a) == a.len(),
    decreases a.len(),
{
    if a.len() > 0 {
        assert(!is_sep(a[0]));
        assert(!has_sep(a.drop_first())) by {
            if has_sep(a.drop_first()) {
                let i = choose|i: int| 0 <= i < a.drop_first().len() && is_sep(a.drop_first()[i]);
                assert(a[i + 1] == a.drop_first()[i]);
            }
        }
        lemma_first_sep_none(a.drop_first());
    }
}

proof fn lemma_no_space_concat(a: Seq<char>, b: Seq<char>)
    requires
        !has_space(a),
        !has_space(b),
    ensures
        !has_space(a + b),
{
    if has_space(a + b) {
        let i = choose|i: int| 0 <= i < (a + b).len() && (a + b)[i] == ' ';
        if i < a.len() {
            assert(a[i] == ' ');
        } else {
            assert(b[i - a.len()] == ' ');
        }
    }
}

/// Round trip: a message's canonical line parses back to the message.
pub proof fn lemma_round_trip(m: MsgV)
    requires
        msg_ok(m),
    ensures
        parse_line(ser_line(m)) == Some(m),
{
    let w = cmd_word(m.1);
    let ps = cmd_params(m.1);
    let sp = ser_params(ps);
    let body = w + sp;
    lemma_cmd_round_trip(m.1);
    lemma_no_space_words(m.1);
    lemma_params_round_trip(ps);
    lemma_ser_params_start(ps);
    lemma_first_space_concat(w, sp);
    assert(split_at_space(body).0 =~= w);
    assert(split_at_space(body).1 =~= sp);
    assert(parse_body(m.0, body) == Some(m));
    match m.0 {
        None => {
            assert(ser_line(m) == body);
            assert(body[0] == w[0]);
        },
        Some(p) => {
            let ps_ = ser_pfx(p);
            let l = seq![':'] + ps_ + seq![' '] + body;
            assert(ser_line(m) == l);
            let b = l.drop_first();
            assert(b =~= ps_ + (seq![' '] + body));
            assert(!has_space(ps_)) by {
                if let PfxV::User(n, u) = p {
                    lemma_no_space_concat(n, u);
                }
            }
            lemma_first_space_concat(ps_, seq![' '] + body);
            assert(split_at_space(b).0 =~= ps_);
            assert(split_at_space(b).1 =~= seq![' '] + body);
            assert((seq![' '] + body).drop_first() =~= body);
            match p {
                PfxV::Server(s) => {
                    lemma_first_sep_none(s);
                },
                PfxV::User(n, u) => {
                    lemma_first_sep_concat(n, u);
                    assert((n + u).subrange(0, n.len() as int) =~= n);
                    assert((n + u).subrange(n.len() as int, (n + u).len() as int) =~= u);
                },
            }
            assert(parse_pfx(ps_) == p);
        },
    }
}

/// Index of the first space at or after `i`, or the length.
fn first_space_from(cs: &Vec<char>, i: usize) -> (r: usize)
    requires
        i <= cs@.len(),
    ensures
        i <= r <= cs@.len(),
        r == i + first_space(cs@.subrange(i as int, cs@.len() as int)),
        r < cs@.len() ==> cs@[r as int] == ' ',
{
    let n = cs.len();
    let mut j = i;
    while j < n && cs[j] != ' '
        invariant
            n == cs@.len(),
            i <= j <= n,
            first_space(cs@.subrange(i as int, n as int)) == (j - i) + first_space(cs@.subrange(j as int, n as int)),
        decreases n - j,
    {
        assert(cs@.subrange(j as int, n as int).drop_first() =~= cs@.subrange(j + 1, n as int));
        j = j + 1;
    }
    j
}

/// Upper-cases the ASCII letters of a string.
fn upper_chars(s: &str) -> (r: Vec<char>)
    ensures
        r@ == upper(s@),
{
    let cs = to_chars(s);
    let mut r: Vec<char> = Vec::new();
    let mut i: usize = 0;
    while i < cs.len()
        invariant
            cs@ == s@,
            i <= cs@.len(),
            r@ == upper(s@).subrange(0, i as int),
        decreases cs@.len() - i,
    {
        let c = cs[i];
        let u = if 'a' <= c && c <= 'z' {
            ((c as u8) - 32) as char
        } else {
            c
        };
        r.push(u);
        i = i + 1;
    }
    assert(r@ =~= upper(s@));
    r
}

/// Whether the characters `u` spell the literal `lit`.
fn word_is(u: &Vec<char>, lit: &str) -> (r: bool)
    ensures
        r == (u@ == lit@),
{
    let l = to_chars(lit);
    if u.len() != l.len() {
        return false;
    }
    let mut i: usize = 0;
    while i < u.len()
        invariant
            u@.len() == l@.len(),
            l@ == lit@,
            i <= u@.len(),
            forall|j: int| 0 <= j < i ==> u@[j] == l@[j],
        decreases u@.len() - i,
    {
        if u[i] != l[i] {
            return false;
        }
        i = i + 1;
    }
    assert(u@ =~= l@);
    true
}

fn take_first(ps: &mut Vec<String>) -> (r: String)
    requires
        old(ps)@.len() > 0,
    ensures
        r@ == strings_view(old(ps)@)[0],
        strings_view(final(ps)@) == strings_view(old(ps)@).drop_first(),
        final(ps)@.len() == old(ps)@.len() - 1,
{
    let r = ps.remove(0);
    assert(strings_view(ps@) =~= strings_view(old(ps)@).drop_first());
    r
}

fn reply_num_exec(w: &Vec<char>) -> (r: Option<u16>)
    ensures
        match r {
            Some(n) => is_reply_word(w@) && n as int == reply_num(w@),
            None => !is_reply_word(w@),
        },
{
    if w.len() != 3 {
        return None;
    }
    let a = w[0];
    let b = w[1];
    let c = w[2];
    if '0' <= a && a <= '9' && '0' <= b && b <= '9' && '0' <= c && c <= '9' {
        let n = ((a as u32) - ('0' as u32)) * 100 + ((b as u32) - ('0' as u32)) * 10 + ((c as u32)
            - ('0' as u32));
        Some(n as u16)
    } else {
        None
    }
}

/// The command that a word and parameters make.
fn to_cmd_exec(w: &str, ps: Vec<String>) -> (r: Cmd)
    ensures
        r@ == to_cmd(w@, strings_view(ps@)),
{
    let u = upper_chars(w);
    let n = ps.len();
    let ghost pv = strings_view(ps@);
    proof {
        reveal_strlit("PRIVMSG");
        reveal_strlit("NOTICE");
        reveal_strlit("JOIN");
        reveal_strlit("PART");
        reveal_strlit("QUIT");
        reveal_strlit("NICK");
        reveal_strlit("PING");
        reveal_strlit("PONG");
        reveal_strlit("ERROR");
        reveal_strlit("TOPIC");
        reveal_strlit("CAP");
        reveal_strlit("AUTHENTICATE");
        assert("PRIVMSG"@ =~= w_privmsg());
        assert("NOTICE"@ =~= w_notice());
        assert("JOIN"@ =~= w_join());
        assert("PART"@ =~= w_part());
        assert("QUIT"@ =~= w_quit());
        assert("NICK"@ =~= w_nick());
        assert("PING"@ =~= w_ping());
        assert("PONG"@ =~= w_pong());
        assert("ERROR"@ =~= w_error());
        assert("TOPIC"@ =~= w_topic());
        assert("CAP"@ =~= w_cap());
        assert("AUTHENTICATE"@ =~= w_authenticate());
    }
    let mut ps = ps;
    if n == 2 && (word_is(&u, "PRIVMSG") || word_is(&u, "NOTICE")) {
        let is_notice = !word_is(&u, "PRIVMSG");
        let target = take_first(&mut ps);
        let msg = take_first(&mut ps);
        Cmd::Privmsg { target, msg, is_notice }
    } else if n == 1 && word_is(&u, "JOIN") {
        Cmd::Join { chan: take_first(&mut ps) }
    } else if (n == 1 || n == 2) && word_is(&u, "PART") {
        let chan = take_first(&mut ps);
        let msg = if n == 2 {
            Some(take_first(&mut ps))
        } else {
            None
        };
        Cmd::Part { chan, msg }
    } else if (n == 0 || n == 1) && word_is(&u, "QUIT") {
        let msg = if n == 1 {
            Some(take_first(&mut ps))
        } else {
            None
        };
        Cmd::Quit { msg }
    } else if n == 1 && word_is(&u, "NICK") {
        Cmd::Nick { nick: take_first(&mut ps) }
    } else if n == 1 && word_is(&u, "PING") {
        Cmd::Ping { server: take_first(&mut ps) }
    } else if n == 1 && word_is(&u, "PONG") {
        Cmd::Pong { server: take_first(&mut ps) }
    } else if n == 1 && word_is(&u, "ERROR") {
        Cmd::Error { msg: take_first(&mut ps) }
    } else if n == 2 && word_is(&u, "TOPIC") {
        let chan = take_first(&mut ps);
        let topic = take_first(&mut ps);
        Cmd::Topic { chan, topic }
    } else if n == 3 && word_is(&u, "CAP") {
        let client = take_first(&mut ps);
        let subcommand = take_first(&mut ps);
        let params = take_first(&mut ps);
        Cmd::Cap { client, subcommand, params }
    } else if n == 1 && word_is(&u, "AUTHENTICATE") {
        Cmd::Authenticate { param: take_first(&mut ps) }
    } else {
        let wc = to_chars(w);
        match reply_num_exec(&wc) {
            Some(num) => Cmd::Reply { num, params: ps },
            None => Cmd::Other { cmd: w.to_owned(), params: ps },
        }
    }
}

fn parse_pfx_exec(p: &str) -> (r: Pfx)
    ensures
        r@ == parse_pfx(p@),
{
    let cs = to_chars(p);
    let n = cs.len();
    let mut j: usize = 0;
    assert(p@.subrange(0, n as int) =~= p@);
    while j < n && cs[j] != '!' && cs[j] != '@'
        invariant
            n == cs@.len(),
            cs@ == p@,
            j <= n,
            first_sep(p@) == j + first_sep(p@.subrange(j as int, n as int)),
        decreases n - j,
    {
        assert(p@.subrange(j as int, n as int).drop_first() =~= p@.subrange(j + 1, n as int));
        j = j + 1;
    }
    assert(p@.subrange(0, n as int) =~= p@);
    if j == n {
        Pfx::Server(p.to_owned())
    } else {
        Pfx::User { nick: p.substring_char(0, j).to_owned(), user: p.substring_char(j, n).to_owned() }
    }
}

/// The parameters after index `i` of the line `cs` (whose text is `line`).
fn parse_params_exec(line: &str, cs: &Vec<char>, i: usize) -> (r: Vec<String>)
    requires
        cs@ == line@,
        i <= cs@.len(),
    ensures
        strings_view(r@) == parse_params(cs@.subrange(i as int, cs@.len() as int)),
{
    let n = cs.len();
    let mut r: Vec<String> = Vec::new();
    let mut i = i;
    let ghost whole = cs@.subrange(i as int, n as int);
    while i < n
        invariant
            n == cs@.len(),
            cs@ == line@,
            i <= n,
            strings_view(r@) + parse_params(cs@.subrange(i as int, n as int)) == parse_params(whole),
        decreases n - i,
    {
        let ghost rest = cs@.subrange(i as int, n as int);
        assert(rest.drop_first() =~= cs@.subrange(i + 1, n as int));
        if i + 1 < n && cs[i + 1] == ':' {
            let p = line.substring_char(i + 2, n);
            let ghost before = strings_view(r@);
            r.push(p.to_owned());
            proof {
                assert(cs@.subrange(i + 1, n as int).drop_first() =~= cs@.subrange(i + 2, n as int));
                assert(strings_view(r@) =~= before.push(p@));
                assert(parse_params(cs@.subrange(n as int, n as int)) =~= Seq::<Seq<char>>::empty());
                assert(before + parse_params(rest) =~= strings_view(r@) + parse_params(cs@.subrange(n as int, n as int)));
            }
            i = n;
        } else {
            let k = first_space_from(cs, i + 1);
            let p = line.substring_char(i + 1, k);
            let ghost before = strings_view(r@);
            r.push(p.to_owned());
            proof {
                let t = cs@.subrange(i + 1, n as int);
                assert(t.subrange(0, k - i - 1) =~= p@);
                assert(t.subrange(k - i - 1, t.len() as int) =~= cs@.subrange(k as int, n as int));
                assert(strings_view(r@) =~= before.push(p@));
                assert(before + parse_params(rest) =~= strings_view(r@) + parse_params(cs@.subrange(k as int, n as int)));
            }
            i = k;
        }
    }
    assert(parse_params(cs@.subrange(i as int, n as int)) =~= Seq::<Seq<char>>::empty());
    assert(strings_view(r@) + Seq::<Seq<char>>::empty() =~= strings_view(r@));
    r
}

/// Parses a line (without its line ending) into a message; `None` when the
/// line is malformed (an unterminated prefix or no command).
pub fn parse(line: &str) -> (r: Option<Msg>)
    ensures
        match r {
            Some(m) => parse_line(line@) == Some(m@),
            None => parse_line(line@) is None,
        },
{
    let cs = to_chars(line);
    let n = cs.len();
    let mut start: usize = 0;
    let mut pfx: Option<Pfx> = None;
    if n > 0 && cs[0] == ':' {
        let k = first_space_from(&cs, 1);
        proof {
            let b = line@.drop_first();
            assert(cs@.subrange(1, n as int) =~= b);
            assert(split_at_space(b).0 =~= cs@.subrange(1, k as int));
            assert(split_at_space(b).1 =~= cs@.subrange(k as int, n as int));
        }
        if k >= n {
            return None;
        }
        let p = line.substring_char(1, k);
        pfx = Some(parse_pfx_exec(p));
        start = k + 1;
        proof {
            assert(split_at_space(line@.drop_first()).1.drop_first() =~= cs@.subrange(start as int, n as int));
        }
    } else {
        assert(cs@.subrange(0, n as int) =~= line@);
    }
    let k = first_space_from(&cs, start);
    proof {
        let rest = cs@.subrange(start as int, n as int);
        assert(split_at_space(rest).0 =~= cs@.subrange(start as int, k as int));
        assert(split_at_space(rest).1 =~= cs@.subrange(k as int, n as int));
    }
    if k == start {
        return None;
    }
    let w = line.substring_char(start, k);
    let ps = parse_params_exec(line, &cs, k);
    let cmd = to_cmd_exec(w, ps);
    Some(Msg { pfx, cmd })
}

pub open spec fn strs_view(v: Seq<&str>) -> Seq<Seq<char>> {
    v.map_values(|s: &str| s@)
}

fn push_str<'a>(v: &mut Vec<&'a str>, s: &'a str)
    ensures
        strs_view(final(v)@) == strs_view(old(v)@).push(s@),
{
    v.push(s);
    assert(strs_view(v@) =~= strs_view(old(v)@).push(s@));
}

/// The parameters a command is sent with.
fn cmd_params_exec(c: &Cmd) -> (r: Vec<&str>)
    ensures
        strs_view(r@) == cmd_params(c@),
{
    let mut r: Vec<&str> = Vec::new();
    match c {
        Cmd::Privmsg { target, msg, .. } => {
            push_str(&mut r, target.as_str());
            push_str(&mut r, msg.as_str());
        },
        Cmd::Join { chan } => push_str(&mut r, chan.as_str()),
        Cmd::Part { chan, msg } => {
            push_str(&mut r, chan.as_str());
            if let Some(m) = msg {
                push_str(&mut r, m.as_str());
            }
        },
        Cmd::Quit { msg } => {
            if let Some(m) = msg {
                push_str(&mut r, m.as_str());
            }
        },
        Cmd::Nick { nick } => push_str(&mut r, nick.as_str()),
        Cmd::Ping { server } => push_str(&mut r, server.as_str()),
        Cmd::Pong { server } => push_str(&mut r, server.as_str()),
        Cmd::Error { msg } => push_str(&mut r, msg.as_str()),
        Cmd::Topic { chan, topic } => {
            push_str(&mut r, chan.as_str());
            push_str(&mut r, topic.as_str());
        },
        Cmd::Cap { client, subcommand, params } => {
            push_str(&mut r, client.as_str());
            push_str(&mut r, subcommand.as_str());
            push_str(&mut r, params.as_str());
        },
        Cmd::Authenticate { param } => push_str(&mut r, param.as_str()),
        Cmd::Reply { params, .. } | Cmd::Other { params, .. } => {
            let mut i: usize = 0;
            while i < params.len()
                invariant
                    i <= params@.len(),
                    strs_view(r@) == strings_view(params@).subrange(0, i as int),
                decreases params@.len() - i,
            {
                push_str(&mut r, params[i].as_str());
                i = i + 1;
            }
            assert(strings_view(params@).subrange(0, i as int) =~= strings_view(params@));
        },
    }
    proof {
        assert(strs_view(r@) =~= cmd_params(c@));
    }
    r
}

/// One decimal digit as a string.
fn digit_str(d: u16) -> (r: &'static str)
    requires
        d < 10,
    ensures
        r@ == seq![digit_char(d as int)],
{
    let digits = "0123456789";
    proof {
        reveal_strlit("0123456789");
    }
    let r = digits.substring_char(d as usize, d as usize + 1);
    assert(r@ =~= seq![digit_char(d as int)]);
    r
}

/// Appends the word a command is sent with.
fn append_cmd_word(r: &mut String, c: &Cmd)
    requires
        c matches Cmd::Reply { num, .. } ==> num < 1000,
    ensures
        final(r)@ == old(r)@ + cmd_word(c@),
{
    proof {
        reveal_strlit("PRIVMSG");
        reveal_strlit("NOTICE");
        reveal_strlit("JOIN");
        reveal_strlit("PART");
        reveal_strlit("QUIT");
        reveal_strlit("NICK");
        reveal_strlit("PING");
        reveal_strlit("PONG");
        reveal_strlit("ERROR");
        reveal_strlit("TOPIC");
        reveal_strlit("CAP");
        reveal_strlit("AUTHENTICATE");
        assert("PRIVMSG"@ =~= w_privmsg());
        assert("NOTICE"@ =~= w_notice());
        assert("JOIN"@ =~= w_join());
        assert("PART"@ =~= w_part());
        assert("QUIT"@ =~= w_quit());
        assert("NICK"@ =~= w_nick());
        assert("PING"@ =~= w_ping());
        assert("PONG"@ =~= w_pong());
        assert("ERROR"@ =~= w_error());
        assert("TOPIC"@ =~= w_topic());
        assert("CAP"@ =~= w_cap());
        assert("AUTHENTICATE"@ =~= w_authenticate());
    }
    match c {
        Cmd::Privmsg { is_notice, .. } => {
            if *is_notice {
                r.append("NOTICE");
            } else {
                r.append("PRIVMSG");
            }
        },
        Cmd::Join { .. } => r.append("JOIN"),
        Cmd::Part { .. } => r.append("PART"),
        Cmd::Quit { .. } => r.append("QUIT"),
        Cmd::Nick { .. } => r.append("NICK"),
        Cmd::Ping { .. } => r.append("PING"),
        Cmd::Pong { .. } => r.append("PONG"),
        Cmd::Error { .. } => r.append("ERROR"),
        Cmd::Topic { .. } => r.append("TOPIC"),
        Cmd::Cap { .. } => r.append("CAP"),
        Cmd::Authenticate { .. } => r.append("AUTHENTICATE"),
        Cmd::Reply { num, .. } => {
            let n = *num;
            r.append(digit_str(n / 100));
            r.append(digit_str((n / 10) % 10));
            r.append(digit_str(n % 10));
            assert(reply_word(n as int) =~= seq![digit_char(n as int / 100)] + seq![digit_char((n as int / 10) % 10)] + seq![digit_char(n as int % 10)]);
        },
        Cmd::Other { cmd, .. } => r.append(cmd.as_str()),
    }
}

/// The canonical line of a message, without line ending.
pub fn to_line(m: &Msg) -> (r: String)
    requires
        m.cmd matches Cmd::Reply { num, .. } ==> num < 1000,
    ensures
        r@ == ser_line(m@),
{
    let mut r = String::new();
    match &m.pfx {
        Some(p) => {
            r.append(":");
            match p {
                Pfx::Server(s) => r.append(s.as_str()),
                Pfx::User { nick, user } => {
                    r.append(nick.as_str());
                    r.append(user.as_str());
                },
            }
            r.append(" ");
        },
        None => {},
    }
    let ghost head = r@;
    append_cmd_word(&mut r, &m.cmd);
    let ps = cmd_params_exec(&m.cmd);
    let ghost pv = strs_view(ps@);
    let n = ps.len();
    let mut i: usize = 0;
    proof {
        reveal_strlit(" ");
        reveal_strlit(" :");
        reveal_strlit(":");
        assert(pv.subrange(0, n as int) =~= pv);
    }
    while i < n
        invariant
            n == ps@.len(),
            pv == strs_view(ps@),
            i <= n,
            r@ + ser_params(pv.subrange(i as int, n as int)) == head + cmd_word(m.cmd@) + ser_params(pv),
        decreases n - i,
    {
        let ghost tail = pv.subrange(i as int, n as int);
        let ghost r0 = r@;
        assert(tail.drop_first() =~= pv.subrange(i + 1, n as int));
        assert(tail[0] == ps@[i as int]@);
        if i + 1 == n {
            r.append(" :");
        } else {
            r.append(" ");
        }
        r.append(ps[i]);
        i = i + 1;
        proof {
            reveal_strlit(" ");
            reveal_strlit(" :");
            assert(" :"@ =~= seq![' ', ':']);
            assert(" "@ =~= seq![' ']);
            let next = pv.subrange(i as int, n as int);
            if i == n {
                assert(tail.len() == 1);
                assert(next =~= Seq::<Seq<char>>::empty());
                assert(ser_params(tail) == seq![' ', ':'] + tail[0]);
                assert(r@ =~= r0 + (seq![' ', ':'] + tail[0]));
                assert(r@ + ser_params(next) =~= r0 + ser_params(tail));
            } else {
                assert(ser_params(tail) == seq![' '] + tail[0] + ser_params(next));
                assert(r@ =~= r0 + seq![' '] + tail[0]);
                assert(r@ + ser_params(next) =~= r0 + ser_params(tail));
            }
        }
    }
    proof {
        assert(pv.subrange(n as int, n as int) =~= Seq::<Seq<char>>::empty());
        if m.pfx is Some {
            assert(head =~= seq![':'] + ser_pfx(m.pfx->0@) + seq![' ']);
        } else {
            assert(head =~= Seq::<char>::empty());
        }
        assert(r@ =~= ser_line(m@));
    }
    r
}

/// Bytes dropped from the stream on arrival: NUL, STX and EOT glitch some
/// terminals. (SOH, which delimits CTCP, is dropped per line: see
/// `clean_line`.)
pub open spec fn is_glitch(b: u8) -> bool {
    b == 0u8 || b == 2u8 || b == 4u8
}

/// The bytes of `s` that are kept.
pub open spec fn keep(s: Seq<u8>) -> Seq<u8>
    decreases s.len(),
{
    if s.len() == 0 {
        seq![]
    } else if is_glitch(s.last()) {
        keep(s.drop_last())
    } else {
        keep(s.drop_last()).push(s.last())
    }
}

/// Lines written one after another.
pub open spec fn flatten(ls: Seq<Seq<u8>>) -> Seq<u8>
    decreases ls.len(),
{
    if ls.len() == 0 {
        seq![]
    } else {
        ls[0] + flatten(ls.drop_first())
    }
}

/// Index of the first line feed, or the length.
pub open spec fn first_nl(s: Seq<u8>) -> nat
    decreases s.len(),
{
    if s.len() == 0 {
        0
    } else if s[0] == 10u8 {
        0
    } else {
        1 + first_nl(s.drop_first())
    }
}

/// The complete lines of `s`, each with its line feed, and what follows the last.
pub open spec fn split_lines(s: Seq<u8>) -> (Seq<Seq<u8>>, Seq<u8>)
    decreases s.len(),
{
    let k = first_nl(s) as int;
    if k >= s.len() {
        (seq![], s)
    } else {
        let rest = split_lines(s.subrange(k + 1, s.len() as int));
        (seq![s.subrange(0, k + 1)] + rest.0, rest.1)
    }
}

/// Receiving `chunk` with `buf` pending: the lines that are complete now and
/// the new pending bytes.
pub open spec fn frame_step(buf: Seq<u8>, chunk: Seq<u8>) -> (Seq<Seq<u8>>, Seq<u8>) {
    split_lines(buf + keep(chunk))
}

/// Receiving `chunks` one after another, from `buf` pending.
pub open spec fn frame_run(buf: Seq<u8>, chunks: Seq<Seq<u8>>) -> (Seq<Seq<u8>>, Seq<u8>)
    decreases chunks.len(),
{
    if chunks.len() == 0 {
        (seq![], buf)
    } else {
        let first = frame_step(buf, chunks[0]);
        let rest = frame_run(first.1, chunks.drop_first());
        (first.0 + rest.0, rest.1)
    }
}

proof fn lemma_first_nl_bound(s: Seq<u8>)
    ensures
        first_nl(s) <= s.len(),
        first_nl(s) < s.len() ==> s[first_nl(s) as int] == 10u8,
    decreases s.len(),
{
    if s.len() > 0 && s[0] != 10u8 {
        lemma_first_nl_bound(s.drop_first());
    }
}

proof fn lemma_split_lines(s: Seq<u8>)
    ensures
        flatten(split_lines(s).0) + split_lines(s).1 == s,
        first_nl(split_lines(s).1) == split_lines(s).1.len(),
    decreases s.len(),
{
    lemma_first_nl_bound(s);
    let k = first_nl(s) as int;
    if k >= s.len() {
        assert(flatten(Seq::<Seq<u8>>::empty()) + s =~= s);
    } else {
        let t = s.subrange(k + 1, s.len() as int);
        lemma_split_lines(t);
        let rest = split_lines(t);
        let ls = seq![s.subrange(0, k + 1)] + rest.0;
        assert(ls.drop_first() =~= rest.0);
        assert(flatten(ls) == s.subrange(0, k + 1) + flatten(rest.0));
        assert(s.subrange(0, k + 1) + (flatten(rest.0) + rest.1) =~= s);
    }
}

proof fn lemma_flatten_concat(a: Seq<Seq<u8>>, b: Seq<Seq<u8>>)
    ensures
        flatten(a + b) == flatten(a) + flatten(b),
    decreases a.len(),
{
    if a.len() == 0 {
        assert(a + b =~= b);
        assert(flatten(a) + flatten(b) =~= flatten(b));
    } else {
        assert((a + b).drop_first() =~= a.drop_first() + b);
        lemma_flatten_concat(a.drop_first(), b);
        assert(flatten(a) + flatten(b) =~= a[0] + (flatten(a.drop_first()) + flatten(b)));
    }
}

proof fn lemma_keep_concat(a: Seq<u8>, b: Seq<u8>)
    ensures
        keep(a + b) == keep(a) + keep(b),
    decreases b.len(),
{
    if b.len() == 0 {
        assert(a + b =~= a);
        assert(keep(a) + keep(b) =~= keep(a));
    } else {
        assert((a + b).drop_last() =~= a + b.drop_last());
        assert((a + b).last() == b.last());
        lemma_keep_concat(a, b.drop_last());
        if !is_glitch(b.last()) {
            assert(keep(a) + keep(b.drop_last()).push(b.last()) =~= (keep(a) + keep(b.drop_last())).push(b.last()));
        }
    }
}

/// Framing: whatever chunks the bytes arrive in, the complete lines, one
/// after another, followed by the bytes still pending, are the bytes
/// received without the dropped glitch bytes; nothing pending holds a line
/// feed. (`read_lines` hands out these lines with `clean_line` applied.)
pub proof fn lemma_framing(buf: Seq<u8>, chunks: Seq<Seq<u8>>)
    ensures
        flatten(frame_run(buf, chunks).0) + frame_run(buf, chunks).1 == buf + keep(flatten(chunks)),
        chunks.len() > 0 ==> first_nl(frame_run(buf, chunks).1) == frame_run(buf, chunks).1.len(),
    decreases chunks.len(),
{
    if chunks.len() == 0 {
        assert(flatten(Seq::<Seq<u8>>::empty()) + buf =~= buf);
        assert(keep(flatten(chunks)) =~= Seq::<u8>::empty());
        assert(buf + Seq::<u8>::empty() =~= buf);
    } else {
        let first = frame_step(buf, chunks[0]);
        lemma_split_lines(buf + keep(chunks[0]));
        lemma_framing(first.1, chunks.drop_first());
        let rest = frame_run(first.1, chunks.drop_first());
        lemma_flatten_concat(first.0, rest.0);
        lemma_keep_concat(chunks[0], flatten(chunks.drop_first()));
        assert(flatten(chunks) == chunks[0] + flatten(chunks.drop_first()));
        assert(flatten(first.0 + rest.0) + rest.1 =~= flatten(first.0) + (flatten(rest.0) + rest.1));
        assert(flatten(first.0) + (first.1 + keep(flatten(chunks.drop_first()))) =~= (flatten(first.0) + first.1) + keep(flatten(chunks.drop_first())));
        assert(buf + keep(chunks[0]) + keep(flatten(chunks.drop_first())) =~= buf + keep(flatten(chunks)));
        if chunks.len() == 1 {
            assert(chunks.drop_first().len() == 0);
            assert(rest.1 == first.1);
        }
    }
}

pub open spec fn bytes_view(ls: Seq<Vec<u8>>) -> Seq<Seq<u8>> {
    ls.map_values(|l: Vec<u8>| l@)
}

/// Takes in the bytes just read: drops the glitch bytes, and hands out every
/// line that is now complete (each with its line feed), leaving the rest of
/// the bytes pending in `buf`.
fn split_raw_lines(buf: &mut Vec<u8>, chunk: &[u8]) -> (r: Vec<Vec<u8>>)
    ensures
        (bytes_view(r@), final(buf)@) == frame_step(old(buf)@, chunk@),
{
    let mut i: usize = 0;
    while i < chunk.len()
        invariant
            i <= chunk@.len(),
            buf@ == old(buf)@ + keep(chunk@.subrange(0, i as int)),
        decreases chunk@.len() - i,
    {
        let b = chunk[i];
        assert(chunk@.subrange(0, i + 1).drop_last() =~= chunk@.subrange(0, i as int));
        if !(b == 0u8 || b == 2u8 || b == 4u8) {
            buf.push(b);
        }
        i = i + 1;
        assert(buf@ =~= old(buf)@ + keep(chunk@.subrange(0, i as int)));
    }
    assert(chunk@.subrange(0, i as int) =~= chunk@);
    let ghost all = buf@;
    let n = buf.len();
    let mut lines: Vec<Vec<u8>> = Vec::new();
    let mut start: usize = 0;
    let mut j: usize = 0;
    proof {
        assert(all.subrange(0, n as int) =~= all);
        assert(bytes_view(lines@) =~= Seq::<Seq<u8>>::empty());
        assert(Seq::<Seq<u8>>::empty() + split_lines(all).0 =~= split_lines(all).0);
    }
    while j < n
        invariant
            n == buf@.len(),
            buf@ == all,
            start <= j <= n,
            first_nl(all.subrange(start as int, n as int)) == (j - start) + first_nl(all.subrange(j as int, n as int)),
            split_lines(all) == (bytes_view(lines@) + split_lines(all.subrange(start as int, n as int)).0, split_lines(all.subrange(start as int, n as int)).1),
        decreases n - j,
    {
        let ghost seg = all.subrange(start as int, n as int);
        assert(all.subrange(j as int, n as int).drop_first() =~= all.subrange(j + 1, n as int));
        if buf[j] == 10u8 {
            let mut line: Vec<u8> = Vec::new();
            let mut q = start;
            while q <= j
                invariant
                    start <= q <= j + 1,
                    j < n,
                    n == buf@.len(),
                    line@ == all.subrange(start as int, q as int),
                    buf@ == all,
                decreases j + 1 - q,
            {
                line.push(buf[q]);
                q = q + 1;
                assert(line@ =~= all.subrange(start as int, q as int));
            }
            let ghost before = bytes_view(lines@);
            proof {
                lemma_first_nl_bound(seg);
                assert(first_nl(seg) == j - start);
                assert(seg.subrange(0, j - start + 1) =~= line@);
                assert(seg.subrange(j - start + 1, seg.len() as int) =~= all.subrange(j + 1, n as int));
            }
            lines.push(line);
            proof {
                assert(bytes_view(lines@) =~= before.push(line@));
                assert(bytes_view(lines@) + split_lines(all.subrange(j + 1, n as int)).0 =~= before + (seq![line@] + split_lines(all.subrange(j + 1, n as int)).0));
            }
            start = j + 1;
            assert(all.subrange(start as int, n as int) =~= all.subrange(j + 1, n as int));
        }
        j = j + 1;
    }
    proof {
        let seg = all.subrange(start as int, n as int);
        assert(all.subrange(j as int, n as int).len() == 0);
        assert(first_nl(seg) == seg.len());
    }
    let mut rest: Vec<u8> = Vec::new();
    let mut q = start;
    while q < n
        invariant
            start <= q <= n,
            n == buf@.len(),
            buf@ == all,
            rest@ == all.subrange(start as int, q as int),
        decreases n - q,
    {
        rest.push(buf[q]);
        q = q + 1;
        assert(rest@ =~= all.subrange(start as int, q as int));
    }
    *buf = rest;
    proof {
        let seg = all.subrange(start as int, n as int);
        assert(split_lines(seg).1 == seg);
        assert(bytes_view(lines@) + Seq::<Seq<u8>>::empty() =~= bytes_view(lines@));
    }
    lines
}

/// Index of the first `" :"` in `l` at or after `i`, or the length.
pub open spec fn first_trailing(l: Seq<u8>, i: int) -> int
    decreases l.len() - i,
{
    if i < 0 || i + 1 >= l.len() {
        l.len() as int
    } else if l[i] == 32u8 && l[i + 1] == 58u8 {
        i
    } else {
        first_trailing(l, i + 1)
    }
}

/// Where the trailing parameter of a line starts: after its first `" :"`.
pub open spec fn trailing_start(l: Seq<u8>) -> int {
    first_trailing(l, 0) + 2
}

/// Where the text of a line ends: before its `"\r\n"` or `"\n"`.
pub open spec fn body_end(l: Seq<u8>) -> int {
    if l.len() >= 2 && l[l.len() - 2] == 13u8 && l.last() == 10u8 {
        l.len() - 2
    } else if l.len() >= 1 && l.last() == 10u8 {
        l.len() - 1
    } else {
        l.len() as int
    }
}

/// Whether the byte at `p` stays: every byte but 0x01, and 0x01 only where it
/// can delimit a CTCP body, as the first byte of the trailing parameter or
/// the last byte before the line ending.
pub open spec fn soh_kept(l: Seq<u8>, p: int) -> bool {
    l[p] != 1u8 || p == trailing_start(l) || p + 1 == body_end(l)
}

/// The first `k` bytes of `l` without the 0x01 bytes outside CTCP delimiters.
pub open spec fn clean_prefix(l: Seq<u8>, k: int) -> Seq<u8>
    decreases k,
{
    if k <= 0 || k > l.len() {
        seq![]
    } else if soh_kept(l, k - 1) {
        clean_prefix(l, k - 1).push(l[k - 1])
    } else {
        clean_prefix(l, k - 1)
    }
}

/// A complete line without the 0x01 bytes that delimit no CTCP body.
pub open spec fn clean_line(l: Seq<u8>) -> Seq<u8> {
    clean_prefix(l, l.len() as int)
}

fn clean_line_exec(l: &Vec<u8>) -> (r: Vec<u8>)
    ensures
        r@ == clean_line(l@),
{
    let n = l.len();
    let mut t: usize = 0;
    while n > 0 && t < n - 1 && !(l[t] == 32u8 && l[t + 1] == 58u8)
        invariant
            n == l@.len(),
            t <= n,
            first_trailing(l@, 0) == first_trailing(l@, t as int),
        decreases n - t,
    {
        t = t + 1;
    }
    let found = n > 0 && t < n - 1;
    assert(found ==> t + 2 == trailing_start(l@));
    assert(!found ==> trailing_start(l@) == n + 2);
    let be: usize = if n >= 2 && l[n - 2] == 13u8 && l[n - 1] == 10u8 {
        n - 2
    } else if n >= 1 && l[n - 1] == 10u8 {
        n - 1
    } else {
        n
    };
    proof {
        if n >= 1 {
            assert(l@.last() == l@[n - 1]);
        }
    }
    let mut r: Vec<u8> = Vec::new();
    let mut k: usize = 0;
    while k < n
        invariant
            n == l@.len(),
            k <= n,
            found ==> t + 2 == trailing_start(l@) && t + 1 < n,
            !found ==> trailing_start(l@) == n + 2,
            be as int == body_end(l@),
            r@ == clean_prefix(l@, k as int),
        decreases n - k,
    {
        if l[k] != 1u8 || (found && k == t + 2) || k + 1 == be {
            r.push(l[k]);
        }
        k = k + 1;
    }
    r
}

/// Takes in the bytes just read: drops the glitch bytes, and hands out every
/// line that is now complete (each with its line feed, and without the 0x01
/// bytes that delimit no CTCP body), leaving the rest of the bytes pending
/// in `buf`.
pub fn read_lines(buf: &mut Vec<u8>, chunk: &[u8]) -> (r: Vec<Vec<u8>>)
    ensures
        bytes_view(r@) == frame_step(old(buf)@, chunk@).0.map_values(|l: Seq<u8>| clean_line(l)),
        final(buf)@ == frame_step(old(buf)@, chunk@).1,
{
    let raw = split_raw_lines(buf, chunk);
    let mut r: Vec<Vec<u8>> = Vec::new();
    let mut i: usize = 0;
    while i < raw.len()
        invariant
            i <= raw@.len(),
            bytes_view(r@) == bytes_view(raw@).subrange(0, i as int).map_values(|l: Seq<u8>| clean_line(l)),
        decreases raw@.len() - i,
    {
        let c = clean_line_exec(&raw[i]);
        let ghost before = bytes_view(r@);
        assert(bytes_view(raw@)[i as int] == raw@[i as int]@);
        r.push(c);
        assert(bytes_view(r@) =~= before.push(c@));
        assert(bytes_view(r@) =~= bytes_view(raw@).subrange(0, i + 1).map_values(|l: Seq<u8>| clean_line(l)));
        i = i + 1;
    }
    assert(bytes_view(raw@).subrange(0, i as int) =~= bytes_view(raw@));
    r
}

} // verus!
