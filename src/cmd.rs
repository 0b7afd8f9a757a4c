//! Slash commands typed in the input line.

use vstd::prelude::*;
use vstd::string::*;
use crate::text::{str_eq, to_chars};
use crate::wire::strs_view;

verus! {

/// Whether a character is white space: Unicode's White_Space property, as
/// `char::is_whitespace` documents it.
pub open spec fn whitespace(c: char) -> bool {
    let u = c as u32;
    (0x9 <= u && u <= 0xD) || u == 0x20 || u == 0x85 || u == 0xA0 || u == 0x1680 || (0x2000 <= u && u <= 0x200A)
        || u == 0x2028 || u == 0x2029 || u == 0x202F || u == 0x205F || u == 0x3000
}

fn is_ws(c: char) -> (r: bool)
    ensures
        r == whitespace(c),
{
    let u = c as u32;
    (0x9 <= u && u <= 0xD) || u == 0x20 || u == 0x85 || u == 0xA0 || u == 0x1680 || (0x2000 <= u && u <= 0x200A)
        || u == 0x2028 || u == 0x2029 || u == 0x202F || u == 0x205F || u == 0x3000
}

/// The first index at or after `i` that is not white space, or the length.
pub open spec fn skip_ws(s: Seq<char>, i: int) -> int
    decreases s.len() - i,
{
    if i >= s.len() || i < 0 {
        s.len() as int
    } else if whitespace(s[i]) {
        skip_ws(s, i + 1)
    } else {
        i
    }
}

/// The first index at or after `i` that is white space, or the length.
pub open spec fn word_end(s: Seq<char>, i: int) -> int
    decreases s.len() - i,
{
    if i >= s.len() || i < 0 {
        s.len() as int
    } else if !whitespace(s[i]) {
        word_end(s, i + 1)
    } else {
        i
    }
}

/// Start and end of each word of `s` from index `i` on.
pub open spec fn spans_from(s: Seq<char>, i: int) -> Seq<(int, int)>
    decreases s.len() - i,
{
    let a = skip_ws(s, i);
    if a >= s.len() || a < i {
        seq![]
    } else {
        let b = word_end(s, a);
        if b <= a || b > s.len() {
            seq![]
        } else {
            seq![(a, b)] + spans_from(s, b)
        }
    }
}

/// The words of `s`: its maximal runs of characters that are not white space.
pub open spec fn words(s: Seq<char>) -> Seq<Seq<char>> {
    spans_from(s, 0).map_values(|p: (int, int)| s.subrange(p.0, p.1))
}

/// `s` from the start of its word `k` on.
pub open spec fn rest_from(s: Seq<char>, k: int) -> Seq<char> {
    s.subrange(spans_from(s, 0)[k].0, s.len() as int)
}

/// A port as `str::parse::<u16>` reads it: an optional `+`, then decimal
/// digits, at most 65535.
pub open spec fn digits_val(s: Seq<char>) -> int
    decreases s.len(),
{
    if s.len() == 0 {
        0
    } else {
        digits_val(s.drop_last()) * 10 + ((s.last() as int) - ('0' as int))
    }
}

pub open spec fn all_digits(s: Seq<char>) -> bool {
    forall|i: int| 0 <= i < s.len() ==> '0' <= #[trigger] s[i] && s[i] <= '9'
}

pub open spec fn port_of(s: Seq<char>) -> Option<int> {
    let d = if s.len() > 0 && s[0] == '+' {
        s.drop_first()
    } else {
        s
    };
    if d.len() > 0 && all_digits(d) && digits_val(d) <= 65535 {
        Some(digits_val(d))
    } else {
        None
    }
}

/// Index of the first `c` in `s`, or the length.
pub open spec fn index_of(s: Seq<char>, c: char) -> int
    decreases s.len(),
{
    if s.len() == 0 {
        0
    } else if s[0] == c {
        0
    } else {
        1 + index_of(s.drop_first(), c)
    }
}

/// A slash command (the text after the slash).
pub enum Cmd<'input> {
    /// `/connect [<host>:<port>]`.
    Connect(Option<(&'input str, u16)>),
    /// `/join <chan>...`.
    Join { chans: Vec<&'input str> },
    /// `/msg <target> <text>`.
    Msg { target: &'input str, msg: &'input str },
    /// `/me <text>`.
    Me { msg: &'input str },
    /// `/away [<reason>]`.
    Away { reason: Option<&'input str> },
    /// `/close`.
    Close,
    /// `/nick <nick>`.
    Nick { nick: &'input str },
    /// `/reload`.
    Reload,
    /// `/names`.
    Names,
    /// `/topic`.
    Topic,
    /// `/clear`.
    Clear,
    /// `/switch <text>`.
    Switch { str: &'input str },
    /// `/ignore`.
    Ignore,
}

/// A slash command, as seen in contracts.
pub enum CmdView {
    Connect(Option<(Seq<char>, int)>),
    Join(Seq<Seq<char>>),
    Msg(Seq<char>, Seq<char>),
    Me(Seq<char>),
    Away(Option<Seq<char>>),
    Close,
    Nick(Seq<char>),
    Reload,
    Names,
    Topic,
    Clear,
    Switch(Seq<char>),
    Ignore,
}

impl<'input> View for Cmd<'input> {
    type V = CmdView;

    open spec fn view(&self) -> CmdView {
        match self {
            Cmd::Connect(None) => CmdView::Connect(None),
            Cmd::Connect(Some((h, p))) => CmdView::Connect(Some((h@, *p as int))),
            Cmd::Join { chans } => CmdView::Join(strs_view(chans@)),
            Cmd::Msg { target, msg } => CmdView::Msg(target@, msg@),
            Cmd::Me { msg } => CmdView::Me(msg@),
            Cmd::Away { reason: None } => CmdView::Away(None),
            Cmd::Away { reason: Some(r) } => CmdView::Away(Some(r@)),
            Cmd::Close => CmdView::Close,
            Cmd::Nick { nick } => CmdView::Nick(nick@),
            Cmd::Reload => CmdView::Reload,
            Cmd::Names => CmdView::Names,
            Cmd::Topic => CmdView::Topic,
            Cmd::Clear => CmdView::Clear,
            Cmd::Switch { str } => CmdView::Switch(str@),
            Cmd::Ignore => CmdView::Ignore,
        }
    }
}

pub open spec fn connect_arg(arg: Seq<char>) -> Option<CmdView> {
    let k = index_of(arg, ':');
    if k >= arg.len() {
        None
    } else {
        match port_of(arg.subrange(k + 1, arg.len() as int)) {
            None => None,
            Some(p) => Some(CmdView::Connect(Some((arg.subrange(0, k), p)))),
        }
    }
}

/// What a command line means; `None` where it is refused.
pub open spec fn parse_cmd(s: Seq<char>) -> Option<CmdView> {
    let ws = words(s);
    if ws.len() == 0 {
        None
    } else {
        let c = ws[0];
        let n = ws.len() - 1;
        if c == seq!['c', 'o', 'n', 'n', 'e', 'c', 't'] {
            if n == 0 {
                Some(CmdView::Connect(None))
            } else if n != 1 {
                None
            } else {
                connect_arg(ws[1])
            }
        } else if c == seq!['j', 'o', 'i', 'n'] {
            if n == 0 { None } else { Some(CmdView::Join(ws.drop_first())) }
        } else if c == seq!['m', 's', 'g'] {
            if n < 2 { None } else { Some(CmdView::Msg(ws[1], rest_from(s, 2))) }
        } else if c == seq!['m', 'e'] {
            if n == 0 { None } else { Some(CmdView::Me(rest_from(s, 1))) }
        } else if c == seq!['a', 'w', 'a', 'y'] {
            if n == 0 { Some(CmdView::Away(None)) } else { Some(CmdView::Away(Some(rest_from(s, 1)))) }
        } else if c == seq!['c', 'l', 'o', 's', 'e'] {
            Some(CmdView::Close)
        } else if c == seq!['n', 'i', 'c', 'k'] {
            if n != 1 { None } else { Some(CmdView::Nick(ws[1])) }
        } else if c == seq!['r', 'e', 'l', 'o', 'a', 'd'] {
            Some(CmdView::Reload)
        } else if c == seq!['n', 'a', 'm', 'e', 's'] {
            Some(CmdView::Names)
        } else if c == seq!['t', 'o', 'p', 'i', 'c'] {
            Some(CmdView::Topic)
        } else if c == seq!['c', 'l', 'e', 'a', 'r'] {
            Some(CmdView::Clear)
        } else if c == seq!['s', 'w', 'i', 't', 'c', 'h'] {
            if n != 1 { None } else { Some(CmdView::Switch(ws[1])) }
        } else if c == seq!['i', 'g', 'n', 'o', 'r', 'e'] {
            Some(CmdView::Ignore)
        } else {
            None
        }
    }
}

pub open spec fn spans_view(v: Seq<(usize, usize)>) -> Seq<(int, int)> {
    v.map_values(|p: (usize, usize)| (p.0 as int, p.1 as int))
}

fn skip_ws_exec(cs: &Vec<char>, i: usize) -> (r: usize)
    requires
        i <= cs@.len(),
    ensures
        r == skip_ws(cs@, i as int),
        i <= r <= cs@.len(),
        r < cs@.len() ==> !whitespace(cs@[r as int]),
{
    let mut j = i;
    while j < cs.len() && is_ws(cs[j])
        invariant
            i <= j <= cs@.len(),
            skip_ws(cs@, i as int) == skip_ws(cs@, j as int),
        decreases cs@.len() - j,
    {
        j = j + 1;
    }
    j
}

fn word_end_exec(cs: &Vec<char>, i: usize) -> (r: usize)
    requires
        i <= cs@.len(),
    ensures
        r == word_end(cs@, i as int),
        i <= r <= cs@.len(),
{
    let mut j = i;
    while j < cs.len() && !is_ws(cs[j])
        invariant
            i <= j <= cs@.len(),
            word_end(cs@, i as int) == word_end(cs@, j as int),
        decreases cs@.len() - j,
    {
        j = j + 1;
    }
    j
}

/// Start and end of each word.
fn word_spans(cs: &Vec<char>) -> (r: Vec<(usize, usize)>)
    ensures
        spans_view(r@) == spans_from(cs@, 0),
        forall|k: int| 0 <= k < r@.len() ==> #[trigger] r@[k].0 < r@[k].1 <= cs@.len(),
{
    let n = cs.len();
    let mut r: Vec<(usize, usize)> = Vec::new();
    let mut i: usize = 0;
    while i < n
        invariant
            n == cs@.len(),
            i <= n,
            spans_view(r@) + spans_from(cs@, i as int) == spans_from(cs@, 0),
            forall|k: int| 0 <= k < r@.len() ==> #[trigger] r@[k].0 < r@[k].1 <= cs@.len(),
        decreases n - i,
    {
        let a = skip_ws_exec(cs, i);
        if a >= n {
            assert(spans_from(cs@, i as int) == Seq::<(int, int)>::empty());
            i = n;
        } else {
            let b = word_end_exec(cs, a);
            assert(b > a) by {
                assert(!whitespace(cs@[a as int]));
                assert(word_end(cs@, a as int) == word_end(cs@, a + 1));
                lemma_word_end_bound(cs@, a + 1);
            }
            let ghost before = spans_view(r@);
            r.push((a, b));
            proof {
                assert(spans_view(r@) =~= before.push((a as int, b as int)));
                assert(spans_from(cs@, i as int) == seq![(a as int, b as int)] + spans_from(cs@, b as int));
                assert(spans_view(r@) + spans_from(cs@, b as int) =~= before + spans_from(cs@, i as int));
            }
            i = b;
        }
    }
    assert(spans_from(cs@, n as int) == Seq::<(int, int)>::empty());
    assert(spans_view(r@) + Seq::<(int, int)>::empty() =~= spans_view(r@));
    r
}

/// Reads a port number, as `str::parse::<u16>` does.
pub fn parse_port(s: &str) -> (r: Option<u16>)
    ensures
        match r {
            Some(p) => port_of(s@) == Some(p as int),
            None => port_of(s@) is None,
        },
{
    let cs = to_chars(s);
    let n = cs.len();
    let start: usize = if n > 0 && cs[0] == '+' {
        1
    } else {
        0
    };
    let ghost d = if s@.len() > 0 && s@[0] == '+' { s@.drop_first() } else { s@ };
    assert(d =~= s@.subrange(start as int, n as int));
    if start >= n {
        assert(d.len() == 0);
        return None;
    }
    let mut val: u32 = 0;
    let mut i = start;
    while i < n
        invariant
            n == cs@.len(),
            cs@ == s@,
            start <= i <= n,
            d == s@.subrange(start as int, n as int),
            d == if s@.len() > 0 && s@[0] == '+' { s@.drop_first() } else { s@ },
            all_digits(s@.subrange(start as int, i as int)),
            val as int == if digits_val(s@.subrange(start as int, i as int)) > 65536 { 65536 } else { digits_val(s@.subrange(start as int, i as int)) },
        decreases n - i,
    {
        let c = cs[i];
        if !('0' <= c && c <= '9') {
            assert(!all_digits(d)) by {
                assert(d[i - start] == c);
            }
            return None;
        }
        let dig = (c as u32) - ('0' as u32);
        let ghost pre = s@.subrange(start as int, i as int);
        let ghost nxt = s@.subrange(start as int, i + 1);
        assert(nxt.drop_last() =~= pre);
        assert(digits_val(nxt) == digits_val(pre) * 10 + dig);
        assert(digits_val(pre) >= 0) by {
            lemma_digits_nonneg(pre);
        }
        let ghost old_val = val as int;
        let ghost pv = digits_val(pre);
        val = if val > 6553 {
            65536
        } else {
            let v = val * 10 + dig;
            if v > 65536 {
                65536
            } else {
                v
            }
        };
        assert(val as int == if pv * 10 + dig > 65536 { 65536 } else { pv * 10 + dig }) by (nonlinear_arith)
            requires
                pv >= 0,
                0 <= dig <= 9,
                old_val == if pv > 65536 { 65536 } else { pv },
                val as int == if old_val > 6553 { 65536 } else if old_val * 10 + dig > 65536 { 65536 } else { old_val * 10 + dig };
        assert(all_digits(nxt)) by {
            assert forall|j: int| 0 <= j < nxt.len() implies '0' <= #[trigger] nxt[j] && nxt[j] <= '9' by {
                if j < pre.len() {
                    assert(nxt[j] == pre[j]);
                }
            }
        }
        i = i + 1;
    }
    if val > 65535 {
        None
    } else {
        Some(val as u16)
    }
}

proof fn lemma_word_end_bound(s: Seq<char>, i: int)
    requires
        0 <= i <= s.len(),
    ensures
        i <= word_end(s, i) <= s.len(),
    decreases s.len() - i,
{
    if i < s.len() && !whitespace(s[i]) {
        lemma_word_end_bound(s, i + 1);
    }
}

proof fn lemma_digits_nonneg(s: Seq<char>)
    requires
        all_digits(s),
    ensures
        digits_val(s) >= 0,
    decreases s.len(),
{
    if s.len() > 0 {
        assert(all_digits(s.drop_last())) by {
            assert forall|j: int| 0 <= j < s.drop_last().len() implies '0' <= #[trigger] s.drop_last()[j] && s.drop_last()[j] <= '9' by {
                assert(s.drop_last()[j] == s[j]);
            }
        }
        lemma_digits_nonneg(s.drop_last());
        assert('0' <= s.last());
    }
}

fn index_of_exec(cs: &Vec<char>, c: char) -> (r: usize)
    ensures
        r == index_of(cs@, c),
        r <= cs@.len(),
{
    let n = cs.len();
    let mut j: usize = 0;
    assert(cs@.subrange(0, n as int) =~= cs@);
    while j < n && cs[j] != c
        invariant
            n == cs@.len(),
            j <= n,
            index_of(cs@, c) == j + index_of(cs@.subrange(j as int, n as int), c),
        decreases n - j,
    {
        assert(cs@.subrange(j as int, n as int).drop_first() =~= cs@.subrange(j + 1, n as int));
        j = j + 1;
    }
    j
}

fn parse_connect_arg<'a>(arg: &'a str) -> (r: Option<Cmd<'a>>)
    ensures
        match r {
            Some(c) => connect_arg(arg@) == Some(c@),
            None => connect_arg(arg@) is None,
        },
{
    let cs = to_chars(arg);
    let n = cs.len();
    let k = index_of_exec(&cs, ':');
    if k >= n {
        return None;
    }
    let port = arg.substring_char(k + 1, n);
    match parse_port(port) {
        None => None,
        Some(p) => Some(Cmd::Connect(Some((arg.substring_char(0, k), p)))),
    }
}

impl<'input> Cmd<'input> {
    /// Parses a command line (the text after the slash) into a command; an
    /// `Err` with a message for an unknown command or wrong arguments.
    pub fn parse(input: &'input str) -> (r: Result<Cmd<'input>, String>)
        ensures
            match r {
                Ok(c) => parse_cmd(input@) == Some(c@),
                Err(_) => parse_cmd(input@) is None,
            },
    {
        let cs = to_chars(input);
        let n = cs.len();
        let spans = word_spans(&cs);
        let mut ws: Vec<&'input str> = Vec::new();
        let mut k: usize = 0;
        while k < spans.len()
            invariant
                cs@ == input@,
                n == cs@.len(),
                spans_view(spans@) == spans_from(cs@, 0),
                forall|j: int| 0 <= j < spans@.len() ==> #[trigger] spans@[j].0 < spans@[j].1 <= cs@.len(),
                k <= spans@.len(),
                strs_view(ws@) == words(input@).subrange(0, k as int),
            decreases spans@.len() - k,
        {
            let (a, b) = spans[k];
            let w = input.substring_char(a, b);
            let ghost before = strs_view(ws@);
            ws.push(w);
            proof {
                assert(spans_view(spans@)[k as int] == (a as int, b as int));
                assert(spans_from(input@, 0)[k as int] == (a as int, b as int));
                assert(words(input@)[k as int] == w@);
                assert(strs_view(ws@) =~= before.push(w@));
                assert(strs_view(ws@) =~= words(input@).subrange(0, k + 1));
            }
            k = k + 1;
        }
        assert(words(input@).subrange(0, k as int) =~= words(input@));
        let ghost wv = words(input@);
        if ws.len() == 0 {
            return Err("Can't parse command".to_owned());
        }
        let c = ws[0];
        let nargs = ws.len() - 1;
        proof {
            reveal_strlit("connect");
            reveal_strlit("join");
            reveal_strlit("msg");
            reveal_strlit("me");
            reveal_strlit("away");
            reveal_strlit("close");
            reveal_strlit("nick");
            reveal_strlit("reload");
            reveal_strlit("names");
            reveal_strlit("topic");
            reveal_strlit("clear");
            reveal_strlit("switch");
            reveal_strlit("ignore");
            assert("connect"@ =~= seq!['c', 'o', 'n', 'n', 'e', 'c', 't']);
            assert("join"@ =~= seq!['j', 'o', 'i', 'n']);
            assert("msg"@ =~= seq!['m', 's', 'g']);
            assert("me"@ =~= seq!['m', 'e']);
            assert("away"@ =~= seq!['a', 'w', 'a', 'y']);
            assert("close"@ =~= seq!['c', 'l', 'o', 's', 'e']);
            assert("nick"@ =~= seq!['n', 'i', 'c', 'k']);
            assert("reload"@ =~= seq!['r', 'e', 'l', 'o', 'a', 'd']);
            assert("names"@ =~= seq!['n', 'a', 'm', 'e', 's']);
            assert("topic"@ =~= seq!['t', 'o', 'p', 'i', 'c']);
            assert("clear"@ =~= seq!['c', 'l', 'e', 'a', 'r']);
            assert("switch"@ =~= seq!['s', 'w', 'i', 't', 'c', 'h']);
            assert("ignore"@ =~= seq!['i', 'g', 'n', 'o', 'r', 'e']);
        }
        if str_eq(c, "connect") {
            if nargs == 0 {
                Ok(Cmd::Connect(None))
            } else if nargs != 1 {
                Err("/connect: Need one <host>:<port> argument".to_owned())
            } else {
                match parse_connect_arg(ws[1]) {
                    Some(cmd) => Ok(cmd),
                    None => Err("/connect: Can't parse <host>:<port>".to_owned()),
                }
            }
        } else if str_eq(c, "join") {
            if nargs == 0 {
                Err("/join: Need at least one argument".to_owned())
            } else {
                let mut ws = ws;
                ws.remove(0);
                assert(strs_view(ws@) =~= wv.drop_first());
                Ok(Cmd::Join { chans: ws })
            }
        } else if str_eq(c, "msg") {
            if nargs < 2 {
                Err("/msg: Need at least two arguments".to_owned())
            } else {
                Ok(Cmd::Msg { target: ws[1], msg: input.substring_char(spans[2].0, n) })
            }
        } else if str_eq(c, "me") {
            if nargs == 0 {
                Err("/me: Need at least one argument".to_owned())
            } else {
                Ok(Cmd::Me { msg: input.substring_char(spans[1].0, n) })
            }
        } else if str_eq(c, "away") {
            if nargs == 0 {
                Ok(Cmd::Away { reason: None })
            } else {
                Ok(Cmd::Away { reason: Some(input.substring_char(spans[1].0, n)) })
            }
        } else if str_eq(c, "close") {
            Ok(Cmd::Close)
        } else if str_eq(c, "nick") {
            if nargs != 1 {
                Err("/nick: Need single argument".to_owned())
            } else {
                Ok(Cmd::Nick { nick: ws[1] })
            }
        } else if str_eq(c, "reload") {
            Ok(Cmd::Reload)
        } else if str_eq(c, "names") {
            Ok(Cmd::Names)
        } else if str_eq(c, "topic") {
            Ok(Cmd::Topic)
        } else if str_eq(c, "clear") {
            Ok(Cmd::Clear)
        } else if str_eq(c, "switch") {
            if nargs != 1 {
                Err("/switch: Need single argument".to_owned())
            } else {
                Ok(Cmd::Switch { str: ws[1] })
            }
        } else if str_eq(c, "ignore") {
            Ok(Cmd::Ignore)
        } else {
            Err("Unknown command".to_owned())
        }
    }
}

/// The words of a string: its maximal runs of characters that are not
/// white space.
pub fn split_words(s: &str) -> (r: Vec<&str>)
    ensures
        strs_view(r@) == words(s@),
{
    let cs = to_chars(s);
    let spans = word_spans(&cs);
    let mut ws: Vec<&str> = Vec::new();
    let mut k: usize = 0;
    while k < spans.len()
        invariant
            cs@ == s@,
            spans_view(spans@) == spans_from(cs@, 0),
            forall|j: int| 0 <= j < spans@.len() ==> #[trigger] spans@[j].0 < spans@[j].1 <= cs@.len(),
            k <= spans@.len(),
            strs_view(ws@) == words(s@).subrange(0, k as int),
        decreases spans@.len() - k,
    {
        let (a, b) = spans[k];
        let w = s.substring_char(a, b);
        let ghost before = strs_view(ws@);
        ws.push(w);
        proof {
            assert(spans_view(spans@)[k as int] == (a as int, b as int));
            assert(words(s@)[k as int] == w@);
            assert(strs_view(ws@) =~= before.push(w@));
            assert(strs_view(ws@) =~= words(s@).subrange(0, k + 1));
        }
        k = k + 1;
    }
    assert(words(s@).subrange(0, k as int) =~= words(s@));
    ws
}

} // verus!
