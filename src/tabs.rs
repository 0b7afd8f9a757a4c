//! The tab model: an ordered list of server, channel and privmsg tabs, in
//! which every channel and privmsg tab follows its server's tab.

use vstd::prelude::*;
use crate::names::NameList;
use crate::text::{contains_seq, eq_ignore_case, fold, nick_key, str_contains, str_eq};
use crate::ui::{MsgSource, MsgTarget, TargetV};

verus! {

/// How a tab is drawn in the tab bar.
#[derive(Debug, Clone, Copy, PartialEq, Eq, Structural)]
pub enum TabStyle {
    Normal,
    NewMsg,
    Highlight,
}

/// Which messages of a tab raise a desktop notification.
#[derive(Debug, Clone, Copy, PartialEq, Eq, Structural)]
pub enum Notifier {
    Off,
    Mentions,
    Messages,
}

/// Rank of a style: a style only replaces one of lower rank.
pub open spec fn style_rank(s: TabStyle) -> int {
    match s {
        TabStyle::Normal => 0,
        TabStyle::NewMsg => 1,
        TabStyle::Highlight => 2,
    }
}

/// What kind of line a tab shows.
#[derive(Debug, Clone, Copy, PartialEq, Eq, Structural)]
pub enum LineKind {
    /// A message without sender (server notices, progress).
    Msg,
    /// A protocol error.
    Error,
    /// A message of the client itself.
    Client,
    /// An error of the client itself (a bad command).
    ClientErr,
    /// A response of the client to a command.
    ClientNotify,
    /// A message of a user; `highlight` when it mentions us, `action` for CTCP ACTION.
    Privmsg { highlight: bool, action: bool },
    /// A channel topic.
    Topic,
    /// A nick joined.
    Join,
    /// A nick left.
    Part,
    /// A nick was renamed.
    NickChange,
}

/// One line of a tab's scrollback.
pub struct Line {
    pub kind: LineKind,
    /// Who sent it; empty where nobody did.
    pub sender: String,
    pub text: String,
    /// Receive time, in seconds.
    pub ts: i64,
}

/// A tab: a message surface for a server, a channel or a privmsg conversation.
pub struct Tab {
    pub src: MsgSource,
    pub style: TabStyle,
    /// One-character shortcut, if the name has an alphabetic character.
    pub switch: Option<char>,
    pub notifier: Notifier,
    /// When set, joins, parts, quits and nick changes are not shown.
    pub ignore: bool,
    /// Our nick on the tab's server, once known.
    pub nick: Option<String>,
    pub topic: Option<String>,
    pub names: NameList,
    pub lines: Vec<Line>,
}

/// The identity of a tab: kind (0 server, 1 channel, 2 privmsg), server,
/// and channel or nick (the server again for a server tab).
pub type TabKey = (int, Seq<char>, Seq<char>);

pub open spec fn src_key(src: MsgSource) -> TabKey {
    match src {
        MsgSource::Serv { serv_name } => (0, serv_name@, serv_name@),
        MsgSource::Chan { serv_name, chan_name } => (1, serv_name@, chan_name@),
        MsgSource::User { serv_name, nick } => (2, serv_name@, fold(nick@)),
    }
}

pub open spec fn tab_key(t: Tab) -> TabKey {
    src_key(t.src)
}

pub open spec fn serv_key(s: Seq<char>) -> TabKey {
    (0, s, s)
}

pub open spec fn chan_key(s: Seq<char>, c: Seq<char>) -> TabKey {
    (1, s, c)
}

/// Privmsg tabs are keyed by the nick without regard to ASCII case.
pub open spec fn user_key(s: Seq<char>, n: Seq<char>) -> TabKey {
    (2, s, fold(n))
}

/// The last part of a key: the channel, or the ASCII-lower-cased nick.
pub open spec fn name_key(kind: int, name: Seq<char>) -> Seq<char> {
    if kind == 2 { fold(name) } else { name }
}

/// The ordering rule of tabs: the tabs of one server stand together, the
/// server's own tab first, and no two tabs have the same key.
#[verifier::opaque]
pub open spec fn keys_wf(k: Seq<TabKey>) -> bool {
    &&& forall|i: int, j: int, l: int|
        #![trigger k[i], k[j], k[l]]
        0 <= i < j < l < k.len() && k[i].1 == k[l].1 ==> k[j].1 == k[i].1
    &&& forall|i: int|
        #![trigger k[i]]
        0 <= i < k.len() && (i == 0 || k[i - 1].1 != k[i].1) ==> k[i].0 == 0
    &&& k.no_duplicates()
}

/// Inserting a channel or privmsg key right after the last tab of its server
/// keeps the ordering rule.
proof fn lemma_insert_wf(k: Seq<TabKey>, p: int, x: TabKey)
    requires
        keys_wf(k),
        !k.contains(x),
        x.0 != 0,
        0 < p <= k.len(),
        k[p - 1].1 == x.1,
        forall|j: int| p <= j < k.len() ==> #[trigger] k[j].1 != x.1,
    ensures
        keys_wf(k.insert(p, x)),
{
    reveal(keys_wf);
    lemma_insert_contiguous(k, p, x);
    lemma_insert_starts(k, p, x);
    lemma_insert_unique(k, p, x);
}

#[verifier::spinoff_prover]
#[verifier::rlimit(60)]
proof fn lemma_insert_contiguous(k: Seq<TabKey>, p: int, x: TabKey)
    requires
        keys_wf(k),
        0 < p <= k.len(),
        k[p - 1].1 == x.1,
        forall|j: int| p <= j < k.len() ==> #[trigger] k[j].1 != x.1,
    ensures
        forall|i: int, j: int, l: int|
            #![trigger k.insert(p, x)[i], k.insert(p, x)[j], k.insert(p, x)[l]]
            0 <= i < j < l < k.insert(p, x).len() && k.insert(p, x)[i].1 == k.insert(p, x)[l].1
                ==> k.insert(p, x)[j].1 == k.insert(p, x)[i].1,
{
    reveal(keys_wf);
    let k2 = k.insert(p, x);
    assert forall|i: int, j: int, l: int|
        #![trigger k2[i], k2[j], k2[l]]
        0 <= i < j < l < k2.len() && k2[i].1 == k2[l].1 implies k2[j].1 == k2[i].1 by {
        let oi = if i < p { i } else { i - 1 };
        let ol = if l < p { l } else { l - 1 };
        if j == p {
            if i == p - 1 {
            } else {
                assert(k[oi].1 == k[ol].1);
                assert(k[oi] == k[oi] && k[p - 1] == k[p - 1] && k[ol] == k[ol]);
                if l > p {
                    assert(k[ol].1 != x.1);
                }
            }
        } else if i == p {
            assert(k[l - 1].1 != x.1);
        } else if l == p {
            let oj = if j < p { j } else { j - 1 };
            assert(k[i] == k[i] && k[oj] == k[oj] && k[p - 1] == k[p - 1]);
        } else {
            let oj = if j < p { j } else { j - 1 };
            assert(k[oi] == k[oi] && k[oj] == k[oj] && k[ol] == k[ol]);
        }
    }
}

#[verifier::spinoff_prover]
#[verifier::rlimit(60)]
proof fn lemma_insert_starts(k: Seq<TabKey>, p: int, x: TabKey)
    requires
        keys_wf(k),
        x.0 != 0,
        0 < p <= k.len(),
        k[p - 1].1 == x.1,
        forall|j: int| p <= j < k.len() ==> #[trigger] k[j].1 != x.1,
    ensures
        forall|i: int|
            #![trigger k.insert(p, x)[i]]
            0 <= i < k.insert(p, x).len() && (i == 0 || k.insert(p, x)[i - 1].1 != k.insert(
                p,
                x,
            )[i].1) ==> k.insert(p, x)[i].0 == 0,
{
    reveal(keys_wf);
    let k2 = k.insert(p, x);
    assert forall|i: int|
        #![trigger k2[i]]
        0 <= i < k2.len() && (i == 0 || k2[i - 1].1 != k2[i].1) implies k2[i].0 == 0 by {
        if i < p {
            assert(k[i] == k[i]);
        } else if i == p {
        } else if i == p + 1 {
            assert(k[p] == k[p]);
        } else {
            assert(k[i - 1] == k[i - 1]);
        }
    }
}

proof fn lemma_insert_unique(k: Seq<TabKey>, p: int, x: TabKey)
    requires
        k.no_duplicates(),
        !k.contains(x),
        0 < p <= k.len(),
    ensures
        k.insert(p, x).no_duplicates(),
{
    let k2 = k.insert(p, x);
    assert forall|i: int, j: int| 0 <= i < j < k2.len() implies k2[i] != k2[j] by {
        let oi = if i < p { i } else { i - 1 };
        let oj = if j < p { j } else { j - 1 };
        if i != p && j != p {
            assert(k[oi] != k[oj]);
        } else if i == p {
            assert(k.contains(k[oj]));
        } else {
            assert(k.contains(k[oi]));
        }
    }
}

/// Appending a server key for a server without tabs keeps the ordering rule.
#[verifier::spinoff_prover]
#[verifier::rlimit(60)]
proof fn lemma_push_serv_wf(k: Seq<TabKey>, x: TabKey)
    requires
        keys_wf(k),
        x.0 == 0,
        forall|j: int| 0 <= j < k.len() ==> #[trigger] k[j].1 != x.1,
    ensures
        keys_wf(k.push(x)),
{
    reveal(keys_wf);
    let k2 = k.push(x);
    assert forall|i: int, j: int, l: int|
        #![trigger k2[i], k2[j], k2[l]]
        0 <= i < j < l < k2.len() && k2[i].1 == k2[l].1 implies k2[j].1 == k2[i].1 by {
        if l == k.len() {
            assert(k[i] == k[i]);
        } else {
            assert(k[i] == k[i] && k[j] == k[j] && k[l] == k[l]);
        }
    }
    assert forall|i: int|
        #![trigger k2[i]]
        0 <= i < k2.len() && (i == 0 || k2[i - 1].1 != k2[i].1) implies k2[i].0 == 0 by {
        if i < k.len() {
            assert(k[i] == k[i]);
        }
    }
    assert forall|i: int, j: int| 0 <= i < j < k2.len() implies k2[i] != k2[j] by {
        if j < k.len() {
            assert(k[i] != k[j]);
        } else {
            assert(k[i] == k[i]);
        }
    }
}

/// Removing the tabs at `a..b` keeps the ordering rule when the tab after
/// them is a server's tab, or when they lie inside one server's group.
#[verifier::spinoff_prover]
#[verifier::rlimit(60)]
proof fn lemma_remove_range_wf(k: Seq<TabKey>, a: int, b: int)
    requires
        keys_wf(k),
        0 <= a <= b <= k.len(),
        b == k.len() || k[b].0 == 0 || (0 < a && k[a - 1].1 == k[b].1),
    ensures
        keys_wf(k.subrange(0, a) + k.subrange(b, k.len() as int)),
{
    reveal(keys_wf);
    let k2 = k.subrange(0, a) + k.subrange(b, k.len() as int);
    let d = b - a;
    assert forall|i: int| 0 <= i < k2.len() implies #[trigger] k2[i] == k[if i < a { i } else { i + d }] by {}
    assert forall|i: int, j: int, l: int|
        #![trigger k2[i], k2[j], k2[l]]
        0 <= i < j < l < k2.len() && k2[i].1 == k2[l].1 implies k2[j].1 == k2[i].1 by {
        let oi = if i < a { i } else { i + d };
        let oj = if j < a { j } else { j + d };
        let ol = if l < a { l } else { l + d };
        assert(k[oi] == k2[i] && k[oj] == k2[j] && k[ol] == k2[l]);
    }
    assert forall|i: int|
        #![trigger k2[i]]
        0 <= i < k2.len() && (i == 0 || k2[i - 1].1 != k2[i].1) implies k2[i].0 == 0 by {
        let oi = if i < a { i } else { i + d };
        assert(k[oi] == k2[i]);
        if i == a && d > 0 {
            if k[b].0 != 0 {
                assert(k2[a - 1] == k[a - 1]);
            }
        } else if i > 0 {
            let op = if i - 1 < a { i - 1 } else { i - 1 + d };
            assert(k[op] == k2[i - 1]);
            assert(op == oi - 1);
        }
    }
    assert forall|i: int, j: int| 0 <= i < j < k2.len() implies k2[i] != k2[j] by {
        let oi = if i < a { i } else { i + d };
        let oj = if j < a { j } else { j + d };
        assert(k[oi] == k2[i] && k[oj] == k2[j]);
    }
}

/// Removing a channel or privmsg tab keeps the ordering rule.
proof fn lemma_remove_one_wf(k: Seq<TabKey>, idx: int)
    requires
        keys_wf(k),
        0 <= idx < k.len(),
        k[idx].0 != 0,
    ensures
        keys_wf(k.subrange(0, idx) + k.subrange(idx + 1, k.len() as int)),
        k.remove(idx) == k.subrange(0, idx) + k.subrange(idx + 1, k.len() as int),
{
    reveal(keys_wf);
    if idx + 1 < k.len() && k[idx + 1].1 != k[idx].1 {
        assert(k[idx + 1] == k[idx + 1]);
    }
    assert(k[idx] == k[idx]);
    lemma_remove_range_wf(k, idx, idx + 1);
    assert(k.remove(idx) =~= k.subrange(0, idx) + k.subrange(idx + 1, k.len() as int));
}

/// Every tab of `new` whose server is not `s` was already a tab of `old`,
/// unchanged.
pub open spec fn kept_outside(old: Seq<Tab>, new: Seq<Tab>, s: Seq<char>) -> bool {
    forall|i: int| 0 <= i < new.len() && (#[trigger] tab_key(new[i])).1 != s ==> old.contains(new[i])
}

pub proof fn lemma_kept_trans(a: Seq<Tab>, b: Seq<Tab>, c: Seq<Tab>, s: Seq<char>)
    requires
        kept_outside(a, b, s),
        kept_outside(b, c, s),
    ensures
        kept_outside(a, c, s),
{
    assert forall|i: int| 0 <= i < c.len() && (#[trigger] tab_key(c[i])).1 != s implies a.contains(c[i]) by {
        let j = choose|j: int| 0 <= j < b.len() && b[j] == c[i];
        assert(tab_key(b[j]).1 != s);
    }
}

pub proof fn lemma_kept_refl(a: Seq<Tab>, s: Seq<char>)
    ensures
        kept_outside(a, a, s),
{
    assert forall|i: int| 0 <= i < a.len() && (#[trigger] tab_key(a[i])).1 != s implies a.contains(a[i]) by {
        assert(a[i] == a[i]);
    }
}

/// Renaming a privmsg tab to a key that no tab has keeps the ordering rule.
proof fn lemma_rename_wf(k: Seq<TabKey>, i: int, x: TabKey)
    requires
        keys_wf(k),
        0 <= i < k.len(),
        k[i].0 == 2,
        x.0 == 2,
        x.1 == k[i].1,
        !k.contains(x),
    ensures
        keys_wf(k.update(i, x)),
{
    reveal(keys_wf);
    let k2 = k.update(i, x);
    assert forall|a: int, b: int, c: int|
        #![trigger k2[a], k2[b], k2[c]]
        0 <= a < b < c < k2.len() && k2[a].1 == k2[c].1 implies k2[b].1 == k2[a].1 by {
        assert(k[a] == k[a] && k[b] == k[b] && k[c] == k[c]);
    }
    assert forall|a: int|
        #![trigger k2[a]]
        0 <= a < k2.len() && (a == 0 || k2[a - 1].1 != k2[a].1) implies k2[a].0 == 0 by {
        assert(k[a] == k[a]);
        if a > 0 {
            assert(k[a - 1] == k[a - 1]);
        }
    }
    assert forall|a: int, b: int| 0 <= a < b < k2.len() implies k2[a] != k2[b] by {
        if a != i && b != i {
            assert(k[a] != k[b]);
        } else if a == i {
            assert(k.contains(k[b]));
        } else {
            assert(k.contains(k[a]));
        }
    }
}

/// Keys are unique.
proof fn lemma_key_unique(k: Seq<TabKey>, i: int, j: int)
    requires
        keys_wf(k),
        0 <= i < k.len(),
        0 <= j < k.len(),
        k[i] == k[j],
    ensures
        i == j,
{
    reveal(keys_wf);
}

/// The tabs after removing `old[a..b]`: the rest in order, unchanged but for
/// the style of the tab that becomes active when the active tab was removed,
/// which is reset to `Normal`.
pub open spec fn after_removal(old: Seq<Tab>, old_active: int, new: Seq<Tab>, new_active: int, a: int, b: int) -> bool {
    let r = old.subrange(0, a) + old.subrange(b, old.len() as int);
    let reset = a <= old_active < b && r.len() > 0;
    &&& new.len() == r.len()
    &&& forall|i: int| 0 <= i < r.len() && !(reset && i == new_active) ==> #[trigger] new[i] == r[i]
    &&& reset ==> new[new_active].style == TabStyle::Normal && new[new_active].src == r[new_active].src
        && new[new_active].lines == r[new_active].lines && new[new_active].names == r[new_active].names
}

/// The tab list and the index of the active tab.
pub struct Tiny {
    tabs: Vec<Tab>,
    active_idx: usize,
    width: i32,
    height: i32,
    /// How far the tab bar is scrolled to the left, in columns.
    h_scroll: i32,
}

impl Tiny {
    pub closed spec fn tab_seq(&self) -> Seq<Tab> {
        self.tabs@
    }

    pub closed spec fn active(&self) -> int {
        self.active_idx as int
    }

    pub closed spec fn width_view(&self) -> i32 {
        self.width
    }

    pub closed spec fn height_view(&self) -> i32 {
        self.height
    }

    pub open spec fn keys(&self) -> Seq<TabKey> {
        self.tab_seq().map_values(|t: Tab| tab_key(t))
    }

    pub open spec fn wf(&self) -> bool {
        &&& keys_wf(self.keys())
        &&& self.tab_seq().len() == 0 ==> self.active() == 0
        &&& self.tab_seq().len() > 0 ==> 0 <= self.active() < self.tab_seq().len()
        &&& forall|i: int| 0 <= i < self.tab_seq().len() ==> (#[trigger] self.tab_seq()[i]).names.wf()
    }

    pub fn new(width: i32, height: i32) -> (r: Tiny)
        ensures
            r.wf(),
            r.tab_seq().len() == 0,
            r.width_view() == width,
            r.height_view() == height,
    {
        let r = Tiny { tabs: Vec::new(), active_idx: 0, width, height, h_scroll: 0 };
        assert(r.keys() =~= Seq::<TabKey>::empty());
        proof {
            reveal(keys_wf);
        }
        r
    }

    pub fn active_idx(&self) -> (r: usize)
        ensures
            r == self.active(),
    {
        self.active_idx
    }

    pub fn num_tabs(&self) -> (r: usize)
        ensures
            r == self.tab_seq().len(),
    {
        self.tabs.len()
    }

    pub fn tab(&self, i: usize) -> (r: &Tab)
        requires
            i < self.tab_seq().len(),
        ensures
            *r == self.tab_seq()[i as int],
    {
        &self.tabs[i]
    }
}

/// Whether a character is alphabetic, as Unicode's Alphabetic property says.
pub uninterp spec fn alphabetic(c: char) -> bool;

/// Relies on `char::is_alphabetic`: the answer depends on the character alone.
#[verifier::external_body]
fn is_alphabetic(c: char) -> (r: bool)
    ensures
        r == alphabetic(c),
{
    c.is_alphabetic()
}

/// How many tabs have `c` as switch key.
pub open spec fn key_count(tabs: Seq<Tab>, c: char) -> nat
    decreases tabs.len(),
{
    if tabs.len() == 0 {
        0
    } else {
        key_count(tabs.drop_last(), c) + if tabs.last().switch == Some(c) {
            1nat
        } else {
            0nat
        }
    }
}

/// The switch key for a new tab named `name`: the first alphabetic character
/// of the name among those that the fewest tabs use; none without one.
#[verifier::opaque]
pub open spec fn is_switch_key(name: Seq<char>, tabs: Seq<Tab>, r: Option<char>) -> bool {
    match r {
        None => forall|q: int| 0 <= q < name.len() ==> !alphabetic(#[trigger] name[q]),
        Some(c) => exists|p: int|
            #![trigger name[p]]
            0 <= p < name.len() && name[p] == c && alphabetic(c) && (forall|q: int|
                0 <= q < name.len() && alphabetic(#[trigger] name[q]) ==> key_count(tabs, name[q])
                    >= key_count(tabs, c)) && (forall|q: int|
                0 <= q < p && alphabetic(#[trigger] name[q]) ==> key_count(tabs, name[q])
                    > key_count(tabs, c)),
    }
}

pub open spec fn src_matches(src: MsgSource, kind: int, serv: Seq<char>, name: Seq<char>) -> bool {
    src_key(src) == (kind, serv, name)
}

fn src_is(src: &MsgSource, kind: u8, serv: &str, name: &str) -> (r: bool)
    ensures
        r == (src_key(*src) == (kind as int, serv@, name_key(kind as int, name@))),
{
    match src {
        MsgSource::Serv { serv_name } => kind == 0 && str_eq(serv_name.as_str(), serv) && str_eq(
            serv_name.as_str(),
            name,
        ),
        MsgSource::Chan { serv_name, chan_name } => kind == 1 && str_eq(serv_name.as_str(), serv)
            && str_eq(chan_name.as_str(), name),
        MsgSource::User { serv_name, nick } => kind == 2 && str_eq(serv_name.as_str(), serv)
            && eq_ignore_case(nick.as_str(), name),
    }
}

impl Tiny {
    fn find_key(&self, kind: u8, serv: &str, name: &str) -> (r: Option<usize>)
        ensures
            match r {
                Some(i) => i < self.keys().len() && self.keys()[i as int] == (
                    kind as int,
                    serv@,
                    name_key(kind as int, name@),
                ),
                None => !self.keys().contains((kind as int, serv@, name_key(kind as int, name@))),
            },
    {
        let mut i: usize = 0;
        while i < self.tabs.len()
            invariant
                i <= self.tabs@.len(),
                forall|j: int| 0 <= j < i ==> self.keys()[j] != (kind as int, serv@, name_key(kind as int, name@)),
            decreases self.tabs@.len() - i,
        {
            if src_is(&self.tabs[i].src, kind, serv, name) {
                return Some(i);
            }
            i = i + 1;
        }
        None
    }

    pub fn find_serv_tab_idx(&self, serv_name: &str) -> (r: Option<usize>)
        ensures
            match r {
                Some(i) => i < self.keys().len() && self.keys()[i as int] == serv_key(serv_name@),
                None => !self.keys().contains(serv_key(serv_name@)),
            },
    {
        self.find_key(0, serv_name, serv_name)
    }

    pub fn find_chan_tab_idx(&self, serv_name: &str, chan_name: &str) -> (r: Option<usize>)
        ensures
            match r {
                Some(i) => i < self.keys().len() && self.keys()[i as int] == chan_key(
                    serv_name@,
                    chan_name@,
                ),
                None => !self.keys().contains(chan_key(serv_name@, chan_name@)),
            },
    {
        self.find_key(1, serv_name, chan_name)
    }

    pub fn find_user_tab_idx(&self, serv_name: &str, nick: &str) -> (r: Option<usize>)
        ensures
            match r {
                Some(i) => i < self.keys().len() && self.keys()[i as int] == user_key(
                    serv_name@,
                    nick@,
                ),
                None => !self.keys().contains(user_key(serv_name@, nick@)),
            },
    {
        self.find_key(2, serv_name, nick)
    }

    /// Index of the last tab of the given server.
    pub fn find_last_serv_tab_idx(&self, serv_name: &str) -> (r: Option<usize>)
        ensures
            match r {
                Some(i) => i < self.keys().len() && self.keys()[i as int].1 == serv_name@ && forall|
                    j: int,
                | i < j < self.keys().len() ==> #[trigger] self.keys()[j].1 != serv_name@,
                None => forall|j: int|
                    0 <= j < self.keys().len() ==> #[trigger] self.keys()[j].1 != serv_name@,
            },
    {
        let mut i: usize = self.tabs.len();
        while i > 0
            invariant
                i <= self.tabs@.len(),
                forall|j: int| i <= j < self.keys().len() ==> #[trigger] self.keys()[j].1 != serv_name@,
            decreases i,
        {
            if str_eq(self.tabs[i - 1].src.serv_name(), serv_name) {
                return Some(i - 1);
            }
            i = i - 1;
        }
        None
    }

    /// Whether a privmsg tab for `nick` on the server exists.
    pub fn does_user_tab_exist(&self, serv_name: &str, nick: &str) -> (r: bool)
        ensures
            r == self.keys().contains(user_key(serv_name@, nick@)),
    {
        self.find_user_tab_idx(serv_name, nick).is_some()
    }

    fn count_key(&self, c: char) -> (r: usize)
        ensures
            r == key_count(self.tab_seq(), c),
    {
        let mut n: usize = 0;
        let mut i: usize = 0;
        while i < self.tabs.len()
            invariant
                i <= self.tabs@.len(),
                n == key_count(self.tabs@.subrange(0, i as int), c),
                n <= i,
            decreases self.tabs@.len() - i,
        {
            assert(self.tabs@.subrange(0, i + 1).drop_last() =~= self.tabs@.subrange(0, i as int));
            if self.tabs[i].switch == Some(c) {
                n = n + 1;
            }
            i = i + 1;
        }
        assert(self.tabs@.subrange(0, i as int) =~= self.tabs@);
        n
    }

    /// The switch key for a new tab with the given visible name.
    fn switch_key_for(&self, name: &str) -> (r: Option<char>)
        ensures
            is_switch_key(name@, self.tab_seq(), r),
    {
        let len = name.unicode_len();
        let mut ret: Option<char> = None;
        let mut n: usize = 0;
        let ghost mut p: int = 0;
        let mut i: usize = 0;
        while i < len
            invariant
                len == name@.len(),
                i <= len,
                match ret {
                    None => forall|q: int| 0 <= q < i ==> !alphabetic(#[trigger] name@[q]),
                    Some(c) => 0 <= p < i && name@[p] == c && alphabetic(c) && n == key_count(
                        self.tab_seq(),
                        c,
                    ) && (forall|q: int|
                        0 <= q < i && alphabetic(#[trigger] name@[q]) ==> key_count(
                            self.tab_seq(),
                            name@[q],
                        ) >= n) && (forall|q: int|
                        0 <= q < p && alphabetic(#[trigger] name@[q]) ==> key_count(
                            self.tab_seq(),
                            name@[q],
                        ) > n),
                },
            decreases len - i,
        {
            let ch = name.get_char(i);
            if is_alphabetic(ch) {
                let m = self.count_key(ch);
                if ret.is_none() || m < n {
                    ret = Some(ch);
                    n = m;
                    proof {
                        p = i as int;
                    }
                }
            }
            i = i + 1;
        }
        proof {
            reveal(is_switch_key);
            if let Some(c) = ret {
                assert(name@[p] == c);
            }
        }
        ret
    }

    /// Inserts a tab at `idx`; the active tab stays the same tab.
    fn new_tab(&mut self, idx: usize, src: MsgSource, ignore: bool, notifier: Notifier)
        requires
            idx <= old(self).tab_seq().len(),
            old(self).tab_seq().len() == 0 ==> old(self).active() == 0,
            old(self).tab_seq().len() > 0 ==> old(self).active() < old(self).tab_seq().len(),
            forall|i: int|
                0 <= i < old(self).tab_seq().len() ==> (#[trigger] old(self).tab_seq()[i]).names.wf(),
        ensures
            final(self).keys() == old(self).keys().insert(idx as int, src_key(src)),
            final(self).tab_seq().len() == old(self).tab_seq().len() + 1,
            final(self).tab_seq()[idx as int].src == src,
            final(self).tab_seq()[idx as int].style == TabStyle::Normal,
            final(self).tab_seq()[idx as int].ignore == ignore,
            final(self).tab_seq()[idx as int].notifier == notifier,
            final(self).tab_seq()[idx as int].lines@.len() == 0,
            is_switch_key(src.visible_view(), old(self).tab_seq(), final(self).tab_seq()[idx as int].switch),
            forall|i: int| 0 <= i < idx ==> #[trigger] final(self).tab_seq()[i] == old(self).tab_seq()[i],
            forall|i: int|
                idx < i < final(self).tab_seq().len() ==> #[trigger] final(self).tab_seq()[i] == old(self).tab_seq()[i - 1],
            final(self).active() == if old(self).tab_seq().len() > 0 && old(self).active() >= idx {
                old(self).active() + 1
            } else {
                old(self).active()
            },
            forall|i: int|
                0 <= i < final(self).tab_seq().len() ==> (#[trigger] final(self).tab_seq()[i]).names.wf(),
            final(self).width_view() == old(self).width_view(),
            final(self).height_view() == old(self).height_view(),
            kept_outside(old(self).tab_seq(), final(self).tab_seq(), src.serv_view()),
    {
        let switch = self.switch_key_for(src.visible_name());
        let names = NameList::new(self.width, self.height);
        let tab = Tab {
            src,
            style: TabStyle::Normal,
            switch,
            notifier,
            ignore,
            nick: None,
            topic: None,
            names,
            lines: Vec::new(),
        };
        let had = self.tabs.len() > 0;
        self.tabs.insert(idx, tab);
        if had && self.active_idx >= idx {
            self.active_idx = self.active_idx + 1;
        }
        assert(self.keys() =~= old(self).keys().insert(idx as int, src_key(src)));
        proof {
            let o = old(self).tab_seq();
            let f = self.tab_seq();
            assert forall|i: int| 0 <= i < f.len() && (#[trigger] tab_key(f[i])).1 != src.serv_view() implies o.contains(f[i]) by {
                if i < idx {
                    assert(f[i] == o[i]);
                } else if i > idx {
                    assert(f[i] == o[i - 1]);
                } else {
                    assert(tab_key(f[i]) == src_key(src));
                }
            }
        }
    }

    /// Opens a tab for a server that has none, at the end of the list.
    /// Returns its index, or `None` if the server already has a tab.
    pub fn new_server_tab_(&mut self, serv_name: &str) -> (r: Option<usize>)
        requires
            old(self).wf(),
        ensures
            final(self).wf(),
            old(self).keys().contains(serv_key(serv_name@)) ==> r is None && final(self).keys()
                == old(self).keys() && final(self).active() == old(self).active(),
            !old(self).keys().contains(serv_key(serv_name@)) ==> r == Some(
                old(self).keys().len() as usize,
            ) && final(self).keys() == old(self).keys().push(serv_key(serv_name@)) && final(self).active() == old(self).active()
                && final(self).tab_seq()[old(self).tab_seq().len() as int].lines@.len() == 0,
            forall|i: int| 0 <= i < old(self).tab_seq().len() ==> #[trigger] final(self).tab_seq()[i] == old(self).tab_seq()[i],
            kept_outside(old(self).tab_seq(), final(self).tab_seq(), serv_name@),
    {
        proof {
            lemma_kept_refl(self.tab_seq(), serv_name@);
        }
        match self.find_serv_tab_idx(serv_name) {
            Some(_) => None,
            None => {
                let idx = self.tabs.len();
                proof {
                    let k = self.keys();
                    assert forall|j: int| 0 <= j < k.len() implies #[trigger] k[j].1 != serv_name@ by {
                        if k[j].1 == serv_name@ {
                            self.lemma_group_has_serv_tab(j);
                        }
                    }
                    lemma_push_serv_wf(k, serv_key(serv_name@));
                }
                self.new_tab(
                    idx,
                    MsgSource::Serv { serv_name: serv_name.to_owned() },
                    false,
                    Notifier::Mentions,
                );
                assert(old(self).keys().insert(idx as int, serv_key(serv_name@)) =~= old(self).keys().push(serv_key(serv_name@)));
                Some(idx)
            },
        }
    }

    /// Every tab's server has a server tab.
    proof fn lemma_group_has_serv_tab(&self, j: int)
        requires
            keys_wf(self.keys()),
            0 <= j < self.keys().len(),
        ensures
            self.keys().contains(serv_key(self.keys()[j].1)),
        decreases j,
    {
        reveal(keys_wf);
        let k = self.keys();
        if j == 0 || k[j - 1].1 != k[j].1 {
            assert(k[j].0 == 0);
            assert(k[j] == serv_key(k[j].1) || k[j].2 != k[j].1);
            self.lemma_serv_key_shape(j);
        } else {
            self.lemma_group_has_serv_tab(j - 1);
        }
    }

    /// A server tab's key names the server twice.
    proof fn lemma_serv_key_shape(&self, j: int)
        requires
            0 <= j < self.keys().len(),
            self.keys()[j].0 == 0,
        ensures
            self.keys()[j] == serv_key(self.keys()[j].1),
    {
        let t = self.tab_seq()[j];
        assert(self.keys()[j] == tab_key(t));
    }
}

/// The keys after a channel or privmsg tab for server `s` is opened: a
/// server tab is appended first where `s` has none, then the new key stands
/// right after the last tab of `s`.
pub open spec fn with_serv(k: Seq<TabKey>, s: Seq<char>) -> Seq<TabKey> {
    if k.contains(serv_key(s)) {
        k
    } else {
        k.push(serv_key(s))
    }
}

pub open spec fn opened_keys(k: Seq<TabKey>, s: Seq<char>, x: TabKey, idx: int) -> bool {
    let base = with_serv(k, s);
    &&& 0 < idx <= base.len()
    &&& base[idx - 1].1 == s
    &&& forall|j: int| idx <= j < base.len() ==> #[trigger] base[j].1 != s
}

/// The keys `new` are the keys `old` with the tab of key `k` opened: a
/// server tab at the end, or a channel or privmsg tab after the last tab of
/// its server (whose server tab is appended first where there is none).
pub open spec fn opened(old: Seq<TabKey>, new: Seq<TabKey>, k: TabKey) -> bool {
    if k.0 == 0 {
        new == old.push(k)
    } else {
        exists|r: int| opened_keys(old, k.1, k, r) && new == with_serv(old, k.1).insert(r, k)
    }
}

/// Where the active index goes when the tabs at `a..b` are removed: it
/// follows the tab it was on, or falls to the tab before `a`.
pub open spec fn active_after_removal(active: int, a: int, b: int, new_len: int) -> int {
    if new_len == 0 {
        0
    } else if a <= active < b {
        if a == 0 {
            0
        } else {
            a - 1
        }
    } else if active >= b {
        active - (b - a)
    } else {
        active
    }
}

impl Tiny {
    /// The first tab of a server's group is its server tab.
    proof fn lemma_first_of_group(&self, j: int) -> (f: int)
        requires
            keys_wf(self.keys()),
            0 <= j < self.keys().len(),
        ensures
            0 <= f <= j,
            self.keys()[f] == serv_key(self.keys()[j].1),
        decreases j,
    {
        reveal(keys_wf);
        let k = self.keys();
        if j == 0 || k[j - 1].1 != k[j].1 {
            self.lemma_serv_key_shape(j);
            j
        } else {
            self.lemma_first_of_group(j - 1)
        }
    }

    /// Makes sure the server has a tab; returns the index of its last tab.
    fn serv_group_end(&mut self, serv_name: &str) -> (r: usize)
        requires
            old(self).wf(),
        ensures
            final(self).wf(),
            final(self).keys() == with_serv(old(self).keys(), serv_name@),
            final(self).active() == old(self).active(),
            r < final(self).keys().len(),
            final(self).keys()[r as int].1 == serv_name@,
            forall|j: int| r < j < final(self).keys().len() ==> #[trigger] final(self).keys()[j].1 != serv_name@,
            final(self).keys().contains(serv_key(serv_name@)),
            kept_outside(old(self).tab_seq(), final(self).tab_seq(), serv_name@),
    {
        proof {
            lemma_kept_refl(self.tab_seq(), serv_name@);
        }
        match self.find_last_serv_tab_idx(serv_name) {
            Some(i) => {
                proof {
                    let f = self.lemma_first_of_group(i as int);
                }
                i
            },
            None => {
                proof {
                    if self.keys().contains(serv_key(serv_name@)) {
                        let j = choose|j: int|
                            0 <= j < self.keys().len() && self.keys()[j] == serv_key(serv_name@);
                        assert(self.keys()[j].1 == serv_name@);
                    }
                }
                self.new_server_tab_(serv_name);
                proof {
                    assert(self.keys()[self.keys().len() - 1] == serv_key(serv_name@));
                }
                self.tabs.len() - 1
            },
        }
    }

    /// Gives a new channel or privmsg tab our nick from its server tab; a
    /// privmsg tab also lists its nick.
    fn init_sub_tab(&mut self, idx: usize, serv_idx: usize, kind: u8, name: &str)
        requires
            old(self).wf(),
            idx < old(self).tab_seq().len(),
            serv_idx < old(self).tab_seq().len(),
        ensures
            final(self).wf(),
            final(self).keys() == old(self).keys(),
            final(self).active() == old(self).active(),
            final(self).tab_seq()[idx as int].lines == old(self).tab_seq()[idx as int].lines,
            final(self).tab_seq().len() == old(self).tab_seq().len(),
            forall|j: int| 0 <= j < final(self).tab_seq().len() && j != idx ==> #[trigger] final(self).tab_seq()[j] == old(self).tab_seq()[j],
            final(self).tab_seq()[idx as int].src == old(self).tab_seq()[idx as int].src,
            kind == 2 ==> final(self).tab_seq()[idx as int].names.members().contains(nick_key(name@)),
    {
        let nick = match &self.tabs[serv_idx].nick {
            Some(n) => Some(n.as_str().to_owned()),
            None => None,
        };
        self.tabs[idx].nick = nick;
        if kind == 2 {
            self.tabs[idx].names.join(name);
        }
        assert(self.keys() =~= old(self).keys());
    }

    /// Inserts a channel or privmsg tab at `idx`, inheriting the ignore flag
    /// and notifier of its server's tab.
    fn insert_sub_tab(&mut self, idx: usize, kind: u8, serv_name: &str, name: &str)
        requires
            old(self).wf(),
            kind == 1 || kind == 2,
            0 < idx <= old(self).tab_seq().len(),
            keys_wf(old(self).keys().insert(idx as int, (kind as int, serv_name@, name_key(kind as int, name@)))),
        ensures
            final(self).wf(),
            final(self).keys() == old(self).keys().insert(idx as int, (kind as int, serv_name@, name_key(kind as int, name@))),
            final(self).active() == if old(self).tab_seq().len() > 0 && old(self).active() >= idx {
                old(self).active() + 1
            } else {
                old(self).active()
            },
            final(self).tab_seq()[idx as int].lines@.len() == 0,
            kept_outside(old(self).tab_seq(), final(self).tab_seq(), serv_name@),
            kind == 2 ==> final(self).tab_seq()[idx as int].names.members().contains(nick_key(name@)),
    {
        let serv_idx = match self.find_serv_tab_idx(serv_name) {
            Some(i) => i,
            None => idx - 1,
        };
        let ignore = if kind == 1 {
            self.tabs[serv_idx].ignore
        } else {
            false
        };
        let notifier = if kind == 1 {
            self.tabs[serv_idx].notifier
        } else {
            Notifier::Messages
        };
        let src = if kind == 1 {
            MsgSource::Chan { serv_name: serv_name.to_owned(), chan_name: name.to_owned() }
        } else {
            MsgSource::User { serv_name: serv_name.to_owned(), nick: name.to_owned() }
        };
        self.new_tab(idx, src, ignore, notifier);
        let n = self.tabs.len();
        let serv_idx = if serv_idx < idx { serv_idx } else { serv_idx + 1 };
        let ghost mid = self.tab_seq();
        self.init_sub_tab(idx, serv_idx, kind, name);
        proof {
            let f = self.tab_seq();
            assert forall|i: int| 0 <= i < f.len() && (#[trigger] tab_key(f[i])).1 != serv_name@ implies old(self).tab_seq().contains(f[i]) by {
                if i != idx {
                    assert(f[i] == mid[i]);
                    assert(tab_key(mid[i]).1 != serv_name@);
                } else {
                    assert(f[i].src == mid[i].src);
                }
            }
        }
    }

    /// Opens a channel or privmsg tab after the last tab of its server,
    /// opening the server tab first where there is none.
    fn new_sub_tab(&mut self, kind: u8, serv_name: &str, name: &str) -> (r: usize)
        requires
            old(self).wf(),
            kind == 1 || kind == 2,
            !old(self).keys().contains((kind as int, serv_name@, name_key(kind as int, name@))),
        ensures
            final(self).wf(),
            opened_keys(old(self).keys(), serv_name@, (kind as int, serv_name@, name_key(kind as int, name@)), r as int),
            final(self).keys() == with_serv(old(self).keys(), serv_name@).insert(r as int, (kind as int, serv_name@, name_key(kind as int, name@))),
            final(self).active() == if old(self).tab_seq().len() > 0 && old(self).active() >= r {
                old(self).active() + 1
            } else {
                old(self).active()
            },
            r < final(self).tab_seq().len(),
            final(self).tab_seq()[r as int].lines@.len() == 0,
            kept_outside(old(self).tab_seq(), final(self).tab_seq(), serv_name@),
            kind == 2 ==> final(self).tab_seq()[r as int].names.members().contains(nick_key(name@)),
    {
        let last = self.serv_group_end(serv_name);
        let ghost mid = self.tab_seq();
        let ghost base = self.keys();
        let n = self.tabs.len();
        let idx = last + 1;
        proof {
            let x = (kind as int, serv_name@, name_key(kind as int, name@));
            assert(!base.contains(x)) by {
                if base.contains(x) {
                    let j = choose|j: int| 0 <= j < base.len() && base[j] == x;
                    if j < old(self).keys().len() {
                        assert(old(self).keys()[j] == base[j]);
                    }
                }
            }
            lemma_insert_wf(base, idx as int, x);
        }
        self.insert_sub_tab(idx, kind, serv_name, name);
        assert(self.keys().len() == self.tab_seq().len());
        proof {
            lemma_kept_trans(old(self).tab_seq(), mid, self.tab_seq(), serv_name@);
        }
        idx
    }

    /// Opens a channel tab after the last tab of its server (opening the
    /// server tab first where there is none). Returns its index, or `None` if
    /// the channel already has a tab.
    pub fn new_chan_tab_(&mut self, serv_name: &str, chan_name: &str) -> (r: Option<usize>)
        requires
            old(self).wf(),
        ensures
            final(self).wf(),
            old(self).keys().contains(chan_key(serv_name@, chan_name@)) ==> r is None && final(self).keys() == old(self).keys() && final(self).active() == old(self).active(),
            !old(self).keys().contains(chan_key(serv_name@, chan_name@)) ==> r is Some
                && opened_keys(old(self).keys(), serv_name@, chan_key(serv_name@, chan_name@), r->0 as int)
                && r->0 < final(self).tab_seq().len() && final(self).tab_seq()[r->0 as int].lines@.len() == 0
                && final(self).keys() == with_serv(old(self).keys(), serv_name@).insert(r->0 as int, chan_key(serv_name@, chan_name@))
                && final(self).active() == if old(self).tab_seq().len() > 0 && old(self).active() >= r->0 {
                    old(self).active() + 1
                } else {
                    old(self).active()
                },
            kept_outside(old(self).tab_seq(), final(self).tab_seq(), serv_name@),
    {
        proof {
            lemma_kept_refl(self.tab_seq(), serv_name@);
        }
        match self.find_chan_tab_idx(serv_name, chan_name) {
            Some(_) => None,
            None => Some(self.new_sub_tab(1, serv_name, chan_name)),
        }
    }

    /// Opens a privmsg tab after the last tab of its server (opening the
    /// server tab first where there is none). Returns its index, or `None` if
    /// the nick already has a tab.
    pub fn new_user_tab_(&mut self, serv_name: &str, nick: &str) -> (r: Option<usize>)
        requires
            old(self).wf(),
        ensures
            final(self).wf(),
            old(self).keys().contains(user_key(serv_name@, nick@)) ==> r is None && final(self).keys() == old(self).keys() && final(self).active() == old(self).active(),
            !old(self).keys().contains(user_key(serv_name@, nick@)) ==> r is Some
                && opened_keys(old(self).keys(), serv_name@, user_key(serv_name@, nick@), r->0 as int)
                && r->0 < final(self).tab_seq().len() && final(self).tab_seq()[r->0 as int].lines@.len() == 0
                && final(self).tab_seq()[r->0 as int].names.members().contains(nick_key(nick@))
                && final(self).keys() == with_serv(old(self).keys(), serv_name@).insert(r->0 as int, user_key(serv_name@, nick@))
                && final(self).active() == if old(self).tab_seq().len() > 0 && old(self).active() >= r->0 {
                    old(self).active() + 1
                } else {
                    old(self).active()
                },
            kept_outside(old(self).tab_seq(), final(self).tab_seq(), serv_name@),
    {
        proof {
            lemma_kept_refl(self.tab_seq(), serv_name@);
        }
        match self.find_user_tab_idx(serv_name, nick) {
            Some(_) => None,
            None => Some(self.new_sub_tab(2, serv_name, nick)),
        }
    }
}

impl Tiny {
    /// Sets the style of tab `i`, keeping everything else.
    fn put_style(&mut self, i: usize, style: TabStyle)
        requires
            old(self).wf(),
            i < old(self).tab_seq().len(),
        ensures
            final(self).wf(),
            final(self).keys() == old(self).keys(),
            final(self).active() == old(self).active(),
            final(self).tab_seq().len() == old(self).tab_seq().len(),
            final(self).tab_seq()[i as int].style == style,
            forall|j: int|
                0 <= j < final(self).tab_seq().len() && j != i ==> #[trigger] final(self).tab_seq()[j]
                    == old(self).tab_seq()[j],
            final(self).tab_seq()[i as int].lines == old(self).tab_seq()[i as int].lines,
            final(self).tab_seq()[i as int].src == old(self).tab_seq()[i as int].src,
            final(self).tab_seq()[i as int].names == old(self).tab_seq()[i as int].names,
    {
        self.tabs[i].style = style;
        assert(self.keys() =~= old(self).keys());
    }

    /// Removes the tabs at `a..b`. When the active tab is among them, the tab
    /// before `a` becomes active (the first tab if `a` is 0) and its style is
    /// reset; otherwise the active tab stays the same tab.
    fn remove_range(&mut self, a: usize, b: usize)
        requires
            old(self).wf(),
            a < b <= old(self).tab_seq().len(),
            keys_wf(old(self).keys().subrange(0, a as int) + old(self).keys().subrange(
                b as int,
                old(self).keys().len() as int,
            )),
        ensures
            final(self).wf(),
            final(self).keys() == old(self).keys().subrange(0, a as int) + old(self).keys().subrange(
                b as int,
                old(self).keys().len() as int,
            ),
            final(self).active() == active_after_removal(
                old(self).active(),
                a as int,
                b as int,
                old(self).tab_seq().len() - (b - a),
            ),
            after_removal(old(self).tab_seq(), old(self).active(), final(self).tab_seq(), final(self).active(), a as int, b as int),
    {
        let ghost n = old(self).tabs@.len();
        let mut c: usize = b - a;
        while c > 0
            invariant
                a < b <= n,
                n == old(self).tabs@.len(),
                c <= b - a,
                self.active_idx == old(self).active_idx,
                self.width == old(self).width,
                self.height == old(self).height,
                self.tabs@ == old(self).tabs@.subrange(0, a as int) + old(self).tabs@.subrange(
                    b - c,
                    n as int,
                ),
            decreases c,
        {
            self.tabs.remove(a);
            c = c - 1;
            assert(self.tabs@ =~= old(self).tabs@.subrange(0, a as int) + old(self).tabs@.subrange(
                b - c,
                n as int,
            ));
        }
        assert(self.keys() =~= old(self).keys().subrange(0, a as int) + old(self).keys().subrange(
            b as int,
            old(self).keys().len() as int,
        ));
        let len = self.tabs.len();
        let removed_active = a <= self.active_idx && self.active_idx < b;
        if len == 0 {
            self.active_idx = 0;
        } else if removed_active {
            self.active_idx = if a == 0 {
                0
            } else {
                a - 1
            };
        } else if self.active_idx >= b {
            self.active_idx = self.active_idx - (b - a);
        }
        assert forall|i: int| 0 <= i < self.tab_seq().len() implies (#[trigger] self.tab_seq()[i]).names.wf() by {
            if i < a {
                assert(self.tab_seq()[i] == old(self).tab_seq()[i]);
            } else {
                assert(self.tab_seq()[i] == old(self).tab_seq()[i + (b - a)]);
            }
        }
        let ghost r = self.tab_seq();
        assert(r =~= old(self).tab_seq().subrange(0, a as int) + old(self).tab_seq().subrange(b as int, old(self).tab_seq().len() as int));
        if len > 0 && removed_active {
            let act = self.active_idx;
            self.put_style(act, TabStyle::Normal);
        }
    }

    /// Closes a server's tab and all tabs of that server.
    pub fn close_server_tab(&mut self, serv_name: &str)
        requires
            old(self).wf(),
        ensures
            final(self).wf(),
            !old(self).keys().contains(serv_key(serv_name@)) ==> final(self).keys() == old(self).keys()
                && final(self).active() == old(self).active(),
            old(self).keys().contains(serv_key(serv_name@)) ==> exists|a: int, b: int|
                0 <= a < b <= old(self).keys().len() && old(self).keys()[a] == serv_key(serv_name@)
                    && (forall|i: int|
                    0 <= i < old(self).keys().len() ==> (a <= i < b <==> #[trigger] old(self).keys()[i].1
                        == serv_name@)) && final(self).keys() == old(self).keys().subrange(0, a)
                    + old(self).keys().subrange(b, old(self).keys().len() as int) && final(self).active()
                    == active_after_removal(old(self).active(), a, b, old(self).keys().len() - (b - a))
                    && after_removal(old(self).tab_seq(), old(self).active(), final(self).tab_seq(), final(self).active(), a, b),
            !old(self).keys().contains(serv_key(serv_name@)) ==> final(self).tab_seq() == old(self).tab_seq(),
    {
        match self.find_serv_tab_idx(serv_name) {
            None => {},
            Some(a) => {
                let last = match self.find_last_serv_tab_idx(serv_name) {
                    Some(l) => l,
                    None => a,
                };
                let n = self.tabs.len();
                let b = last + 1;
                proof {
                    reveal(keys_wf);
                    let k = self.keys();
                    assert forall|i: int| 0 <= i < k.len() implies (a <= i < b <==> #[trigger] k[i].1 == serv_name@) by {
                        if a <= i < b {
                            assert(k[a as int] == k[a as int] && k[i] == k[i] && k[last as int] == k[last as int]);
                        }
                        if i < a && k[i].1 == serv_name@ {
                            let f = self.lemma_first_of_group(i);
                            assert(k[f] == k[a as int]);
                        }
                    }
                    lemma_remove_range_wf(k, a as int, b as int);
                }
                self.remove_range(a, b);
            },
        }
    }

    /// Closes tab `idx`, a channel or privmsg tab.
    fn close_sub_tab(&mut self, idx: usize)
        requires
            old(self).wf(),
            idx < old(self).tab_seq().len(),
            old(self).keys()[idx as int].0 != 0,
        ensures
            final(self).wf(),
            final(self).keys() == old(self).keys().remove(idx as int),
            final(self).active() == active_after_removal(
                old(self).active(),
                idx as int,
                idx + 1,
                old(self).tab_seq().len() - 1,
            ),
            after_removal(old(self).tab_seq(), old(self).active(), final(self).tab_seq(), final(self).active(), idx as int, idx + 1),
    {
        proof {
            lemma_remove_one_wf(self.keys(), idx as int);
        }
        let n = self.tabs.len();
        self.remove_range(idx, idx + 1);
    }

    /// Closes a channel's tab; when it was active, the tab before it becomes active.
    pub fn close_chan_tab(&mut self, serv_name: &str, chan_name: &str)
        requires
            old(self).wf(),
        ensures
            final(self).wf(),
            !old(self).keys().contains(chan_key(serv_name@, chan_name@)) ==> final(self).keys()
                == old(self).keys() && final(self).active() == old(self).active(),
            old(self).keys().contains(chan_key(serv_name@, chan_name@)) ==> exists|i: int|
                0 <= i < old(self).keys().len() && old(self).keys()[i] == chan_key(serv_name@, chan_name@)
                    && final(self).keys() == old(self).keys().remove(i) && final(self).active()
                    == active_after_removal(old(self).active(), i, i + 1, old(self).keys().len() - 1)
                    && after_removal(old(self).tab_seq(), old(self).active(), final(self).tab_seq(), final(self).active(), i, i + 1),
            !old(self).keys().contains(chan_key(serv_name@, chan_name@)) ==> final(self).tab_seq() == old(self).tab_seq(),
    {
        if let Some(i) = self.find_chan_tab_idx(serv_name, chan_name) {
            self.close_sub_tab(i);
        }
    }

    /// Closes a privmsg tab; when it was active, the tab before it becomes active.
    pub fn close_user_tab(&mut self, serv_name: &str, nick: &str)
        requires
            old(self).wf(),
        ensures
            final(self).wf(),
            !old(self).keys().contains(user_key(serv_name@, nick@)) ==> final(self).keys()
                == old(self).keys() && final(self).active() == old(self).active(),
            old(self).keys().contains(user_key(serv_name@, nick@)) ==> exists|i: int|
                0 <= i < old(self).keys().len() && old(self).keys()[i] == user_key(serv_name@, nick@)
                    && final(self).keys() == old(self).keys().remove(i) && final(self).active()
                    == active_after_removal(old(self).active(), i, i + 1, old(self).keys().len() - 1)
                    && after_removal(old(self).tab_seq(), old(self).active(), final(self).tab_seq(), final(self).active(), i, i + 1),
            !old(self).keys().contains(user_key(serv_name@, nick@)) ==> final(self).tab_seq() == old(self).tab_seq(),
    {
        if let Some(i) = self.find_user_tab_idx(serv_name, nick) {
            self.close_sub_tab(i);
        }
    }

    /// Makes tab `idx` active and resets its style.
    pub fn select_tab(&mut self, idx: usize)
        requires
            old(self).wf(),
            idx < old(self).tab_seq().len(),
        ensures
            final(self).wf(),
            final(self).keys() == old(self).keys(),
            final(self).active() == idx,
            final(self).tab_seq()[idx as int].style == TabStyle::Normal,
            forall|j: int| 0 <= j < final(self).tab_seq().len() && j != idx ==> #[trigger] final(self).tab_seq()[j] == old(self).tab_seq()[j],
            scrolled_to(widths(final(self).tab_seq()), idx as int, final(self).width_view() as int, final(self).scroll()),
    {
        self.active_idx = idx;
        self.put_style(idx, TabStyle::Normal);
        self.scroll_to_active();
    }

    /// Activates the next tab, the first after the last.
    pub fn next_tab(&mut self)
        requires
            old(self).wf(),
        ensures
            final(self).wf(),
            final(self).keys() == old(self).keys(),
            old(self).tab_seq().len() > 0 ==> final(self).active() == if old(self).active() + 1
                == old(self).tab_seq().len() {
                0
            } else {
                old(self).active() + 1
            },
    {
        let n = self.tabs.len();
        if n > 0 {
            let next = if self.active_idx + 1 == n {
                0
            } else {
                self.active_idx + 1
            };
            self.select_tab(next);
        }
    }

    /// Activates the previous tab, the last before the first.
    pub fn prev_tab(&mut self)
        requires
            old(self).wf(),
        ensures
            final(self).wf(),
            final(self).keys() == old(self).keys(),
            old(self).tab_seq().len() > 0 ==> final(self).active() == if old(self).active() == 0 {
                old(self).tab_seq().len() - 1
            } else {
                old(self).active() - 1
            },
    {
        let n = self.tabs.len();
        if n > 0 {
            let prev = if self.active_idx == 0 {
                n - 1
            } else {
                self.active_idx - 1
            };
            self.select_tab(prev);
        }
    }

    /// Activates the first tab whose visible name contains `string`; with no
    /// such tab the active tab stays.
    pub fn switch(&mut self, string: &str)
        requires
            old(self).wf(),
        ensures
            final(self).wf(),
            final(self).keys() == old(self).keys(),
            (exists|i: int| 0 <= i < old(self).keys().len() && contains_seq(#[trigger] old(self).tab_seq()[i].src.visible_view(), string@)) ==> (
                0 <= final(self).active() < old(self).keys().len()
                && contains_seq(old(self).tab_seq()[final(self).active()].src.visible_view(), string@)
                && forall|j: int| 0 <= j < final(self).active() ==> !contains_seq(#[trigger] old(self).tab_seq()[j].src.visible_view(), string@)),
            !(exists|i: int| 0 <= i < old(self).keys().len() && contains_seq(#[trigger] old(self).tab_seq()[i].src.visible_view(), string@))
                ==> final(self).active() == old(self).active(),
    {
        let mut i: usize = 0;
        while i < self.tabs.len()
            invariant
                self.wf(),
                self.keys() == old(self).keys(),
                self.tab_seq() == old(self).tab_seq(),
                self.active() == old(self).active(),
                i <= self.keys().len(),
                forall|j: int| 0 <= j < i ==> !contains_seq(#[trigger] self.tab_seq()[j].src.visible_view(), string@),
            decreases self.keys().len() - i,
        {
            if str_contains(self.tabs[i].src.visible_name(), string) {
                self.select_tab(i);
                return;
            }
            i = i + 1;
        }
    }
}

/// Whether tab `t`, at index `i` of a list whose active index is `active`,
/// receives what is sent to `target`.
pub open spec fn selects(t: Tab, i: int, active: int, target: TargetV) -> bool {
    match target {
        TargetV::Server(s) => tab_key(t) == serv_key(s),
        TargetV::Chan(s, c) => tab_key(t) == chan_key(s, c),
        TargetV::User(s, n) => tab_key(t) == user_key(s, n),
        TargetV::AllServTabs(s) => tab_key(t).1 == s,
        TargetV::AllUserTabs(s, n) => (tab_key(t).0 == 1 && tab_key(t).1 == s
            && t.names.members().contains(nick_key(n))) || tab_key(t) == user_key(s, n),
        TargetV::CurrentTab => i == active,
    }
}

/// The server a target is confined to; none for the current tab.
pub open spec fn target_serv(target: TargetV) -> Option<Seq<char>> {
    match target {
        TargetV::Server(s) => Some(s),
        TargetV::Chan(s, _) => Some(s),
        TargetV::User(s, _) => Some(s),
        TargetV::AllServTabs(s) => Some(s),
        TargetV::AllUserTabs(s, _) => Some(s),
        TargetV::CurrentTab => None,
    }
}

/// The key of the tab that a target opens when no tab receives it.
pub open spec fn created_key(target: TargetV) -> Option<TabKey> {
    match target {
        TargetV::Server(s) => Some(serv_key(s)),
        TargetV::AllServTabs(s) => Some(serv_key(s)),
        TargetV::Chan(s, c) => Some(chan_key(s, c)),
        TargetV::User(s, n) => Some(user_key(s, n)),
        _ => None,
    }
}

/// The indices of the tabs, in order, that receive what is sent to `target`.
pub open spec fn is_selection(tabs: Seq<Tab>, active: int, target: TargetV, r: Seq<usize>) -> bool {
    &&& forall|a: int, b: int| 0 <= a < b < r.len() ==> r[a] < r[b]
    &&& forall|a: int| 0 <= a < r.len() ==> #[trigger] r[a] < tabs.len()
    &&& forall|i: int|
        0 <= i < tabs.len() ==> (r.contains(i as usize) <==> selects(#[trigger] tabs[i], i, active, target))
}

/// How a line is seen in contracts: kind, sender, text and time.
pub open spec fn line_view(l: Line) -> (LineKind, Seq<char>, Seq<char>, i64) {
    (l.kind, l.sender@, l.text@, l.ts)
}

pub open spec fn lines_view(t: Tab) -> Seq<(LineKind, Seq<char>, Seq<char>, i64)> {
    t.lines@.map_values(|l: Line| line_view(l))
}

impl Tiny {
    fn selects_exec(&self, i: usize, target: &MsgTarget) -> (r: bool)
        requires
            i < self.tab_seq().len(),
        ensures
            r == selects(self.tab_seq()[i as int], i as int, self.active(), target@),
    {
        let t = &self.tabs[i];
        match target {
            MsgTarget::Server { serv_name } => src_is(&t.src, 0, serv_name, serv_name),
            MsgTarget::Chan { serv_name, chan_name } => src_is(&t.src, 1, serv_name, chan_name),
            MsgTarget::User { serv_name, nick } => src_is(&t.src, 2, serv_name, nick),
            MsgTarget::AllServTabs { serv_name } => str_eq(t.src.serv_name(), serv_name),
            MsgTarget::AllUserTabs { serv_name, nick } => match &t.src {
                MsgSource::Serv { .. } => false,
                MsgSource::Chan { serv_name: s, .. } => str_eq(s.as_str(), serv_name)
                    && t.names.has_nick(nick),
                MsgSource::User { .. } => src_is(&t.src, 2, serv_name, nick),
            },
            MsgTarget::CurrentTab => i == self.active_idx,
        }
    }

    fn collect_targets(&self, target: &MsgTarget) -> (r: Vec<usize>)
        ensures
            is_selection(self.tab_seq(), self.active(), target@, r@),
    {
        let mut r: Vec<usize> = Vec::new();
        let mut i: usize = 0;
        while i < self.tabs.len()
            invariant
                i <= self.tab_seq().len(),
                forall|a: int, b: int| 0 <= a < b < r@.len() ==> r@[a] < r@[b],
                forall|a: int| 0 <= a < r@.len() ==> #[trigger] r@[a] < i,
                forall|j: int|
                    0 <= j < i ==> (r@.contains(j as usize) <==> selects(
                        #[trigger] self.tab_seq()[j],
                        j,
                        self.active(),
                        target@,
                    )),
            decreases self.tab_seq().len() - i,
        {
            let ghost r0 = r@;
            let sel = self.selects_exec(i, target);
            if sel {
                r.push(i);
                assert(r@[r@.len() - 1] == i);
            }
            assert forall|j: int| 0 <= j <= i implies (r@.contains(j as usize) <==> selects(
                #[trigger] self.tab_seq()[j],
                j,
                self.active(),
                target@,
            )) by {
                if r@.contains(j as usize) {
                    let a = choose|a: int| 0 <= a < r@.len() && r@[a] == j as usize;
                    if a < r0.len() {
                        assert(r0[a] == r@[a]);
                        assert(r0.contains(j as usize));
                    }
                }
                if j < i && r0.contains(j as usize) {
                    let a = choose|a: int| 0 <= a < r0.len() && r0[a] == j as usize;
                    assert(r@[a] == j as usize);
                }
                if j == i && r0.contains(j as usize) {
                    let a = choose|a: int| 0 <= a < r0.len() && r0[a] == j as usize;
                    assert(r0[a] < i);
                }
            }
            i = i + 1;
        }
        r
    }

    /// The tabs that receive what is sent to `target`, in order. Where none
    /// does, a server, channel or privmsg target (and a whole-server target)
    /// opens its tab, which then receives it alone.
    pub fn apply_to_target(&mut self, target: &MsgTarget) -> (r: Vec<usize>)
        requires
            old(self).wf(),
        ensures
            final(self).wf(),
            is_selection(final(self).tab_seq(), final(self).active(), target@, r@),
            final(self).keys() == old(self).keys() || (created_key(target@) is Some
                && !old(self).keys().contains(created_key(target@)->0)
                && final(self).keys().contains(created_key(target@)->0)),
            final(self).keys() == old(self).keys() ==> final(self).tab_seq() == old(self).tab_seq()
                && final(self).active() == old(self).active(),
            final(self).keys() != old(self).keys() ==> forall|i: int|
                0 <= i < final(self).tab_seq().len() && selects(final(self).tab_seq()[i], i, final(self).active(), target@)
                    ==> (#[trigger] final(self).tab_seq()[i]).lines@.len() == 0,
            target_serv(target@) matches Some(s) ==> forall|a: int|
                0 <= a < r@.len() ==> (#[trigger] final(self).keys()[r@[a] as int]).1 == s,
            target_serv(target@) matches Some(s) ==> kept_outside(old(self).tab_seq(), final(self).tab_seq(), s),
            (created_key(target@) is Some && !old(self).keys().contains(created_key(target@)->0)) ==> opened(
                old(self).keys(), final(self).keys(), created_key(target@)->0),
    {
        proof {
            if let Some(s) = target_serv(target@) {
                lemma_kept_refl(self.tab_seq(), s);
            }
        }
        let r = self.collect_targets(target);
        if r.len() > 0 {
            proof {
                self.lemma_selection_serv(target@, r@);
                if created_key(target@) is Some && !old(self).keys().contains(created_key(target@)->0) {
                    let i = r@[0] as int;
                    assert(r@.contains(r@[0]));
                    assert(selects(self.tab_seq()[i], i, self.active(), target@));
                    assert(self.keys()[i] == tab_key(self.tab_seq()[i]));
                    if let TargetV::AllServTabs(sv) = target@ {
                        self.lemma_group_has_serv_tab(i);
                    }
                }
            }
            return r;
        }
        let created = match target {
            MsgTarget::Server { serv_name } => self.new_server_tab_(serv_name),
            MsgTarget::AllServTabs { serv_name } => self.new_server_tab_(serv_name),
            MsgTarget::Chan { serv_name, chan_name } => self.new_chan_tab_(serv_name, chan_name),
            MsgTarget::User { serv_name, nick } => self.new_user_tab_(serv_name, nick),
            _ => None,
        };
        proof {
            if created_key(target@) is Some && !old(self).keys().contains(created_key(target@)->0) {
                match *target {
                    MsgTarget::Server { .. } => {
                        assert(self.keys()[old(self).keys().len() as int] == created_key(target@)->0);
                    },
                    MsgTarget::AllServTabs { .. } => {
                        assert(self.keys()[old(self).keys().len() as int] == created_key(target@)->0);
                    },
                    MsgTarget::Chan { .. } => {
                        assert(self.keys()[created->0 as int] == created_key(target@)->0);
                        assert(opened_keys(old(self).keys(), (created_key(target@)->0).1, created_key(target@)->0, created->0 as int));
                    },
                    MsgTarget::User { .. } => {
                        assert(self.keys()[created->0 as int] == created_key(target@)->0);
                        assert(opened_keys(old(self).keys(), (created_key(target@)->0).1, created_key(target@)->0, created->0 as int));
                    },
                    _ => {},
                }
            }
            if created_key(target@) is Some && old(self).keys().contains(created_key(target@)->0) {
                let j = choose|j: int| 0 <= j < old(self).keys().len() && old(self).keys()[j] == created_key(target@)->0;
                assert(selects(old(self).tab_seq()[j], j, old(self).active(), target@));
                assert(r@.contains(j as usize));
            }
        }
        proof {
            if self.keys() != old(self).keys() {
                let k = self.keys();
                assert forall|i: int|
                    0 <= i < self.tab_seq().len() && selects(self.tab_seq()[i], i, self.active(), target@)
                    implies (#[trigger] self.tab_seq()[i]).lines@.len() == 0 by {
                    assert(k[i] == tab_key(self.tab_seq()[i]));
                    match *target {
                        MsgTarget::Server { serv_name } => {
                            assert(!old(self).keys().contains(serv_key(serv_name@)));
                            assert(k == old(self).keys().push(serv_key(serv_name@)));
                            assert(k[old(self).keys().len() as int] == serv_key(serv_name@));
                            lemma_key_unique(k, i, old(self).keys().len() as int);
                            assert(self.tab_seq()[i].lines@.len() == 0);
                        },
                        MsgTarget::AllServTabs { serv_name } => {
                            assert(!old(self).keys().contains(serv_key(serv_name@)));
                            assert(k == old(self).keys().push(serv_key(serv_name@)));
                            assert(old(self).keys().len() == old(self).tab_seq().len());
                            assert(k.len() == self.tab_seq().len());
                            assert(k.len() == old(self).keys().len() + 1);
                            if i < old(self).keys().len() {
                                assert(old(self).keys()[i] == k[i]);
                                assert(old(self).keys()[i].1 == serv_name@);
                                old(self).lemma_group_has_serv_tab(i);
                            } else {
                                assert(i == old(self).tab_seq().len());
                                assert(self.tab_seq()[old(self).tab_seq().len() as int].lines@.len() == 0);
                            }
                            assert(self.tab_seq()[i].lines@.len() == 0);
                        },
                        MsgTarget::Chan { serv_name, chan_name } => {
                            assert(!old(self).keys().contains(chan_key(serv_name@, chan_name@)));
                            assert(k[created->0 as int] == chan_key(serv_name@, chan_name@));
                            assert(k[i] == chan_key(serv_name@, chan_name@));
                            lemma_key_unique(k, i, created->0 as int);
                            assert(self.tab_seq()[i].lines@.len() == 0);
                        },
                        MsgTarget::User { serv_name, nick } => {
                            assert(!old(self).keys().contains(user_key(serv_name@, nick@)));
                            assert(k[created->0 as int] == user_key(serv_name@, nick@));
                            lemma_key_unique(k, i, created->0 as int);
                            assert(self.tab_seq()[i].lines@.len() == 0);
                        },
                        _ => {
                            assert(k == old(self).keys());
                        },
                    }
                }
            }
        }
        let r = self.collect_targets(target);
        proof { self.lemma_selection_serv(target@, r@); }
        r
    }

    proof fn lemma_selection_serv(&self, target: TargetV, r: Seq<usize>)
        requires
            is_selection(self.tab_seq(), self.active(), target, r),
        ensures
            target_serv(target) matches Some(s) ==> forall|a: int|
                0 <= a < r.len() ==> (#[trigger] self.keys()[r[a] as int]).1 == s,
    {
        if let Some(s) = target_serv(target) {
            assert forall|a: int| 0 <= a < r.len() implies (#[trigger] self.keys()[r[a] as int]).1 == s by {
                let i = r[a] as int;
                assert(r.contains(i as usize));
                assert(selects(self.tab_seq()[i], i, self.active(), target));
            }
        }
    }
}

pub type LineView = (LineKind, Seq<char>, Seq<char>, i64);

/// What adding line `l` for `target` did, from tabs `old` to tabs `new`:
/// each receiving tab got `l` at its end (a tab opened for it holds `l`
/// alone), and no other tab changed its lines. Without an opened tab the
/// tabs are matched by index.
pub open spec fn added_line(old: Seq<Tab>, new: Seq<Tab>, active: int, target: TargetV, l: LineView) -> bool {
    &&& old.map_values(|t: Tab| tab_key(t)) == new.map_values(|t: Tab| tab_key(t)) ==> forall|i: int|
        0 <= i < new.len() ==> #[trigger] lines_view(new[i]) == if selects(new[i], i, active, target) {
            lines_view(old[i]).push(l)
        } else {
            lines_view(old[i])
        }
    &&& old.map_values(|t: Tab| tab_key(t)) != new.map_values(|t: Tab| tab_key(t)) ==> forall|i: int|
        0 <= i < new.len() && selects(new[i], i, active, target) ==> #[trigger] lines_view(new[i]) == seq![l]
    &&& target_serv(target) matches Some(s) ==> forall|i: int|
        0 <= i < new.len() && selects(new[i], i, active, target) ==> (#[trigger] tab_key(new[i])).1 == s
}

impl Tiny {
    /// Appends a line to each tab in `idxs`.
    fn push_line_at(&mut self, idxs: &Vec<usize>, kind: LineKind, sender: &str, text: &str, ts: i64)
        requires
            old(self).wf(),
            forall|a: int, b: int| 0 <= a < b < idxs@.len() ==> idxs@[a] < idxs@[b],
            forall|a: int| 0 <= a < idxs@.len() ==> #[trigger] idxs@[a] < old(self).tab_seq().len(),
        ensures
            final(self).wf(),
            final(self).keys() == old(self).keys(),
            final(self).active() == old(self).active(),
            final(self).tab_seq().len() == old(self).tab_seq().len(),
            forall|i: int|
                0 <= i < final(self).tab_seq().len() ==> #[trigger] lines_view(final(self).tab_seq()[i]) == if idxs@.contains(i as usize) {
                    lines_view(old(self).tab_seq()[i]).push((kind, sender@, text@, ts))
                } else {
                    lines_view(old(self).tab_seq()[i])
                },
            forall|i: int|
                0 <= i < final(self).tab_seq().len() ==> (#[trigger] final(self).tab_seq()[i]).names
                    == old(self).tab_seq()[i].names && final(self).tab_seq()[i].src == old(self).tab_seq()[i].src,
            forall|i: int|
                0 <= i < final(self).tab_seq().len() && !idxs@.contains(i as usize) ==> #[trigger] final(self).tab_seq()[i] == old(self).tab_seq()[i],
    {
        let ghost lv = (kind, sender@, text@, ts);
        let n = self.tabs.len();
        let mut k: usize = 0;
        while k < idxs.len()
            invariant
                n == self.tab_seq().len(),
                self.wf(),
                lv == (kind, sender@, text@, ts),
                self.keys() == old(self).keys(),
                self.active() == old(self).active(),
                self.tab_seq().len() == old(self).tab_seq().len(),
                k <= idxs@.len(),
                forall|a: int, b: int| 0 <= a < b < idxs@.len() ==> idxs@[a] < idxs@[b],
                forall|a: int| 0 <= a < idxs@.len() ==> #[trigger] idxs@[a] < old(self).tab_seq().len(),
                forall|i: int|
                    0 <= i < self.tab_seq().len() ==> #[trigger] lines_view(self.tab_seq()[i]) == if idxs@.subrange(0, k as int).contains(i as usize) {
                        lines_view(old(self).tab_seq()[i]).push(lv)
                    } else {
                        lines_view(old(self).tab_seq()[i])
                    },
                forall|i: int|
                    0 <= i < self.tab_seq().len() ==> (#[trigger] self.tab_seq()[i]).names
                        == old(self).tab_seq()[i].names && self.tab_seq()[i].src == old(self).tab_seq()[i].src,
                forall|i: int|
                    0 <= i < self.tab_seq().len() && !idxs@.subrange(0, k as int).contains(i as usize) ==> #[trigger] self.tab_seq()[i] == old(self).tab_seq()[i],
            decreases idxs@.len() - k,
        {
            let i = idxs[k];
            let ghost before = self.tab_seq();
            let line = Line { kind, sender: sender.to_owned(), text: text.to_owned(), ts };
            proof {
                assert(line_view(line) == lv);
            }
            self.tabs[i].lines.push(line);
            proof {
                assert(self.tab_seq()[i as int].lines@ == before[i as int].lines@.push(line));
                assert(self.keys() =~= old(self).keys());
                assert(lines_view(self.tab_seq()[i as int]) =~= lines_view(before[i as int]).push(lv));
                assert forall|j: int| 0 <= j < self.tab_seq().len() implies #[trigger] lines_view(self.tab_seq()[j]) == if idxs@.subrange(0, k + 1).contains(j as usize) {
                    lines_view(old(self).tab_seq()[j]).push(lv)
                } else {
                    lines_view(old(self).tab_seq()[j])
                } by {
                    let s0 = idxs@.subrange(0, k as int);
                    let s1 = idxs@.subrange(0, k + 1);
                    if j == i {
                        assert(s1[k as int] == i);
                        if s0.contains(j as usize) {
                            let a = choose|a: int| 0 <= a < s0.len() && s0[a] == j as usize;
                            assert(idxs@[a] < idxs@[k as int]);
                        }
                    } else {
                        assert(self.tab_seq()[j] == before[j]);
                        if !s1.contains(j as usize) {
                            if s0.contains(j as usize) {
                                let a = choose|a: int| 0 <= a < s0.len() && s0[a] == j as usize;
                                assert(s1[a] == j as usize);
                            }
                        }
                        if s1.contains(j as usize) {
                            let a = choose|a: int| 0 <= a < s1.len() && s1[a] == j as usize;
                            if a < k {
                                assert(s0[a] == j as usize);
                            } else {
                                assert(s1[a] == idxs@[k as int]);
                            }
                        }
                        if s0.contains(j as usize) {
                            let a = choose|a: int| 0 <= a < s0.len() && s0[a] == j as usize;
                            assert(s1[a] == j as usize);
                        }
                    }
                }
            }
            k = k + 1;
        }
        assert(idxs@.subrange(0, k as int) =~= idxs@);
    }

    /// Adds a line to every tab that `target` selects (see `apply_to_target`).
    pub fn add_line(&mut self, target: &MsgTarget, kind: LineKind, sender: &str, text: &str, ts: i64)
        requires
            old(self).wf(),
        ensures
            final(self).wf(),
            added_line(old(self).tab_seq(), final(self).tab_seq(), final(self).active(), target@, (kind, sender@, text@, ts)),
            final(self).keys() == old(self).keys() ==> final(self).active() == old(self).active(),
            target_serv(target@) matches Some(s) ==> kept_outside(old(self).tab_seq(), final(self).tab_seq(), s),
            created_key(target@) is None ==> final(self).keys() == old(self).keys(),
    {
        let ghost lv = (kind, sender@, text@, ts);
        let ghost created = self.keys() != old(self).keys();
        let idxs = self.apply_to_target(target);
        let ghost mid = self.tab_seq();
        let ghost mid_keys = self.keys();
        self.push_line_at(&idxs, kind, sender, text, ts);
        let _n = self.tabs.len();
        proof {
            let new = self.tab_seq();
            let o = old(self).tab_seq();
            assert(o.map_values(|t: Tab| tab_key(t)) == old(self).keys());
            assert(new.map_values(|t: Tab| tab_key(t)) == self.keys());
            assert forall|i: int| 0 <= i < new.len() implies selects(new[i], i, self.active(), target@) == selects(mid[i], i, self.active(), target@) by {
                assert(new[i].names == mid[i].names && new[i].src == mid[i].src);
            }
            if mid_keys != old(self).keys() {
                assert forall|i: int| 0 <= i < new.len() && selects(new[i], i, self.active(), target@) implies #[trigger] lines_view(new[i]) == seq![lv] by {
                    assert(idxs@.contains(i as usize));
                    assert(selects(mid[i], i, self.active(), target@));
                    assert(lines_view(mid[i]).len() == 0);
                    assert(lines_view(mid[i]).push(lv) =~= seq![lv]);
                }
            }
            if let Some(s) = target_serv(target@) {
                assert forall|i: int| 0 <= i < new.len() && selects(new[i], i, self.active(), target@) implies (#[trigger] tab_key(new[i])).1 == s by {
                    assert(idxs@.contains(i as usize));
                    let a = choose|a: int| 0 <= a < idxs@.len() && idxs@[a] == i as usize;
                    assert(idxs@[a] as int == i);
                    assert(self.keys()[i] == tab_key(new[i]));
                }
                assert forall|i: int| 0 <= i < new.len() && (#[trigger] tab_key(new[i])).1 != s implies mid.contains(new[i]) by {
                    if idxs@.contains(i as usize) {
                        let a = choose|a: int| 0 <= a < idxs@.len() && idxs@[a] == i as usize;
                        assert(idxs@[a] as int == i);
                        assert(self.keys()[i] == tab_key(new[i]));
                        assert(mid_keys[idxs@[a] as int].1 == s);
                    } else {
                        assert(new[i] == mid[i]);
                    }
                }
                lemma_kept_trans(old(self).tab_seq(), mid, new, s);
            }
        }
    }
}

/// A change to the tabs that a target selects.
pub enum TabOp<'a> {
    /// Raise the style (`Normal` resets it).
    Style(TabStyle),
    /// Set the channel topic.
    Topic(&'a str),
    /// A nick joined; with a time, the join is shown unless the tab ignores it.
    AddNick(&'a str, Option<i64>),
    /// A nick left; with a time, shown unless the tab ignores it.
    RemoveNick(&'a str, Option<i64>),
    /// A nick was renamed (old, new); shown unless the tab ignores it.
    RenameNick(&'a str, &'a str, i64),
    /// Forget all nicks.
    ClearNicks,
    /// Our own nick on the server.
    SetNick(&'a str),
    /// Empty the scrollback.
    Clear,
    /// Set the ignore flag, or flip it with `None`.
    Ignore(Option<bool>),
}

/// A tab change, as seen in contracts.
pub enum OpV {
    Style(TabStyle),
    Topic(Seq<char>),
    AddNick(Seq<char>, Option<i64>),
    RemoveNick(Seq<char>, Option<i64>),
    RenameNick(Seq<char>, Seq<char>, i64),
    ClearNicks,
    SetNick(Seq<char>),
    Clear,
    Ignore(Option<bool>),
}

impl<'a> View for TabOp<'a> {
    type V = OpV;

    open spec fn view(&self) -> OpV {
        match self {
            TabOp::Style(s) => OpV::Style(*s),
            TabOp::Topic(t) => OpV::Topic(t@),
            TabOp::AddNick(n, ts) => OpV::AddNick(n@, *ts),
            TabOp::RemoveNick(n, ts) => OpV::RemoveNick(n@, *ts),
            TabOp::RenameNick(o, n, ts) => OpV::RenameNick(o@, n@, *ts),
            TabOp::ClearNicks => OpV::ClearNicks,
            TabOp::SetNick(n) => OpV::SetNick(n@),
            TabOp::Clear => OpV::Clear,
            TabOp::Ignore(v) => OpV::Ignore(*v),
        }
    }
}

/// The style after applying `s` to a tab of style `cur`.
pub open spec fn raised_style(cur: TabStyle, s: TabStyle) -> TabStyle {
    if s == TabStyle::Normal || style_rank(s) > style_rank(cur) {
        s
    } else {
        cur
    }
}

/// The line that a membership change shows, if it shows one.
pub open spec fn op_line(op: OpV) -> Option<LineView> {
    match op {
        OpV::AddNick(n, Some(ts)) => Some((LineKind::Join, n, Seq::<char>::empty(), ts)),
        OpV::RemoveNick(n, Some(ts)) => Some((LineKind::Part, n, Seq::<char>::empty(), ts)),
        OpV::RenameNick(o, n, ts) => Some((LineKind::NickChange, o, n, ts)),
        _ => None,
    }
}

/// What `op` does to one tab: the named part changes as stated, the rest
/// (source, style, lines, nicks, flags) stays; a membership change is shown
/// in a tab that does not ignore such changes.
pub open spec fn op_done(b: Tab, a: Tab, op: OpV) -> bool {
    &&& a.src == b.src
    &&& a.notifier == b.notifier
    &&& a.switch == b.switch
    &&& (op is Style ==> a.style == raised_style(b.style, op->Style_0)) && (op !is Style ==> a.style == b.style)
    &&& (op is Clear ==> a.lines@.len() == 0) && (op !is Clear ==> lines_view(a) == match op_line(op) {
        Some(l) => if b.ignore { lines_view(b) } else { lines_view(b).push(l) },
        None => lines_view(b),
    })
    &&& (op is Ignore ==> a.ignore == match op->Ignore_0 {
        Some(v) => v,
        None => !b.ignore,
    }) && (op !is Ignore ==> a.ignore == b.ignore)
    &&& a.names.wf()
    &&& match op {
        OpV::AddNick(n, _) => a.names.members() == b.names.members().insert(nick_key(n)),
        OpV::RemoveNick(n, _) => a.names.members() == b.names.members().remove(nick_key(n)),
        OpV::RenameNick(o, n, _) => a.names.members() == if b.names.members().contains(nick_key(o)) {
            b.names.members().remove(nick_key(o)).insert(nick_key(n))
        } else {
            b.names.members()
        },
        OpV::ClearNicks => a.names.members() == Set::<Seq<char>>::empty(),
        _ => a.names.members() == b.names.members(),
    }
    &&& match op {
        OpV::Topic(t) => a.topic matches Some(x) && x@ == t,
        _ => a.topic == b.topic,
    }
    &&& match op {
        OpV::SetNick(n) => a.nick matches Some(x) && x@ == n,
        _ => a.nick == b.nick,
    }
}

/// What applying `op` for `target` did, from tabs `old` to tabs `new`:
/// without an opened tab, each tab selected before changed as `op` says and
/// the others stayed; every tab selected after belongs to the target's server.
pub open spec fn applied(old: Seq<Tab>, new: Seq<Tab>, active: int, target: TargetV, op: OpV) -> bool {
    &&& old.map_values(|t: Tab| tab_key(t)) == new.map_values(|t: Tab| tab_key(t)) ==> forall|i: int|
        0 <= i < new.len() ==> if selects(#[trigger] old[i], i, active, target) {
            op_done(old[i], new[i], op)
        } else {
            new[i] == old[i]
        }
    &&& target_serv(target) matches Some(s) ==> forall|i: int|
        0 <= i < new.len() && selects(new[i], i, active, target) ==> (#[trigger] tab_key(new[i])).1 == s
}

impl Tiny {
    /// Applies `op` to tab `i`.
    #[verifier::spinoff_prover]
    #[verifier::rlimit(80)]
    fn op_at(&mut self, i: usize, op: &TabOp)
        requires
            old(self).wf(),
            i < old(self).tab_seq().len(),
        ensures
            final(self).wf(),
            final(self).keys() == old(self).keys(),
            final(self).active() == old(self).active(),
            final(self).tab_seq().len() == old(self).tab_seq().len(),
            op_done(old(self).tab_seq()[i as int], final(self).tab_seq()[i as int], op@),
            forall|j: int| 0 <= j < final(self).tab_seq().len() && j != i ==> #[trigger] final(self).tab_seq()[j] == old(self).tab_seq()[j],
    {
        match op {
            TabOp::Style(st) => {
                let cur = self.tabs[i].style;
                let rank_new: u8 = match *st { TabStyle::Normal => 0, TabStyle::NewMsg => 1, TabStyle::Highlight => 2 };
                let rank_cur: u8 = match cur { TabStyle::Normal => 0, TabStyle::NewMsg => 1, TabStyle::Highlight => 2 };
                if rank_new == 0 || rank_new > rank_cur {
                    self.tabs[i].style = *st;
                }
            },
            TabOp::Topic(t) => {
                self.tabs[i].topic = Some((*t).to_owned());
            },
            TabOp::AddNick(n, ts) => {
                self.tabs[i].names.join(n);
                if let Some(t) = ts {
                    if !self.tabs[i].ignore {
                        self.tabs[i].lines.push(Line { kind: LineKind::Join, sender: (*n).to_owned(), text: String::new(), ts: *t });
                    }
                }
            },
            TabOp::RemoveNick(n, ts) => {
                self.tabs[i].names.part(n);
                if let Some(t) = ts {
                    if !self.tabs[i].ignore {
                        self.tabs[i].lines.push(Line { kind: LineKind::Part, sender: (*n).to_owned(), text: String::new(), ts: *t });
                    }
                }
            },
            TabOp::RenameNick(o, n, ts) => {
                self.tabs[i].names.rename(o, n);
                if !self.tabs[i].ignore {
                    self.tabs[i].lines.push(Line { kind: LineKind::NickChange, sender: (*o).to_owned(), text: (*n).to_owned(), ts: *ts });
                }
            },
            TabOp::ClearNicks => {
                self.tabs[i].names.clear();
            },
            TabOp::SetNick(n) => {
                self.tabs[i].nick = Some((*n).to_owned());
            },
            TabOp::Clear => {
                self.tabs[i].lines = Vec::new();
            },
            TabOp::Ignore(v) => {
                let cur = self.tabs[i].ignore;
                self.tabs[i].ignore = match v {
                    Some(b) => *b,
                    None => !cur,
                };
            },
        }
        proof {
            assert(self.keys() =~= old(self).keys());
            let b = old(self).tab_seq()[i as int];
            let a = self.tab_seq()[i as int];
            if op@ !is Clear {
                match op_line(op@) {
                    Some(l) => {
                        if b.ignore {
                            assert(lines_view(a) =~= lines_view(b));
                        } else {
                            assert(lines_view(a) =~= lines_view(b).push(l));
                        }
                    },
                    None => {
                        assert(lines_view(a) =~= lines_view(b));
                    },
                }
            }
        }
    }

    /// Applies `op` to every tab that `target` selects (see `apply_to_target`).
    pub fn apply_op(&mut self, target: &MsgTarget, op: &TabOp)
        requires
            old(self).wf(),
        ensures
            final(self).wf(),
            applied(old(self).tab_seq(), final(self).tab_seq(), final(self).active(), target@, op@),
            final(self).keys() == old(self).keys() ==> final(self).active() == old(self).active(),
            final(self).keys() == old(self).keys() || (created_key(target@) is Some
                && final(self).keys().contains(created_key(target@)->0)),
            target_serv(target@) matches Some(s) ==> kept_outside(old(self).tab_seq(), final(self).tab_seq(), s),
    {
        let idxs = self.apply_to_target(target);
        let ghost mid = self.tab_seq();
        let ghost act = self.active();
        proof {
            assert forall|a: int| 0 <= a < idxs@.len() implies tab_key(#[trigger] mid[idxs@[a] as int]).1 == target_serv(target@)->0 || target_serv(target@) is None by {
                assert(self.keys()[idxs@[a] as int] == tab_key(mid[idxs@[a] as int]));
            }
        }
        let n = self.tabs.len();
        let mut k: usize = 0;
        while k < idxs.len()
            invariant
                self.wf(),
                self.active() == act,
                forall|a: int| 0 <= a < idxs@.len() ==> tab_key(#[trigger] mid[idxs@[a] as int]).1 == target_serv(target@)->0 || target_serv(target@) is None,
                n == self.tab_seq().len(),
                self.keys() == mid.map_values(|t: Tab| tab_key(t)),
                self.tab_seq().len() == mid.len(),
                k <= idxs@.len(),
                is_selection(mid, self.active(), target@, idxs@),
                forall|i: int|
                    0 <= i < mid.len() ==> if idxs@.subrange(0, k as int).contains(i as usize) {
                        op_done(mid[i], #[trigger] self.tab_seq()[i], op@)
                    } else {
                        self.tab_seq()[i] == mid[i]
                    },
            decreases idxs@.len() - k,
        {
            let i = idxs[k];
            let ghost before = self.tab_seq();
            self.op_at(i, op);
            proof {
                assert forall|j: int| 0 <= j < mid.len() implies if idxs@.subrange(0, k + 1).contains(j as usize) {
                    op_done(mid[j], #[trigger] self.tab_seq()[j], op@)
                } else {
                    self.tab_seq()[j] == mid[j]
                } by {
                    let s0 = idxs@.subrange(0, k as int);
                    let s1 = idxs@.subrange(0, k + 1);
                    if j == i {
                        assert(s1[k as int] == i);
                        if s0.contains(j as usize) {
                            let a = choose|a: int| 0 <= a < s0.len() && s0[a] == j as usize;
                            assert(idxs@[a] < idxs@[k as int]);
                        }
                    } else {
                        if s1.contains(j as usize) {
                            let a = choose|a: int| 0 <= a < s1.len() && s1[a] == j as usize;
                            if a < k {
                                assert(s0[a] == j as usize);
                            } else {
                                assert(s1[a] == idxs@[k as int]);
                            }
                        }
                        if s0.contains(j as usize) {
                            let a = choose|a: int| 0 <= a < s0.len() && s0[a] == j as usize;
                            assert(s1[a] == j as usize);
                        }
                    }
                }
            }
            k = k + 1;
        }
        proof {
            assert(idxs@.subrange(0, k as int) =~= idxs@);
            let new = self.tab_seq();
            if let Some(sv) = target_serv(target@) {
                assert forall|i: int| 0 <= i < new.len() && (#[trigger] tab_key(new[i])).1 != sv implies mid.contains(new[i]) by {
                    if idxs@.contains(i as usize) {
                        let a = choose|a: int| 0 <= a < idxs@.len() && idxs@[a] == i as usize;
                        assert(mid[idxs@[a] as int] == mid[i]);
                        assert(op_done(mid[i], new[i], op@));
                    } else {
                        assert(new[i] == mid[i]);
                    }
                }
                lemma_kept_trans(old(self).tab_seq(), mid, new, sv);
                assert forall|i: int| 0 <= i < new.len() && selects(new[i], i, self.active(), target@) implies (#[trigger] tab_key(new[i])).1 == sv by {
                    if idxs@.contains(i as usize) {
                        let a = choose|a: int| 0 <= a < idxs@.len() && idxs@[a] == i as usize;
                        assert(mid[idxs@[a] as int] == mid[i]);
                        assert(op_done(mid[i], new[i], op@));
                    } else {
                        assert(new[i] == mid[i]);
                    }
                }
            }
        }
    }
}

impl Tiny {
    /// Follows a nick change in the privmsg tab of the old nick, unless the
    /// new nick has a tab already.
    pub fn rename_user_tab(&mut self, serv_name: &str, old_nick: &str, new_nick: &str)
        requires
            old(self).wf(),
        ensures
            final(self).wf(),
            final(self).active() == old(self).active(),
            (old(self).keys().contains(user_key(serv_name@, old_nick@)) && !old(self).keys().contains(
                user_key(serv_name@, new_nick@),
            )) ==> exists|i: int|
                0 <= i < old(self).keys().len() && old(self).keys()[i] == user_key(serv_name@, old_nick@)
                    && final(self).keys() == old(self).keys().update(i, user_key(serv_name@, new_nick@)),
            !(old(self).keys().contains(user_key(serv_name@, old_nick@)) && !old(self).keys().contains(
                user_key(serv_name@, new_nick@),
            )) ==> final(self).keys() == old(self).keys(),
            kept_outside(old(self).tab_seq(), final(self).tab_seq(), serv_name@),
    {
        proof {
            lemma_kept_refl(self.tab_seq(), serv_name@);
        }
        if self.find_user_tab_idx(serv_name, new_nick).is_some() {
            return;
        }
        match self.find_user_tab_idx(serv_name, old_nick) {
            None => {},
            Some(i) => {
                proof {
                    lemma_rename_wf(self.keys(), i as int, user_key(serv_name@, new_nick@));
                }
                let src = MsgSource::User { serv_name: serv_name.to_owned(), nick: new_nick.to_owned() };
                self.tabs[i].src = src;
                proof {
                    assert(self.keys() =~= old(self).keys().update(i as int, user_key(serv_name@, new_nick@)));
                    let o = old(self).tab_seq();
                    let f = self.tab_seq();
                    assert forall|j: int| 0 <= j < f.len() && (#[trigger] tab_key(f[j])).1 != serv_name@ implies o.contains(f[j]) by {
                        assert(j != i);
                        assert(f[j] == o[j]);
                    }
                    assert forall|j: int| 0 <= j < f.len() implies (#[trigger] f[j]).names.wf() by {
                        assert(f[j].names == o[j].names);
                    }
                }
            },
        }
    }
}

/// The widest a tab's name is shown in the tab bar.
pub const MAX_TAB_WIDTH: usize = 4096;

/// Columns of a tab in the tab bar: its name's length, at most `MAX_TAB_WIDTH`.
pub open spec fn tab_width(t: Tab) -> int {
    let l = t.src.visible_view().len() as int;
    if l < MAX_TAB_WIDTH { l } else { MAX_TAB_WIDTH as int }
}

pub open spec fn widths(tabs: Seq<Tab>) -> Seq<int> {
    tabs.map_values(|t: Tab| tab_width(t))
}

/// Columns taken by the first `k` tabs, each with the space after it.
pub open spec fn span(ws: Seq<int>, k: int) -> int
    decreases k,
{
    if k <= 0 || k > ws.len() {
        0
    } else {
        span(ws, k - 1) + ws[k - 1] + 1
    }
}

/// The first tab shown when the bar is scrolled by `skip` columns.
pub open spec fn first_shown(ws: Seq<int>, skip: int, i: int) -> int
    decreases ws.len() - i,
{
    if skip > 0 && 0 <= i && i + 1 < ws.len() {
        first_shown(ws, skip - ws[i] - 1, i + 1)
    } else {
        i
    }
}

/// One past the last tab that fits in `left` columns from tab `i` on.
pub open spec fn fit_end(ws: Seq<int>, i: int, left: int) -> int
    decreases ws.len() - i,
{
    if 0 <= i < ws.len() && ws[i] <= left {
        fit_end(ws, i + 1, left - ws[i] - 1)
    } else {
        i
    }
}

/// Whether the bar, scrolled by `h`, has tabs hidden on its right.
pub open spec fn right_arrow(ws: Seq<int>, h: int, width: int) -> bool {
    ws.len() > 0 && (if h > 0 { 2int } else { 0int }) + span(ws, ws.len() as int) - 1 > h + width
}

/// The tabs shown, `[first, end)`, when the bar is scrolled by `h` columns.
pub open spec fn shown(ws: Seq<int>, h: int, width: int) -> (int, int) {
    if ws.len() == 0 {
        (0, 0)
    } else {
        let i = first_shown(ws, h, 0);
        let arrows = (if h > 0 { 2int } else { 0int }) + (if right_arrow(ws, h, width) { 2int } else { 0int });
        (i, fit_end(ws, i, width - arrows))
    }
}

/// The scroll of the bar is as far left as it goes with tab `a` shown
/// (when some scroll to the start of a tab up to `a` shows it).
pub open spec fn scrolled_to(ws: Seq<int>, a: int, width: int, scroll: int) -> bool {
    (exists|l: int| 0 <= l <= a && shows_at(ws, l, a, width)) ==> exists|l: int|
        0 <= l <= a && #[trigger] span(ws, l) == scroll && shows_at(ws, l, a, width)
            && forall|m: int| 0 <= m < l ==> !shows_at(ws, m, a, width)
}

/// Whether scrolling the bar to the start of tab `l` shows tab `a`.
pub open spec fn shows_at(ws: Seq<int>, l: int, a: int, width: int) -> bool {
    span(ws, l) <= i32::MAX && shown(ws, span(ws, l), width).0 <= a < shown(ws, span(ws, l), width).1
}

proof fn lemma_span_mono(ws: Seq<int>, k: int)
    requires
        0 <= k <= ws.len(),
        forall|i: int| 0 <= i < ws.len() ==> #[trigger] ws[i] >= 0,
    ensures
        forall|j: int| 0 <= j <= k ==> span(ws, j) <= span(ws, k),
        span(ws, k) >= k,
    decreases k,
{
    if k > 0 {
        lemma_span_mono(ws, k - 1);
    }
}

impl Tiny {
    pub closed spec fn scroll(&self) -> int {
        self.h_scroll as int
    }

    fn tab_width_exec(&self, i: usize) -> (r: usize)
        requires
            i < self.tab_seq().len(),
        ensures
            r == tab_width(self.tab_seq()[i as int]),
            r <= MAX_TAB_WIDTH,
    {
        let l = self.tabs[i].src.visible_name().unicode_len();
        if l < MAX_TAB_WIDTH { l } else { MAX_TAB_WIDTH }
    }

    /// Whether tabs are hidden on the right with the bar scrolled by `h`.
    fn right_arrow_at(&self, h: i64) -> (r: bool)
        requires
            i32::MIN <= h <= i32::MAX,
        ensures
            r == right_arrow(widths(self.tab_seq()), h as int, self.width as int),
    {
        let ghost ws = widths(self.tab_seq());
        let n = self.tabs.len();
        if n == 0 {
            return false;
        }
        let threshold: i64 = h + self.width as i64;
        let mut acc: i64 = if h > 0 { 2 } else { 0 };
        let mut k: usize = 0;
        proof {
            lemma_span_mono(ws, n as int);
        }
        while k < n && acc - 1 <= threshold
            invariant
                n == self.tab_seq().len(),
                ws == widths(self.tab_seq()),
                k <= n,
                acc == (if h > 0 { 2int } else { 0int }) + span(ws, k as int),
                threshold == h + self.width,
                i32::MIN <= h <= i32::MAX,
                0 <= acc <= (if threshold > 0 { threshold as int } else { 0int }) + 4200,
                forall|j: int| 0 <= j < ws.len() ==> #[trigger] ws[j] >= 0,
            decreases n - k,
        {
            acc = acc + self.tab_width_exec(k) as i64 + 1;
            k = k + 1;
        }
        proof {
            lemma_span_mono(ws, n as int);
            if k < n {
                assert(span(ws, k as int) <= span(ws, n as int));
            }
        }
        acc - 1 > threshold
    }

    /// Whether tabs are hidden on the right of the bar.
    pub fn draw_right_arrow(&self) -> (r: bool)
        ensures
            r == right_arrow(widths(self.tab_seq()), self.scroll(), self.width_view() as int),
    {
        self.right_arrow_at(self.h_scroll as i64)
    }

    /// The tabs shown, `[first, end)`, with the bar scrolled by `h` columns.
    fn shown_at(&self, h: i64) -> (r: (usize, usize))
        requires
            i32::MIN <= h <= i32::MAX,
        ensures
            (r.0 as int, r.1 as int) == shown(widths(self.tab_seq()), h as int, self.width as int),
            r.1 <= self.tab_seq().len(),
    {
        let ghost ws = widths(self.tab_seq());
        let n = self.tabs.len();
        if n == 0 {
            return (0, 0);
        }
        let mut skip: i64 = h;
        let mut i: usize = 0;
        while skip > 0 && i + 1 < n
            invariant
                n == self.tab_seq().len(),
                ws == widths(self.tab_seq()),
                i < n,
                i32::MIN - 4200 <= skip <= i32::MAX,
                first_shown(ws, h as int, 0) == first_shown(ws, skip as int, i as int),
            decreases n - i,
        {
            skip = skip - self.tab_width_exec(i) as i64 - 1;
            i = i + 1;
        }
        let right = self.right_arrow_at(h);
        let arrows: i64 = (if h > 0 { 2 } else { 0 }) + (if right { 2 } else { 0 });
        let mut left: i64 = self.width as i64 - arrows;
        let mut j: usize = i;
        while j < n && (self.tab_width_exec(j) as i64) <= left
            invariant
                n == self.tab_seq().len(),
                ws == widths(self.tab_seq()),
                i <= j <= n,
                i32::MIN - 4200 <= left <= i32::MAX,
                fit_end(ws, i as int, self.width - arrows) == fit_end(ws, j as int, left as int),
            decreases n - j,
        {
            left = left - self.tab_width_exec(j) as i64 - 1;
            j = j + 1;
        }
        (i, j)
    }

    /// The tabs shown in the tab bar now, `[first, end)`.
    pub fn rendered_tabs(&self) -> (r: (usize, usize))
        ensures
            (r.0 as int, r.1 as int) == shown(widths(self.tab_seq()), self.scroll(), self.width_view() as int),
    {
        self.shown_at(self.h_scroll as i64)
    }

    /// Whether tabs are hidden on the left of the bar.
    pub fn draw_left_arrow(&self) -> (r: bool)
        ensures
            r == (self.scroll() > 0),
    {
        self.h_scroll > 0
    }

    /// Scrolls the tab bar as far left as it goes with the active tab shown.
    fn scroll_to_active(&mut self)
        requires
            old(self).wf(),
        ensures
            final(self).tab_seq() == old(self).tab_seq(),
            final(self).active() == old(self).active(),
            final(self).width_view() == old(self).width_view(),
            final(self).height_view() == old(self).height_view(),
            scrolled_to(widths(old(self).tab_seq()), old(self).active(), old(self).width_view() as int, final(self).scroll()),
    {
        let ghost ws = widths(self.tab_seq());
        let n = self.tabs.len();
        if n == 0 {
            return;
        }
        let a = self.active_idx;
        let mut prefix: i64 = 0;
        let mut l: usize = 0;
        while l <= a && prefix <= i32::MAX as i64
            invariant
                self.wf(),
                n == self.tab_seq().len(),
                ws == widths(self.tab_seq()),
                self.tab_seq() == old(self).tab_seq(),
                self.active() == old(self).active(),
                self.width == old(self).width,
                self.height == old(self).height,
                a == self.active_idx,
                a < n,
                l <= a + 1,
                prefix == span(ws, l as int),
                0 <= prefix <= i32::MAX as i64 + 4097,
                forall|m: int| 0 <= m < l ==> !shows_at(ws, m, a as int, self.width as int),
            decreases a + 1 - l,
        {
            let (first, end) = self.shown_at(prefix);
            if first <= a && a < end {
                self.h_scroll = prefix as i32;
                return;
            }
            prefix = prefix + self.tab_width_exec(l) as i64 + 1;
            l = l + 1;
        }
        proof {
            if l <= a {
                lemma_span_mono(ws, n as int);
                assert forall|m: int| l <= m <= a implies !shows_at(ws, m, a as int, self.width as int) by {
                    assert(span(ws, l as int) <= span(ws, m)) by {
                        lemma_span_mono(ws, m);
                    }
                }
            }
        }
    }

    /// Sets the screen size and scrolls the tab bar so that the active tab
    /// is shown, as far left as possible.
    pub fn resize(&mut self, width: i32, height: i32)
        requires
            old(self).wf(),
        ensures
            final(self).wf(),
            final(self).keys() == old(self).keys(),
            final(self).active() == old(self).active(),
            final(self).width_view() == width,
            final(self).height_view() == height,
            final(self).tab_seq() == old(self).tab_seq(),
            scrolled_to(widths(final(self).tab_seq()), final(self).active(), width as int, final(self).scroll()),
    {
        self.width = width;
        self.height = height;
        self.scroll_to_active();
    }
}

} // verus!
