//! The list of nicks present in a channel.

use vstd::prelude::*;
use vstd::string::*;
use crate::text::{drop_nick_prefix, eq_ignore_case, fold, nick_key, strip_prefix, to_chars};
use crate::termbox::{print_chars, printed, Colors, Termbox};

verus! {

/// One entry of a channel's nick list.
pub struct Name {
    /// The nick, without membership prefix.
    pub name: String,
    /// Presence mark shown before the nick, if any.
    pub presence: Option<String>,
}

/// A channel's membership: nicks without membership prefix, unique up to
/// ASCII case.
pub struct NameList {
    names: Vec<Name>,
    scroll: i32,
    selection: i32,
    height: i32,
    width: i32,
}

impl NameList {
    /// The membership keys (ASCII-lower-cased nicks), in list order.
    pub closed spec fn keys(&self) -> Seq<Seq<char>> {
        self.names@.map_values(|n: Name| fold(n.name@))
    }

    /// The membership set.
    pub closed spec fn members(&self) -> Set<Seq<char>> {
        Set::new(|k: Seq<char>| self.keys().contains(k))
    }

    pub closed spec fn wf(&self) -> bool {
        self.keys().no_duplicates()
    }

    pub closed spec fn width_view(&self) -> i32 {
        self.width
    }

    pub closed spec fn height_view(&self) -> i32 {
        self.height
    }

    pub closed spec fn len(&self) -> nat {
        self.names@.len()
    }

    pub closed spec fn scroll_view(&self) -> i32 {
        self.scroll
    }

    pub closed spec fn selection_view(&self) -> i32 {
        self.selection
    }

    /// The presence mark of entry `i`.
    pub closed spec fn presence_at(&self, i: int) -> Option<Seq<char>> {
        match self.names@[i].presence {
            Some(p) => Some(p@),
            None => None,
        }
    }

    pub closed spec fn name_at(&self, i: int) -> Seq<char> {
        self.names@[i].name@
    }

    pub fn new(width: i32, height: i32) -> (r: NameList)
        ensures
            r.wf(),
            r.members() == Set::<Seq<char>>::empty(),
            r.len() == 0,
            r.width_view() == width,
            r.height_view() == height,
            r.scroll_view() == 0,
            r.selection_view() == 0,
    {
        let r = NameList { names: Vec::new(), scroll: 0, selection: 0, height, width };
        assert(r.members() =~= Set::<Seq<char>>::empty());
        r
    }

    pub fn width(&self) -> (r: i32)
        ensures
            r == self.width_view(),
    {
        self.width
    }

    pub fn resize(&mut self, width: i32, height: i32)
        ensures
            final(self).width_view() == width,
            final(self).height_view() == height,
            final(self).wf() == old(self).wf(),
            final(self).members() == old(self).members(),
    {
        self.width = width;
        self.height = height;
    }

    /// Index of the entry whose nick equals `nick` up to ASCII case.
    fn find(&self, nick: &str) -> (r: Option<usize>)
        ensures
            match r {
                Some(i) => i < self.keys().len() && self.keys()[i as int] == fold(nick@),
                None => !self.keys().contains(fold(nick@)),
            },
    {
        let mut i: usize = 0;
        while i < self.names.len()
            invariant
                i <= self.names@.len(),
                forall|j: int| 0 <= j < i ==> self.keys()[j] != fold(nick@),
            decreases self.names@.len() - i,
        {
            if eq_ignore_case(self.names[i].name.as_str(), nick) {
                return Some(i);
            }
            i = i + 1;
        }
        None
    }

    proof fn lemma_push(&self, n: Name, r: &NameList)
        requires
            self.wf(),
            !self.keys().contains(fold(n.name@)),
            r.names@ == self.names@.push(n),
        ensures
            r.wf(),
            r.members() == self.members().insert(fold(n.name@)),
    {
        let k = fold(n.name@);
        assert(r.keys() =~= self.keys().push(k));
        assert forall|x: Seq<char>| r.members().contains(x) <==> self.members().insert(k).contains(x)
        by {
            if r.keys().contains(x) {
                let j = choose|j: int| 0 <= j < r.keys().len() && r.keys()[j] == x;
                if j < self.keys().len() {
                    assert(self.keys()[j] == x);
                }
            }
            if self.keys().contains(x) {
                let j = choose|j: int| 0 <= j < self.keys().len() && self.keys()[j] == x;
                assert(r.keys()[j] == x);
            }
            if x == k {
                assert(r.keys()[self.keys().len() as int] == x);
            }
        }
        assert(r.members() =~= self.members().insert(k));
    }

    proof fn lemma_remove(&self, i: int, r: &NameList)
        requires
            self.wf(),
            0 <= i < self.names@.len(),
            r.names@ == self.names@.remove(i),
        ensures
            r.wf(),
            r.members() == self.members().remove(self.keys()[i]),
    {
        let k = self.keys()[i];
        assert(r.keys() =~= self.keys().remove(i));
        assert forall|x: Seq<char>| r.members().contains(x) <==> self.members().remove(k).contains(x)
        by {
            if r.keys().contains(x) {
                let j = choose|j: int| 0 <= j < r.keys().len() && r.keys()[j] == x;
                if j < i {
                    assert(self.keys()[j] == x);
                } else {
                    assert(self.keys()[j + 1] == x);
                }
            }
            if self.keys().contains(x) && x != k {
                let j = choose|j: int| 0 <= j < self.keys().len() && self.keys()[j] == x;
                if j < i {
                    assert(r.keys()[j] == x);
                } else {
                    assert(r.keys()[j - 1] == x);
                }
            }
        }
        assert(r.members() =~= self.members().remove(k));
    }

    /// Adds a nick (its membership prefix dropped) unless it is already present.
    pub fn join(&mut self, nick: &str)
        requires
            old(self).wf(),
        ensures
            final(self).wf(),
            final(self).members() == old(self).members().insert(nick_key(nick@)),
            old(self).members().contains(nick_key(nick@)) ==> final(self).nicks_view() == old(self).nicks_view(),
            !old(self).members().contains(nick_key(nick@)) ==> final(self).nicks_view()
                == old(self).nicks_view().push(strip_prefix(nick@)),
    {
        let nick = drop_nick_prefix(nick);
        match self.find(nick) {
            Some(_) => {
                assert(self.members() =~= self.members().insert(fold(nick@)));
            },
            None => {
                let ghost before = *self;
                let name = Name { name: nick.to_owned(), presence: None };
                self.names.push(name);
                proof {
                    before.lemma_push(name, self);
                }
            },
        }
    }

    /// Removes a nick (its membership prefix dropped) if it is present.
    pub fn part(&mut self, nick: &str)
        requires
            old(self).wf(),
        ensures
            final(self).wf(),
            final(self).members() == old(self).members().remove(nick_key(nick@)),
            !old(self).members().contains(nick_key(nick@)) ==> final(self).nicks_view() == old(self).nicks_view(),
            old(self).members().contains(nick_key(nick@)) ==> exists|i: int|
                0 <= i < old(self).nicks_view().len() && fold(old(self).nicks_view()[i]) == nick_key(nick@)
                    && final(self).nicks_view() == old(self).nicks_view().remove(i),
    {
        let nick = drop_nick_prefix(nick);
        match self.find(nick) {
            Some(i) => {
                let ghost before = *self;
                self.names.remove(i);
                proof {
                    before.lemma_remove(i as int, self);
                    assert(self.nicks_view() =~= before.nicks_view().remove(i as int));
                    assert(fold(before.nicks_view()[i as int]) == before.keys()[i as int]);
                }
            },
            None => {
                assert(self.members() =~= self.members().remove(fold(nick@)));
            },
        }
    }

    /// Renames a present nick; an absent one leaves the list as it is.
    pub fn rename(&mut self, old_nick: &str, new_nick: &str)
        requires
            old(self).wf(),
        ensures
            final(self).wf(),
            final(self).members() == if old(self).members().contains(nick_key(old_nick@)) {
                old(self).members().remove(nick_key(old_nick@)).insert(nick_key(new_nick@))
            } else {
                old(self).members()
            },
    {
        let o = drop_nick_prefix(old_nick);
        match self.find(o) {
            Some(_) => {
                self.part(old_nick);
                self.join(new_nick);
            },
            None => {},
        }
    }

    /// Marks a nick with a presence string, adding it if it is absent.
    pub fn set_presence(&mut self, nick: &str, presence: &str)
        requires
            old(self).wf(),
        ensures
            final(self).wf(),
            final(self).members() == old(self).members().insert(nick_key(nick@)),
            final(self).nicks_view().len() > 0,
            final(self).nicks_view().last() == strip_prefix(nick@),
            final(self).presence_at(final(self).nicks_view().len() - 1) == Some(presence@),
    {
        self.part(nick);
        let nick = drop_nick_prefix(nick);
        let ghost before = *self;
        assert(!before.members().contains(fold(nick@)));
        let name = Name { name: nick.to_owned(), presence: Some(presence.to_owned()) };
        self.names.push(name);
        proof {
            before.lemma_push(name, self);
            assert(before.members().insert(fold(nick@)) =~= old(self).members().remove(
                fold(nick@),
            ).insert(fold(nick@)));
            assert(old(self).members().remove(fold(nick@)).insert(fold(nick@))
                =~= old(self).members().insert(fold(nick@)));
        }
    }

    /// Whether a nick is present, up to ASCII case and membership prefix.
    pub fn has_nick(&self, nick: &str) -> (r: bool)
        ensures
            r == self.members().contains(nick_key(nick@)),
    {
        let nick = drop_nick_prefix(nick);
        self.find(nick).is_some()
    }

    /// Empties the list.
    pub fn clear(&mut self)
        ensures
            final(self).wf(),
            final(self).members() == Set::<Seq<char>>::empty(),
            final(self).width_view() == old(self).width_view(),
            final(self).height_view() == old(self).height_view(),
    {
        self.names = Vec::new();
        assert(self.members() =~= Set::<Seq<char>>::empty());
    }
}

/// A membership event on a channel.
pub enum MemberEv {
    Join(String),
    Part(String),
    Quit(String),
    Nick { old: String, new: String },
}

/// One event applied to a membership set of keys.
pub open spec fn member_step(m: Set<Seq<char>>, ev: MemberEv) -> Set<Seq<char>> {
    match ev {
        MemberEv::Join(n) => m.insert(nick_key(n@)),
        MemberEv::Part(n) => m.remove(nick_key(n@)),
        MemberEv::Quit(n) => m.remove(nick_key(n@)),
        MemberEv::Nick { old, new } => if m.contains(nick_key(old@)) {
            m.remove(nick_key(old@)).insert(nick_key(new@))
        } else {
            m
        },
    }
}

/// The events replayed on an empty set.
pub open spec fn replay(evs: Seq<MemberEv>) -> Set<Seq<char>>
    decreases evs.len(),
{
    if evs.len() == 0 {
        Set::empty()
    } else {
        member_step(replay(evs.drop_last()), evs.last())
    }
}

impl NameList {
    /// Applies one membership event.
    pub fn apply(&mut self, ev: &MemberEv)
        requires
            old(self).wf(),
        ensures
            final(self).wf(),
            final(self).members() == member_step(old(self).members(), *ev),
    {
        match ev {
            MemberEv::Join(n) => self.join(n.as_str()),
            MemberEv::Part(n) => self.part(n.as_str()),
            MemberEv::Quit(n) => self.part(n.as_str()),
            MemberEv::Nick { old, new } => self.rename(old.as_str(), new.as_str()),
        }
    }

    /// The membership that a sequence of JOIN, PART, QUIT and NICK events
    /// leaves on a channel that started empty: exactly the events replayed
    /// on an empty set, nicks compared without regard to ASCII case and
    /// without membership prefix.
    pub fn from_events(evs: &Vec<MemberEv>) -> (r: NameList)
        ensures
            r.wf(),
            r.members() == replay(evs@),
    {
        let mut r = NameList::new(0, 0);
        let mut i: usize = 0;
        while i < evs.len()
            invariant
                i <= evs@.len(),
                r.wf(),
                r.members() == replay(evs@.subrange(0, i as int)),
            decreases evs@.len() - i,
        {
            r.apply(&evs[i]);
            proof {
                let s1 = evs@.subrange(0, i + 1);
                assert(s1.drop_last() =~= evs@.subrange(0, i as int));
                assert(s1.last() == evs@[i as int]);
            }
            i = i + 1;
        }
        assert(evs@.subrange(0, i as int) =~= evs@);
        r
    }
}

impl Name {
    /// What the entry shows: `[presence]nick`, or the nick.
    pub open spec fn draw_view(&self) -> Seq<char> {
        match self.presence {
            None => self.name@,
            Some(p) => seq!['['] + p@ + seq![']'] + self.name@,
        }
    }

    pub fn new(name: String, presence: Option<String>) -> (r: Name)
        ensures
            r.name@ == name@,
            r.presence == presence,
    {
        Name { name, presence }
    }

    /// What the entry shows, cut to `width` characters.
    fn draw_chars(&self, width: usize) -> (r: Vec<char>)
        ensures
            r@ == self.draw_view().take(if width < self.draw_view().len() { width as int } else { self.draw_view().len() as int }),
    {
        let mut all: Vec<char> = Vec::new();
        match &self.presence {
            Some(p) => {
                all.push('[');
                let pc = to_chars(p.as_str());
                let mut i: usize = 0;
                while i < pc.len()
                    invariant
                        i <= pc@.len(),
                        all@ == seq!['['] + pc@.subrange(0, i as int),
                    decreases pc@.len() - i,
                {
                    all.push(pc[i]);
                    i = i + 1;
                    assert(all@ =~= seq!['['] + pc@.subrange(0, i as int));
                }
                all.push(']');
                assert(pc@.subrange(0, i as int) =~= p@);
            },
            None => {},
        }
        let ghost head = all@;
        let nc = to_chars(self.name.as_str());
        let mut j: usize = 0;
        while j < nc.len()
            invariant
                j <= nc@.len(),
                all@ == head + nc@.subrange(0, j as int),
            decreases nc@.len() - j,
        {
            all.push(nc[j]);
            j = j + 1;
            assert(all@ =~= head + nc@.subrange(0, j as int));
        }
        assert(all@ =~= self.draw_view());
        let n = if width < all.len() { width } else { all.len() };
        let mut r: Vec<char> = Vec::new();
        let mut k: usize = 0;
        while k < n
            invariant
                n <= all@.len(),
                k <= n,
                r@ == all@.subrange(0, k as int),
            decreases n - k,
        {
            r.push(all[k]);
            k = k + 1;
            assert(r@ =~= all@.subrange(0, k as int));
        }
        r
    }

    /// Draws the entry at (`pos_x`, `pos_y`), at most `width` characters.
    pub fn draw(&self, tb: &mut Termbox, colors: &Colors, pos_x: i32, pos_y: i32, width: i32)
        requires
            old(tb).wf(),
            width >= 0,
            pos_x + width <= i32::MAX,
        ensures
            printed(*old(tb), *final(tb), pos_x as int, pos_y as int, colors.user_msg, self.draw_view().take(
                if width < self.draw_view().len() { width as int } else { self.draw_view().len() as int },
            )),
    {
        let cs = self.draw_chars(width as usize);
        print_chars(tb, pos_x, pos_y, colors.user_msg, &cs);
    }
}

/// Cells outside the rectangle of `w` columns and `h` rows from (`x`, `y`)
/// stay as they were.
pub open spec fn kept_outside_rect(old: Termbox, new: Termbox, x: int, y: int, w: int, h: int) -> bool {
    &&& new.wf()
    &&& new.w() == old.w()
    &&& new.h() == old.h()
    &&& forall|cx: int, cy: int|
        #![trigger new.cell(cx, cy)]
        new.in_bounds(cx, cy) && !(x <= cx < x + w && y <= cy < y + h) ==> new.cell(cx, cy) == old.cell(cx, cy)
}

impl NameList {
    /// Draws the visible part of the list, one nick a row, from
    /// (`pos_x`, `pos_y`); nothing outside its width and height changes.
    pub fn draw(&self, tb: &mut Termbox, colors: &Colors, pos_x: i32, pos_y: i32)
        requires
            old(tb).wf(),
            self.width_view() >= 0,
            self.height_view() >= 0,
            pos_x + self.width_view() <= i32::MAX,
            pos_y + self.height_view() <= i32::MAX,
        ensures
            kept_outside_rect(*old(tb), *final(tb), pos_x as int, pos_y as int, self.width_view() as int, self.height_view() as int),
    {
        let len = self.names.len();
        let h = self.height as usize;
        let n = if h < len { h } else { len };
        let mut k: usize = 0;
        while k < n
            invariant
                n <= self.names@.len(),
                n <= self.height,
                k <= n,
                self.width >= 0,
                self.height >= 0,
                pos_x + self.width <= i32::MAX,
                pos_y + self.height <= i32::MAX,
                kept_outside_rect(*old(tb), *tb, pos_x as int, pos_y as int, self.width as int, self.height as int),
            decreases n - k,
        {
            let ghost before = *tb;
            let y = pos_y + k as i32;
            self.names[k].draw(tb, colors, pos_x, y, self.width);
            proof {
                let s = self.names@[k as int].draw_view();
                let s2 = s.take(if self.width < s.len() { self.width as int } else { s.len() as int });
                assert forall|cx: int, cy: int|
                    #![trigger tb.cell(cx, cy)]
                    tb.in_bounds(cx, cy) && !(pos_x <= cx < pos_x + self.width && pos_y <= cy < pos_y + self.height)
                    implies tb.cell(cx, cy) == old(tb).cell(cx, cy) by {
                    assert(tb.cell(cx, cy) == if cy == y && pos_x <= cx < pos_x + s2.len() {
                        crate::termbox::Cell { ch: crate::termbox::utf8_packed(s2[cx - pos_x]), fg: colors.user_msg.fg, bg: colors.user_msg.bg }
                    } else {
                        before.cell(cx, cy)
                    });
                }
            }
            k = k + 1;
        }
    }
}

/// Strings joined with single spaces.
pub open spec fn joined(ns: Seq<Seq<char>>) -> Seq<char>
    decreases ns.len(),
{
    if ns.len() == 0 {
        seq![]
    } else if ns.len() == 1 {
        ns[0]
    } else {
        joined(ns.drop_last()) + seq![' '] + ns.last()
    }
}

impl NameList {
    /// The nicks in list order.
    pub closed spec fn nicks_view(&self) -> Seq<Seq<char>> {
        self.names@.map_values(|n: Name| n.name@)
    }

    /// The nicks, in list order, separated by single spaces.
    pub fn nicks_line(&self) -> (r: String)
        ensures
            r@ == joined(self.nicks_view()),
    {
        let mut r = String::new();
        let mut i: usize = 0;
        while i < self.names.len()
            invariant
                i <= self.names@.len(),
                r@ == joined(self.nicks_view().subrange(0, i as int)),
            decreases self.names@.len() - i,
        {
            let ghost pre = self.nicks_view().subrange(0, i as int);
            proof {
                reveal_strlit(" ");
                assert(self.nicks_view().subrange(0, i + 1).drop_last() =~= pre);
            }
            if i > 0 {
                r.append(" ");
            } else {
                assert(pre.len() == 0);
            }
            r.append(self.names[i].name.as_str());
            proof {
                let nx = self.nicks_view().subrange(0, i + 1);
                if i == 0 {
                    assert(r@ =~= nx[0]);
                } else {
                    assert(r@ =~= joined(pre) + seq![' '] + nx.last());
                }
            }
            i = i + 1;
        }
        assert(self.nicks_view().subrange(0, i as int) =~= self.nicks_view());
        r
    }
}

} // verus!
