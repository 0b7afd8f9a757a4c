//! Sources and targets of messages shown in tabs.

use vstd::prelude::*;

verus! {

/// Target of a message to be shown on a UI.
pub enum MsgTarget<'a> {
    /// Show it in a server tab.
    Server { serv_name: &'a str },
    /// Show it in a channel tab.
    Chan { serv_name: &'a str, chan_name: &'a str },
    /// Show it in a privmsg tab.
    User { serv_name: &'a str, nick: &'a str },
    /// Show it in all tabs of a server.
    AllServTabs { serv_name: &'a str },
    /// Show it in all tabs of a server that have the user (channels, privmsg tabs).
    AllUserTabs { serv_name: &'a str, nick: &'a str },
    /// Show it in the currently active tab.
    CurrentTab,
}

/// A target, as seen in contracts.
pub enum TargetV {
    Server(Seq<char>),
    Chan(Seq<char>, Seq<char>),
    User(Seq<char>, Seq<char>),
    AllServTabs(Seq<char>),
    AllUserTabs(Seq<char>, Seq<char>),
    CurrentTab,
}

impl<'a> View for MsgTarget<'a> {
    type V = TargetV;

    open spec fn view(&self) -> TargetV {
        match self {
            MsgTarget::Server { serv_name } => TargetV::Server(serv_name@),
            MsgTarget::Chan { serv_name, chan_name } => TargetV::Chan(serv_name@, chan_name@),
            MsgTarget::User { serv_name, nick } => TargetV::User(serv_name@, nick@),
            MsgTarget::AllServTabs { serv_name } => TargetV::AllServTabs(serv_name@),
            MsgTarget::AllUserTabs { serv_name, nick } => TargetV::AllUserTabs(serv_name@, nick@),
            MsgTarget::CurrentTab => TargetV::CurrentTab,
        }
    }
}

/// Source of a message from the user: the tab it was typed in.
#[derive(Debug)]
pub enum MsgSource {
    /// Message sent in a server tab.
    Serv { serv_name: String },
    /// Message sent in a channel tab.
    Chan { serv_name: String, chan_name: String },
    /// Message sent in a privmsg tab.
    User { serv_name: String, nick: String },
}

impl MsgSource {
    pub open spec fn serv_view(&self) -> Seq<char> {
        match self {
            MsgSource::Serv { serv_name } => serv_name@,
            MsgSource::Chan { serv_name, .. } => serv_name@,
            MsgSource::User { serv_name, .. } => serv_name@,
        }
    }

    pub open spec fn visible_view(&self) -> Seq<char> {
        match self {
            MsgSource::Serv { serv_name } => serv_name@,
            MsgSource::Chan { chan_name, .. } => chan_name@,
            MsgSource::User { nick, .. } => nick@,
        }
    }

    pub fn serv_name(&self) -> (r: &str)
        ensures
            r@ == self.serv_view(),
    {
        match self {
            MsgSource::Serv { serv_name } => serv_name.as_str(),
            MsgSource::Chan { serv_name, .. } => serv_name.as_str(),
            MsgSource::User { serv_name, .. } => serv_name.as_str(),
        }
    }

    /// The target that shows a message in the tab this source stands for.
    pub fn to_target(&self) -> (r: MsgTarget)
        ensures
            match self {
                MsgSource::Serv { serv_name } => r matches MsgTarget::Server { serv_name: s }
                    && s@ == serv_name@,
                MsgSource::Chan { serv_name, chan_name } => r matches MsgTarget::Chan {
                    serv_name: s,
                    chan_name: c,
                } && s@ == serv_name@ && c@ == chan_name@,
                MsgSource::User { serv_name, nick } => r matches MsgTarget::User {
                    serv_name: s,
                    nick: n,
                } && s@ == serv_name@ && n@ == nick@,
            },
    {
        match self {
            MsgSource::Serv { serv_name } => MsgTarget::Server { serv_name: serv_name.as_str() },
            MsgSource::Chan { serv_name, chan_name } => MsgTarget::Chan {
                serv_name: serv_name.as_str(),
                chan_name: chan_name.as_str(),
            },
            MsgSource::User { serv_name, nick } => MsgTarget::User {
                serv_name: serv_name.as_str(),
                nick: nick.as_str(),
            },
        }
    }

    /// The name shown on the tab: server, channel or nick.
    pub fn visible_name(&self) -> (r: &str)
        ensures
            r@ == self.visible_view(),
    {
        match self {
            MsgSource::Serv { serv_name } => serv_name.as_str(),
            MsgSource::Chan { chan_name, .. } => chan_name.as_str(),
            MsgSource::User { nick, .. } => nick.as_str(),
        }
    }
}

/// A UI event.
pub enum UIEv {
    /// Quit.
    Abort,
    /// An input line from the user.
    Input { msg: Vec<char>, from: MsgSource },
    /// Pasted lines.
    Lines { lines: Vec<String>, from: MsgSource },
}

} // verus!
