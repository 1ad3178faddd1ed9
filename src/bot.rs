//! What the chat bot decides around the dictionary: the events that plugins
//! hand back, and how a chat line becomes a command.

use vstd::prelude::*;
use vstd::string::StringExecFns;
use crate::dictionary::{split_line, strings_view, whitespace_tokens};
use crate::text::{lower_of, lowercase, strip_prefix};

verus! {

/// Whether the plugins after this one still see the message.
#[derive(Clone, Copy, PartialEq, Eq, Structural, Debug)]
pub enum ResumeEventHandling {
    Resume,
    Stop,
}

/// What a plugin asks the bot to do with a message.
#[derive(Clone, PartialEq, Eq, Debug)]
pub enum BotEvent {
    Nothing(ResumeEventHandling),
    Log(String, ResumeEventHandling),
    Send(String, ResumeEventHandling),
}

impl BotEvent {
    /// Whether handling goes on after this event.
    pub fn resume_mode(&self) -> (r: ResumeEventHandling)
        ensures
            r == match self {
                BotEvent::Nothing(m) => *m,
                BotEvent::Log(_, m) => *m,
                BotEvent::Send(_, m) => *m,
            },
    {
        match self {
            BotEvent::Nothing(r) => *r,
            BotEvent::Log(_, r) => *r,
            BotEvent::Send(_, r) => *r,
        }
    }
}

/// `r` asks to send `text`, then to go on or stop as `m` says.
pub open spec fn sends(r: BotEvent, text: Seq<char>, m: ResumeEventHandling) -> bool {
    r matches BotEvent::Send(s, x) && s@ == text && x == m
}

/// A chat message as the plugins see it.
#[derive(Clone, Copy, Debug)]
pub struct MessageData<'a> {
    pub self_name: &'a str,
    pub user: &'a str,
    pub channel: &'a str,
    pub msg: &'a str,
}

/// A part of the bot that reacts to messages and commands.
pub trait Plugin {
    /// Plugins with a lower value see a message first.
    fn plugin_priority(&self, user: &str, channel: &str, msg: &str) -> i16;

    /// Reacts to a command, given as its lowercase words.
    fn handle_command(&mut self, user: &str, channel: &str, params: Vec<String>) -> BotEvent;

    /// Reacts to an ordinary message.
    fn handle_message(&mut self, data: MessageData) -> BotEvent;
}

/// The command words of `msg`: where it starts with `command_char`, the
/// whitespace-separated tokens of the rest, in lowercase.
pub open spec fn command_words(msg: Seq<char>, command_char: Seq<char>) -> Option<Seq<Seq<char>>> {
    if command_char.is_prefix_of(msg) {
        Some(
            whitespace_tokens(msg.subrange(command_char.len() as int, msg.len() as int)).map_values(
                |w: Seq<char>| lower_of(w),
            ),
        )
    } else {
        None
    }
}

/// The command words of `msg`, or `None` where it is no command.
pub fn parse_command(msg: &str, command_char: &str) -> (r: Option<Vec<String>>)
    ensures
        match r {
            Some(v) => command_words(msg@, command_char@) == Some(strings_view(v@)),
            None => command_words(msg@, command_char@) is None,
        },
{
    match strip_prefix(msg, command_char) {
        None => None,
        Some(rest) => {
            proof {
                assert(rest@ =~= msg@.subrange(command_char@.len() as int, msg@.len() as int));
            }
            let words = split_line(rest.as_str());
            let mut out: Vec<String> = Vec::new();
            let mut i: usize = 0;
            while i < words.len()
                invariant
                    i <= words@.len(),
                    out@.len() == i,
                    forall|j: int| 0 <= j < i ==> (#[trigger] out@[j])@ == lower_of(words@[j]@),
                decreases words@.len() - i,
            {
                let w = lowercase(words[i].as_str());
                out.push(w);
                i += 1;
            }
            proof {
                let ts = whitespace_tokens(rest@);
                assert(strings_view(words@) == ts);
                assert(strings_view(out@) =~= ts.map_values(|w: Seq<char>| lower_of(w))) by {
                    assert forall|j: int| 0 <= j < out@.len() implies strings_view(out@)[j]
                        == ts.map_values(|w: Seq<char>| lower_of(w))[j] by {
                        assert(ts[j] == words@[j]@);
                    }
                }
            }
            Some(out)
        },
    }
}

/// The mark of a user's rank: `&` for the primary owner, `~` for an owner,
/// `@` for an admin, none for anyone else.
pub open spec fn rank_mark(primary_owner: bool, owner: bool, admin: bool) -> Seq<char> {
    if primary_owner {
        seq!['&']
    } else if owner {
        seq!['~']
    } else if admin {
        seq!['@']
    } else {
        Seq::empty()
    }
}

/// A user's name as the bot shows it: the mark of the rank, then the name.
pub fn display_name(primary_owner: bool, owner: bool, admin: bool, name: &str) -> (r: String)
    ensures
        r@ == rank_mark(primary_owner, owner, admin) + name@,
{
    proof {
        reveal_strlit("&");
        reveal_strlit("~");
        reveal_strlit("@");
    }
    let mut s = String::new();
    if primary_owner {
        s.append("&");
    } else if owner {
        s.append("~");
    } else if admin {
        s.append("@");
    }
    s.append(name);
    proof {
        assert(s@ =~= rank_mark(primary_owner, owner, admin) + name@);
    }
    s
}

} // verus!
