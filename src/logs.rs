//! Chat logs as a source of lines to learn: `(YYYY-MM-DD HH:MM:SS) <nick> message`.

use vstd::prelude::*;
use crate::dictionary::{whitespace_tokens, Dictionary};
use crate::model::{after_line, ModelView};
use crate::text::{
    capture_pair, contains_str, lower_of, lowercase, occurs_in, regex_pair, split_lines, strip_prefix,
    text_lines,
};

verus! {

/// The pattern of a log line; its groups are the nick and the message.
pub const LOG_LINE_PATTERN: &'static str = "\\(\\d\\d\\d\\d-\\d\\d-\\d\\d \\d\\d:\\d\\d:\\d\\d\\)\\s*<(?P<nick>[^>]+)> (?P<message>.*)";

/// The name of the bot, whose own lines are not learned.
pub const BOT_NAME: &'static str = "lucidbot";

/// The message of a log line worth learning: one whose nick is not the
/// bot's, whatever the case, and whose message is no command.
pub open spec fn learnable_message(line: Seq<char>) -> Option<Seq<char>> {
    match regex_pair(LOG_LINE_PATTERN@, line) {
        Some((nick, msg)) => if occurs_in(BOT_NAME@, lower_of(nick)) || seq!['!'].is_prefix_of(msg) {
            None
        } else {
            Some(msg)
        },
        None => None,
    }
}

/// The message of a log line worth learning, if it is one.
pub fn learnable_message_of(line: &str) -> (r: Option<String>)
    ensures
        match r {
            Some(m) => learnable_message(line@) == Some(m@),
            None => learnable_message(line@) is None,
        },
{
    match capture_pair(LOG_LINE_PATTERN, line) {
        None => None,
        Some((nick, msg)) => {
            proof {
                reveal_strlit("!");
            }
            let lower = lowercase(nick.as_str());
            if contains_str(lower.as_str(), BOT_NAME) {
                return None;
            }
            match strip_prefix(msg.as_str(), "!") {
                Some(_) => None,
                None => Some(msg),
            }
        },
    }
}

/// The model after learning, in order, the learnable messages of `lines`;
/// a message that would outgrow the binary layout is passed over.
pub open spec fn learn_log_lines(m: ModelView, lines: Seq<Seq<char>>) -> ModelView
    decreases lines.len(),
{
    if lines.len() == 0 {
        m
    } else {
        let prev = learn_log_lines(m, lines.drop_last());
        match learnable_message(lines.last()) {
            Some(msg) => after_line(prev, whitespace_tokens(msg)),
            None => prev,
        }
    }
}

impl Dictionary {
    /// Learns the learnable messages of a chat log, line by line.
    pub fn learn_from_log(&mut self, text: &str)
        requires
            old(self).inv(),
        ensures
            final(self).inv(),
            final(self)@ == learn_log_lines(old(self)@, text_lines(text@)),
    {
        let lines = split_lines(text);
        let ghost ls = crate::dictionary::strings_view(lines@);
        let ghost m0 = self@;
        let mut i: usize = 0;
        proof {
            assert(ls.take(0) =~= Seq::<Seq<char>>::empty());
        }
        while i < lines.len()
            invariant
                self.inv(),
                ls == crate::dictionary::strings_view(lines@),
                i <= lines@.len(),
                self@ == learn_log_lines(m0, ls.take(i as int)),
            decreases lines@.len() - i,
        {
            proof {
                assert(ls.take(i + 1).drop_last() =~= ls.take(i as int));
                assert(ls.take(i + 1).last() == lines@[i as int]@);
            }
            match learnable_message_of(lines[i].as_str()) {
                Some(msg) => {
                    self.learn_from_line(msg.as_str());
                },
                None => {},
            }
            i += 1;
        }
        proof {
            assert(ls.take(lines@.len() as int) =~= ls);
        }
    }
}

} // verus!
