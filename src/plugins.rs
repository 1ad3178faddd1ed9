//! The plugins of the chat bot.

use vstd::prelude::*;
use vstd::string::StringExecFns;
use crate::bot::{sends, BotEvent, MessageData, Plugin, ResumeEventHandling};
use crate::dictionary::{strings_view, whitespace_tokens, Dictionary};
use crate::generate::{is_walk, sentence, walk_stopped, MAX_SENTENCE_TOKENS};
use crate::model::{after_line, ModelView};
use crate::random::random_below;
use crate::text::{lower_of, lowercase, replace_all, replaced, split_lines, text_lines};
use crate::word::Word;

verus! {

/// Whether the regular expression `pattern` matches somewhere in `text`;
/// `false` where the pattern is not valid.
pub uninterp spec fn regex_matches(pattern: Seq<char>, text: Seq<char>) -> bool;

/// Relies on regex's `Regex::new` and `Regex::is_match`: whether a pattern
/// matches depends on the pattern and the text alone.
#[verifier::external_body]
fn pattern_matches(pattern: &str, text: &str) -> (r: bool)
    ensures
        r == regex_matches(pattern@, text@),
{
    match regex::Regex::new(pattern) {
        Ok(re) => re.is_match(text),
        Err(_) => false,
    }
}

/// Whether `pattern` is a valid regular expression.
pub uninterp spec fn regex_valid(pattern: Seq<char>) -> bool;

/// Relies on regex's `Regex::new`: whether a pattern compiles depends on
/// the pattern alone.
#[verifier::external_body]
fn pattern_is_valid(pattern: &str) -> (r: bool)
    ensures
        r == regex_valid(pattern@),
{
    regex::Regex::new(pattern).is_ok()
}

/// Repeats every message into its channel.
pub struct EchoPlugin;

impl Plugin for EchoPlugin {
    fn plugin_priority(&self, user: &str, channel: &str, msg: &str) -> i16 {
        0
    }

    fn handle_command(&mut self, user: &str, channel: &str, params: Vec<String>) -> BotEvent {
        BotEvent::Nothing(ResumeEventHandling::Resume)
    }

    fn handle_message(&mut self, data: MessageData) -> BotEvent {
        BotEvent::Send(data.msg.to_owned(), ResumeEventHandling::Resume)
    }
}

/// Logs every message as `<user> message`.
pub struct Logger;

impl Logger {
    /// The log line of a message.
    pub fn log_line(user: &str, msg: &str) -> (r: String)
        ensures
            r@ == seq!['<'] + user@ + seq!['>', ' '] + msg@,
    {
        let mut s = String::new();
        proof {
            reveal_strlit("<");
            reveal_strlit("> ");
        }
        s.append("<");
        s.append(user);
        s.append("> ");
        s.append(msg);
        proof {
            assert(s@ =~= seq!['<'] + user@ + seq!['>', ' '] + msg@);
        }
        s
    }
}

impl Plugin for Logger {
    fn plugin_priority(&self, user: &str, channel: &str, msg: &str) -> i16 {
        -1
    }

    fn handle_command(&mut self, user: &str, channel: &str, params: Vec<String>) -> BotEvent {
        BotEvent::Nothing(ResumeEventHandling::Resume)
    }

    fn handle_message(&mut self, data: MessageData) -> BotEvent {
        BotEvent::Log(Logger::log_line(data.user, data.msg), ResumeEventHandling::Resume)
    }
}

/// Whether the first command word is `word`.
fn first_param_is(params: &Vec<String>, word: &str) -> (r: bool)
    ensures
        r == (params@.len() > 0 && params@[0]@ == word@),
{
    params.len() > 0 && params[0] == word.to_owned()
}

/// Answers the `eightball` command with one of its responses.
pub struct Eightball {
    responses: Vec<String>,
}

impl Eightball {
    /// The responses in order.
    pub closed spec fn response_list(&self) -> Seq<Seq<char>> {
        strings_view(self.responses@)
    }

    /// The responses, one per line of `contents`.
    pub fn from_text(contents: &str) -> (r: Eightball)
        ensures
            r.response_list() == text_lines(contents@),
    {
        Eightball { responses: split_lines(contents) }
    }

    /// The number of responses.
    pub fn response_count(&self) -> (r: usize)
        ensures
            r == self.response_list().len(),
    {
        self.responses.len()
    }

    /// Response number `pick`, with each `%s` in it replaced by `user`.
    pub fn answer(&self, user: &str, pick: usize) -> (r: BotEvent)
        requires
            pick < self.response_list().len(),
        ensures
            sends(
                r,
                replaced(self.response_list()[pick as int], seq!['%', 's'], user@),
                ResumeEventHandling::Stop,
            ),
    {
        proof {
            reveal_strlit("%s");
            assert(self.response_list()[pick as int] == self.responses@[pick as int]@);
            assert("%s"@ =~= seq!['%', 's']);
        }
        let s = replace_all(self.responses[pick].as_str(), "%s", user);
        BotEvent::Send(s, ResumeEventHandling::Stop)
    }
}

impl Plugin for Eightball {
    fn plugin_priority(&self, user: &str, channel: &str, msg: &str) -> i16 {
        -1
    }

    /// `eightball` answers with one of the responses, drawn at random.
    fn handle_command(&mut self, user: &str, channel: &str, params: Vec<String>) -> (r: BotEvent)
        ensures
            final(self).response_list() == old(self).response_list(),
            if params@.len() > 0 && params@[0]@ == "eightball"@ && old(self).response_list().len() > 0 {
                exists|i: int|
                    0 <= i < old(self).response_list().len() && sends(
                        r,
                        replaced(old(self).response_list()[i], seq!['%', 's'], user@),
                        ResumeEventHandling::Stop,
                    )
            } else {
                r == BotEvent::Nothing(ResumeEventHandling::Resume)
            },
    {
        if first_param_is(&params, "eightball") && self.responses.len() > 0 {
            let pick = random_below(self.responses.len() as u64) as usize;
            self.answer(user, pick)
        } else {
            BotEvent::Nothing(ResumeEventHandling::Resume)
        }
    }

    fn handle_message(&mut self, data: MessageData) -> BotEvent {
        BotEvent::Nothing(ResumeEventHandling::Resume)
    }
}

/// The index of the first pattern that matches `text`.
pub open spec fn first_match(patterns: Seq<(Seq<char>, Seq<char>)>, text: Seq<char>) -> Option<nat>
    decreases patterns.len(),
{
    if patterns.len() == 0 {
        None
    } else if regex_matches(patterns[0].0, text) {
        Some(0)
    } else {
        match first_match(patterns.drop_first(), text) {
            Some(i) => Some(i + 1),
            None => None,
        }
    }
}

proof fn lemma_first_match(patterns: Seq<(Seq<char>, Seq<char>)>, text: Seq<char>, i: int)
    requires
        0 <= i <= patterns.len(),
        forall|j: int| 0 <= j < i ==> !regex_matches(#[trigger] patterns[j].0, text),
    ensures
        i < patterns.len() && regex_matches(patterns[i].0, text) ==> first_match(patterns, text)
            == Some(i as nat),
        i == patterns.len() ==> first_match(patterns, text) is None,
    decreases i,
{
    if i > 0 {
        let rest = patterns.drop_first();
        assert forall|j: int| 0 <= j < i - 1 implies !regex_matches(#[trigger] rest[j].0, text) by {
            assert(rest[j] == patterns[j + 1]);
        }
        lemma_first_match(rest, text, i - 1);
        assert(!regex_matches(patterns[0].0, text));
        if i < patterns.len() {
            assert(rest[i - 1] == patterns[i]);
        }
    }
}

/// Answers messages that match a pattern with the pattern's response.
pub struct Patterns {
    patterns: Vec<(String, String)>,
}

impl Patterns {
    /// The patterns and their responses.
    pub closed spec fn entries(&self) -> Seq<(Seq<char>, Seq<char>)> {
        self.patterns@.map_values(|p: (String, String)| (p.0@, p.1@))
    }

    /// The patterns of a text that alternates pattern lines and response
    /// lines; `None` where a pattern lacks its response.
    pub fn from_text(contents: &str) -> (r: Option<Patterns>)
        ensures
            text_lines(contents@).len() % 2 == 1 <==> r is None,
            r matches Some(p) ==> p.entries().len() * 2 == text_lines(contents@).len() && forall|i: int|
                0 <= i < p.entries().len() ==> #[trigger] p.entries()[i] == (
                    text_lines(contents@)[2 * i],
                    text_lines(contents@)[2 * i + 1],
                ),
    {
        let lines = split_lines(contents);
        let ghost ls = strings_view(lines@);
        if lines.len() % 2 == 1 {
            return None;
        }
        let mut patterns: Vec<(String, String)> = Vec::new();
        let mut i: usize = 0;
        while i < lines.len() / 2
            invariant
                ls == strings_view(lines@),
                ls.len() % 2 == 0,
                i <= ls.len() / 2,
                patterns@.len() == i,
                forall|j: int| 0 <= j < i ==> (#[trigger] patterns@[j]).0@ == ls[2 * j] && patterns@[j].1@ == ls[2 * j + 1],
            decreases ls.len() / 2 - i,
        {
            patterns.push((lines[2 * i].clone(), lines[2 * i + 1].clone()));
            i += 1;
        }
        let p = Patterns { patterns };
        proof {
            assert forall|j: int| 0 <= j < p.entries().len() implies #[trigger] p.entries()[j] == (
                ls[2 * j],
                ls[2 * j + 1],
            ) by {
                assert(p.entries()[j] == (p.patterns@[j].0@, p.patterns@[j].1@));
            }
        }
        Some(p)
    }

    /// The position of the first pattern that is not a valid regular
    /// expression, if any.
    pub fn invalid_pattern(&self) -> (r: Option<usize>)
        ensures
            match r {
                Some(i) => i < self.entries().len() && !regex_valid(self.entries()[i as int].0)
                    && forall|j: int| 0 <= j < i ==> regex_valid(#[trigger] self.entries()[j].0),
                None => forall|j: int|
                    0 <= j < self.entries().len() ==> regex_valid(#[trigger] self.entries()[j].0),
            },
    {
        let mut i: usize = 0;
        while i < self.patterns.len()
            invariant
                i <= self.patterns@.len(),
                forall|j: int| 0 <= j < i ==> regex_valid(#[trigger] self.entries()[j].0),
            decreases self.patterns@.len() - i,
        {
            proof {
                assert(self.entries()[i as int] == (self.patterns@[i as int].0@, self.patterns@[i as int].1@));
            }
            if !pattern_is_valid(self.patterns[i].0.as_str()) {
                return Some(i);
            }
            i += 1;
        }
        None
    }

    /// The reply to a message: the response of the first pattern that
    /// matches the message in lowercase.
    pub fn respond(&self, msg: &str) -> (r: BotEvent)
        ensures
            match first_match(self.entries(), lower_of(msg@)) {
                Some(i) => sends(r, self.entries()[i as int].1, ResumeEventHandling::Resume),
                None => r == BotEvent::Nothing(ResumeEventHandling::Resume),
            },
    {
        let lower = lowercase(msg);
        let mut i: usize = 0;
        while i < self.patterns.len()
            invariant
                lower@ == lower_of(msg@),
                i <= self.patterns@.len(),
                forall|j: int| 0 <= j < i ==> !regex_matches(#[trigger] self.entries()[j].0, lower@),
            decreases self.patterns@.len() - i,
        {
            if pattern_matches(self.patterns[i].0.as_str(), lower.as_str()) {
                proof {
                    assert(self.entries()[i as int] == (self.patterns@[i as int].0@, self.patterns@[i as int].1@));
                    lemma_first_match(self.entries(), lower@, i as int);
                }
                return BotEvent::Send(self.patterns[i].1.clone(), ResumeEventHandling::Resume);
            }
            proof {
                assert(self.entries()[i as int] == (self.patterns@[i as int].0@, self.patterns@[i as int].1@));
            }
            i += 1;
        }
        proof {
            lemma_first_match(self.entries(), lower@, i as int);
        }
        BotEvent::Nothing(ResumeEventHandling::Resume)
    }
}

impl Plugin for Patterns {
    fn plugin_priority(&self, user: &str, channel: &str, msg: &str) -> i16 {
        -1
    }

    fn handle_command(&mut self, user: &str, channel: &str, params: Vec<String>) -> BotEvent {
        BotEvent::Nothing(ResumeEventHandling::Resume)
    }

    /// Answers as `respond` does.
    fn handle_message(&mut self, data: MessageData) -> (r: BotEvent)
        ensures
            final(self).entries() == old(self).entries(),
            match first_match(old(self).entries(), lower_of(data.msg@)) {
                Some(i) => sends(r, old(self).entries()[i as int].1, ResumeEventHandling::Resume),
                None => r == BotEvent::Nothing(ResumeEventHandling::Resume),
            },
    {
        self.respond(data.msg)
    }
}

/// `s` is a sentence that the generator can give for model `m`.
pub open spec fn generated_from(m: ModelView, s: Seq<char>) -> bool {
    exists|t: Seq<Word>|
        t.len() <= MAX_SENTENCE_TOKENS && is_walk(m.table, t) && walk_stopped(
            m.table,
            t,
            MAX_SENTENCE_TOKENS as nat,
        ) && s == sentence(m, t)
}

/// The reply `r` to a `random` command with words `params`, and whether the
/// plugin is enabled after it, given whether it was before.
pub open spec fn switched(params: Seq<String>, was: bool, r: BotEvent, now: bool) -> bool {
    if params.len() < 2 {
        sends(r, "Not enough parameters"@, ResumeEventHandling::Stop) && now == was
    } else if params[1]@ == "enable"@ {
        sends(r, "RandomChat enabled."@, ResumeEventHandling::Stop) && now
    } else if params[1]@ == "disable"@ {
        sends(r, "RandomChat disabled."@, ResumeEventHandling::Stop) && !now
    } else {
        sends(r, "Unknown parameter value: "@ + params[1]@, ResumeEventHandling::Stop) && now == was
    }
}

/// Learns from the chat, and now and then answers with a generated
/// sentence.
pub struct RandomChat {
    dict: Dictionary,
    enabled: bool,
    probability: u8,
}

impl RandomChat {
    #[verifier::type_invariant]
    spec fn type_inv(self) -> bool {
        self.dict.inv()
    }

    /// The model of its dictionary.
    pub closed spec fn model(&self) -> ModelView {
        self.dict@
    }

    pub closed spec fn is_enabled(&self) -> bool {
        self.enabled
    }

    pub closed spec fn chance(&self) -> u8 {
        self.probability
    }

    /// A plugin over `dict` that answers a message with chance
    /// `probability` in a hundred while it is enabled.
    pub fn new(dict: Dictionary, enabled: bool, probability: u8) -> (r: RandomChat)
        requires
            dict.inv(),
        ensures
            r.model() == dict@,
            r.is_enabled() == enabled,
            r.chance() == probability,
    {
        RandomChat { dict, enabled, probability }
    }

    /// Its dictionary.
    pub fn dictionary(&self) -> (r: &Dictionary)
        ensures
            r@ == self.model(),
            r.inv(),
    {
        proof {
            use_type_invariant(self);
        }
        &self.dict
    }

    pub fn enabled(&self) -> (r: bool)
        ensures
            r == self.is_enabled(),
    {
        self.enabled
    }

    pub fn probability(&self) -> (r: u8)
        ensures
            r == self.chance(),
    {
        self.probability
    }

    /// Reacts to a chat message, with `roll` drawn from `0..100`: while
    /// enabled it learns the message unless the bot wrote it, and answers
    /// with a generated sentence where `roll` is below the probability.
    pub fn react(&mut self, data: MessageData, roll: u64) -> (r: BotEvent)
        ensures
            final(self).is_enabled() == old(self).is_enabled(),
            final(self).chance() == old(self).chance(),
            !old(self).is_enabled() ==> r == BotEvent::Nothing(ResumeEventHandling::Resume)
                && final(self).model() == old(self).model(),
            old(self).is_enabled() ==> final(self).model() == if data.self_name@ != data.user@ {
                after_line(old(self).model(), whitespace_tokens(data.msg@))
            } else {
                old(self).model()
            },
            old(self).is_enabled() && roll < old(self).chance() ==> (r matches BotEvent::Send(s, m)
                && m == ResumeEventHandling::Resume && generated_from(final(self).model(), s@)),
            old(self).is_enabled() && roll >= old(self).chance() ==> r == BotEvent::Nothing(
                ResumeEventHandling::Resume,
            ),
    {
        proof {
            use_type_invariant(&*self);
        }
        if !self.enabled {
            return BotEvent::Nothing(ResumeEventHandling::Resume);
        }
        if data.self_name.to_owned() != data.user.to_owned() {
            let mut d = Dictionary::new();
            core::mem::swap(&mut self.dict, &mut d);
            d.learn_from_line(data.msg);
            core::mem::swap(&mut self.dict, &mut d);
        }
        if roll < self.probability as u64 {
            let s = self.dict.generate_sentence();
            BotEvent::Send(s, ResumeEventHandling::Resume)
        } else {
            BotEvent::Nothing(ResumeEventHandling::Resume)
        }
    }

    /// Reacts to a command: `gadaj` answers with a generated sentence;
    /// `random enable` and `random disable` switch the plugin on and off.
    pub fn command(&mut self, params: &Vec<String>) -> (r: BotEvent)
        ensures
            final(self).chance() == old(self).chance(),
            final(self).model() == old(self).model(),
            if params@.len() > 0 && params@[0]@ == "gadaj"@ {
                (r matches BotEvent::Send(s, m) && m == ResumeEventHandling::Stop && generated_from(
                    old(self).model(),
                    s@,
                )) && final(self).is_enabled() == old(self).is_enabled()
            } else if params@.len() > 0 && params@[0]@ == "random"@ {
                switched(params@, old(self).is_enabled(), r, final(self).is_enabled())
            } else {
                r == BotEvent::Nothing(ResumeEventHandling::Resume) && final(self).is_enabled()
                    == old(self).is_enabled()
            },
    {
        proof {
            use_type_invariant(&*self);
        }
        if first_param_is(params, "gadaj") {
            let s = self.dict.generate_sentence();
            BotEvent::Send(s, ResumeEventHandling::Stop)
        } else if first_param_is(params, "random") {
            self.switch(params)
        } else {
            BotEvent::Nothing(ResumeEventHandling::Resume)
        }
    }
}

impl RandomChat {
    /// The `random` command with its parameters.
    fn switch(&mut self, params: &Vec<String>) -> (r: BotEvent)
        requires
            old(self).dict.inv(),
        ensures
            final(self).chance() == old(self).chance(),
            final(self).model() == old(self).model(),
            switched(params@, old(self).is_enabled(), r, final(self).is_enabled()),
    {
        if params.len() < 2 {
            BotEvent::Send("Not enough parameters".to_owned(), ResumeEventHandling::Stop)
        } else if params[1] == "enable".to_owned() {
            self.enabled = true;
            BotEvent::Send("RandomChat enabled.".to_owned(), ResumeEventHandling::Stop)
        } else if params[1] == "disable".to_owned() {
            self.enabled = false;
            BotEvent::Send("RandomChat disabled.".to_owned(), ResumeEventHandling::Stop)
        } else {
            let mut s = "Unknown parameter value: ".to_owned();
            s.append(params[1].as_str());
            BotEvent::Send(s, ResumeEventHandling::Stop)
        }
    }
}

impl Plugin for RandomChat {
    fn plugin_priority(&self, user: &str, channel: &str, msg: &str) -> i16 {
        10
    }

    /// Answers as `command` does.
    fn handle_command(&mut self, user: &str, channel: &str, params: Vec<String>) -> (r: BotEvent)
        ensures
            final(self).chance() == old(self).chance(),
            final(self).model() == old(self).model(),
            if params@.len() > 0 && params@[0]@ == "gadaj"@ {
                (r matches BotEvent::Send(s, m) && m == ResumeEventHandling::Stop && generated_from(
                    old(self).model(),
                    s@,
                )) && final(self).is_enabled() == old(self).is_enabled()
            } else if params@.len() > 0 && params@[0]@ == "random"@ {
                switched(params@, old(self).is_enabled(), r, final(self).is_enabled())
            } else {
                r == BotEvent::Nothing(ResumeEventHandling::Resume) && final(self).is_enabled()
                    == old(self).is_enabled()
            },
    {
        self.command(&params)
    }

    /// Reacts as `react` does, with a roll drawn from `0..100`.
    fn handle_message(&mut self, data: MessageData) -> (r: BotEvent)
        ensures
            final(self).is_enabled() == old(self).is_enabled(),
            final(self).chance() == old(self).chance(),
            !old(self).is_enabled() ==> r == BotEvent::Nothing(ResumeEventHandling::Resume)
                && final(self).model() == old(self).model(),
            old(self).is_enabled() ==> final(self).model() == if data.self_name@ != data.user@ {
                after_line(old(self).model(), whitespace_tokens(data.msg@))
            } else {
                old(self).model()
            },
            r == BotEvent::Nothing(ResumeEventHandling::Resume) || (r matches BotEvent::Send(s, m)
                && m == ResumeEventHandling::Resume && generated_from(final(self).model(), s@)),
            old(self).chance() == 0 ==> r == BotEvent::Nothing(ResumeEventHandling::Resume),
            old(self).is_enabled() && old(self).chance() >= 100 ==> (r matches BotEvent::Send(s, m)
                && m == ResumeEventHandling::Resume && generated_from(final(self).model(), s@)),
    {
        let roll = random_below(100);
        self.react(data, roll)
    }
}

} // verus!
