//! The bot's settings: lines of the form `"key" : "value"`.

use vstd::prelude::*;
use vstd::string::StringExecFns;
use crate::dictionary::strings_view;
use crate::text::{capture_pair, regex_pair, split_lines, text_lines};

verus! {

/// The pattern of a settings line: a quoted key, a colon, a quoted value.
pub const SETTING_PATTERN: &'static str = "\"([^\"]+)\"\\s*:\\s*\"([^\"]+)\"";

/// Where the first entry for `key` stands.
pub open spec fn setting_position(entries: Seq<(Seq<char>, Seq<char>)>, key: Seq<char>) -> Option<nat>
    decreases entries.len(),
{
    if entries.len() == 0 {
        None
    } else if entries[0].0 == key {
        Some(0)
    } else {
        match setting_position(entries.drop_first(), key) {
            Some(i) => Some(i + 1),
            None => None,
        }
    }
}

/// The value set for `key`.
pub open spec fn setting_value(entries: Seq<(Seq<char>, Seq<char>)>, key: Seq<char>) -> Option<Seq<char>> {
    match setting_position(entries, key) {
        Some(i) => Some(entries[i as int].1),
        None => None,
    }
}

/// The entries with `key` set to `value`: in place where it was set, at the
/// end where it was not.
pub open spec fn with_setting(entries: Seq<(Seq<char>, Seq<char>)>, key: Seq<char>, value: Seq<char>) -> Seq<
    (Seq<char>, Seq<char>),
> {
    match setting_position(entries, key) {
        Some(i) => entries.update(i as int, (key, value)),
        None => entries.push((key, value)),
    }
}

/// The entries that the lines of a settings text set, later lines winning.
pub open spec fn parsed_settings(lines: Seq<Seq<char>>) -> Seq<(Seq<char>, Seq<char>)>
    decreases lines.len(),
{
    if lines.len() == 0 {
        Seq::empty()
    } else {
        let prev = parsed_settings(lines.drop_last());
        match regex_pair(SETTING_PATTERN@, lines.last()) {
            Some((k, v)) => with_setting(prev, k, v),
            None => prev,
        }
    }
}

/// One entry as a line of a settings text.
pub open spec fn setting_line(k: Seq<char>, v: Seq<char>) -> Seq<char> {
    seq!['"'] + k + seq!['"', ' ', ':', ' ', '"'] + v + seq!['"', '\n']
}

/// The text of a list of entries, one line each.
pub open spec fn settings_text(entries: Seq<(Seq<char>, Seq<char>)>) -> Seq<char>
    decreases entries.len(),
{
    if entries.len() == 0 {
        Seq::empty()
    } else {
        settings_text(entries.drop_last()) + setting_line(entries.last().0, entries.last().1)
    }
}

proof fn lemma_setting_position(entries: Seq<(Seq<char>, Seq<char>)>, key: Seq<char>)
    ensures
        match setting_position(entries, key) {
            Some(i) => i < entries.len() && entries[i as int].0 == key && forall|j: int|
                0 <= j < i ==> entries[j].0 != key,
            None => forall|j: int| 0 <= j < entries.len() ==> entries[j].0 != key,
        },
    decreases entries.len(),
{
    if entries.len() > 0 && entries[0].0 != key {
        let rest = entries.drop_first();
        lemma_setting_position(rest, key);
        assert forall|j: int| 1 <= j < entries.len() implies entries[j] == rest[j - 1] by {}
    }
}

/// The bot's settings.
pub struct Settings {
    pub token: String,
    pub command_char: String,
    pub other: Vec<(String, String)>,
}

impl Settings {
    /// Every entry, in the order it was first set.
    pub open spec fn entries(&self) -> Seq<(Seq<char>, Seq<char>)> {
        self.other@.map_values(|p: (String, String)| (p.0@, p.1@))
    }

    /// The settings that a settings text holds: each line that matches
    /// `SETTING_PATTERN` sets its key, later lines winning; the token is the
    /// value of `token`, empty where unset, and the command prefix that of
    /// `command_char`, `!` where unset.
    pub fn from_text(text: &str) -> (r: Settings)
        ensures
            r.entries() == parsed_settings(text_lines(text@)),
            r.token@ == match setting_value(r.entries(), "token"@) {
                Some(v) => v,
                None => Seq::<char>::empty(),
            },
            r.command_char@ == match setting_value(r.entries(), "command_char"@) {
                Some(v) => v,
                None => "!"@,
            },
    {
        let lines = split_lines(text);
        let ghost ls = strings_view(lines@);
        let mut s = Settings { token: String::new(), command_char: String::new(), other: Vec::new() };
        let mut i: usize = 0;
        proof {
            assert(s.entries() =~= Seq::<(Seq<char>, Seq<char>)>::empty());
            assert(ls.take(0) =~= Seq::<Seq<char>>::empty());
        }
        while i < lines.len()
            invariant
                ls == strings_view(lines@),
                i <= lines@.len(),
                s.entries() == parsed_settings(ls.take(i as int)),
            decreases lines@.len() - i,
        {
            proof {
                assert(ls.take(i + 1).drop_last() =~= ls.take(i as int));
                assert(ls.take(i + 1).last() == lines@[i as int]@);
            }
            match capture_pair(SETTING_PATTERN, lines[i].as_str()) {
                Some((k, v)) => s.set_other(k, v),
                None => {},
            }
            i += 1;
        }
        proof {
            assert(ls.take(lines@.len() as int) =~= ls);
        }
        s.token = match s.get_other("token") {
            Some(v) => v.clone(),
            None => String::new(),
        };
        s.command_char = match s.get_other("command_char") {
            Some(v) => v.clone(),
            None => "!".to_owned(),
        };
        s
    }

    /// The value set for `key`.
    pub fn get_other(&self, key: &str) -> (r: Option<&String>)
        ensures
            match r {
                Some(v) => setting_value(self.entries(), key@) == Some(v@),
                None => setting_value(self.entries(), key@) is None,
            },
    {
        let k = key.to_owned();
        let mut i: usize = 0;
        while i < self.other.len()
            invariant
                k@ == key@,
                i <= self.other@.len(),
                forall|j: int| 0 <= j < i ==> self.entries()[j].0 != key@,
            decreases self.other@.len() - i,
        {
            if self.other[i].0 == k {
                proof {
                    assert(self.entries()[i as int] == (self.other@[i as int].0@, self.other@[i as int].1@));
                    lemma_setting_position(self.entries(), key@);
                }
                return Some(&self.other[i].1);
            }
            i += 1;
        }
        proof {
            lemma_setting_position(self.entries(), key@);
        }
        None
    }

    /// Sets `key` to `value`.
    pub fn set_other(&mut self, key: String, value: String)
        ensures
            final(self).entries() == with_setting(old(self).entries(), key@, value@),
            final(self).token == old(self).token,
            final(self).command_char == old(self).command_char,
    {
        let mut i: usize = 0;
        while i < self.other.len()
            invariant
                self.other@ == old(self).other@,
                self.token == old(self).token,
                self.command_char == old(self).command_char,
                i <= self.other@.len(),
                forall|j: int| 0 <= j < i ==> self.entries()[j].0 != key@,
            decreases self.other@.len() - i,
        {
            if self.other[i].0 == key {
                proof {
                    assert(self.entries()[i as int] == (self.other@[i as int].0@, self.other@[i as int].1@));
                    lemma_setting_position(self.entries(), key@);
                    assert(setting_position(self.entries(), key@) == Some(i as nat));
                }
                self.other.set(i, (key, value));
                proof {
                    assert(self.entries() =~= with_setting(old(self).entries(), key@, value@));
                }
                return;
            }
            i += 1;
        }
        proof {
            lemma_setting_position(self.entries(), key@);
        }
        self.other.push((key, value));
        proof {
            assert(self.entries() =~= with_setting(old(self).entries(), key@, value@));
        }
    }

    /// The settings as a settings text, one line per entry.
    pub fn to_text(&self) -> (r: String)
        ensures
            r@ == settings_text(self.entries()),
    {
        let mut s = String::new();
        let mut i: usize = 0;
        proof {
            reveal_strlit("\"");
            reveal_strlit("\" : \"");
            reveal_strlit("\"\n");
            assert(self.entries().take(0) =~= Seq::<(Seq<char>, Seq<char>)>::empty());
        }
        while i < self.other.len()
            invariant
                i <= self.other@.len(),
                s@ == settings_text(self.entries().take(i as int)),
                "\""@ == seq!['"'],
                "\" : \""@ == seq!['"', ' ', ':', ' ', '"'],
                "\"\n"@ == seq!['"', '\n'],
            decreases self.other@.len() - i,
        {
            proof {
                assert(self.entries().take(i + 1).drop_last() =~= self.entries().take(i as int));
            }
            s.append("\"");
            s.append(self.other[i].0.as_str());
            s.append("\" : \"");
            s.append(self.other[i].1.as_str());
            s.append("\"\n");
            i += 1;
            proof {
                let e = self.entries()[i - 1];
                assert(s@ =~= settings_text(self.entries().take(i - 1)) + setting_line(e.0, e.1));
            }
        }
        proof {
            assert(self.entries().take(self.other@.len() as int) =~= self.entries());
        }
        s
    }
}

} // verus!
