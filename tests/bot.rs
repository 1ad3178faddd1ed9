use dictionary::bot::{display_name, parse_command, BotEvent, MessageData, Plugin, ResumeEventHandling};
use dictionary::dictionary::Dictionary;
use dictionary::logs::learnable_message_of;
use dictionary::plugins::{EchoPlugin, Eightball, Logger, Patterns, RandomChat};
use dictionary::settings::Settings;

fn params(words: &[&str]) -> Vec<String> {
    words.iter().map(|w| w.to_string()).collect()
}

fn message<'a>(self_name: &'a str, user: &'a str, msg: &'a str) -> MessageData<'a> {
    MessageData { self_name, user, channel: "general", msg }
}

#[test]
fn resume_modes() {
    assert_eq!(BotEvent::Nothing(ResumeEventHandling::Resume).resume_mode(), ResumeEventHandling::Resume);
    assert_eq!(BotEvent::Log("x".to_string(), ResumeEventHandling::Stop).resume_mode(), ResumeEventHandling::Stop);
    assert_eq!(BotEvent::Send("x".to_string(), ResumeEventHandling::Resume).resume_mode(), ResumeEventHandling::Resume);
}

#[test]
fn commands_are_lowercase_words() {
    assert_eq!(parse_command("!Random  ENABLE", "!"), Some(params(&["random", "enable"])));
    assert_eq!(parse_command("!", "!"), Some(Vec::new()));
    assert_eq!(parse_command("hello !there", "!"), None);
    assert_eq!(parse_command("..gadaj", ".."), Some(params(&["gadaj"])));
}

#[test]
fn display_names_carry_the_rank() {
    assert_eq!(display_name(true, true, true, "ann"), "&ann");
    assert_eq!(display_name(false, true, true, "bob"), "~bob");
    assert_eq!(display_name(false, false, true, "cy"), "@cy");
    assert_eq!(display_name(false, false, false, "dee"), "dee");
}

#[test]
fn settings_from_text() {
    let text = "\"token\" : \"xoxb-1\"\nnot a setting\n\"randomchat_enabled\":\"true\"\n  \"token\"  :  \"xoxb-2\"  \n";
    let s = Settings::from_text(text);
    assert_eq!(s.token, "xoxb-2");
    assert_eq!(s.command_char, "!");
    assert_eq!(s.get_other("randomchat_enabled").map(String::as_str), Some("true"));
    assert_eq!(s.get_other("missing"), None);
    assert_eq!(s.to_text(), "\"token\" : \"xoxb-2\"\n\"randomchat_enabled\" : \"true\"\n");
}

#[test]
fn settings_command_char_and_updates() {
    let mut s = Settings::from_text("\"command_char\" : \".\"");
    assert_eq!(s.command_char, ".");
    assert_eq!(s.token, "");
    s.set_other("a".to_string(), "1".to_string());
    s.set_other("command_char".to_string(), "?".to_string());
    assert_eq!(s.to_text(), "\"command_char\" : \"?\"\n\"a\" : \"1\"\n");
    assert_eq!(s.command_char, ".");
}

#[test]
fn echo_and_logger() {
    let mut echo = EchoPlugin;
    assert_eq!(
        echo.handle_message(message("bot", "ann", "hello")),
        BotEvent::Send("hello".to_string(), ResumeEventHandling::Resume)
    );
    let mut logger = Logger;
    assert_eq!(logger.plugin_priority("a", "b", "c"), -1);
    assert_eq!(
        logger.handle_message(message("bot", "ann", "hello")),
        BotEvent::Log("<ann> hello".to_string(), ResumeEventHandling::Resume)
    );
}

#[test]
fn eightball_answers() {
    let mut e = Eightball::from_text("Yes, %s.\nNo.");
    assert_eq!(e.response_count(), 2);
    assert_eq!(e.answer("ann", 0), BotEvent::Send("Yes, ann.".to_string(), ResumeEventHandling::Stop));
    assert_eq!(e.answer("ann", 1), BotEvent::Send("No.".to_string(), ResumeEventHandling::Stop));
    match e.handle_command("bob", "general", params(&["eightball"])) {
        BotEvent::Send(s, ResumeEventHandling::Stop) => assert!(s == "Yes, bob." || s == "No."),
        other => panic!("unexpected {:?}", other),
    }
    assert_eq!(
        e.handle_command("bob", "general", params(&["other"])),
        BotEvent::Nothing(ResumeEventHandling::Resume)
    );
    assert_eq!(e.handle_command("bob", "general", Vec::new()), BotEvent::Nothing(ResumeEventHandling::Resume));
}

#[test]
fn patterns_answer_the_first_match() {
    let p = Patterns::from_text("^hel+o\nhi!\nworld\nplanet").unwrap();
    assert_eq!(p.respond("HELLO world"), BotEvent::Send("hi!".to_string(), ResumeEventHandling::Resume));
    assert_eq!(p.respond("big World"), BotEvent::Send("planet".to_string(), ResumeEventHandling::Resume));
    assert_eq!(p.respond("nothing"), BotEvent::Nothing(ResumeEventHandling::Resume));
    assert!(Patterns::from_text("lonely pattern").is_none());
}

#[test]
fn random_chat_learns_and_answers() {
    let mut chat = RandomChat::new(Dictionary::new(), true, 100);
    assert_eq!(
        chat.react(message("bot", "ann", "hi there friend"), 0),
        BotEvent::Send("hi there friend".to_string(), ResumeEventHandling::Resume)
    );
    assert_eq!(chat.dictionary().word_count(), 3);
    // the bot's own lines are not learned
    chat.react(message("bot", "bot", "something else"), 99);
    assert_eq!(chat.dictionary().word_count(), 3);
    let mut quiet = RandomChat::new(Dictionary::new(), true, 30);
    assert_eq!(quiet.react(message("bot", "ann", "a b"), 30), BotEvent::Nothing(ResumeEventHandling::Resume));
    assert_eq!(quiet.dictionary().word_count(), 2);
    let mut off = RandomChat::new(Dictionary::new(), false, 100);
    assert_eq!(off.react(message("bot", "ann", "a b"), 0), BotEvent::Nothing(ResumeEventHandling::Resume));
    assert_eq!(off.dictionary().word_count(), 0);
}

#[test]
fn random_chat_commands() {
    let mut chat = RandomChat::new(Dictionary::new(), false, 10);
    assert_eq!(
        chat.command(&params(&["random"])),
        BotEvent::Send("Not enough parameters".to_string(), ResumeEventHandling::Stop)
    );
    assert_eq!(
        chat.command(&params(&["random", "enable"])),
        BotEvent::Send("RandomChat enabled.".to_string(), ResumeEventHandling::Stop)
    );
    assert!(chat.enabled());
    assert_eq!(
        chat.command(&params(&["random", "disable"])),
        BotEvent::Send("RandomChat disabled.".to_string(), ResumeEventHandling::Stop)
    );
    assert!(!chat.enabled());
    assert_eq!(
        chat.command(&params(&["random", "maybe"])),
        BotEvent::Send("Unknown parameter value: maybe".to_string(), ResumeEventHandling::Stop)
    );
    assert_eq!(chat.command(&params(&["gadaj"])), BotEvent::Send(String::new(), ResumeEventHandling::Stop));
    assert_eq!(chat.command(&params(&["other"])), BotEvent::Nothing(ResumeEventHandling::Resume));
    assert_eq!(chat.plugin_priority("a", "b", "c"), 10);
    assert_eq!(chat.probability(), 10);
}

#[test]
fn log_lines_worth_learning() {
    assert_eq!(
        learnable_message_of("(2017-03-01 12:00:00) <ann> hello there").as_deref(),
        Some("hello there")
    );
    assert_eq!(learnable_message_of("(2017-03-01 12:00:00)<ann> hi").as_deref(), Some("hi"));
    assert_eq!(learnable_message_of("(2017-03-01 12:00:00) <LucidBot> hello"), None);
    assert_eq!(learnable_message_of("(2017-03-01 12:00:00) <ann> !gadaj"), None);
    assert_eq!(learnable_message_of("ann: hello"), None);
}

#[test]
fn learning_a_log() {
    let log = "(2017-03-01 12:00:00) <ann> hi there\n(2017-03-01 12:00:01) <LucidBot> bot words\n\
               (2017-03-01 12:00:02) <bob> !gadaj\nnoise\n(2017-03-01 12:00:03) <cy> hi there\n";
    let mut d = Dictionary::new();
    d.learn_from_log(log);
    assert_eq!(d.word_count(), 2);
    let hi = dictionary::model::Result { word: dictionary::word::Word::Word(0), chance: 2 };
    assert_eq!(
        d.candidates_of((dictionary::word::Word::Start1, dictionary::word::Word::Start2)),
        vec![hi]
    );
}

#[test]
fn invalid_patterns_are_found() {
    let p = Patterns::from_text("ok\nyes\n(unclosed\nno").unwrap();
    assert_eq!(p.invalid_pattern(), Some(1));
    let q = Patterns::from_text("ok\nyes").unwrap();
    assert_eq!(q.invalid_pattern(), None);
}

#[test]
fn plugin_methods_follow_their_helpers() {
    let mut chat = RandomChat::new(Dictionary::new(), true, 100);
    assert_eq!(
        chat.handle_message(message("bot", "ann", "hi there friend")),
        BotEvent::Send("hi there friend".to_string(), ResumeEventHandling::Resume)
    );
    assert_eq!(
        chat.handle_command("ann", "general", params(&["gadaj"])),
        BotEvent::Send("hi there friend".to_string(), ResumeEventHandling::Stop)
    );
    let mut never = RandomChat::new(Dictionary::new(), true, 0);
    assert_eq!(never.handle_message(message("bot", "ann", "a b")), BotEvent::Nothing(ResumeEventHandling::Resume));
    let mut p = Patterns::from_text("hel+o\nhi!").unwrap();
    assert_eq!(
        p.handle_message(message("bot", "ann", "HELLO")),
        BotEvent::Send("hi!".to_string(), ResumeEventHandling::Resume)
    );
}
