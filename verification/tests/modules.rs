use ircbot::irc_lib::{Line, Message};
use ircbot::modules::fortune::{fortune_reply, is_fortune_request, FortuneOutcome};
use ircbot::modules::id::id_module;
use ircbot::modules::ping::ping_module;
use ircbot::modules::random::{plan_random, random_module, RandomStep};
use ircbot::utils::functions::{can_reply_to, reply_line};
use ircbot::utils::make_reply;

#[test]
fn reply_goes_to_channel() {
    let l = Line(":al!a@h PRIVMSG #chan :hello".to_string());
    let m = l.parse_msg();
    let r = make_reply(&m, "yo");
    assert_eq!(r.prefix, None);
    assert_eq!(r.command, "PRIVMSG");
    assert_eq!(r.params, vec!["#chan", "yo"]);
}

#[test]
fn reply_goes_to_sender_nick() {
    let l = Line(":al!a@h PRIVMSG Fe2O3 :hello".to_string());
    let m = l.parse_msg();
    let r = make_reply(&m, "yo");
    assert_eq!(r.params, vec!["al", "yo"]);
    let l = Line(":server.net PRIVMSG Fe2O3 :hello".to_string());
    let m = l.parse_msg();
    assert_eq!(reply_line(&m, "a b"), "PRIVMSG server.net :a b");
}

#[test]
fn can_reply_needs_channel_or_prefix() {
    let m = Message { prefix: None, command: "PRIVMSG", params: vec!["nick", "x"] };
    assert!(!can_reply_to(&m));
    let m = Message { prefix: None, command: "PRIVMSG", params: vec!["#c", "x"] };
    assert!(can_reply_to(&m));
    let m = Message { prefix: None, command: "PRIVMSG", params: vec![] };
    assert!(!can_reply_to(&m));
    let m = Message { prefix: Some("a b!c"), command: "PRIVMSG", params: vec!["n", "x"] };
    assert!(!can_reply_to(&m));
}

#[test]
fn ping_answers_pong() {
    let l = Line("PING :irc.blab.net".to_string());
    assert_eq!(ping_module(&l.parse_msg()), vec!["PONG :irc.blab.net".to_string()]);
    let m = Message { prefix: None, command: "PING", params: vec![] };
    assert_eq!(ping_module(&m), vec!["PONG :".to_string()]);
    let m = Message { prefix: None, command: "PONG", params: vec!["x"] };
    assert!(ping_module(&m).is_empty());
}

#[test]
fn id_repeats_argument() {
    let l = Line(":al!a@h PRIVMSG #chan :!id hello world".to_string());
    assert_eq!(id_module(&l.parse_msg()), vec!["PRIVMSG #chan :hello world".to_string()]);
    let l = Line(":al!a@h PRIVMSG Fe2O3 :!id x!id y".to_string());
    assert_eq!(id_module(&l.parse_msg()), vec!["PRIVMSG al y".to_string()]);
    let l = Line(":al!a@h PRIVMSG #chan :!idle".to_string());
    assert!(id_module(&l.parse_msg()).is_empty());
    let l = Line(":al!a@h NOTICE #chan :!id x".to_string());
    assert!(id_module(&l.parse_msg()).is_empty());
}

fn said(step: RandomStep) -> String {
    match step {
        RandomStep::Say(t) => t,
        _ => panic!("expected a fixed answer"),
    }
}

#[test]
fn random_plans() {
    let m = Message { prefix: Some("a"), command: "PRIVMSG", params: vec!["#c", "!rand"] };
    assert!(matches!(plan_random(&m), RandomStep::Draw(0, 100)));
    let m = Message { prefix: Some("a"), command: "PRIVMSG", params: vec!["#c", "!rand 7"] };
    assert!(matches!(plan_random(&m), RandomStep::Draw(0, 7)));
    let m = Message { prefix: Some("a"), command: "PRIVMSG", params: vec!["#c", "!rand 9 -3"] };
    assert!(matches!(plan_random(&m), RandomStep::Draw(-3, 9)));
    let m = Message { prefix: Some("a"), command: "PRIVMSG", params: vec!["#c", "!rand +2 5"] };
    assert!(matches!(plan_random(&m), RandomStep::Draw(2, 5)));
    let m = Message { prefix: Some("a"), command: "PRIVMSG", params: vec!["#c", "!rand 4 4"] };
    assert_eq!(said(plan_random(&m)), "Can't generate random in empty range [4, 4)");
    let m = Message { prefix: Some("a"), command: "PRIVMSG", params: vec!["#c", "!rand -12 -12"] };
    assert_eq!(said(plan_random(&m)), "Can't generate random in empty range [-12, -12)");
    let m = Message { prefix: Some("a"), command: "PRIVMSG", params: vec!["#c", "!rand x 4"] };
    assert_eq!(
        said(plan_random(&m)),
        "Failed to parse first bound with err ParseIntError { kind: InvalidDigit }"
    );
    let m = Message { prefix: Some("a"), command: "PRIVMSG", params: vec!["#c", "!rand 1 "] };
    assert_eq!(
        said(plan_random(&m)),
        "Failed to parse second bound with err ParseIntError { kind: Empty }"
    );
    let m = Message { prefix: Some("a"), command: "PRIVMSG", params: vec!["#c", "!rand 1 2 3"] };
    assert!(matches!(plan_random(&m), RandomStep::Draw(0, 100)));
    let m = Message { prefix: Some("a"), command: "PRIVMSG", params: vec!["#c", "hi"] };
    assert!(matches!(plan_random(&m), RandomStep::Ignore));
}

#[test]
fn random_answers_in_range() {
    let l = Line(":al!a@h PRIVMSG #chan :!rand 3 5".to_string());
    let m = l.parse_msg();
    for _ in 0..20 {
        let out = random_module(&m);
        assert_eq!(out.len(), 1);
        assert!(out[0] == "PRIVMSG #chan 3" || out[0] == "PRIVMSG #chan 4", "{}", out[0]);
    }
    let l = Line(":al!a@h PRIVMSG #chan :!rand 1 1".to_string());
    assert_eq!(
        random_module(&l.parse_msg()),
        vec!["PRIVMSG #chan :Can't generate random in empty range [1, 1)".to_string()]
    );
    let l = Line(":al!a@h PRIVMSG #chan :hello".to_string());
    assert!(random_module(&l.parse_msg()).is_empty());
}

#[test]
fn fortune_reply_flattens_lines() {
    let l = Line(":al!a@h PRIVMSG #chan :!fortune".to_string());
    let m = l.parse_msg();
    assert!(is_fortune_request(&m));
    let out = fortune_reply(&m, &FortuneOutcome::Printed("a\tb\nc\n".to_string()));
    assert_eq!(out, vec!["PRIVMSG #chan :a b c ".to_string()]);
    let out = fortune_reply(&m, &FortuneOutcome::Exited(Some(-2)));
    assert_eq!(out, vec!["PRIVMSG #chan :process exited abnormally with status Some(-2)".to_string()]);
    let out = fortune_reply(&m, &FortuneOutcome::Exited(None));
    assert_eq!(out, vec!["PRIVMSG #chan :process exited abnormally with status None".to_string()]);
    let out = fortune_reply(&m, &FortuneOutcome::Failed("NotFound".to_string()));
    assert_eq!(out, vec!["PRIVMSG #chan :Could not execute process: NotFound".to_string()]);
    let l = Line(":al!a@h PRIVMSG #chan :fortune".to_string());
    let m = l.parse_msg();
    assert!(!is_fortune_request(&m));
    assert!(fortune_reply(&m, &FortuneOutcome::Printed("x".to_string())).is_empty());
}

use ircbot::modules::markov::MarkovModel;

#[test]
fn markov_chain_follows_the_text() {
    let lines = vec!["the cat sat".to_string(), "the cat ran".to_string()];
    let model = MarkovModel::new(&lines);
    // "the" is always followed by "cat", so a walk from "the" of two words is fixed
    assert_eq!(model.get_chain(2, Some("the".to_string())), "the cat");
    for _ in 0..20 {
        let c = model.get_chain(10, Some("the".to_string()));
        // the words run across lines: sat -> the, ran ends the text
        assert!(c.starts_with("the cat "), "{}", c);
        let words: Vec<&str> = c.split(' ').collect();
        assert!(words.len() <= 10);
        for w in words.windows(2) {
            let ok = matches!(
                (w[0], w[1]),
                ("the", "cat") | ("cat", "sat") | ("cat", "ran") | ("sat", "the")
            );
            assert!(ok, "{:?} in {}", w, c);
        }
        if words.len() < 10 {
            assert_eq!(*words.last().unwrap(), "ran");
        }
    }
    assert_eq!(model.get_chain(0, Some("the".to_string())), "");
    assert_eq!(model.get_chain(5, Some("dog".to_string())), "dog");
    assert_eq!(model.get_chain(5, Some("ran".to_string())), "ran");
    let empty = MarkovModel::new(&vec![]);
    assert_eq!(empty.get_chain(5, None), "");
    let one = MarkovModel::new(&vec!["solo".to_string()]);
    assert_eq!(one.get_chain(5, None), "solo");
}
