use ircbot::irc_lib::Line;
use ircbot::text::{replace_str, split_str};
use ircbot::utils::functions::{
    frame_line, line_body, listen_followup, registration_lines, setup_step,
};

#[test]
fn frames_and_registration() {
    assert_eq!(frame_line("NICK x"), "NICK x\r\n");
    assert_eq!(registration_lines("Fe2O3"), vec!["NICK Fe2O3".to_string(), "USER Fe2O3 0 * :rust bot".to_string()]);
}

#[test]
fn line_body_strips_ending() {
    assert_eq!(line_body("PING :x\r\n"), Some("PING :x"));
    assert_eq!(line_body("\r\n"), None);
    assert_eq!(line_body(""), None);
    assert_eq!(line_body("ab\r"), Some("a"));
}

#[test]
fn setup_answers_ping_and_joins() {
    let chans = vec!["#a", "#b"];
    let s = setup_step(&Line("PING :PING.net".to_string()), &chans);
    assert_eq!(s.replies, vec!["PONG :PONG.net".to_string()]);
    assert!(!s.done);
    let s = setup_step(&Line(":srv 376 me :End".to_string()), &chans);
    assert_eq!(s.replies, vec!["JOIN #a".to_string(), "JOIN #b".to_string()]);
    assert!(s.done);
    let s = setup_step(&Line(":srv 001 me :Welcome".to_string()), &chans);
    assert!(s.replies.is_empty());
    assert!(!s.done);
}

#[test]
fn followup_joins_after_motd() {
    let l = Line(":srv 376 me :End".to_string());
    assert_eq!(listen_followup(&l.parse_msg()), vec!["JOIN #uakroncs".to_string()]);
    let l = Line(":srv 375 me :Start".to_string());
    assert!(listen_followup(&l.parse_msg()).is_empty());
}

#[test]
fn split_and_replace_like_std() {
    for (s, p) in [("a b", " "), ("", " "), ("a  b ", " "), ("xaax", "aa"), ("aaa", "aa"), ("!id !id x", "!id ")] {
        let mine: Vec<&str> = split_str(s, p);
        let std: Vec<&str> = s.split(p).collect();
        assert_eq!(mine, std);
        assert_eq!(replace_str(s, p, "<>"), s.replace(p, "<>"));
    }
}
