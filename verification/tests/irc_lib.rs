use ircbot::irc_lib::{is_valid_channel_name, Line, Message};

#[test]
fn ping_test() {
    let l = Line("PING :irc.blab.net".to_string());
    let m = l.parse_msg();

    assert!(m.prefix.is_none());
    assert_eq!(m.command, "PING");
    assert_eq!(m.params.len(), 1);
    assert_eq!(m.params[0], "irc.blab.net");
}

#[test]
fn motd_end_test() {
    let l = Line(":irc.blab.net 376 Fe2O3 :End of /MOTD command.".to_string());
    let m = l.parse_msg();

    assert_eq!(m.prefix, Some("irc.blab.net"));
    assert_eq!(m.command, "376");
    assert_eq!(m.params.len(), 2);
    assert_eq!(m.params[0], "Fe2O3");
    assert_eq!(m.params[1], "End of /MOTD command.");
}

#[test]
fn channel_join_test() {
    let l = Line(":Fe2O3!~Fe2O3@45.55.151.164 JOIN #tutbot-testing".to_string());
    let m = l.parse_msg();

    assert_eq!(m.prefix, Some("Fe2O3!~Fe2O3@45.55.151.164"));
    assert_eq!(m.command, "JOIN");
    assert_eq!(m.params.len(), 1);
    assert_eq!(m.params[0], "#tutbot-testing");
}

#[test]
fn parse_privmsg_with_middle_and_trailing() {
    let l = Line(":nick!u@h PRIVMSG #chan :hello there world".to_string());
    let m = l.parse_msg();
    assert_eq!(m.prefix, Some("nick!u@h"));
    assert_eq!(m.command, "PRIVMSG");
    assert_eq!(m.params, vec!["#chan", "hello there world"]);
}

#[test]
fn parse_keeps_empty_middle_params() {
    let l = Line("MODE #c  +o x".to_string());
    let m = l.parse_msg();
    assert_eq!(m.prefix, None);
    assert_eq!(m.command, "MODE");
    assert_eq!(m.params, vec!["#c", "", "+o", "x"]);
}

#[test]
fn parse_trailing_right_after_command() {
    let l = Line("NOTICE :a b".to_string());
    let m = l.parse_msg();
    assert_eq!(m.command, "NOTICE");
    assert_eq!(m.params, vec!["a b"]);
}

#[test]
fn parse_empty_prefix_and_non_ascii() {
    let l = Line(": PRIVMSG #ß :grüße dich".to_string());
    let m = l.parse_msg();
    assert_eq!(m.prefix, Some(""));
    assert_eq!(m.command, "PRIVMSG");
    assert_eq!(m.params, vec!["#ß", "grüße dich"]);
}

#[test]
fn can_parse_matches_what_parse_accepts() {
    assert!(Line("PING :x".to_string()).can_parse());
    assert!(Line(":p CMD a".to_string()).can_parse());
    assert!(!Line("PING".to_string()).can_parse());
    assert!(!Line("".to_string()).can_parse());
    assert!(!Line(":prefixonly".to_string()).can_parse());
    assert!(!Line(":p CMD".to_string()).can_parse());
    assert!(!Line(":p :CMD x".to_string()).can_parse());
}

#[test]
fn to_string_renders_trailing_with_colon() {
    let m = Message { prefix: None, command: "PRIVMSG", params: vec!["#c", "hi there"] };
    assert_eq!(m.to_string(), "PRIVMSG #c :hi there");
    let m = Message { prefix: None, command: "PRIVMSG", params: vec!["#c", "hi"] };
    assert_eq!(m.to_string(), "PRIVMSG #c hi");
    let m = Message { prefix: Some("srv"), command: "PING", params: vec![] };
    assert_eq!(m.to_string(), "srv PING");
}

#[test]
fn channel_names() {
    assert!(is_valid_channel_name("#rust"));
    assert!(is_valid_channel_name("&local"));
    assert!(is_valid_channel_name("+modeless"));
    assert!(is_valid_channel_name("!12345abc"));
    assert!(!is_valid_channel_name("rust"));
    assert!(!is_valid_channel_name(""));
    assert!(!is_valid_channel_name("#with space"));
    assert!(!is_valid_channel_name("#a,b"));
    assert!(!is_valid_channel_name("#bell\x07"));
    let fifty = format!("#{}", "a".repeat(49));
    assert!(is_valid_channel_name(&fifty));
    let fifty_one = format!("#{}", "a".repeat(50));
    assert!(!is_valid_channel_name(&fifty_one));
    // 2 bytes per 'é': 1 + 2 * 25 = 51 bytes
    let wide = format!("#{}", "é".repeat(25));
    assert!(!is_valid_channel_name(&wide));
}
