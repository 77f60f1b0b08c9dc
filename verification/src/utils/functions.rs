//! Building replies, and the decisions a bot session takes on each line it
//! reads: what to send back and when registration is over.
use vstd::prelude::*;
use vstd::utf8::{encode_scalar, encode_utf8, is_char_boundary};

pub use crate::irc_lib::is_valid_channel_name;
use crate::irc_lib::{
    channel_name_ok, has_prefix, parse_line, parse_ok, render, renderable, Line, Message,
    MessageView,
};
use crate::text::{
    chars_of, has_char, has_char_exec, replace_all, replace_str, split_by, split_str, str_eq,
    str_views,
};

verus! {

/// The views of a sequence of owned strings.
pub open spec fn string_views(v: Seq<String>) -> Seq<Seq<char>> {
    v.map_values(|s: String| s@)
}

/// The nickname part of a prefix `nick!user@host`: everything before the
/// first `!` (the whole prefix if it has none).
pub open spec fn nick_of(prefix: Seq<char>) -> Seq<char> {
    split_by(prefix, seq!['!'])[0]
}

/// Where a reply to `recv` goes: the channel it was sent to if its first
/// parameter is a channel name, else the nickname of its sender.
pub open spec fn reply_target(recv: MessageView) -> Seq<char> {
    if channel_name_ok(recv.params[0]) {
        recv.params[0]
    } else {
        nick_of(recv.prefix->0)
    }
}

/// A reply can be addressed for `recv`: it has a first parameter, and that
/// is a channel name or the message has a prefix.
pub open spec fn can_reply(recv: MessageView) -> bool {
    &&& recv.params.len() >= 1
    &&& channel_name_ok(recv.params[0]) || recv.prefix is Some
}

/// A reply to `recv` can be addressed and sent: on top of `can_reply`, the
/// target holds no space.
pub open spec fn reply_sendable(recv: MessageView) -> bool {
    &&& can_reply(recv)
    &&& !has_char(reply_target(recv), ' ')
}

/// The reply to `recv` with the text `reply`: no prefix, the same command,
/// and the parameters target and text.
pub open spec fn reply_view(recv: MessageView, reply: Seq<char>) -> MessageView {
    MessageView { prefix: None, command: recv.command, params: seq![reply_target(recv), reply] }
}

/// `t` is the text of `p` before its first `c`: a prefix of `p` without `c`
/// that is all of `p` or is followed in `p` by `c`.
pub open spec fn text_before_first(p: Seq<char>, c: char, t: Seq<char>) -> bool {
    &&& t.len() <= p.len()
    &&& t == p.take(t.len() as int)
    &&& !has_char(t, c)
    &&& (t.len() == p.len() || p[t.len() as int] == c)
}

/// The first piece of a split at the one-character pattern `c` is the text
/// before the first `c`.
proof fn lemma_first_piece(s: Seq<char>, c: char)
    ensures
        text_before_first(s, c, split_by(s, seq![c])[0]),
    decreases s.len(),
{
    crate::text::lemma_split_by_nonempty(s, seq![c]);
    if s.len() > 0 {
        if s[0] == c {
            assert(s.subrange(0, 1) =~= seq![c]);
            assert(split_by(s, seq![c])[0] =~= Seq::<char>::empty());
            assert(s.take(0) =~= Seq::<char>::empty());
        } else {
            assert(s.subrange(0, 1)[0] != c);
            assert(!crate::text::matches_at(s, seq![c], 0)) by {
                if crate::text::matches_at(s, seq![c], 0) {
                    assert(s.subrange(0, 1)[0] == seq![c][0]);
                }
            }
            let rest = s.drop_first();
            lemma_first_piece(rest, c);
            crate::text::lemma_split_by_nonempty(rest, seq![c]);
            let r0 = split_by(rest, seq![c])[0];
            let t = seq![s[0]] + r0;
            assert(split_by(s, seq![c])[0] == t);
            assert(t =~= s.take(t.len() as int));
            assert(!has_char(t, c)) by {
                if has_char(t, c) {
                    let k = choose|k: int| 0 <= k < t.len() && t[k] == c;
                    assert(r0[k - 1] == c);
                }
            }
            if t.len() < s.len() {
                assert(s[t.len() as int] == rest[r0.len() as int]);
            }
        }
    } else {
        assert(split_by(s, seq![c])[0] =~= Seq::<char>::empty());
        assert(s.take(0) =~= Seq::<char>::empty());
    }
}

/// A message to a channel is answered in that channel: when the first
/// parameter is a channel name, the reply goes exactly there.
pub proof fn reply_goes_to_channel(recv: MessageView)
    requires
        recv.params.len() >= 1,
        channel_name_ok(recv.params[0]),
    ensures
        reply_target(recv) == recv.params[0],
{
}

/// A message that is not to a channel is answered to its sender: the reply
/// goes to the text of the prefix before its first `!`.
pub proof fn reply_goes_to_sender(recv: MessageView, p: Seq<char>)
    requires
        recv.params.len() >= 1,
        !channel_name_ok(recv.params[0]),
        recv.prefix == Some(p),
    ensures
        text_before_first(p, '!', reply_target(recv)),
{
    lemma_first_piece(p, '!');
}

/// The reply to `recv` that carries the text `reply`.
pub fn make_reply<'a>(recv: &'a Message<'_>, reply: &'a str) -> (m: Message<'a>)
    requires
        can_reply(recv@),
    ensures
        m@ == reply_view(recv@, reply@),
{
    let first = recv.params[0];
    let receiver = if is_valid_channel_name(first) {
        first
    } else {
        let pre = recv.prefix.unwrap();
        proof {
            reveal_strlit("!");
        }
        let pieces = split_str(pre, "!");
        proof {
            assert("!"@ =~= seq!['!']);
            crate::text::lemma_split_by_nonempty(pre@, seq!['!']);
            assert(pieces@[0]@ == str_views(pieces@)[0]);
        }
        pieces[0]
    };
    let mut params: Vec<&'a str> = Vec::new();
    params.push(receiver);
    params.push(reply);
    let m = Message { prefix: None, command: recv.command, params: params };
    assert(m@.params =~= seq![reply_target(recv@), reply@]);
    m
}

/// Whether a reply to `msg` can be addressed and sent.
pub fn can_reply_to(msg: &Message) -> (r: bool)
    ensures
        r == reply_sendable(msg@),
{
    if msg.params.len() == 0 {
        return false;
    }
    let first = msg.params[0];
    let channel = is_valid_channel_name(first);
    if !channel && msg.prefix.is_none() {
        return false;
    }
    let reply = make_reply(msg, "");
    assert(str_views(reply.params@).len() == 2);
    assert(reply.params@[0]@ == str_views(reply.params@)[0]);
    let target = chars_of(reply.params[0]);
    !has_char_exec(&target, ' ')
}

/// The line that replies to `recv` with the text `reply`.
pub fn reply_line(recv: &Message, reply: &str) -> (s: String)
    requires
        reply_sendable(recv@),
    ensures
        s@ == render(reply_view(recv@, reply@)),
{
    let m = make_reply(recv, reply);
    m.to_string()
}

/// The line ending of the IRC protocol: CR LF.
pub open spec fn crlf() -> Seq<char> {
    seq!['\r', '\n']
}

/// A line as it is written to the server: followed by CR LF.
pub fn frame_line(line: &str) -> (s: String)
    ensures
        s@ == line@ + crlf(),
{
    let mut s = String::from_str(line);
    s.append("\r\n");
    proof {
        reveal_strlit("\r\n");
        assert("\r\n"@ =~= crlf());
    }
    s
}

/// UTF-8 encodes a concatenation piece by piece.
proof fn lemma_encode_concat(a: Seq<char>, b: Seq<char>)
    ensures
        encode_utf8(a + b) == encode_utf8(a) + encode_utf8(b),
    decreases a.len(),
{
    if a.len() == 0 {
        assert(a + b =~= b);
        assert(encode_utf8(a) + encode_utf8(b) =~= encode_utf8(b));
    } else {
        lemma_encode_concat(a.drop_first(), b);
        assert((a + b).drop_first() =~= a.drop_first() + b);
        assert((a + b)[0] == a[0]);
        assert(encode_utf8(a + b) =~= encode_utf8(a) + encode_utf8(b));
    }
}

/// The lines that register the nickname `nick` with the server.
pub fn registration_lines(nick: &str) -> (lines: Vec<String>)
    ensures
        string_views(lines@) == seq!["NICK "@ + nick@, "USER "@ + nick@ + " 0 * :rust bot"@],
{
    let mut first = String::from_str("NICK ");
    first.append(nick);
    let mut second = String::from_str("USER ");
    second.append(nick);
    second.append(" 0 * :rust bot");
    let mut lines: Vec<String> = Vec::new();
    lines.push(first);
    lines.push(second);
    assert(string_views(lines@) =~= seq!["NICK "@ + nick@, "USER "@ + nick@ + " 0 * :rust bot"@]);
    lines
}

/// The text of a line read from the server, without its two-byte line
/// ending; none if the line is no longer than its ending.
pub fn line_body(raw: &str) -> (body: Option<&str>)
    requires
        encode_utf8(raw@).len() > 2 ==> is_char_boundary(
            encode_utf8(raw@),
            encode_utf8(raw@).len() - 2,
        ),
    ensures
        body is None <==> encode_utf8(raw@).len() <= 2,
        body matches Some(b) ==> encode_utf8(b@) == encode_utf8(raw@).take(
            encode_utf8(raw@).len() - 2,
        ),
        raw@.len() > 2 && raw@.skip(raw@.len() - 2) == crlf() ==> (body matches Some(b) && b@
            + crlf() == raw@),
{
    proof {
        if raw@.len() > 2 && raw@.skip(raw@.len() - 2) == crlf() {
            let text = raw@.take(raw@.len() - 2);
            assert(text + crlf() =~= raw@);
            lemma_encode_concat(text, crlf());
            lemma_encode_concat(seq!['\r'], seq!['\n']);
            assert(seq!['\r'] + seq!['\n'] =~= crlf());
            assert(seq!['\r'].drop_first() =~= Seq::<char>::empty());
            assert(seq!['\n'].drop_first() =~= Seq::<char>::empty());
            assert(('\r' as u32) == 13u32);
            assert(('\n' as u32) == 10u32);
            assert(encode_utf8(seq!['\r']) == encode_scalar(13u32) + encode_utf8(Seq::<char>::empty()));
            assert(encode_utf8(seq!['\n']) == encode_scalar(10u32) + encode_utf8(Seq::<char>::empty()));
            assert(encode_utf8(crlf()).len() == 2);
            assert(encode_utf8(text).len() > 0) by {
                assert(encode_utf8(text) == encode_scalar(text[0] as u32) + encode_utf8(
                    text.drop_first(),
                ));
            }
        }
    }
    let n = raw.as_bytes().len();
    if n <= 2 {
        return None;
    }
    let (body, _) = raw.split_at(n - 2);
    proof {
        if raw@.len() > 2 && raw@.skip(raw@.len() - 2) == crlf() {
            let text = raw@.take(raw@.len() - 2);
            assert(encode_utf8(raw@).take(encode_utf8(raw@).len() - 2) =~= encode_utf8(text));
            vstd::utf8::encode_utf8_decode_utf8(body@);
            vstd::utf8::encode_utf8_decode_utf8(text);
            assert(body@ + crlf() =~= raw@);
        }
    }
    Some(body)
}

/// What the bot does with a line while it registers: the lines it sends
/// back, and whether registration is over.
pub struct SetupStep {
    pub replies: Vec<String>,
    pub done: bool,
}

/// The lines sent back to a line `l` during registration: the line with
/// `PING` turned into `PONG` when it is a `PING`, and a `JOIN` for each
/// channel once the end of the message of the day (`376`) arrives.
pub open spec fn setup_replies(l: Seq<char>, channels: Seq<Seq<char>>) -> Seq<Seq<char>> {
    let cmd = parse_line(l).command;
    (if cmd == "PING"@ {
        seq![replace_all(l, "PING"@, "PONG"@)]
    } else {
        Seq::<Seq<char>>::empty()
    }) + (if cmd == "376"@ {
        channels.map_values(|c: Seq<char>| "JOIN "@ + c)
    } else {
        Seq::<Seq<char>>::empty()
    })
}

/// The step that registration takes on the line `line`.
pub fn setup_step(line: &Line, channels: &Vec<&str>) -> (step: SetupStep)
    requires
        parse_ok(line.0@),
    ensures
        string_views(step.replies@) == setup_replies(line.0@, str_views(channels@)),
        step.done == (parse_line(line.0@).command == "376"@),
{
    let msg = line.parse_msg();
    let mut replies: Vec<String> = Vec::new();
    proof {
        reveal_strlit("PING");
        reveal_strlit("PONG");
        reveal_strlit("376");
        reveal_strlit("JOIN ");
    }
    if str_eq(msg.command, "PING") {
        replies.push(replace_str(line.0.as_str(), "PING", "PONG"));
    }
    let done = str_eq(msg.command, "376");
    let ghost pinged = string_views(replies@);
    if done {
        let mut k: usize = 0;
        while k < channels.len()
            invariant
                k <= channels@.len(),
                string_views(replies@) == pinged + str_views(channels@).take(k as int).map_values(
                    |c: Seq<char>| "JOIN "@ + c,
                ),
            decreases channels@.len() - k,
        {
            let mut join = String::from_str("JOIN ");
            join.append(channels[k]);
            let ghost before = replies@;
            replies.push(join);
            assert(str_views(channels@).take(k + 1) =~= str_views(channels@).take(k as int).push(
                channels@[k as int]@,
            ));
            assert(string_views(replies@) =~= string_views(before).push(join@));
            assert(string_views(replies@) =~= pinged + str_views(channels@).take(
                (k + 1) as int,
            ).map_values(|c: Seq<char>| "JOIN "@ + c));
            k = k + 1;
        }
        assert(str_views(channels@).take(channels@.len() as int) =~= str_views(channels@));
    }
    assert(string_views(replies@) =~= setup_replies(line.0@, str_views(channels@)));
    SetupStep { replies, done }
}

/// The lines sent after the modules have answered `msg` while listening: a
/// `JOIN #uakroncs` at the end of the message of the day.
pub fn listen_followup(msg: &Message) -> (lines: Vec<String>)
    ensures
        string_views(lines@) == (if msg@.command == "376"@ {
            seq!["JOIN #uakroncs"@]
        } else {
            Seq::<Seq<char>>::empty()
        }),
{
    let mut lines: Vec<String> = Vec::new();
    if str_eq(msg.command, "376") {
        lines.push(String::from_str("JOIN #uakroncs"));
    }
    assert(string_views(lines@) =~= (if msg@.command == "376"@ {
        seq!["JOIN #uakroncs"@]
    } else {
        Seq::<Seq<char>>::empty()
    }));
    lines
}

} // verus!
