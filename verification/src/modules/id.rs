//! The `!id` command: the bot repeats what follows it.
use vstd::prelude::*;

use crate::irc_lib::{render, Message, MessageView};
use crate::modules::request::{is_privmsg_request, privmsg_request};
use crate::text::{lemma_split_by_nonempty, split_by, split_str, str_views};
use crate::utils::functions::{reply_line, reply_sendable, reply_view, string_views};

verus! {

/// `m` asks for `!id`.
pub open spec fn id_request(m: MessageView) -> bool {
    privmsg_request(m, "!id "@)
}

/// What the bot repeats: the text after the last `"!id "` of the request.
pub open spec fn id_argument(m: MessageView) -> Seq<char> {
    split_by(m.params[1], "!id "@).last()
}

/// The answer to `m`: the argument of an `!id` request, sent back to the
/// channel or the sender; nothing for other messages.
pub open spec fn id_answer(m: MessageView) -> Seq<Seq<char>> {
    if id_request(m) {
        seq![render(reply_view(m, id_argument(m)))]
    } else {
        Seq::<Seq<char>>::empty()
    }
}

/// Answers `!id <text>` with `<text>`.
pub fn id_module(msg: &Message) -> (lines: Vec<String>)
    requires
        id_request(msg@) ==> reply_sendable(msg@),
    ensures
        string_views(lines@) == id_answer(msg@),
{
    let mut lines: Vec<String> = Vec::new();
    if is_privmsg_request(msg, "!id ") {
        proof {
            reveal_strlit("!id ");
        }
        let pieces = split_str(msg.params[1], "!id ");
        proof {
            lemma_split_by_nonempty(msg@.params[1], "!id "@);
        }
        let arg = pieces[pieces.len() - 1];
        assert(arg@ == str_views(pieces@)[pieces@.len() - 1]);
        lines.push(reply_line(msg, arg));
    }
    assert(string_views(lines@) =~= id_answer(msg@));
    lines
}

} // verus!
