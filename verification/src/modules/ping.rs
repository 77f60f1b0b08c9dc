//! Answering the server's keep-alive `PING`.
use vstd::prelude::*;

use crate::irc_lib::{Message, MessageView};
use crate::text::str_eq;
use crate::utils::functions::string_views;

verus! {

/// The answer to `m`: for a `PING`, a `PONG` that echoes its first
/// parameter (or nothing, if it has none); nothing for other messages.
pub open spec fn ping_answer(m: MessageView) -> Seq<Seq<char>> {
    if m.command == "PING"@ {
        seq![
            "PONG :"@ + (if m.params.len() != 0 {
                m.params[0]
            } else {
                Seq::<char>::empty()
            }),
        ]
    } else {
        Seq::<Seq<char>>::empty()
    }
}

/// Answers a `PING` with a `PONG`.
pub fn ping_module(msg: &Message) -> (lines: Vec<String>)
    ensures
        string_views(lines@) == ping_answer(msg@),
{
    let mut lines: Vec<String> = Vec::new();
    if str_eq(msg.command, "PING") {
        let mut res = String::from_str("PONG :");
        if msg.params.len() != 0 {
            res.append(msg.params[0]);
        } else {
            res.append("");
            proof {
                reveal_strlit("");
                assert(res@ =~= "PONG :"@ + Seq::<char>::empty());
            }
        }
        lines.push(res);
    }
    assert(string_views(lines@) =~= ping_answer(msg@));
    lines
}

} // verus!
