//! The `!fortune` command: a short fortune, from whatever the `fortune`
//! program printed.
use vstd::prelude::*;

use crate::irc_lib::{render, Message, MessageView};
use crate::modules::request::{is_privmsg_request, privmsg_request};
use crate::text::{int_decimal, push_decimal, replace_all, replace_str};
use crate::utils::functions::{reply_line, reply_sendable, reply_view, string_views};

verus! {

/// How running the `fortune` program went.
pub enum FortuneOutcome {
    /// It succeeded and printed this text.
    Printed(String),
    /// It ended abnormally, with this exit code if it had one.
    Exited(Option<i32>),
    /// It could not be run; the text describes the error.
    Failed(String),
}

/// `m` asks for `!fortune`.
pub open spec fn fortune_request(m: MessageView) -> bool {
    privmsg_request(m, "!fortune"@)
}

/// An optional exit code as `Debug` renders it: `Some(3)` or `None`.
pub open spec fn exit_code_text(code: Option<i32>) -> Seq<char> {
    match code {
        Some(c) => "Some("@ + int_decimal(c as int) + ")"@,
        None => "None"@,
    }
}

/// The text that an outcome is reported with.
pub open spec fn outcome_text(o: FortuneOutcome) -> Seq<char> {
    match o {
        FortuneOutcome::Printed(s) => s@,
        FortuneOutcome::Exited(code) => "process exited abnormally with status "@ + exit_code_text(
            code,
        ),
        FortuneOutcome::Failed(e) => "Could not execute process: "@ + e@,
    }
}

/// The reported text on one line: newlines and tabs become spaces.
pub open spec fn fortune_text(o: FortuneOutcome) -> Seq<char> {
    replace_all(replace_all(outcome_text(o), "\n"@, " "@), "\t"@, " "@)
}

/// The answer to `m` given how `fortune` ran.
pub open spec fn fortune_answer(m: MessageView, o: FortuneOutcome) -> Seq<Seq<char>> {
    if fortune_request(m) {
        seq![render(reply_view(m, fortune_text(o)))]
    } else {
        Seq::<Seq<char>>::empty()
    }
}

/// Replacing a one-character pattern by one character changes each of its
/// occurrences in place and keeps every other character.
proof fn lemma_replace_char(s: Seq<char>, c: char, d: char)
    ensures
        replace_all(s, seq![c], seq![d]).len() == s.len(),
        forall|k: int|
            0 <= k < s.len() ==> #[trigger] replace_all(s, seq![c], seq![d])[k] == if s[k] == c {
                d
            } else {
                s[k]
            },
    decreases s.len(),
{
    if s.len() > 0 {
        let rest = s.drop_first();
        lemma_replace_char(rest, c, d);
        assert(s.skip(1) =~= rest);
        if s[0] == c {
            assert(s.subrange(0, 1) =~= seq![c]);
        } else {
            assert(!crate::text::matches_at(s, seq![c], 0)) by {
                if crate::text::matches_at(s, seq![c], 0) {
                    assert(s.subrange(0, 1)[0] == seq![c][0]);
                }
            }
        }
        let r = replace_all(s, seq![c], seq![d]);
        assert forall|k: int| 0 <= k < s.len() implies #[trigger] r[k] == if s[k] == c {
            d
        } else {
            s[k]
        } by {
            if k > 0 {
                assert(s[k] == rest[k - 1]);
            }
        }
    }
}

/// The fortune is sent on one line: the reply text holds no newline and no
/// tab, has the report's length, and is the report with each newline and
/// each tab turned into a space and every other character kept in place.
pub proof fn fortune_text_is_flat(o: FortuneOutcome)
    ensures
        fortune_text(o).len() == outcome_text(o).len(),
        forall|k: int|
            0 <= k < outcome_text(o).len() ==> #[trigger] fortune_text(o)[k] == if outcome_text(
                o,
            )[k] == '\n' || outcome_text(o)[k] == '\t' {
                ' '
            } else {
                outcome_text(o)[k]
            },
        forall|k: int|
            0 <= k < fortune_text(o).len() ==> #[trigger] fortune_text(o)[k] != '\n'
                && fortune_text(o)[k] != '\t',
{
    reveal_strlit("\n");
    reveal_strlit("\t");
    reveal_strlit(" ");
    assert("\n"@ =~= seq!['\n']);
    assert("\t"@ =~= seq!['\t']);
    assert(" "@ =~= seq![' ']);
    let r = outcome_text(o);
    let one = replace_all(r, seq!['\n'], seq![' ']);
    lemma_replace_char(r, '\n', ' ');
    lemma_replace_char(one, '\t', ' ');
    let f = fortune_text(o);
    assert(f == replace_all(one, seq!['\t'], seq![' ']));
    assert forall|k: int| 0 <= k < r.len() implies #[trigger] f[k] == if r[k] == '\n' || r[k]
        == '\t' {
        ' '
    } else {
        r[k]
    } by {
        assert(f[k] == if one[k] == '\t' { ' ' } else { one[k] });
        assert(one[k] == if r[k] == '\n' { ' ' } else { r[k] });
    }
    assert forall|k: int| 0 <= k < f.len() implies #[trigger] f[k] != '\n' && f[k] != '\t' by {
        assert(f[k] == if one[k] == '\t' { ' ' } else { one[k] });
        assert(one[k] == if r[k] == '\n' { ' ' } else { r[k] });
    }
}

/// Whether `msg` asks for a fortune.
pub fn is_fortune_request(msg: &Message) -> (r: bool)
    ensures
        r == fortune_request(msg@),
{
    is_privmsg_request(msg, "!fortune")
}

/// The text that reports `outcome`.
pub fn outcome_report(outcome: &FortuneOutcome) -> (t: String)
    ensures
        t@ == outcome_text(*outcome),
{
    proof {
        reveal_strlit("process exited abnormally with status ");
        reveal_strlit("Some(");
        reveal_strlit(")");
        reveal_strlit("None");
        reveal_strlit("Could not execute process: ");
    }
    match outcome {
        FortuneOutcome::Printed(s) => s.clone(),
        FortuneOutcome::Exited(code) => {
            let mut t = String::from_str("process exited abnormally with status ");
            match code {
                Some(c) => {
                    t.append("Some(");
                    push_decimal(&mut t, *c as i64);
                    t.append(")");
                },
                None => {
                    t.append("None");
                },
            }
            t
        },
        FortuneOutcome::Failed(e) => {
            let mut t = String::from_str("Could not execute process: ");
            t.append(e.as_str());
            t
        },
    }
}

/// Answers `!fortune` with what the `fortune` program gave, on one line.
pub fn fortune_reply(msg: &Message, outcome: &FortuneOutcome) -> (lines: Vec<String>)
    requires
        fortune_request(msg@) ==> reply_sendable(msg@),
    ensures
        string_views(lines@) == fortune_answer(msg@, *outcome),
{
    let mut lines: Vec<String> = Vec::new();
    if is_fortune_request(msg) {
        proof {
            reveal_strlit("\n");
            reveal_strlit("\t");
            reveal_strlit(" ");
        }
        let report = outcome_report(outcome);
        let one = replace_str(report.as_str(), "\n", " ");
        let flat = replace_str(one.as_str(), "\t", " ");
        lines.push(reply_line(msg, flat.as_str()));
    }
    assert(string_views(lines@) =~= fortune_answer(msg@, *outcome));
    lines
}

} // verus!
