//! The `!rand` command: a random number from a range the sender gives.
use vstd::prelude::*;

use crate::ext::{gen_range_isize, isize_parse, parse_isize, thread_rng};
use crate::irc_lib::{render, Message, MessageView};
use crate::modules::request::{is_privmsg_request, privmsg_request};
use crate::text::{int_decimal, push_decimal, split_by, split_str, str_views};
use crate::utils::functions::{reply_line, reply_sendable, reply_view, string_views};

verus! {

/// `m` asks for `!rand`.
pub open spec fn random_request(m: MessageView) -> bool {
    privmsg_request(m, "!rand"@)
}

/// The words of a `!rand` request, split at single spaces.
pub open spec fn random_args(m: MessageView) -> Seq<Seq<char>> {
    split_by(m.params[1], " "@)
}

/// The bounds that a request asks for, each parsed as an `isize`: with one
/// argument, `0` and that argument; with two, both arguments; otherwise `0`
/// and `100`.
pub open spec fn random_bounds(m: MessageView) -> (Result<int, Seq<char>>, Result<int, Seq<char>>) {
    let a = random_args(m);
    if a.len() == 2 {
        (Ok(0), isize_parse(a[1]))
    } else if a.len() == 3 {
        (isize_parse(a[1]), isize_parse(a[2]))
    } else {
        (Ok(0), Ok(100))
    }
}

/// What the bot does with a `!rand` request.
pub enum RandomStep {
    /// The message is no `!rand` request.
    Ignore,
    /// Answer with this text.
    Say(String),
    /// Answer with a random number at least the first and below the second.
    Draw(isize, isize),
}

/// The answer that bounds call for: the parse error of the first bound if
/// it failed, else that of the second; a complaint for two equal bounds;
/// else a draw from the range between them, whichever comes first.
pub open spec fn random_plan(bounds: (Result<int, Seq<char>>, Result<int, Seq<char>>)) -> (Option<Seq<char>>, int, int) {
    match bounds {
        (Err(e), _) => (Some("Failed to parse first bound with err "@ + e), 0, 0),
        (Ok(_), Err(e)) => (Some("Failed to parse second bound with err "@ + e), 0, 0),
        (Ok(b1), Ok(b2)) => if b1 == b2 {
            (
                Some(
                    "Can't generate random in empty range ["@ + int_decimal(b1) + ", "@
                        + int_decimal(b2) + ")"@,
                ),
                0,
                0,
            )
        } else if b1 > b2 {
            (None, b2, b1)
        } else {
            (None, b1, b2)
        },
    }
}

/// The step that `random_plan` calls for.
pub open spec fn step_matches(step: RandomStep, plan: (Option<Seq<char>>, int, int)) -> bool {
    match step {
        RandomStep::Ignore => false,
        RandomStep::Say(t) => plan.0 == Some(t@),
        RandomStep::Draw(lo, hi) => plan.0 is None && plan.1 == lo && plan.2 == hi,
    }
}

/// Decides what to do with `msg`: ignore it, answer with a fixed text, or
/// answer with a number drawn from a range.
pub fn plan_random(msg: &Message) -> (step: RandomStep)
    ensures
        step is Ignore <==> !random_request(msg@),
        random_request(msg@) ==> step_matches(step, random_plan(random_bounds(msg@))),
{
    if !is_privmsg_request(msg, "!rand") {
        return RandomStep::Ignore;
    }
    proof {
        reveal_strlit(" ");
    }
    let args = split_str(msg.params[1], " ");
    assert(str_views(args@) == random_args(msg@));
    let (b1, b2): (Result<isize, String>, Result<isize, String>) = if args.len() == 2 {
        (Ok(0), parse_isize(args[1]))
    } else if args.len() == 3 {
        (parse_isize(args[1]), parse_isize(args[2]))
    } else {
        (Ok(0), Ok(100))
    };
    proof {
        if args@.len() == 2 || args@.len() == 3 {
            assert(args@[1]@ == random_args(msg@)[1]);
        }
        if args@.len() == 3 {
            assert(args@[2]@ == random_args(msg@)[2]);
        }
        reveal_strlit("Failed to parse first bound with err ");
        reveal_strlit("Failed to parse second bound with err ");
        reveal_strlit("Can't generate random in empty range [");
        reveal_strlit(", ");
        reveal_strlit(")");
    }
    match (b1, b2) {
        (Err(e), _) => {
            let mut t = String::from_str("Failed to parse first bound with err ");
            t.append(e.as_str());
            RandomStep::Say(t)
        },
        (Ok(_), Err(e)) => {
            let mut t = String::from_str("Failed to parse second bound with err ");
            t.append(e.as_str());
            RandomStep::Say(t)
        },
        (Ok(x), Ok(y)) => {
            if x == y {
                let mut t = String::from_str("Can't generate random in empty range [");
                push_decimal(&mut t, x as i64);
                t.append(", ");
                push_decimal(&mut t, y as i64);
                t.append(")");
                RandomStep::Say(t)
            } else if x > y {
                RandomStep::Draw(y, x)
            } else {
                RandomStep::Draw(x, y)
            }
        },
    }
}

/// Answers `!rand`, `!rand <high>` or `!rand <low> <high>` with a random
/// number in the range, or with why there is none.
pub fn random_module(msg: &Message) -> (lines: Vec<String>)
    requires
        random_request(msg@) ==> reply_sendable(msg@),
    ensures
        !random_request(msg@) ==> lines@.len() == 0,
        random_request(msg@) ==> lines@.len() == 1 && ({
            let plan = random_plan(random_bounds(msg@));
            match plan.0 {
                Some(t) => lines@[0]@ == render(reply_view(msg@, t)),
                None => exists|x: int|
                    plan.1 <= x < plan.2 && lines@[0]@ == render(reply_view(msg@, int_decimal(x))),
            }
        }),
{
    let mut lines: Vec<String> = Vec::new();
    match plan_random(msg) {
        RandomStep::Ignore => {},
        RandomStep::Say(t) => {
            lines.push(reply_line(msg, t.as_str()));
        },
        RandomStep::Draw(lo, hi) => {
            let mut rng = thread_rng();
            let x = gen_range_isize(&mut rng, lo, hi);
            lines = number_answer(msg, x);
            assert(lines@.len() == string_views(lines@).len());
            assert(lines@[0]@ == string_views(lines@)[0]);
        },
    }
    lines
}

/// The answer that carries the drawn number `x`: one line, to the channel
/// or the sender, whose text is `x` in decimal.
pub fn number_answer(msg: &Message, x: isize) -> (lines: Vec<String>)
    requires
        reply_sendable(msg@),
    ensures
        string_views(lines@) == seq![render(reply_view(msg@, int_decimal(x as int)))],
{
    let mut t = String::new();
    push_decimal(&mut t, x as i64);
    assert(t@ =~= int_decimal(x as int));
    let mut lines: Vec<String> = Vec::new();
    lines.push(reply_line(msg, t.as_str()));
    assert(string_views(lines@) =~= seq![render(reply_view(msg@, int_decimal(x as int)))]);
    lines
}

} // verus!
