//! IRC lines and messages: parsing a received line into its prefix, command
//! and parameters, rendering a message back into a line, and the RFC 2812
//! rule for channel names.
use vstd::prelude::*;
use vstd::utf8::encode_utf8;

use crate::text::{chars_of, find_from, find_from_exec, has_char, has_char_exec, matches_at, split_by, split_str, str_views};

verus! {

/// The characters that may open a channel name (RFC 2812, section 1.3).
pub open spec fn is_channel_prefix(c: char) -> bool {
    c == '&' || c == '#' || c == '+' || c == '!'
}

/// The characters that may not occur in a channel name: space, BEL and comma.
pub open spec fn is_forbidden_in_channel(c: char) -> bool {
    c == ' ' || c == '\x07' || c == ','
}

/// A channel name: at most 50 bytes of UTF-8, opened by one of `&#+!`, and
/// free of spaces, BEL and commas.
pub open spec fn channel_name_ok(name: Seq<char>) -> bool {
    &&& encode_utf8(name).len() <= 50
    &&& name.len() > 0
    &&& is_channel_prefix(name[0])
    &&& forall|k: int| 0 <= k < name.len() ==> !is_forbidden_in_channel(#[trigger] name[k])
}

/// Whether `name` is a valid channel name as RFC 2812 defines it.
pub fn is_valid_channel_name(name: &str) -> (r: bool)
    ensures
        r == channel_name_ok(name@),
{
    if name.as_bytes().len() > 50 {
        return false;
    }
    let cs = chars_of(name);
    if cs.len() == 0 {
        return false;
    }
    let c0 = cs[0];
    if !(c0 == '&' || c0 == '#' || c0 == '+' || c0 == '!') {
        return false;
    }
    let mut k: usize = 0;
    while k < cs.len()
        invariant
            cs@ == name@,
            k <= cs@.len(),
            forall|i: int| 0 <= i < k ==> !is_forbidden_in_channel(#[trigger] cs@[i]),
        decreases cs@.len() - k,
    {
        let c = cs[k];
        if c == ' ' || c == '\x07' || c == ',' {
            assert(!channel_name_ok(name@)) by {
                assert(is_forbidden_in_channel(name@[k as int]));
            }
            return false;
        }
        k = k + 1;
    }
    assert(channel_name_ok(name@));
    true
}

/// A line of text as received from, or sent to, an IRC server, without its
/// line ending.
pub struct Line(pub String);

/// An IRC message: optional prefix (the sender), command, and parameters.
/// The last parameter may hold spaces (a "trailing" parameter).
pub struct Message<'a> {
    pub prefix: Option<&'a str>,
    pub command: &'a str,
    pub params: Vec<&'a str>,
}

/// The abstract content of a [`Message`].
pub struct MessageView {
    pub prefix: Option<Seq<char>>,
    pub command: Seq<char>,
    pub params: Seq<Seq<char>>,
}

impl<'a> View for Message<'a> {
    type V = MessageView;

    open spec fn view(&self) -> MessageView {
        MessageView {
            prefix: match self.prefix {
                Some(p) => Some(p@),
                None => None,
            },
            command: self.command@,
            params: str_views(self.params@),
        }
    }
}

/// The one-character pattern `" "`.
pub open spec fn space() -> Seq<char> {
    seq![' ']
}

/// The pattern `" :"` that opens a trailing parameter.
pub open spec fn space_colon() -> Seq<char> {
    seq![' ', ':']
}

/// The line opens with a prefix, marked by a leading `:`.
pub open spec fn has_prefix(l: Seq<char>) -> bool {
    l.len() > 0 && l[0] == ':'
}

/// Index of the first space of the line.
pub open spec fn first_space(l: Seq<char>) -> int {
    find_from(l, space(), 0)->0
}

/// Where the command starts: after the prefix and its space, if any.
pub open spec fn command_start(l: Seq<char>) -> int {
    if has_prefix(l) {
        first_space(l) + 1
    } else {
        0
    }
}

/// Where the command ends: at the first space after its start.
pub open spec fn command_end(l: Seq<char>) -> int {
    if has_prefix(l) {
        find_from(l, space(), first_space(l) + 1)->0
    } else {
        first_space(l)
    }
}

/// Where the trailing parameter's `" :"` stands, or the line's length if
/// there is none.
pub open spec fn trailing_start(l: Seq<char>) -> int {
    match find_from(l, space_colon(), 0) {
        Some(t) => t,
        None => l.len() as int,
    }
}

/// The lines that `Line::parse_msg` accepts: a line with a prefix needs a
/// space after the prefix and one after the command, and must not open its
/// trailing parameter right after the prefix; a line without a prefix needs
/// a space after the command.
pub open spec fn parse_ok(l: Seq<char>) -> bool {
    if has_prefix(l) {
        match find_from(l, space(), 0) {
            Some(i) => find_from(l, space(), i + 1) is Some && find_from(l, space_colon(), 0)
                != Some(i),
            None => false,
        }
    } else {
        find_from(l, space(), 0) is Some
    }
}

/// The message that a line holds: the prefix between the leading `:` and
/// the first space; the command up to the next space; the middle parameters,
/// separated by single spaces, up to the first `" :"`; and the rest of the
/// line after that `" :"` as the last parameter.
pub open spec fn parse_line(l: Seq<char>) -> MessageView {
    let c = command_end(l);
    let t = trailing_start(l);
    MessageView {
        prefix: if has_prefix(l) {
            Some(l.subrange(1, first_space(l)))
        } else {
            None
        },
        command: l.subrange(command_start(l), c),
        params: (if c == t {
            Seq::<Seq<char>>::empty()
        } else {
            split_by(l.subrange(c + 1, t), space())
        }) + (if t < l.len() {
            seq![l.subrange(t + 2, l.len() as int)]
        } else {
            Seq::<Seq<char>>::empty()
        }),
    }
}

/// The text that stands for parameter `k` of `ps` in a rendered line: a
/// space and the parameter, or `" :"` and the parameter for a last parameter
/// that holds a space.
pub open spec fn param_text(ps: Seq<Seq<char>>, k: int) -> Seq<char> {
    if k == ps.len() - 1 && has_char(ps[k], ' ') {
        space_colon() + ps[k]
    } else {
        space() + ps[k]
    }
}

/// The rendered text of the first `k` parameters of `ps`.
pub open spec fn render_params(ps: Seq<Seq<char>>, k: nat) -> Seq<char>
    decreases k,
{
    if k == 0 {
        Seq::<char>::empty()
    } else {
        render_params(ps, (k - 1) as nat) + param_text(ps, k - 1)
    }
}

/// The line that a message is rendered to: the prefix and a space, if there
/// is a prefix; the command; then each parameter as `param_text` gives it.
pub open spec fn render(m: MessageView) -> Seq<char> {
    (match m.prefix {
        Some(p) => p + space(),
        None => Seq::<char>::empty(),
    }) + m.command + render_params(m.params, m.params.len())
}

/// A message can be rendered when no parameter but the last holds a space.
pub open spec fn renderable(m: MessageView) -> bool {
    forall|k: int| 0 <= k < m.params.len() - 1 ==> !has_char(#[trigger] m.params[k], ' ')
}

/// What `find_from` gives: the least matching index at or after `from`.
pub proof fn lemma_find_from(s: Seq<char>, pat: Seq<char>, from: int)
    requires
        0 <= from,
    ensures
        match find_from(s, pat, from) {
            Some(k) => from <= k && matches_at(s, pat, k) && forall|j: int|
                from <= j < k ==> !matches_at(s, pat, j),
            None => forall|j: int| from <= j ==> !matches_at(s, pat, j),
        },
    decreases s.len() + 1 - from,
{
    if from + pat.len() > s.len() {
    } else if matches_at(s, pat, from) {
    } else {
        lemma_find_from(s, pat, from + 1);
    }
}

impl Line {
    /// Whether `parse_msg` accepts this line.
    pub fn can_parse(&self) -> (r: bool)
        ensures
            r == parse_ok(self.0@),
    {
        let cs = chars_of(self.0.as_str());
        let sp = vec![' '];
        let spc = vec![' ', ':'];
        assert(sp@ =~= space());
        assert(spc@ =~= space_colon());
        proof {
            lemma_find_from(cs@, space(), 0);
        }
        if cs.len() > 0 && cs[0] == ':' {
            match find_from_exec(&cs, &sp, 0) {
                Some(i) => {
                    assert(matches_at(cs@, space(), i as int));
                    let second = find_from_exec(&cs, &sp, i + 1);
                    let trailing = find_from_exec(&cs, &spc, 0);
                    second.is_some() && !(trailing.is_some() && trailing.unwrap() == i)
                },
                None => false,
            }
        } else {
            find_from_exec(&cs, &sp, 0).is_some()
        }
    }

    /// Splits the line into prefix, command and parameters.
    pub fn parse_msg(&self) -> (m: Message<'_>)
        requires
            parse_ok(self.0@),
        ensures
            m@ == parse_line(self.0@),
    {
        let line: &str = self.0.as_str();
        let cs = chars_of(line);
        let n = cs.len();
        let sp = vec![' '];
        let spc = vec![' ', ':'];
        let ghost l = cs@;
        assert(sp@ =~= space());
        assert(spc@ =~= space_colon());
        proof {
            lemma_find_from(l, space(), 0);
            lemma_find_from(l, space_colon(), 0);
        }
        let with_prefix = n > 0 && cs[0] == ':';
        let i = find_from_exec(&cs, &sp, 0).unwrap();
        let (pre, cmd_start, c) = if with_prefix {
            proof {
                lemma_find_from(l, space(), i + 1);
                assert(l[0] != ' ');
                if i == 0 {
                    assert(l.subrange(0, 1)[0] == ' ');
                }
            }
            let c = find_from_exec(&cs, &sp, i + 1).unwrap();
            (Some(line.substring_char(1, i)), i + 1, c)
        } else {
            (None, 0, i)
        };
        let t = match find_from_exec(&cs, &spc, 0) {
            Some(t) => t,
            None => n,
        };
        proof {
            if t < n {
                assert(matches_at(l, space_colon(), t as int));
                assert(l.subrange(t as int, t + 2)[0] == ' ');
                assert(matches_at(l, space(), t as int)) by {
                    assert(l.subrange(t as int, t + 1) =~= space());
                }
                if with_prefix {
                    assert(t != i);
                    assert(t >= c);
                } else {
                    assert(t >= i);
                }
            }
            assert(c < n) by {
                assert(matches_at(l, space(), c as int));
            }
        }
        let com = line.substring_char(cmd_start, c);
        proof {
            reveal_strlit(" ");
            assert(" "@ =~= space());
        }
        let mut par: Vec<&str> = if c == t {
            Vec::new()
        } else {
            split_str(line.substring_char(c + 1, t), " ")
        };
        if t != n {
            let ghost before = par@;
            let trailing = line.substring_char(t + 2, n);
            par.push(trailing);
            assert(str_views(par@) =~= str_views(before) + seq![trailing@]);
        } else {
            assert(str_views(par@) =~= str_views(par@) + Seq::<Seq<char>>::empty());
        }
        Message { prefix: pre, command: com, params: par }
    }
}

impl<'a> Message<'a> {
    /// The line that this message is sent as.
    pub fn to_string(&self) -> (s: String)
        requires
            renderable(self@),
        ensures
            s@ == render(self@),
    {
        let mut result = String::new();
        proof {
            reveal_strlit(" ");
            reveal_strlit(" :");
            assert(" "@ =~= space());
            assert(" :"@ =~= space_colon());
        }
        match self.prefix {
            Some(p) => {
                result.append(p);
                result.append(" ");
            },
            None => {},
        }
        result.append(self.command);
        let ghost head = result@;
        let ghost ps = self@.params;
        let np = self.params.len();
        let mut i: usize = 0;
        assert(head + render_params(ps, 0) =~= head);
        while i < np
            invariant
                np == self.params@.len(),
                ps == str_views(self.params@),
                ps == self@.params,
                renderable(self@),
                " "@ == space(),
                " :"@ == space_colon(),
                i <= np,
                result@ == head + render_params(ps, i as nat),
            decreases np - i,
        {
            let cur = self.params[i];
            let cur_cs = chars_of(cur);
            let ghost before = result@;
            assert(ps[i as int] == cur@);
            if has_char_exec(&cur_cs, ' ') {
                if i == np - 1 {
                    result.append(" :");
                } else {
                    // a non-trailing parameter never holds a space
                    assert(!has_char(self@.params[i as int], ' '));
                    assert(false);
                }
            } else {
                result.append(" ");
            }
            result.append(cur);
            assert(result@ =~= head + render_params(ps, (i + 1) as nat));
            i = i + 1;
        }
        result
    }
}

} // verus!
