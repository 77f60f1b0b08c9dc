//! Laws that relate parsing a line and rendering a message.
use vstd::prelude::*;

use crate::irc_lib::{
    command_end, command_start, first_space, has_prefix, lemma_find_from, param_text, parse_line,
    parse_ok, render, render_params, renderable, space, space_colon, trailing_start, MessageView,
};
use crate::text::{find_from, has_char, join_spaced, matches_at, prepend_piece, split_by};
use crate::utils::functions::{reply_sendable, reply_target, reply_view};

verus! {

/// `s` opens with a colon.
pub open spec fn opens_with_colon(s: Seq<char>) -> bool {
    s.len() > 0 && s[0] == ':'
}

/// A message that comes back unchanged from being rendered and parsed
/// again: it has no prefix; its command holds no space and does not open
/// with a colon; it has at least one parameter; no parameter but the last
/// holds a space or opens with a colon; and the last, if it holds no space,
/// does not open with a colon.
pub open spec fn wire_safe(m: MessageView) -> bool {
    &&& m.prefix is None
    &&& !has_char(m.command, ' ')
    &&& !opens_with_colon(m.command)
    &&& m.params.len() > 0
    &&& forall|k: int|
        0 <= k < m.params.len() - 1 ==> !has_char(#[trigger] m.params[k], ' ') && !opens_with_colon(
            m.params[k],
        )
    &&& !has_char(m.params.last(), ' ') ==> !opens_with_colon(m.params.last())
}

/// No space in `s` is directly followed by a colon.
pub open spec fn no_space_colon(s: Seq<char>) -> bool {
    forall|j: int| 0 <= j < s.len() - 1 && #[trigger] s[j] == ' ' ==> s[j + 1] != ':'
}

proof fn lemma_matches_space(s: Seq<char>, j: int)
    ensures
        matches_at(s, space(), j) <==> (0 <= j < s.len() && s[j] == ' '),
{
    if 0 <= j < s.len() && s[j] == ' ' {
        assert(s.subrange(j, j + 1) =~= space());
    }
    if matches_at(s, space(), j) {
        assert(s.subrange(j, j + 1)[0] == ' ');
    }
}

proof fn lemma_matches_space_colon(s: Seq<char>, j: int)
    ensures
        matches_at(s, space_colon(), j) <==> (0 <= j && j + 1 < s.len() && s[j] == ' ' && s[j + 1]
            == ':'),
{
    if 0 <= j && j + 1 < s.len() && s[j] == ' ' && s[j + 1] == ':' {
        assert(s.subrange(j, j + 2) =~= space_colon());
    }
    if matches_at(s, space_colon(), j) {
        assert(s.subrange(j, j + 2)[0] == ' ');
        assert(s.subrange(j, j + 2)[1] == ':');
    }
}

proof fn lemma_find_first(s: Seq<char>, p: Seq<char>, from: int, k: int)
    requires
        0 <= from <= k,
        matches_at(s, p, k),
        forall|j: int| from <= j < k ==> !matches_at(s, p, j),
    ensures
        find_from(s, p, from) == Some(k),
    decreases k - from,
{
    if from < k {
        lemma_find_first(s, p, from + 1, k);
    }
}

proof fn lemma_find_none(s: Seq<char>, p: Seq<char>, from: int)
    requires
        0 <= from,
        forall|j: int| from <= j ==> !matches_at(s, p, j),
    ensures
        find_from(s, p, from) is None,
    decreases s.len() + 1 - from,
{
    if from + p.len() <= s.len() {
        lemma_find_none(s, p, from + 1);
    }
}

/// A string without spaces splits into itself alone.
proof fn lemma_split_no_space(b: Seq<char>)
    requires
        !has_char(b, ' '),
    ensures
        split_by(b, space()) == seq![b],
    decreases b.len(),
{
    if b.len() == 0 {
        assert(b =~= Seq::<char>::empty());
    } else {
        lemma_matches_space(b, 0);
        let rest = b.drop_first();
        assert(!has_char(rest, ' ')) by {
            if has_char(rest, ' ') {
                let k = choose|k: int| 0 <= k < rest.len() && rest[k] == ' ';
                assert(b[k + 1] == ' ');
            }
        }
        lemma_split_no_space(rest);
        assert(seq![b[0]] + rest =~= b);
        assert(prepend_piece(seq![b[0]], seq![rest]) =~= seq![b]);
    }
}

/// Splitting `x`, a space, then a word without spaces, gives the pieces of
/// `x` and then the word.
proof fn lemma_split_append(x: Seq<char>, b: Seq<char>)
    requires
        !has_char(b, ' '),
    ensures
        split_by(x + space() + b, space()) == split_by(x, space()) + seq![b],
    decreases x.len(),
{
    let s = x + space() + b;
    lemma_matches_space(s, 0);
    if x.len() == 0 {
        assert(s.skip(1) =~= b);
        lemma_split_no_space(b);
        assert(split_by(x, space()) =~= seq![Seq::<char>::empty()]);
        assert(split_by(s, space()) =~= split_by(x, space()) + seq![b]);
    } else {
        let x2 = x.drop_first();
        lemma_split_append(x2, b);
        lemma_matches_space(x, 0);
        crate::text::lemma_split_by_nonempty(x2, space());
        if x[0] == ' ' {
            assert(s.skip(1) =~= x2 + space() + b);
            assert(x.skip(1) =~= x2);
            assert(split_by(s, space()) =~= split_by(x, space()) + seq![b]);
        } else {
            assert(s.drop_first() =~= x2 + space() + b);
            assert(x.drop_first() =~= x2);
            assert(prepend_piece(seq![x[0]], split_by(x2, space()) + seq![b]) =~= prepend_piece(
                seq![x[0]],
                split_by(x2, space()),
            ) + seq![b]);
        }
    }
}

/// Words without spaces, joined by spaces, split back into the words.
proof fn lemma_split_join(q: Seq<Seq<char>>)
    requires
        q.len() >= 1,
        forall|i: int| 0 <= i < q.len() ==> !has_char(#[trigger] q[i], ' '),
    ensures
        split_by(join_spaced(q), space()) == q,
    decreases q.len(),
{
    if q.len() == 1 {
        lemma_split_no_space(q[0]);
        assert(seq![q[0]] =~= q);
    } else {
        let init = q.drop_last();
        lemma_split_join(init);
        lemma_split_append(join_spaced(init), q.last());
        assert(init + seq![q.last()] =~= q);
    }
}

/// Every parameter text is a space and the parameter.
pub open spec fn plain_texts(ps: Seq<Seq<char>>, k: int) -> bool {
    forall|i: int| 0 <= i < k ==> #[trigger] param_text(ps, i) == space() + ps[i]
}

proof fn lemma_render_params_join(ps: Seq<Seq<char>>, k: nat)
    requires
        k <= ps.len(),
        plain_texts(ps, k as int),
    ensures
        k == 0 ==> render_params(ps, k) == Seq::<char>::empty(),
        k > 0 ==> render_params(ps, k) == space() + join_spaced(ps.take(k as int)),
    decreases k,
{
    if k > 1 {
        lemma_render_params_join(ps, (k - 1) as nat);
        assert(ps.take(k as int).drop_last() =~= ps.take(k - 1));
        assert(param_text(ps, k - 1) == space() + ps[k - 1]);
        assert(render_params(ps, k) =~= space() + join_spaced(ps.take(k as int)));
    } else if k == 1 {
        assert(param_text(ps, 0) == space() + ps[0]);
        assert(render_params(ps, 0) == Seq::<char>::empty());
        assert(join_spaced(ps.take(1)) == ps[0]);
        assert(render_params(ps, 1) =~= space() + join_spaced(ps.take(1)));
    }
}

proof fn lemma_no_space_colon_grows(c: Seq<char>, ps: Seq<Seq<char>>, k: nat)
    requires
        k <= ps.len(),
        plain_texts(ps, k as int),
        !has_char(c, ' '),
        forall|i: int| 0 <= i < k ==> !has_char(#[trigger] ps[i], ' ') && !opens_with_colon(ps[i]),
    ensures
        no_space_colon(c + render_params(ps, k)),
    decreases k,
{
    if k == 0 {
        let s = c + render_params(ps, 0);
        assert(s =~= c);
        assert forall|j: int| 0 <= j < s.len() - 1 && #[trigger] s[j] == ' ' implies s[j + 1]
            != ':' by {
            assert(c[j] == ' ');
        }
    } else {
        lemma_no_space_colon_grows(c, ps, (k - 1) as nat);
        let a = c + render_params(ps, (k - 1) as nat);
        let p = ps[k - 1];
        assert(param_text(ps, k - 1) == space() + p);
        let s = c + render_params(ps, k);
        assert(s =~= a + space() + p);
        assert forall|j: int| 0 <= j < s.len() - 1 && #[trigger] s[j] == ' ' implies s[j + 1]
            != ':' by {
            if j < a.len() - 1 {
                assert(a[j] == ' ');
            } else if j == a.len() - 1 {
                assert(s[j + 1] == ' ');
            } else if j == a.len() {
                assert(s[j + 1] == p[0]);
            } else {
                assert(p[j - a.len() - 1] == ' ');
            }
        }
    }
}

proof fn lemma_render_params_first(ps: Seq<Seq<char>>, k: nat)
    requires
        1 <= k <= ps.len(),
    ensures
        render_params(ps, k).len() > 0,
        render_params(ps, k)[0] == ' ',
    decreases k,
{
    if k > 1 {
        lemma_render_params_first(ps, (k - 1) as nat);
    } else {
        assert(render_params(ps, 0) == Seq::<char>::empty());
        assert(render_params(ps, 1) =~= param_text(ps, 0));
    }
}

/// The command of a rendered wire-safe message, and where it ends.
proof fn lemma_render_command(m: MessageView)
    requires
        wire_safe(m),
    ensures
        !has_prefix(render(m)),
        first_space(render(m)) == m.command.len(),
        parse_ok(render(m)),
        command_start(render(m)) == 0,
        command_end(render(m)) == m.command.len(),
        parse_line(render(m)).prefix is None,
        parse_line(render(m)).command == m.command,
{
    let c = m.command;
    let ps = m.params;
    let n = ps.len();
    let l = render(m);
    assert(l =~= c + render_params(ps, n));
    lemma_render_params_first(ps, n);
    assert(!has_prefix(l)) by {
        if c.len() > 0 {
            assert(l[0] == c[0]);
        } else {
            assert(l[0] == render_params(ps, n)[0]);
        }
    }
    assert forall|j: int| 0 <= j < c.len() implies !matches_at(l, space(), j) by {
        lemma_matches_space(l, j);
        assert(l[j] == c[j]);
    }
    lemma_matches_space(l, c.len() as int);
    assert(l[c.len() as int] == render_params(ps, n)[0]);
    lemma_find_first(l, space(), 0, c.len() as int);
    assert(l.subrange(0, c.len() as int) =~= c);
}

/// The first `n - 1` parameters of a wire-safe message render plainly.
proof fn lemma_plain_but_last(m: MessageView)
    requires
        wire_safe(m),
    ensures
        plain_texts(m.params, m.params.len() - 1),
{
    let ps = m.params;
    let n = ps.len();
    assert forall|i: int| 0 <= i < n - 1 implies #[trigger] param_text(ps, i) == space() + ps[i] by {
        assert(!has_char(ps[i], ' '));
    }
}

/// The parameters of a rendered wire-safe message whose last parameter
/// holds a space.
#[verifier::rlimit(30)]
proof fn lemma_render_params_trailing(m: MessageView)
    requires
        wire_safe(m),
        has_char(m.params.last(), ' '),
    ensures
        parse_line(render(m)).params == m.params,
{
    let c = m.command;
    let ps = m.params;
    let n = ps.len();
    let last = ps[n - 1];
    let l = render(m);
    lemma_render_command(m);
    lemma_plain_but_last(m);
    lemma_no_space_colon_grows(c, ps, (n - 1) as nat);
    lemma_render_params_join(ps, (n - 1) as nat);
    let mid = c + render_params(ps, (n - 1) as nat);
    assert(param_text(ps, n - 1) == space_colon() + last);
    assert(l =~= mid + space_colon() + last);
    lemma_matches_space_colon(l, mid.len() as int);
    assert forall|j: int| 0 <= j < mid.len() implies !matches_at(l, space_colon(), j) by {
        lemma_matches_space_colon(l, j);
        if j < mid.len() - 1 {
            assert(l[j] == mid[j] && l[j + 1] == mid[j + 1]);
        } else {
            assert(l[j + 1] == ' ');
        }
    }
    lemma_find_first(l, space_colon(), 0, mid.len() as int);
    assert(trailing_start(l) == mid.len());
    assert(l.subrange(mid.len() + 2int, l.len() as int) =~= last);
    if n == 1 {
        assert(render_params(ps, 0) == Seq::<char>::empty());
        assert(mid =~= c);
        assert(ps =~= seq![last]);
        assert(parse_line(l).params =~= Seq::<Seq<char>>::empty() + seq![last]);
    } else {
        assert(l.subrange(c.len() + 1int, mid.len() as int) =~= join_spaced(ps.take(n - 1)));
        assert forall|i: int| 0 <= i < ps.take(n - 1).len() implies !has_char(
            #[trigger] ps.take(n - 1)[i],
            ' ',
        ) by {
            assert(ps.take(n - 1)[i] == ps[i]);
        }
        lemma_split_join(ps.take(n - 1));
        assert(ps.take(n - 1) + seq![last] =~= ps);
    }
}

/// The parameters of a rendered wire-safe message whose last parameter
/// holds no space.
#[verifier::rlimit(30)]
proof fn lemma_render_params_plain(m: MessageView)
    requires
        wire_safe(m),
        !has_char(m.params.last(), ' '),
    ensures
        parse_line(render(m)).params == m.params,
{
    let c = m.command;
    let ps = m.params;
    let n = ps.len();
    let last = ps[n - 1];
    let l = render(m);
    lemma_render_command(m);
    lemma_plain_but_last(m);
    assert(param_text(ps, n - 1) == space() + last);
    assert(plain_texts(ps, n as int));
    assert forall|i: int| 0 <= i < n implies !has_char(#[trigger] ps[i], ' ') && !opens_with_colon(
        ps[i],
    ) by {
        if i < n - 1 {
            assert(!has_char(ps[i], ' '));
        }
    }
    lemma_no_space_colon_grows(c, ps, n);
    assert(l =~= c + render_params(ps, n));
    assert forall|j: int| 0 <= j implies !matches_at(l, space_colon(), j) by {
        lemma_matches_space_colon(l, j);
    }
    lemma_find_none(l, space_colon(), 0);
    assert(trailing_start(l) == l.len());
    lemma_render_params_join(ps, n);
    assert(l.subrange(c.len() + 1int, l.len() as int) =~= join_spaced(ps.take(n as int)));
    assert(ps.take(n as int) =~= ps);
    lemma_split_join(ps);
    assert(parse_line(l).params =~= ps + Seq::<Seq<char>>::empty());
}

/// Rendering a wire-safe message and parsing the line gives the message
/// back: `parse_msg` undoes `to_string` on every such message.
pub proof fn parse_undoes_render(m: MessageView)
    requires
        wire_safe(m),
    ensures
        parse_ok(render(m)),
        parse_line(render(m)) == m,
{
    lemma_render_command(m);
    if has_char(m.params.last(), ' ') {
        lemma_render_params_trailing(m);
    } else {
        lemma_render_params_plain(m);
    }
}

/// No piece of a split at spaces holds a space.
proof fn lemma_split_pieces_no_space(s: Seq<char>)
    ensures
        forall|i: int|
            0 <= i < split_by(s, space()).len() ==> !has_char(#[trigger] split_by(s, space())[i], ' '),
    decreases s.len(),
{
    crate::text::lemma_split_by_nonempty(s, space());
    if s.len() > 0 {
        lemma_matches_space(s, 0);
        if s[0] == ' ' {
            lemma_split_pieces_no_space(s.skip(1));
            let r = split_by(s.skip(1), space());
            assert(split_by(s, space()) == seq![Seq::<char>::empty()] + r);
            assert forall|i: int| 0 <= i < split_by(s, space()).len() implies !has_char(
                #[trigger] split_by(s, space())[i],
                ' ',
            ) by {
                if i > 0 {
                    assert(split_by(s, space())[i] == r[i - 1]);
                }
            }
        } else {
            let r = split_by(s.drop_first(), space());
            lemma_split_pieces_no_space(s.drop_first());
            crate::text::lemma_split_by_nonempty(s.drop_first(), space());
            assert forall|i: int| 0 <= i < split_by(s, space()).len() implies !has_char(
                #[trigger] split_by(s, space())[i],
                ' ',
            ) by {
                if i == 0 {
                    let p = seq![s[0]] + r[0];
                    assert(split_by(s, space())[0] == p);
                    if has_char(p, ' ') {
                        let k = choose|k: int| 0 <= k < p.len() && p[k] == ' ';
                        assert(r[0][k - 1] == ' ');
                    }
                } else {
                    assert(split_by(s, space())[i] == r[i]);
                }
            }
        }
    }
}

/// Every message that `parse_msg` returns has a prefix and a command
/// without spaces, a command that does not open with a colon, and no
/// parameter but the last holding a space, so `to_string` accepts it.
pub proof fn parsed_message_renders(l: Seq<char>)
    requires
        parse_ok(l),
    ensures
        renderable(parse_line(l)),
        !has_char(parse_line(l).command, ' '),
        !opens_with_colon(parse_line(l).command),
        parse_line(l).prefix matches Some(p) ==> !has_char(p, ' '),
{
    let m = parse_line(l);
    let i = first_space(l);
    let c = command_end(l);
    let t = trailing_start(l);
    lemma_find_from(l, space(), 0);
    lemma_find_from(l, space_colon(), 0);
    lemma_matches_space(l, i);
    if has_prefix(l) {
        lemma_find_from(l, space(), i + 1);
        assert(m.prefix == Some(l.subrange(1, i)));
        assert(!has_char(l.subrange(1, i), ' ')) by {
            if has_char(l.subrange(1, i), ' ') {
                let k = choose|k: int| 0 <= k < l.subrange(1, i).len() && l.subrange(1, i)[k] == ' ';
                lemma_matches_space(l, k + 1);
            }
        }
    }
    lemma_matches_space(l, c);
    assert(!has_char(m.command, ' ')) by {
        if has_char(m.command, ' ') {
            let k = choose|k: int| 0 <= k < m.command.len() && m.command[k] == ' ';
            lemma_matches_space(l, command_start(l) + k);
        }
    }
    assert(!opens_with_colon(m.command)) by {
        if opens_with_colon(m.command) {
            assert(m.command[0] == l[command_start(l)]);
            if has_prefix(l) {
                lemma_matches_space_colon(l, i);
                assert forall|j: int| 0 <= j < i implies !matches_at(l, space_colon(), j) by {
                    lemma_matches_space_colon(l, j);
                    lemma_matches_space(l, j);
                }
                lemma_find_first(l, space_colon(), 0, i);
            }
        }
    }
    let pieces = if c == t {
        Seq::<Seq<char>>::empty()
    } else {
        split_by(l.subrange(c + 1, t), space())
    };
    if c != t {
        lemma_split_pieces_no_space(l.subrange(c + 1, t));
    }
    assert forall|k: int| 0 <= k < m.params.len() - 1 implies !has_char(#[trigger] m.params[k], ' ')
        by {
        assert(m.params[k] == pieces[k]);
    }
}

/// A reply to a parsed message comes back unchanged from the wire, when
/// its target does not open with a colon and its text, if it holds no
/// space, does not either.
pub proof fn reply_survives_the_wire(l: Seq<char>, text: Seq<char>)
    requires
        parse_ok(l),
        reply_sendable(parse_line(l)),
        !opens_with_colon(reply_target(parse_line(l))),
        !has_char(text, ' ') ==> !opens_with_colon(text),
    ensures
        parse_ok(render(reply_view(parse_line(l), text))),
        parse_line(render(reply_view(parse_line(l), text))) == reply_view(parse_line(l), text),
{
    parsed_message_renders(l);
    let r = reply_view(parse_line(l), text);
    assert(wire_safe(r));
    parse_undoes_render(r);
}

/// A match in `b` is the same match, shifted, in `a + b`.
proof fn lemma_matches_shift(a: Seq<char>, b: Seq<char>, pat: Seq<char>, k: int)
    requires
        0 <= k,
    ensures
        matches_at(a + b, pat, a.len() + k) == matches_at(b, pat, k),
{
    if k + pat.len() <= b.len() {
        assert((a + b).subrange(a.len() + k, a.len() + k + pat.len()) =~= b.subrange(
            k,
            k + pat.len(),
        ));
    }
}

/// Searching `a + b` from inside `b` finds what searching `b` finds,
/// shifted by the length of `a`.
proof fn lemma_find_shift(a: Seq<char>, b: Seq<char>, pat: Seq<char>, k: int)
    requires
        0 <= k,
    ensures
        find_from(a + b, pat, a.len() + k) == match find_from(b, pat, k) {
            Some(x) => Some(a.len() + x),
            None => None::<int>,
        },
    decreases b.len() + 1 - k,
{
    lemma_matches_shift(a, b, pat, k);
    if k + pat.len() <= b.len() && !matches_at(b, pat, k) {
        lemma_find_shift(a, b, pat, k + 1);
    }
}

/// A search that starts before a stretch without matches finds what a
/// search from the end of the stretch finds.
proof fn lemma_find_skip(s: Seq<char>, pat: Seq<char>, from: int, to: int)
    requires
        0 <= from <= to,
        forall|j: int| from <= j < to ==> !matches_at(s, pat, j),
    ensures
        find_from(s, pat, from) == find_from(s, pat, to),
    decreases to - from,
{
    if from < to {
        lemma_find_skip(s, pat, from + 1, to);
    }
}

/// The line that carries the prefix `p` in front of `rest`.
pub open spec fn with_prefix(p: Seq<char>, rest: Seq<char>) -> Seq<char> {
    seq![':'] + p + space() + rest
}

/// Putting a prefix (without spaces) in front of a line without one
/// changes nothing in the parsed message but its prefix: the command and
/// every parameter stay as they were.
pub proof fn prefix_changes_only_prefix(p: Seq<char>, rest: Seq<char>)
    requires
        !has_char(p, ' '),
        parse_ok(rest),
        !has_prefix(rest),
    ensures
        parse_ok(with_prefix(p, rest)),
        parse_line(with_prefix(p, rest)).prefix == Some(p),
        parse_line(with_prefix(p, rest)).command == parse_line(rest).command,
        parse_line(with_prefix(p, rest)).params == parse_line(rest).params,
{
    let a = seq![':'] + p + space();
    let l = with_prefix(p, rest);
    assert(l =~= a + rest);
    let i: int = p.len() as int + 1;
    lemma_find_from(rest, space(), 0);
    lemma_find_from(rest, space_colon(), 0);
    let cr = first_space(rest);
    lemma_matches_space(rest, cr);
    assert(rest.len() > 0);
    // the first space of the line ends the prefix
    assert forall|j: int| 0 <= j < i implies !matches_at(l, space(), j) by {
        lemma_matches_space(l, j);
        if j > 0 {
            assert(l[j] == p[j - 1]);
        }
    }
    lemma_matches_space(l, i);
    lemma_find_first(l, space(), 0, i);
    assert(has_prefix(l));
    assert(first_space(l) == i);
    // the command ends where it ends in `rest`
    lemma_find_shift(a, rest, space(), 0);
    assert(command_end(l) == a.len() + cr);
    // no " :" before `rest` starts
    assert forall|j: int| 0 <= j < a.len() implies !matches_at(l, space_colon(), j) by {
        lemma_matches_space_colon(l, j);
        lemma_matches_space(l, j);
        if j == i {
            assert(l[j + 1] == rest[0]);
        } else {
            assert(!matches_at(l, space(), j));
        }
    }
    lemma_find_skip(l, space_colon(), 0, a.len() as int);
    lemma_find_shift(a, rest, space_colon(), 0);
    let tr = trailing_start(rest);
    assert(trailing_start(l) == a.len() + tr);
    assert(parse_ok(l));
    assert(l.subrange(1, i) =~= p);
    assert(command_start(l) == a.len());
    assert(l.subrange(a.len() as int, a.len() + cr) =~= rest.subrange(0, cr));
    if tr < rest.len() {
        lemma_matches_space_colon(rest, tr);
        lemma_matches_space(rest, tr);
        assert(tr >= cr);
    }
    if cr != tr {
        assert(l.subrange(a.len() + cr + 1, a.len() + tr) =~= rest.subrange(cr + 1, tr));
    }
    if tr < rest.len() {
        assert(l.subrange(a.len() + tr + 2, l.len() as int) =~= rest.subrange(
            tr + 2,
            rest.len() as int,
        ));
    }
}

/// A wire-safe message sent with a prefix (without spaces) parses to that
/// prefix, the message's command and all of its parameters.
pub proof fn prefixed_render_parses(p: Seq<char>, m: MessageView)
    requires
        !has_char(p, ' '),
        wire_safe(m),
    ensures
        parse_ok(with_prefix(p, render(m))),
        parse_line(with_prefix(p, render(m))) == (MessageView {
            prefix: Some(p),
            command: m.command,
            params: m.params,
        }),
{
    lemma_render_command(m);
    parse_undoes_render(m);
    prefix_changes_only_prefix(p, render(m));
}

} // verus!
