//! Character-level string operations used by the IRC protocol code, each
//! specified over the `Seq<char>` view of the strings involved.
use vstd::prelude::*;

use crate::ext::string_push;

verus! {

/// `pat` occurs in `s` starting at index `k`.
pub open spec fn matches_at(s: Seq<char>, pat: Seq<char>, k: int) -> bool {
    0 <= k && k + pat.len() <= s.len() && s.subrange(k, k + pat.len()) == pat
}

/// `s` begins with `pat`.
pub open spec fn starts_with(s: Seq<char>, pat: Seq<char>) -> bool {
    matches_at(s, pat, 0)
}

/// The first index `k >= from` at which `pat` occurs in `s`.
pub open spec fn find_from(s: Seq<char>, pat: Seq<char>, from: int) -> Option<int>
    decreases s.len() + 1 - from,
{
    if from < 0 || from + pat.len() > s.len() {
        None
    } else if matches_at(s, pat, from) {
        Some(from)
    } else {
        find_from(s, pat, from + 1)
    }
}

/// `s` holds the character `c` somewhere.
pub open spec fn has_char(s: Seq<char>, c: char) -> bool {
    exists|k: int| 0 <= k < s.len() && s[k] == c
}

/// Adds `x` to the front of the first piece of `r`.
pub open spec fn prepend_piece(x: Seq<char>, r: Seq<Seq<char>>) -> Seq<Seq<char>> {
    r.update(0, x + r[0])
}

/// The pieces of `s` between the occurrences of `pat`, the occurrences
/// being found from left to right without overlap: what `str::split`
/// yields for a non-empty pattern.
pub open spec fn split_by(s: Seq<char>, pat: Seq<char>) -> Seq<Seq<char>>
    decreases s.len(),
{
    if s.len() == 0 {
        seq![Seq::<char>::empty()]
    } else if pat.len() > 0 && matches_at(s, pat, 0) {
        seq![Seq::<char>::empty()] + split_by(s.skip(pat.len() as int), pat)
    } else {
        prepend_piece(seq![s[0]], split_by(s.drop_first(), pat))
    }
}

/// `s` with every occurrence of `pat`, found from left to right without
/// overlap, replaced by `rep`: what `str::replace` gives for a non-empty
/// pattern.
pub open spec fn replace_all(s: Seq<char>, pat: Seq<char>, rep: Seq<char>) -> Seq<char>
    decreases s.len(),
{
    if s.len() == 0 {
        s
    } else if pat.len() > 0 && matches_at(s, pat, 0) {
        rep + replace_all(s.skip(pat.len() as int), pat, rep)
    } else {
        seq![s[0]] + replace_all(s.drop_first(), pat, rep)
    }
}

/// The views of a sequence of string slices.
pub open spec fn str_views(v: Seq<&str>) -> Seq<Seq<char>> {
    v.map_values(|p: &str| p@)
}

/// The strings of `q` joined by single spaces.
pub open spec fn join_spaced(q: Seq<Seq<char>>) -> Seq<char>
    decreases q.len(),
{
    if q.len() == 0 {
        Seq::<char>::empty()
    } else if q.len() == 1 {
        q[0]
    } else {
        join_spaced(q.drop_last()) + seq![' '] + q.last()
    }
}

/// `split_by` never yields an empty list of pieces.
pub proof fn lemma_split_by_nonempty(s: Seq<char>, pat: Seq<char>)
    ensures
        split_by(s, pat).len() >= 1,
    decreases s.len(),
{
    if s.len() == 0 {
    } else if pat.len() > 0 && matches_at(s, pat, 0) {
        lemma_split_by_nonempty(s.skip(pat.len() as int), pat);
    } else {
        lemma_split_by_nonempty(s.drop_first(), pat);
    }
}

/// A match inside a suffix is a match in the whole.
proof fn lemma_matches_at_skip(s: Seq<char>, pat: Seq<char>, pos: int)
    requires
        0 <= pos <= s.len(),
    ensures
        matches_at(s.skip(pos), pat, 0) == matches_at(s, pat, pos),
{
    if pos + pat.len() <= s.len() {
        assert(s.skip(pos).subrange(0, pat.len() as int) =~= s.subrange(pos, pos + pat.len()));
    }
}

/// The characters of `s`, in order.
pub fn chars_of(s: &str) -> (cs: Vec<char>)
    ensures
        cs@ == s@,
{
    let mut cs: Vec<char> = Vec::new();
    for c in it: s.chars()
        invariant
            cs@ == it.seq().take(it.index() as int),
            it.seq() == s@,
    {
        cs.push(c);
    }
    cs
}

/// Whether `pat` occurs in `cs` at index `k`.
pub fn matches_at_exec(cs: &Vec<char>, pat: &Vec<char>, k: usize) -> (b: bool)
    ensures
        b == matches_at(cs@, pat@, k as int),
{
    if k > cs.len() || pat.len() > cs.len() - k {
        return false;
    }
    let n = cs.len();
    let mut j: usize = 0;
    while j < pat.len()
        invariant
            n == cs@.len(),
            k + pat@.len() <= cs@.len(),
            j <= pat@.len(),
            forall|i: int| 0 <= i < j ==> cs@[k + i] == pat@[i],
        decreases pat@.len() - j,
    {
        assert(k + j < cs@.len());
        if cs[k + j] != pat[j] {
            assert(cs@.subrange(k as int, k + pat@.len())[j as int] != pat@[j as int]);
            return false;
        }
        j = j + 1;
    }
    assert(cs@.subrange(k as int, k + pat@.len()) =~= pat@);
    true
}

/// The first index at or after `from` where `pat` occurs in `cs`.
pub fn find_from_exec(cs: &Vec<char>, pat: &Vec<char>, from: usize) -> (r: Option<usize>)
    ensures
        match r {
            Some(k) => find_from(cs@, pat@, from as int) == Some(k as int),
            None => find_from(cs@, pat@, from as int) is None,
        },
{
    let mut k = from;
    while k <= cs.len() && pat.len() <= cs.len() - k
        invariant
            find_from(cs@, pat@, from as int) == find_from(cs@, pat@, k as int),
        decreases cs@.len() + 1 - k,
    {
        if matches_at_exec(cs, pat, k) {
            return Some(k);
        }
        if k >= cs.len() {
            proof {
                if pat@.len() == 0 {
                    assert(cs@.subrange(k as int, k as int) =~= pat@);
                }
            }
            return None;
        }
        k = k + 1;
    }
    None
}

/// Whether `a` and `b` hold the same characters.
pub fn str_eq(a: &str, b: &str) -> (r: bool)
    ensures
        r == (a@ == b@),
{
    let ca = chars_of(a);
    let cb = chars_of(b);
    if ca.len() != cb.len() {
        return false;
    }
    let r = matches_at_exec(&ca, &cb, 0);
    proof {
        assert(ca@.subrange(0, cb@.len() as int) =~= ca@);
    }
    r
}

/// Whether `s` begins with `pat`.
pub fn starts_with_str(s: &str, pat: &str) -> (r: bool)
    ensures
        r == starts_with(s@, pat@),
{
    let cs = chars_of(s);
    let ps = chars_of(pat);
    matches_at_exec(&cs, &ps, 0)
}

/// Whether the character `c` occurs in `cs`.
pub fn has_char_exec(cs: &Vec<char>, c: char) -> (r: bool)
    ensures
        r == has_char(cs@, c),
{
    let mut k: usize = 0;
    while k < cs.len()
        invariant
            k <= cs@.len(),
            forall|i: int| 0 <= i < k ==> cs@[i] != c,
        decreases cs@.len() - k,
    {
        if cs[k] == c {
            return true;
        }
        k = k + 1;
    }
    false
}

/// The pieces of `s` between the occurrences of `pat`, as `str::split`
/// yields them.
pub fn split_str<'a>(s: &'a str, pat: &str) -> (pieces: Vec<&'a str>)
    requires
        pat@.len() > 0,
    ensures
        str_views(pieces@) == split_by(s@, pat@),
{
    let cs = chars_of(s);
    let ps = chars_of(pat);
    let n = cs.len();
    let mut pieces: Vec<&'a str> = Vec::new();
    let mut st: usize = 0;
    let mut pos: usize = 0;
    assert(cs@.skip(0) =~= cs@);
    assert(cs@.subrange(0, 0) =~= Seq::<char>::empty());
    proof {
        lemma_split_by_nonempty(cs@, ps@);
        assert(prepend_piece(Seq::<char>::empty(), split_by(cs@, ps@)) =~= split_by(cs@, ps@));
    }
    while pos < n
        invariant
            n == cs@.len(),
            cs@ == s@,
            ps@ == pat@,
            ps@.len() > 0,
            st <= pos <= n,
            split_by(s@, pat@) == str_views(pieces@) + prepend_piece(
                cs@.subrange(st as int, pos as int),
                split_by(cs@.skip(pos as int), ps@),
            ),
        decreases n - pos,
    {
        let ghost x = cs@.subrange(st as int, pos as int);
        let ghost rest = cs@.skip(pos as int);
        proof {
            lemma_matches_at_skip(cs@, ps@, pos as int);
        }
        if matches_at_exec(&cs, &ps, pos) {
            let piece = s.substring_char(st, pos);
            let ghost r2 = split_by(rest.skip(ps@.len() as int), ps@);
            proof {
                assert(rest.skip(ps@.len() as int) =~= cs@.skip(pos + ps@.len()));
                lemma_split_by_nonempty(rest.skip(ps@.len() as int), ps@);
                assert(prepend_piece(x, seq![Seq::<char>::empty()] + r2) =~= seq![x] + r2);
                assert(str_views(pieces@.push(piece)) =~= str_views(pieces@).push(x));
                assert(prepend_piece(Seq::<char>::empty(), r2) =~= r2);
                assert(cs@.subrange((pos + ps@.len()) as int, (pos + ps@.len()) as int)
                    =~= Seq::<char>::empty());
            }
            pieces.push(piece);
            pos = pos + ps.len();
            st = pos;
        } else {
            let ghost r2 = split_by(rest.drop_first(), ps@);
            proof {
                assert(rest.drop_first() =~= cs@.skip(pos + 1));
                lemma_split_by_nonempty(rest.drop_first(), ps@);
                assert(rest[0] == cs@[pos as int]);
                assert(cs@.subrange(st as int, pos + 1) =~= x + seq![rest[0]]);
                assert(x + (seq![rest[0]] + r2[0]) =~= (x + seq![rest[0]]) + r2[0]);
                assert(prepend_piece(x, prepend_piece(seq![rest[0]], r2)) =~= prepend_piece(
                    cs@.subrange(st as int, pos + 1),
                    r2,
                ));
            }
            pos = pos + 1;
        }
    }
    let last = s.substring_char(st, n);
    proof {
        assert(cs@.skip(n as int) =~= Seq::<char>::empty());
        assert(prepend_piece(cs@.subrange(st as int, n as int), seq![Seq::<char>::empty()])
            =~= seq![cs@.subrange(st as int, n as int)]);
        assert(str_views(pieces@.push(last)) =~= str_views(pieces@).push(last@));
    }
    pieces.push(last);
    pieces
}

/// `s` with every occurrence of `pat` replaced by `rep`, as
/// `str::replace` gives it.
pub fn replace_str(s: &str, pat: &str, rep: &str) -> (out: String)
    requires
        pat@.len() > 0,
    ensures
        out@ == replace_all(s@, pat@, rep@),
{
    let cs = chars_of(s);
    let ps = chars_of(pat);
    let n = cs.len();
    let mut out = String::new();
    let mut pos: usize = 0;
    assert(cs@.skip(0) =~= cs@);
    while pos < n
        invariant
            n == cs@.len(),
            cs@ == s@,
            ps@ == pat@,
            ps@.len() > 0,
            pos <= n,
            replace_all(s@, pat@, rep@) == out@ + replace_all(cs@.skip(pos as int), ps@, rep@),
        decreases n - pos,
    {
        let ghost rest = cs@.skip(pos as int);
        let ghost old_out = out@;
        proof {
            lemma_matches_at_skip(cs@, ps@, pos as int);
        }
        if matches_at_exec(&cs, &ps, pos) {
            out.append(rep);
            proof {
                assert(rest.skip(ps@.len() as int) =~= cs@.skip(pos + ps@.len()));
                assert(old_out + (rep@ + replace_all(rest.skip(ps@.len() as int), ps@, rep@))
                    =~= out@ + replace_all(cs@.skip(pos + ps@.len()), ps@, rep@));
            }
            pos = pos + ps.len();
        } else {
            let c = cs[pos];
            string_push(&mut out, c);
            proof {
                assert(rest.drop_first() =~= cs@.skip(pos + 1));
                assert(old_out + (seq![rest[0]] + replace_all(rest.drop_first(), ps@, rep@))
                    =~= out@ + replace_all(cs@.skip(pos + 1), ps@, rep@));
            }
            pos = pos + 1;
        }
    }
    proof {
        assert(cs@.skip(n as int) =~= Seq::<char>::empty());
        assert(out@ + Seq::<char>::empty() =~= out@);
    }
    out
}

/// `c` is an ASCII decimal digit.
pub open spec fn is_digit(c: char) -> bool {
    '0' <= c && c <= '9'
}

/// Every character of `d` is an ASCII decimal digit.
pub open spec fn all_digits(d: Seq<char>) -> bool {
    forall|k: int| 0 <= k < d.len() ==> is_digit(#[trigger] d[k])
}

/// The number that the decimal digits `d` spell.
pub open spec fn digits_value(d: Seq<char>) -> int
    decreases d.len(),
{
    if d.len() == 0 {
        0
    } else {
        digits_value(d.drop_last()) * 10 + (d.last() as int - 48)
    }
}

/// The integer that `s` writes in decimal, if it is one: an optional `+` or
/// `-` followed by one or more ASCII digits.
pub open spec fn decimal_value(s: Seq<char>) -> Option<int> {
    if s.len() > 0 && (s[0] == '+' || s[0] == '-') {
        let d = s.drop_first();
        if d.len() > 0 && all_digits(d) {
            Some(if s[0] == '-' { -digits_value(d) } else { digits_value(d) })
        } else {
            None
        }
    } else if s.len() > 0 && all_digits(s) {
        Some(digits_value(s))
    } else {
        None
    }
}

/// The ASCII digit for `d`, for `0 <= d < 10`.
pub open spec fn digit_char(d: int) -> char {
    (48 + d) as char
}

/// The decimal digits of `n`, with no leading zeros.
pub open spec fn nat_digits(n: nat) -> Seq<char>
    decreases n,
{
    if n < 10 {
        seq![digit_char(n as int)]
    } else {
        nat_digits(n / 10).push(digit_char((n % 10) as int))
    }
}

/// The decimal form of `v` that Rust's `Display` gives an integer: a minus
/// sign for a negative value, then the digits of its magnitude.
pub open spec fn int_decimal(v: int) -> Seq<char> {
    if v < 0 {
        seq!['-'] + nat_digits((-v) as nat)
    } else {
        nat_digits(v as nat)
    }
}

fn digit(d: u64) -> (c: char)
    requires
        d < 10,
    ensures
        c == digit_char(d as int),
{
    ((d as u8) + 48u8) as char
}

fn push_digits(out: &mut String, n: u64)
    ensures
        final(out)@ == old(out)@ + nat_digits(n as nat),
    decreases n,
{
    if n >= 10 {
        push_digits(out, n / 10);
    }
    string_push(out, digit(n % 10));
    proof {
        if n >= 10 {
            assert(old(out)@ + nat_digits((n / 10) as nat) + seq![digit_char((n % 10) as int)]
                =~= old(out)@ + nat_digits(n as nat));
        } else {
            assert(old(out)@ + Seq::<char>::empty().push(digit_char(n as int))
                =~= old(out)@ + nat_digits(n as nat));
        }
    }
}

/// Appends the decimal form of `v` to `out`.
pub fn push_decimal(out: &mut String, v: i64)
    ensures
        final(out)@ == old(out)@ + int_decimal(v as int),
{
    if v < 0 {
        string_push(out, '-');
        let mag: u64 = if v == i64::MIN { 9223372036854775808u64 } else { (-v) as u64 };
        push_digits(out, mag);
        proof {
            assert(old(out)@ + int_decimal(v as int) =~= old(out)@.push('-') + nat_digits(mag as nat));
        }
    } else {
        push_digits(out, v as u64);
    }
}

} // verus!
