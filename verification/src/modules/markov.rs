//! A Markov-chain model of a text: how often each word directly follows
//! another, and random walks along those links, each step chosen with a
//! probability proportional to how often it was seen.
use vstd::prelude::*;

use crate::ext::{gen_range_usize, thread_rng};
use crate::text::{join_spaced, split_by, split_str, str_eq, str_views};
use crate::utils::functions::string_views;

verus! {

/// The words of a text given line by line: each line split at single
/// spaces, the lines' words one after the other.
pub open spec fn corpus_words(lines: Seq<Seq<char>>) -> Seq<Seq<char>>
    decreases lines.len(),
{
    if lines.len() == 0 {
        Seq::<Seq<char>>::empty()
    } else {
        corpus_words(lines.drop_last()) + split_by(lines.last(), seq![' '])
    }
}

/// How often `b` directly follows `a` in `ws`.
pub open spec fn pair_count(ws: Seq<Seq<char>>, a: Seq<char>, b: Seq<char>) -> nat
    decreases ws.len(),
{
    if ws.len() < 2 {
        0
    } else {
        pair_count(ws.drop_last(), a, b) + if ws[ws.len() - 2] == a && ws.last() == b {
            1nat
        } else {
            0nat
        }
    }
}

/// The sum of `f` over the links `es` (each link: from, to, weight).
pub open spec fn link_sum(es: Seq<(usize, usize, usize)>, f: spec_fn((usize, usize, usize)) -> nat) -> nat
    decreases es.len(),
{
    if es.len() == 0 {
        0
    } else {
        link_sum(es.drop_last(), f) + f(es.last())
    }
}

/// The weight of a link if it goes from word `i` to word `j`.
pub open spec fn weight_between(i: int, j: int) -> spec_fn((usize, usize, usize)) -> nat {
    |e: (usize, usize, usize)|
        if e.0 == i && e.1 == j {
            e.2 as nat
        } else {
            0nat
        }
}

/// The weight of a link if it leaves word `i`.
pub open spec fn weight_from(i: int) -> spec_fn((usize, usize, usize)) -> nat {
    |e: (usize, usize, usize)|
        if e.0 == i {
            e.2 as nat
        } else {
            0nat
        }
}

/// The weight of any link.
pub open spec fn weight_any() -> spec_fn((usize, usize, usize)) -> nat {
    |e: (usize, usize, usize)| e.2 as nat
}

/// Distinct words; links between known words, each with a positive weight;
/// and a total weight that fits a `usize`.
pub open spec fn links_wf(ws: Seq<Seq<char>>, es: Seq<(usize, usize, usize)>) -> bool {
    &&& ws.no_duplicates()
    &&& links_within(es, ws.len())
    &&& links_unique(es)
    &&& link_sum(es, weight_any()) <= usize::MAX
}

/// Every link joins two of the first `n` words and has a positive weight.
pub open spec fn links_within(es: Seq<(usize, usize, usize)>, n: nat) -> bool {
    forall|t: int| 0 <= t < es.len() ==> (#[trigger] es[t]).0 < n && es[t].1 < n && es[t].2 > 0
}

/// No two links join the same two words.
pub open spec fn links_unique(es: Seq<(usize, usize, usize)>) -> bool {
    forall|t: int, u: int|
        0 <= t < es.len() && 0 <= u < es.len() && t != u ==> !((#[trigger] es[t]).0 == (
        #[trigger] es[u]).0 && es[t].1 == es[u].1)
}

/// How often `b` was seen right after `a`, by the links `es` between the
/// words `ws`.
pub open spec fn links_count(
    ws: Seq<Seq<char>>,
    es: Seq<(usize, usize, usize)>,
    a: Seq<char>,
    b: Seq<char>,
) -> nat {
    if ws.contains(a) && ws.contains(b) {
        link_sum(es, weight_between(ws.index_of(a), ws.index_of(b)))
    } else {
        0
    }
}

proof fn lemma_sum_push(es: Seq<(usize, usize, usize)>, x: (usize, usize, usize), f: spec_fn((usize, usize, usize)) -> nat)
    ensures
        link_sum(es.push(x), f) == link_sum(es, f) + f(x),
{
    assert(es.push(x).drop_last() =~= es);
}

proof fn lemma_sum_take(es: Seq<(usize, usize, usize)>, t: int, f: spec_fn((usize, usize, usize)) -> nat)
    requires
        0 <= t < es.len(),
    ensures
        link_sum(es.take(t + 1), f) == link_sum(es.take(t), f) + f(es[t]),
{
    assert(es.take(t + 1).drop_last() =~= es.take(t));
}

proof fn lemma_sum_prefix_le(es: Seq<(usize, usize, usize)>, t: int, f: spec_fn((usize, usize, usize)) -> nat)
    requires
        0 <= t <= es.len(),
    ensures
        link_sum(es.take(t), f) <= link_sum(es, f),
    decreases es.len() - t,
{
    if t < es.len() {
        lemma_sum_take(es, t, f);
        lemma_sum_prefix_le(es, t + 1, f);
    } else {
        assert(es.take(t) =~= es);
    }
}

proof fn lemma_sum_update(
    es: Seq<(usize, usize, usize)>,
    t: int,
    x: (usize, usize, usize),
    f: spec_fn((usize, usize, usize)) -> nat,
)
    requires
        0 <= t < es.len(),
    ensures
        link_sum(es.update(t, x), f) + f(es[t]) == link_sum(es, f) + f(x),
    decreases es.len(),
{
    let u = es.update(t, x);
    if t == es.len() - 1 {
        assert(u.drop_last() =~= es.drop_last());
    } else {
        lemma_sum_update(es.drop_last(), t, x, f);
        assert(u.drop_last() =~= es.drop_last().update(t, x));
    }
}

proof fn lemma_sum_ge(es: Seq<(usize, usize, usize)>, t: int, f: spec_fn((usize, usize, usize)) -> nat)
    requires
        0 <= t < es.len(),
    ensures
        f(es[t]) <= link_sum(es, f),
    decreases es.len(),
{
    if t < es.len() - 1 {
        lemma_sum_ge(es.drop_last(), t, f);
    }
}

proof fn lemma_sum_le(es: Seq<(usize, usize, usize)>, f: spec_fn((usize, usize, usize)) -> nat, g: spec_fn((usize, usize, usize)) -> nat)
    requires
        forall|e: (usize, usize, usize)| #[trigger] f(e) <= g(e),
    ensures
        link_sum(es, f) <= link_sum(es, g),
    decreases es.len(),
{
    if es.len() > 0 {
        lemma_sum_le(es.drop_last(), f, g);
    }
}

proof fn lemma_sum_zero(es: Seq<(usize, usize, usize)>, f: spec_fn((usize, usize, usize)) -> nat)
    requires
        forall|t: int| 0 <= t < es.len() ==> f(#[trigger] es[t]) == 0,
    ensures
        link_sum(es, f) == 0,
    decreases es.len(),
{
    if es.len() > 0 {
        assert(f(es[es.len() - 1]) == 0);
        lemma_sum_zero(es.drop_last(), f);
    }
}

proof fn lemma_index_of_unique(ws: Seq<Seq<char>>, i: int)
    requires
        ws.no_duplicates(),
        0 <= i < ws.len(),
    ensures
        ws.contains(ws[i]),
        ws.index_of(ws[i]) == i,
{
    assert(ws[i] == ws[i]);
}

/// The draw `r` falls on link `t` among the links leaving word `i`: in the
/// order of the links, those leaving `i` share out the draws from `0` up,
/// each a stretch as long as its weight.
pub open spec fn lands_on(es: Seq<(usize, usize, usize)>, i: int, r: int, t: int) -> bool {
    &&& 0 <= t < es.len()
    &&& es[t].0 == i
    &&& link_sum(es.take(t), weight_from(i)) <= r
    &&& r < link_sum(es.take(t), weight_from(i)) + es[t].2
}

proof fn lemma_prefix_mono(es: Seq<(usize, usize, usize)>, t1: int, t2: int, f: spec_fn((usize, usize, usize)) -> nat)
    requires
        0 <= t1 <= t2 <= es.len(),
    ensures
        link_sum(es.take(t1), f) <= link_sum(es.take(t2), f),
{
    lemma_sum_prefix_le(es.take(t2), t1, f);
    assert(es.take(t2).take(t1) =~= es.take(t1));
}

/// A draw falls on at most one link.
proof fn lemma_landing_unique(es: Seq<(usize, usize, usize)>, i: int, r: int, t: int, u: int)
    requires
        lands_on(es, i, r, t),
        lands_on(es, i, r, u),
    ensures
        t == u,
{
    if t < u {
        lemma_sum_take(es, t, weight_from(i));
        lemma_prefix_mono(es, t + 1, u, weight_from(i));
    } else if u < t {
        lemma_sum_take(es, u, weight_from(i));
        lemma_prefix_mono(es, u + 1, t, weight_from(i));
    }
}

/// Every draw below the total weight leaving `i` falls on some link.
proof fn lemma_landing_exists(es: Seq<(usize, usize, usize)>, i: int, r: int)
    requires
        0 <= r < link_sum(es, weight_from(i)),
    ensures
        exists|t: int| lands_on(es, i, r, t),
    decreases es.len(),
{
    let n = es.len() as int;
    let init = es.drop_last();
    assert(es.take(n - 1) =~= init);
    if r < link_sum(init, weight_from(i)) {
        lemma_landing_exists(init, i, r);
        let t = choose|t: int| lands_on(init, i, r, t);
        assert(init.take(t) =~= es.take(t));
        assert(lands_on(es, i, r, t));
    } else {
        assert(weight_from(i)(es[n - 1]) > 0);
        assert(lands_on(es, i, r, n - 1));
    }
}

/// A sum over links of which only link `t` counts is that link's part.
proof fn lemma_sum_single(es: Seq<(usize, usize, usize)>, t: int, f: spec_fn((usize, usize, usize)) -> nat)
    requires
        0 <= t < es.len(),
        forall|u: int| 0 <= u < es.len() && u != t ==> f(#[trigger] es[u]) == 0,
    ensures
        link_sum(es, f) == f(es[t]),
    decreases es.len(),
{
    let n = es.len() as int;
    if t < n - 1 {
        lemma_sum_single(es.drop_last(), t, f);
        assert(f(es[n - 1]) == 0);
    } else {
        assert forall|u: int| 0 <= u < es.drop_last().len() implies f(#[trigger] es.drop_last()[u]) == 0 by {
            assert(es.drop_last()[u] == es[u]);
        }
        lemma_sum_zero(es.drop_last(), f);
    }
}

/// A positive sum has a link that counts.
proof fn lemma_sum_positive(es: Seq<(usize, usize, usize)>, f: spec_fn((usize, usize, usize)) -> nat)
    requires
        link_sum(es, f) > 0,
    ensures
        exists|t: int| 0 <= t < es.len() && f(#[trigger] es[t]) > 0,
{
    if !(exists|t: int| 0 <= t < es.len() && f(#[trigger] es[t]) > 0) {
        lemma_sum_zero(es, f);
    }
}

/// A model of a text: its words, and for each pair of words how often the
/// second directly follows the first.
pub struct MarkovModel {
    words: Vec<String>,
    links: Vec<(usize, usize, usize)>,
}

impl MarkovModel {
    /// The model's internal consistency, which every model keeps.
    #[verifier::type_invariant]
    pub closed spec fn well_formed(self) -> bool {
        links_wf(string_views(self.words@), self.links@)
    }

    /// `a` is one of the model's words.
    pub closed spec fn has_word(self, a: Seq<char>) -> bool {
        string_views(self.words@).contains(a)
    }

    /// How often the model saw `b` right after `a`.
    pub closed spec fn count(self, a: Seq<char>, b: Seq<char>) -> nat {
        links_count(string_views(self.words@), self.links@, a, b)
    }

    /// How many draws a step from `a` chooses among: the total weight of
    /// the model's links from `a`, that is how often anything followed `a`.
    pub closed spec fn draws_after(self, a: Seq<char>) -> nat {
        let ws = string_views(self.words@);
        if ws.contains(a) {
            link_sum(self.links@, weight_from(ws.index_of(a)))
        } else {
            0
        }
    }

    /// The draw `r`, in a step from `a`, picks `b`.
    pub closed spec fn draw_picks(self, a: Seq<char>, r: int, b: Seq<char>) -> bool {
        let ws = string_views(self.words@);
        &&& ws.contains(a)
        &&& exists|t: int|
            lands_on(self.links@, ws.index_of(a), r, t) && ws[self.links@[t].1 as int] == b
    }

    /// The draws in a step from `a` that pick `b` are exactly those from
    /// `lo` on, `count(a, b)` of them.
    pub open spec fn picks_stretch(self, a: Seq<char>, b: Seq<char>, lo: int) -> bool {
        &&& 0 <= lo
        &&& lo + self.count(a, b) <= self.draws_after(a)
        &&& forall|r: int|
            0 <= r < self.draws_after(a) ==> (#[trigger] self.draw_picks(a, r, b) <==> lo <= r < lo
                + self.count(a, b))
    }

    /// Some draw in a step from `a` picks `b`.
    pub open spec fn drawn_step(self, a: Seq<char>, b: Seq<char>) -> bool {
        exists|r: int| 0 <= r < self.draws_after(a) && self.draw_picks(a, r, b)
    }

    /// Each word of `chain` is followed by one that a draw picks after it.
    pub open spec fn drawn_steps(self, chain: Seq<Seq<char>>) -> bool {
        forall|k: int| 0 <= k < chain.len() - 1 ==> self.drawn_step(chain[k], #[trigger] chain[k + 1])
    }

    /// Each word of `chain` is followed by one that the model saw after it.
    pub open spec fn follows(self, chain: Seq<Seq<char>>) -> bool {
        forall|k: int| 0 <= k < chain.len() - 1 ==> self.count(chain[k], #[trigger] chain[k + 1]) > 0
    }

    /// The model saw nothing after `a`.
    pub open spec fn stuck(self, a: Seq<char>) -> bool {
        forall|b: Seq<char>| #[trigger] self.count(a, b) == 0
    }

    /// `chain` is a walk that `get_chain(max_len, start)` may give: at most
    /// `max_len` words, each followed by one seen after it, opened by
    /// `start` (or by one of the model's words if there is no `start`),
    /// and shorter than `max_len` only where its last word leads nowhere.
    /// It is empty exactly when `max_len` is zero, or there is no `start`
    /// and the model has no words.
    pub open spec fn walk_of(
        self,
        chain: Seq<Seq<char>>,
        max_len: nat,
        start: Option<Seq<char>>,
    ) -> bool {
        &&& chain.len() <= max_len
        &&& self.follows(chain)
        &&& self.drawn_steps(chain)
        &&& chain.len() == 0 <==> (max_len == 0 || (start is None && forall|a: Seq<char>|
            !#[trigger] self.has_word(a)))
        &&& chain.len() > 0 ==> match start {
            Some(s) => chain[0] == s,
            None => self.has_word(chain[0]),
        }
        &&& 0 < chain.len() < max_len ==> self.stuck(chain.last())
    }
}

/// The index of `w` among `words`, adding it at the end if it is new.
fn word_index(words: &mut Vec<String>, w: &str) -> (i: usize)
    requires
        string_views(old(words)@).no_duplicates(),
    ensures
        string_views(old(words)@).contains(w@) ==> final(words)@ == old(words)@,
        !string_views(old(words)@).contains(w@) ==> string_views(final(words)@) == string_views(
            old(words)@,
        ).push(w@),
        string_views(final(words)@).no_duplicates(),
        i < final(words)@.len(),
        string_views(final(words)@)[i as int] == w@,
{
    let n = words.len();
    let mut k: usize = 0;
    while k < n
        invariant
            n == words@.len(),
            words@ == old(words)@,
            string_views(old(words)@).no_duplicates(),
            k <= n,
            forall|j: int| 0 <= j < k ==> string_views(words@)[j] != w@,
        decreases n - k,
    {
        if str_eq(words[k].as_str(), w) {
            assert(string_views(words@)[k as int] == w@);
            return k;
        }
        k = k + 1;
    }
    let ghost before = string_views(words@);
    words.push(String::from_str(w));
    assert(string_views(words@) =~= before.push(w@));
    proof { lemma_push_keeps_distinct(before, w@); }
    n
}

proof fn lemma_push_keeps_distinct(ws: Seq<Seq<char>>, w: Seq<char>)
    requires
        ws.no_duplicates(),
        !ws.contains(w),
    ensures
        ws.push(w).no_duplicates(),
{
    let u = ws.push(w);
    assert forall|i: int, j: int| 0 <= i < u.len() && 0 <= j < u.len() && i != j implies u[i]
        != u[j] by {
        if i < ws.len() && j < ws.len() {
            assert(u[i] == ws[i] && u[j] == ws[j]);
        } else if i < ws.len() {
            assert(u[i] == ws[i]);
        } else if j < ws.len() {
            assert(u[j] == ws[j]);
        }
    }
}

/// Adding a new word changes no count.
proof fn lemma_new_word_keeps_counts(
    ws: Seq<Seq<char>>,
    es: Seq<(usize, usize, usize)>,
    w: Seq<char>,
    a: Seq<char>,
    b: Seq<char>,
)
    requires
        links_wf(ws, es),
        !ws.contains(w),
    ensures
        links_count(ws.push(w), es, a, b) == links_count(ws, es, a, b),
{
    let u = ws.push(w);
    lemma_push_keeps_distinct(ws, w);
    let n = ws.len() as int;
    lemma_index_of_unique(u, n);
    if u.contains(a) && u.contains(b) {
        let ia = u.index_of(a);
        let ib = u.index_of(b);
        if ws.contains(a) && ws.contains(b) {
            let ja = ws.index_of(a);
            let jb = ws.index_of(b);
            lemma_index_of_unique(u, ja);
            lemma_index_of_unique(u, jb);
        } else {
            assert(ia == n || ib == n) by {
                if ws.contains(a) {
                    assert(b == w);
                } else {
                    assert(a == w);
                }
            }
            assert forall|t: int| 0 <= t < es.len() implies (#[trigger] weight_between(ia, ib)(
                es[t],
            )) == 0 by {
                assert(es[t].0 < n && es[t].1 < n);
            }
            lemma_sum_zero(es, weight_between(ia, ib));
        }
    } else {
        assert(!(ws.contains(a) && ws.contains(b))) by {
            if ws.contains(a) && ws.contains(b) {
                let ja = ws.index_of(a);
                let jb = ws.index_of(b);
                assert(u[ja] == a && u[jb] == b);
            }
        }
    }
}

/// Adds one to the weight of the link from word `i` to word `j`.
fn bump(links: &mut Vec<(usize, usize, usize)>, i: usize, j: usize, Ghost(nwords): Ghost<nat>)
    requires
        i < nwords,
        j < nwords,
        links_within(old(links)@, nwords),
        links_unique(old(links)@),
        link_sum(old(links)@, weight_any()) < usize::MAX,
    ensures
        links_within(final(links)@, nwords),
        links_unique(final(links)@),
        link_sum(final(links)@, weight_any()) == link_sum(old(links)@, weight_any()) + 1,
        forall|x: int, y: int|
            #![trigger link_sum(final(links)@, weight_between(x, y))]
            link_sum(final(links)@, weight_between(x, y)) == link_sum(
                old(links)@,
                weight_between(x, y),
            ) + if x == i && y == j {
                1nat
            } else {
                0nat
            },
{
    let n = links.len();
    let mut t: usize = 0;
    while t < n
        invariant
            n == links@.len(),
            links@ == old(links)@,
            links_within(links@, nwords),
            links_unique(links@),
            i < nwords,
            j < nwords,
            link_sum(links@, weight_any()) < usize::MAX,
            t <= n,
            forall|s: int| 0 <= s < t ==> !((#[trigger] links@[s]).0 == i && links@[s].1 == j),
        decreases n - t,
    {
        let e = links[t];
        if e.0 == i && e.1 == j {
            proof {
                lemma_sum_ge(links@, t as int, weight_any());
            }
            let ghost old_links = links@;
            let bumped = (i, j, e.2 + 1);
            links.set(t, bumped);
            proof {
                assert(links@ == old_links.update(t as int, bumped));
                assert forall|s: int| 0 <= s < links@.len() implies (#[trigger] links@[s]).0 < nwords
                    && links@[s].1 < nwords && links@[s].2 > 0 by {
                    if s != t {
                        assert(links@[s] == old_links[s]);
                    }
                }
                lemma_sum_update(old_links, t as int, bumped, weight_any());
                assert forall|x: int, y: int|
                    #![trigger link_sum(links@, weight_between(x, y))]
                    link_sum(links@, weight_between(x, y)) == link_sum(
                        old_links,
                        weight_between(x, y),
                    ) + if x == i && y == j {
                        1nat
                    } else {
                        0nat
                    } by {
                    lemma_sum_update(old_links, t as int, bumped, weight_between(x, y));
                }
            }
            return;
        }
        t = t + 1;
    }
    let ghost old_links = links@;
    let fresh = (i, j, 1usize);
    links.push(fresh);
    proof {
        lemma_sum_push(old_links, fresh, weight_any());
        assert forall|x: int, y: int|
            #![trigger link_sum(links@, weight_between(x, y))]
            link_sum(links@, weight_between(x, y)) == link_sum(old_links, weight_between(x, y))
                + if x == i && y == j {
                1nat
            } else {
                0nat
            } by {
            lemma_sum_push(old_links, fresh, weight_between(x, y));
        }
    }
}

/// The words of the lines, one after the other.
fn words_of_lines<'a>(lines: &'a Vec<String>) -> (all: Vec<&'a str>)
    ensures
        str_views(all@) == corpus_words(string_views(lines@)),
{
    let mut all: Vec<&'a str> = Vec::new();
    let mut i: usize = 0;
    proof {
        reveal_strlit(" ");
        assert(string_views(lines@).take(0) =~= Seq::<Seq<char>>::empty());
    }
    while i < lines.len()
        invariant
            i <= lines@.len(),
            " "@ == seq![' '],
            str_views(all@) == corpus_words(string_views(lines@).take(i as int)),
        decreases lines@.len() - i,
    {
        let pieces = split_str(lines[i].as_str(), " ");
        let ghost before = str_views(all@);
        let mut k: usize = 0;
        while k < pieces.len()
            invariant
                k <= pieces@.len(),
                str_views(all@) == before + str_views(pieces@).take(k as int),
            decreases pieces@.len() - k,
        {
            let ghost old_all = all@;
            all.push(pieces[k]);
            assert(str_views(all@) =~= str_views(old_all).push(pieces@[k as int]@));
            assert(str_views(pieces@).take(k + 1) =~= str_views(pieces@).take(k as int).push(
                pieces@[k as int]@,
            ));
            assert(str_views(all@) =~= before + str_views(pieces@).take(k + 1));
            k = k + 1;
        }
        proof {
            let lv = string_views(lines@);
            assert(str_views(pieces@).take(pieces@.len() as int) =~= str_views(pieces@));
            assert(lv.take(i + 1).drop_last() =~= lv.take(i as int));
            assert(lv.take(i + 1).last() == lines@[i as int]@);
        }
        i = i + 1;
    }
    assert(string_views(lines@).take(lines@.len() as int) =~= string_views(lines@));
    all
}

impl MarkovModel {
    /// Builds the model of the text whose lines are `lines`: for each two
    /// consecutive words, counts how often the second followed the first.
    pub fn new(lines: &Vec<String>) -> (model: MarkovModel)
        ensures
            model.well_formed(),
            forall|a: Seq<char>|
                #[trigger] model.has_word(a) <==> corpus_words(string_views(lines@)).contains(a),
            forall|a: Seq<char>, b: Seq<char>|
                #[trigger] model.count(a, b) == pair_count(corpus_words(string_views(lines@)), a, b),
    {
        let all = words_of_lines(lines);
        let ghost ws = str_views(all@);
        let mut words: Vec<String> = Vec::new();
        let mut links: Vec<(usize, usize, usize)> = Vec::new();
        let mut prev: usize = 0;
        let mut k: usize = 0;
        assert(string_views(words@) =~= Seq::<Seq<char>>::empty());
        while k < all.len()
            invariant
                ws == str_views(all@),
                k <= all@.len(),
                k == 0 ==> links@.len() == 0,
                links_wf(string_views(words@), links@),
                link_sum(links@, weight_any()) == if k == 0 {
                    0
                } else {
                    k - 1
                },
                k > 0 ==> prev < words@.len() && string_views(words@)[prev as int] == ws[k - 1],
                forall|a: Seq<char>|
                    #[trigger] string_views(words@).contains(a) <==> ws.take(k as int).contains(a),
                forall|a: Seq<char>, b: Seq<char>|
                    #[trigger] links_count(string_views(words@), links@, a, b) == pair_count(
                        ws.take(k as int),
                        a,
                        b,
                    ),
            decreases all@.len() - k,
        {
            let ghost ws0 = string_views(words@);
            let ghost links0 = links@;
            let w = all[k];
            let cur = word_index(&mut words, w);
            let ghost ws1 = string_views(words@);
            assert(ws.take(k + 1) =~= ws.take(k as int).push(w@));
            proof {
                if !ws0.contains(w@) {
                    assert forall|a: Seq<char>, b: Seq<char>|
                        #[trigger] links_count(ws1, links@, a, b) == links_count(ws0, links@, a, b)
                        by {
                        lemma_new_word_keeps_counts(ws0, links@, w@, a, b);
                    }
                    if k > 0 {
                        assert(ws1[prev as int] == ws0[prev as int]);
                    }
                }
                let tk = ws.take(k as int);
                let tk1 = ws.take(k + 1);
                assert forall|a: Seq<char>| #[trigger] ws1.contains(a) <==> tk1.contains(a) by {
                    if tk1.contains(a) && a != w@ {
                        let j = choose|j: int| 0 <= j < tk1.len() && tk1[j] == a;
                        assert(tk[j] == a);
                    }
                    if ws1.contains(a) && !ws0.contains(a) {
                        let j = choose|j: int| 0 <= j < ws1.len() && ws1[j] == a;
                        assert(j == ws0.len());
                    }
                    if ws0.contains(a) {
                        let j = choose|j: int| 0 <= j < ws0.len() && ws0[j] == a;
                        assert(ws1[j] == a);
                    }
                    if tk.contains(a) {
                        let j = choose|j: int| 0 <= j < tk.len() && tk[j] == a;
                        assert(tk1[j] == a);
                    }
                    if a == w@ {
                        assert(tk1[k as int] == a);
                        assert(ws1[cur as int] == a);
                    }
                }
            }
            if k > 0 {
                bump(&mut links, prev, cur, Ghost(words@.len() as nat));
                proof {
                    let wp = ws[k - 1];
                    assert forall|a: Seq<char>, b: Seq<char>|
                        #[trigger] links_count(ws1, links@, a, b) == pair_count(
                            ws.take(k + 1),
                            a,
                            b,
                        ) by {
                        assert(ws.take(k + 1).drop_last() =~= ws.take(k as int));
                        assert(ws.take(k + 1)[k - 1] == wp);
                        assert(ws[k as int] == w@);
                        assert(ws.take(k + 1).last() == w@);
                        assert(links_count(ws0, links0, a, b) == pair_count(ws.take(k as int), a, b));
                        assert(links_count(ws1, links0, a, b) == pair_count(ws.take(k as int), a, b));
                        if ws1.contains(a) && ws1.contains(b) {
                            let ia = ws1.index_of(a);
                            let ib = ws1.index_of(b);
                            lemma_index_of_unique(ws1, prev as int);
                            lemma_index_of_unique(ws1, cur as int);
                            assert(ws1[ia] == a && ws1[ib] == b);
                            assert((ia == prev && ib == cur) <==> (a == wp && b == w@)) by {
                                if a == wp {
                                    lemma_index_of_unique(ws1, ia);
                                }
                                if b == w@ {
                                    lemma_index_of_unique(ws1, ib);
                                }
                            }
                            assert(links_count(ws1, links@, a, b) == link_sum(
                                links@,
                                weight_between(ia, ib),
                            ));
                        } else {
                            assert(!(a == wp && b == w@)) by {
                                lemma_index_of_unique(ws1, prev as int);
                                lemma_index_of_unique(ws1, cur as int);
                            }
                        }
                    }
                }
            } else {
                proof {
                    assert forall|a: Seq<char>, b: Seq<char>|
                        #[trigger] links_count(ws1, links@, a, b) == pair_count(
                            ws.take(k + 1),
                            a,
                            b,
                        ) by {
                        if ws0.contains(a) {
                            let j = choose|j: int| 0 <= j < ws0.len() && ws0[j] == a;
                        }
                        assert(links@.len() == 0);
                    }
                }
            }
            prev = cur;
            k = k + 1;
        }
        assert(ws.take(all@.len() as int) =~= ws);
        MarkovModel { words, links }
    }
}

/// The view of an optional string.
pub open spec fn option_view(o: Option<String>) -> Option<Seq<char>> {
    match o {
        Some(s) => Some(s@),
        None => None,
    }
}

impl MarkovModel {
    /// The total weight of the links that leave word `i`.
    fn weight_leaving(&self, i: usize) -> (w: usize)
        ensures
            w == link_sum(self.links@, weight_from(i as int)),
    {
        proof {
            use_type_invariant(self);
            lemma_sum_le(self.links@, weight_from(i as int), weight_any());
        }
        let n = self.links.len();
        let mut acc: usize = 0;
        let mut t: usize = 0;
        assert(self.links@.take(0) =~= Seq::<(usize, usize, usize)>::empty());
        while t < n
            invariant
                n == self.links@.len(),
                t <= n,
                acc == link_sum(self.links@.take(t as int), weight_from(i as int)),
                link_sum(self.links@, weight_from(i as int)) <= usize::MAX,
            decreases n - t,
        {
            proof {
                lemma_sum_take(self.links@, t as int, weight_from(i as int));
                lemma_sum_prefix_le(self.links@, t + 1, weight_from(i as int));
            }
            let e = self.links[t];
            if e.0 == i {
                acc = acc + e.2;
            }
            t = t + 1;
        }
        assert(self.links@.take(n as int) =~= self.links@);
        acc
    }

    /// The link leaving word `i` that the draw `r` falls on, when the links
    /// leaving `i` share out `0..weight` in order, each by its weight.
    fn pick_link(&self, i: usize, r: usize) -> (t: usize)
        requires
            r < link_sum(self.links@, weight_from(i as int)),
        ensures
            t < self.links@.len(),
            self.links@[t as int].0 == i,
            link_sum(self.links@.take(t as int), weight_from(i as int)) <= r,
            r < link_sum(self.links@.take(t + 1), weight_from(i as int)),
            lands_on(self.links@, i as int, r as int, t as int),
    {
        proof {
            use_type_invariant(self);
            lemma_sum_le(self.links@, weight_from(i as int), weight_any());
        }
        let n = self.links.len();
        let mut acc: usize = 0;
        let mut t: usize = 0;
        assert(self.links@.take(0) =~= Seq::<(usize, usize, usize)>::empty());
        while t < n
            invariant
                n == self.links@.len(),
                t <= n,
                acc == link_sum(self.links@.take(t as int), weight_from(i as int)),
                acc <= r,
                r < link_sum(self.links@, weight_from(i as int)),
                link_sum(self.links@, weight_from(i as int)) <= usize::MAX,
            decreases n - t,
        {
            proof {
                lemma_sum_take(self.links@, t as int, weight_from(i as int));
                lemma_sum_prefix_le(self.links@, t + 1, weight_from(i as int));
            }
            let e = self.links[t];
            if e.0 == i {
                if r < acc + e.2 {
                    assert(lands_on(self.links@, i as int, r as int, t as int));
                    return t;
                }
                acc = acc + e.2;
            }
            t = t + 1;
        }
        assert(self.links@.take(n as int) =~= self.links@);
        assert(false);
        0
    }

    /// Where `w` stands among the model's words, if it is one of them.
    fn word_position(&self, w: &str) -> (r: Option<usize>)
        ensures
            r matches Some(i) ==> i < self.words@.len() && string_views(self.words@)[i as int] == w@,
            r is None ==> !self.has_word(w@),
    {
        let n = self.words.len();
        let mut k: usize = 0;
        while k < n
            invariant
                n == self.words@.len(),
                k <= n,
                forall|j: int| 0 <= j < k ==> string_views(self.words@)[j] != w@,
            decreases n - k,
        {
            if str_eq(self.words[k].as_str(), w) {
                return Some(k);
            }
            k = k + 1;
        }
        None
    }

    /// A link that the model holds from word `i` to word `j` makes `j` a
    /// word seen after `i`.
    proof fn lemma_link_counts(self, t: int)
        requires
            links_wf(string_views(self.words@), self.links@),
            0 <= t < self.links@.len(),
        ensures
            self.count(
                string_views(self.words@)[self.links@[t].0 as int],
                string_views(self.words@)[self.links@[t].1 as int],
            ) > 0,
    {
        let ws = string_views(self.words@);
        let e = self.links@[t];
        assert(e.0 < ws.len() && e.1 < ws.len() && e.2 > 0);
        lemma_index_of_unique(ws, e.0 as int);
        lemma_index_of_unique(ws, e.1 as int);
        lemma_sum_ge(self.links@, t, weight_between(e.0 as int, e.1 as int));
    }

    /// A word that no link leaves leads nowhere.
    proof fn lemma_no_links_stuck(self, i: int)
        requires
            links_wf(string_views(self.words@), self.links@),
            0 <= i < self.words@.len(),
            link_sum(self.links@, weight_from(i)) == 0,
        ensures
            self.stuck(string_views(self.words@)[i]),
    {
        let ws = string_views(self.words@);
        lemma_index_of_unique(ws, i);
        assert forall|b: Seq<char>| #[trigger] self.count(ws[i], b) == 0 by {
            if ws.contains(b) {
                lemma_sum_le(self.links@, weight_between(i, ws.index_of(b)), weight_from(i));
            }
        }
    }

    /// A random walk of at most `max_len` words along the model's links,
    /// from `start_word` or, without one, from a word picked at random;
    /// each next word is drawn with a probability proportional to how often
    /// it followed the current one. The words are joined by single spaces.
    pub fn get_chain(&self, max_len: usize, start_word: Option<String>) -> (text: String)
        ensures
            exists|chain: Seq<Seq<char>>|
                self.walk_of(chain, max_len as nat, option_view(start_word)) && text@
                    == join_spaced(chain),
    {
        proof {
            use_type_invariant(self);
            reveal_strlit(" ");
        }
        let ghost ws = string_views(self.words@);
        let ghost start = option_view(start_word);
        if max_len == 0 {
            let text = String::new();
            assert(self.walk_of(Seq::<Seq<char>>::empty(), max_len as nat, start) && text@
                == join_spaced(Seq::<Seq<char>>::empty()));
            return text;
        }
        let mut rng = thread_rng();
        let mut text: String;
        let mut cur: Option<usize>;
        let ghost mut chain: Seq<Seq<char>>;
        match start_word {
            Some(s) => {
                cur = self.word_position(s.as_str());
                proof {
                    chain = seq![s@];
                    if cur is None {
                        assert forall|b: Seq<char>| #[trigger] self.count(s@, b) == 0 by {}
                    }
                }
                text = s;
            },
            None => {
                if self.words.len() == 0 {
                    let text = String::new();
                    assert forall|a: Seq<char>| !#[trigger] self.has_word(a) by {}
                    assert(self.walk_of(Seq::<Seq<char>>::empty(), max_len as nat, start) && text@
                        == join_spaced(Seq::<Seq<char>>::empty()));
                    return text;
                }
                let r = gen_range_usize(&mut rng, 0, self.words.len());
                text = self.words[r].clone();
                cur = Some(r);
                proof {
                    chain = seq![ws[r as int]];
                    assert(self.has_word(ws[r as int]));
                }
            },
        }
        assert(text@ == join_spaced(chain));
        let mut n: usize = 1;
        while n < max_len && cur.is_some()
            invariant
                ws == string_views(self.words@),
                " "@ == seq![' '],
                1 <= n <= max_len,
                chain.len() == n,
                text@ == join_spaced(chain),
                self.follows(chain),
                self.drawn_steps(chain),
                match start {
                    Some(s) => chain[0] == s,
                    None => self.has_word(chain[0]),
                },
                cur matches Some(i) ==> i < ws.len() && ws[i as int] == chain.last(),
                cur is None ==> self.stuck(chain.last()),
            decreases max_len - n, if cur is Some { 1int } else { 0int },
        {
            let i = cur.unwrap();
            let total = self.weight_leaving(i);
            if total == 0 {
                proof {
                    use_type_invariant(self);
                    self.lemma_no_links_stuck(i as int);
                }
                cur = None;
            } else {
                let r = gen_range_usize(&mut rng, 0, total);
                let t = self.pick_link(i, r);
                let j = self.links[t].1;
                proof {
                    use_type_invariant(self);
                    self.lemma_link_counts(t as int);
                    lemma_index_of_unique(ws, i as int);
                    assert(lands_on(self.links@, i as int, r as int, t as int) && ws[self.links@[
                        t as int].1 as int] == ws[j as int]);
                    assert(self.draw_picks(ws[i as int], r as int, ws[j as int]));
                    assert(self.drawn_step(ws[i as int], ws[j as int]));
                }
                text.append(" ");
                text.append(self.words[j].as_str());
                let ghost old_chain = chain;
                proof {
                    chain = chain.push(ws[j as int]);
                    assert(chain.drop_last() =~= old_chain);
                    assert forall|k: int| 0 <= k < chain.len() - 1 implies self.count(
                        chain[k],
                        #[trigger] chain[k + 1],
                    ) > 0 by {
                        if k < old_chain.len() - 1 {
                            assert(chain[k] == old_chain[k] && chain[k + 1] == old_chain[k + 1]);
                        }
                    }
                    assert forall|k: int| 0 <= k < chain.len() - 1 implies self.drawn_step(
                        chain[k],
                        #[trigger] chain[k + 1],
                    ) by {
                        if k < old_chain.len() - 1 {
                            assert(chain[k] == old_chain[k] && chain[k + 1] == old_chain[k + 1]);
                        }
                    }
                }
                cur = Some(j);
                n = n + 1;
            }
        }
        proof {
            if start is None {
                assert(self.has_word(chain[0]));
            }
        }
        assert(self.walk_of(chain, max_len as nat, start));
        text
    }
}

impl MarkovModel {
    /// Every draw in a step from `a` picks exactly one word, and that word
    /// was seen after `a`.
    pub proof fn each_draw_picks_one_word(self, a: Seq<char>, r: int)
        requires
            self.well_formed(),
            0 <= r < self.draws_after(a),
        ensures
            exists|b: Seq<char>| #[trigger] self.draw_picks(a, r, b) && self.count(a, b) > 0,
            forall|b1: Seq<char>, b2: Seq<char>|
                #[trigger] self.draw_picks(a, r, b1) && #[trigger] self.draw_picks(a, r, b2) ==> b1
                    == b2,
    {
        let ws = string_views(self.words@);
        let es = self.links@;
        let i = ws.index_of(a);
        lemma_landing_exists(es, i, r);
        let t = choose|t: int| lands_on(es, i, r, t);
        let b = ws[es[t].1 as int];
        assert(self.draw_picks(a, r, b));
        lemma_index_of_unique(ws, es[t].0 as int);
        lemma_index_of_unique(ws, es[t].1 as int);
        lemma_sum_ge(es, t, weight_between(i, es[t].1 as int));
        assert(self.count(a, b) > 0);
        assert forall|b1: Seq<char>, b2: Seq<char>|
            #[trigger] self.draw_picks(a, r, b1) && #[trigger] self.draw_picks(a, r, b2) implies b1
                == b2 by {
            let t1 = choose|t1: int| lands_on(es, i, r, t1) && ws[es[t1].1 as int] == b1;
            let t2 = choose|t2: int| lands_on(es, i, r, t2) && ws[es[t2].1 as int] == b2;
            lemma_landing_unique(es, i, r, t1, t2);
        }
    }

    /// The draws in a step from `a` are shared out by how often each word
    /// followed `a`: the draws that pick `b` are a stretch of exactly
    /// `count(a, b)` of the `draws_after(a)` draws.
    pub proof fn draws_shared_by_count(self, a: Seq<char>, b: Seq<char>)
        requires
            self.well_formed(),
        ensures
            exists|lo: int| #[trigger] self.picks_stretch(a, b, lo),
    {
        let ws = string_views(self.words@);
        let es = self.links@;
        if self.count(a, b) == 0 {
            assert forall|r: int| 0 <= r < self.draws_after(a) implies !#[trigger] self.draw_picks(
                a,
                r,
                b,
            ) by {
                if self.draw_picks(a, r, b) {
                    let i = ws.index_of(a);
                    let t = choose|t: int| lands_on(es, i, r, t) && ws[es[t].1 as int] == b;
                    lemma_index_of_unique(ws, es[t].0 as int);
                    lemma_index_of_unique(ws, es[t].1 as int);
                    lemma_sum_ge(es, t, weight_between(i, es[t].1 as int));
                }
            }
            assert(self.picks_stretch(a, b, 0));
        } else {
            let i = ws.index_of(a);
            let j = ws.index_of(b);
            let f = weight_between(i, j);
            lemma_sum_positive(es, f);
            let t = choose|t: int| 0 <= t < es.len() && f(#[trigger] es[t]) > 0;
            assert(es[t].0 == i && es[t].1 == j);
            assert forall|u: int| 0 <= u < es.len() && u != t implies f(#[trigger] es[u]) == 0 by {}
            lemma_sum_single(es, t, f);
            let lo: int = link_sum(es.take(t), weight_from(i)) as int;
            lemma_sum_take(es, t, weight_from(i));
            lemma_prefix_mono(es, t + 1, es.len() as int, weight_from(i));
            assert(es.take(es.len() as int) =~= es);
            lemma_index_of_unique(ws, j);
            assert forall|r: int| 0 <= r < self.draws_after(a) implies (#[trigger] self.draw_picks(
                a,
                r,
                b,
            ) <==> lo <= r < lo + self.count(a, b)) by {
                if self.draw_picks(a, r, b) {
                    let u = choose|u: int| lands_on(es, i, r, u) && ws[es[u].1 as int] == b;
                    lemma_index_of_unique(ws, es[u].1 as int);
                    assert(es[u].1 == j);
                    assert(u == t);
                }
                if lo <= r < lo + self.count(a, b) {
                    assert(lands_on(es, i, r, t));
                    assert(ws[es[t].1 as int] == b);
                }
            }
            assert(self.picks_stretch(a, b, lo));
        }
    }
}

} // verus!
