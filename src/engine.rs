//! Backtracking semantics of a syntax tree, and its execution.
//!
//! `ends(n, t, pos, caps)` lists every way node `n` can match text `t` from
//! `pos`, in the order a backtracking matcher tries them: leftmost alternative
//! first, greedy repetition longest first, lazy repetition shortest first. A
//! repetition beyond its minimum only iterates again after consuming input, so
//! the list is finite.
use vstd::prelude::*;
use crate::syntax::{Node, class_matches, class_matches_exec};
use crate::parser::lit_tree;
use crate::escape::{is_word, is_word_exec};

verus! {

/// A group's span in the text, if it took part in the match.
pub type Span = Option<(usize, usize)>;

/// A way to finish: the position reached, and the captures then.
pub type Res = (usize, Seq<Span>);

/// One way a node can finish, as computed.
pub struct Out {
    pub end: usize,
    pub caps: Vec<Span>,
}

pub open spec fn out_view(o: Out) -> Res {
    (o.end, o.caps@)
}

pub open spec fn outs_view(v: Seq<Out>) -> Seq<Res> {
    v.map_values(|o: Out| out_view(o))
}

/// Every recorded span lies within a text of length `len`.
pub open spec fn caps_ok(c: Seq<Span>, len: nat) -> bool {
    forall|i: int|
        0 <= i < c.len() && #[trigger] c[i] is Some ==> span_ok(c[i]->0, len)
}

pub open spec fn span_ok(sp: (usize, usize), len: nat) -> bool {
    let (s, e) = sp;
    s <= e && e <= len
}

pub open spec fn at_word_boundary(t: Seq<char>, pos: int) -> bool {
    (0 < pos <= t.len() && is_word(t[pos - 1])) != (0 <= pos < t.len() && is_word(t[pos]))
}

pub open spec fn one(pos: usize, caps: Seq<Span>) -> Seq<Res> {
    seq![(pos, caps)]
}

/// Records group `i` as the span from `start` to each result's end.
pub open spec fn set_group(rs: Seq<Res>, i: usize, start: usize) -> Seq<Res> {
    Seq::new(
        rs.len(),
        |k: int|
            (
                rs[k].0,
                if i < rs[k].1.len() {
                    rs[k].1.update(i as int, Some((start, rs[k].0)))
                } else {
                    rs[k].1
                },
            ),
    )
}

pub open spec fn backref(t: Seq<char>, pos: usize, caps: Seq<Span>, i: usize) -> Seq<Res> {
    if i < caps.len() && caps[i as int] is Some {
        let (s, e) = caps[i as int]->0;
        if s <= e && e <= t.len() && pos + (e - s) <= t.len() && t.subrange(
            pos as int,
            pos + (e - s),
        ) == t.subrange(s as int, e as int) {
            one((pos + (e - s)) as usize, caps)
        } else {
            Seq::empty()
        }
    } else {
        Seq::empty()
    }
}

pub open spec fn dec_hi(hi: Option<usize>) -> Option<usize> {
    match hi {
        Some(h) => Some(if h > 0 { (h - 1) as usize } else { 0 }),
        None => None,
    }
}

pub open spec fn ends(n: Node, t: Seq<char>, pos: usize, caps: Seq<Span>) -> Seq<Res>
    decreases n, 0int, 0int, 0int, 0int, 0int,
{
    match n {
        Node::Empty => one(pos, caps),
        Node::Char(c) => if pos < t.len() && t[pos as int] == c {
            one((pos + 1) as usize, caps)
        } else {
            Seq::empty()
        },
        Node::Any => if pos < t.len() && t[pos as int] != '\n' {
            one((pos + 1) as usize, caps)
        } else {
            Seq::empty()
        },
        Node::Class(items, neg) => if pos < t.len() && class_matches(items, neg, t[pos as int]) {
            one((pos + 1) as usize, caps)
        } else {
            Seq::empty()
        },
        Node::Start => if pos == 0 {
            one(pos, caps)
        } else {
            Seq::empty()
        },
        Node::End => if pos == t.len() || (pos + 1 == t.len() && t[pos as int] == '\n') {
            one(pos, caps)
        } else {
            Seq::empty()
        },
        Node::WordBoundary(neg) => if at_word_boundary(t, pos as int) != neg {
            one(pos, caps)
        } else {
            Seq::empty()
        },
        Node::Group(i, x) => set_group(ends(*x, t, pos, caps), i, pos),
        Node::Concat(a, b) => cat_each(*b, t, ends(*a, t, pos, caps), 0),
        Node::Alt(a, b) => ends(*a, t, pos, caps) + ends(*b, t, pos, caps),
        Node::Repeat(x, lo, hi, greedy) => rep(*x, lo, hi, greedy, t, pos, caps),
        Node::BackRef(i) => backref(t, pos, caps, i),
    }
}

/// Continues each of `rs[k..]` with `b`, in order.
pub open spec fn cat_each(b: Node, t: Seq<char>, rs: Seq<Res>, k: int) -> Seq<Res>
    decreases b, 1int, 0int, 0int, 0int, rs.len() - k,
{
    if 0 <= k < rs.len() {
        ends(b, t, rs[k].0, rs[k].1) + cat_each(b, t, rs, k + 1)
    } else {
        Seq::empty()
    }
}

/// `x` repeated at least `lo` and at most `hi` times.
pub open spec fn rep(
    x: Node,
    lo: usize,
    hi: Option<usize>,
    greedy: bool,
    t: Seq<char>,
    pos: usize,
    caps: Seq<Span>,
) -> Seq<Res>
    decreases x, 2int, lo as int, t.len() - pos, 1int, 0int,
{
    if lo > 0 {
        rep_min(x, lo, hi, greedy, t, pos, ends(x, t, pos, caps), 0)
    } else if hi == Some(0usize) {
        one(pos, caps)
    } else {
        let more = rep_opt(x, hi, greedy, t, pos, ends(x, t, pos, caps), 0);
        if greedy {
            more + one(pos, caps)
        } else {
            one(pos, caps) + more
        }
    }
}

/// A mandatory iteration ended at each of `rs[k..]`: go on with the rest.
pub open spec fn rep_min(
    x: Node,
    lo: usize,
    hi: Option<usize>,
    greedy: bool,
    t: Seq<char>,
    pos: usize,
    rs: Seq<Res>,
    k: int,
) -> Seq<Res>
    decreases x, 2int, lo as int, t.len() - pos, 0int, rs.len() - k,
{
    if 0 <= k < rs.len() && lo > 0 {
        rep(x, (lo - 1) as usize, dec_hi(hi), greedy, t, rs[k].0, rs[k].1) + rep_min(
            x,
            lo,
            hi,
            greedy,
            t,
            pos,
            rs,
            k + 1,
        )
    } else {
        Seq::empty()
    }
}

/// An optional iteration ended at each of `rs[k..]`: those that consumed
/// input may iterate again.
pub open spec fn rep_opt(
    x: Node,
    hi: Option<usize>,
    greedy: bool,
    t: Seq<char>,
    pos: usize,
    rs: Seq<Res>,
    k: int,
) -> Seq<Res>
    decreases x, 2int, 0int, t.len() - pos, 0int, rs.len() - k,
{
    if 0 <= k < rs.len() {
        (if pos < rs[k].0 && rs[k].0 <= t.len() {
            rep(x, 0, dec_hi(hi), greedy, t, rs[k].0, rs[k].1)
        } else {
            Seq::empty()
        }) + rep_opt(x, hi, greedy, t, pos, rs, k + 1)
    } else {
        Seq::empty()
    }
}

/// Each result ends between `pos` and `len`, and keeps `ncaps` well-formed captures.
pub open spec fn outs_ok(r: Seq<Out>, pos: usize, ncaps: nat, len: nat) -> bool {
    forall|k: int|
        0 <= k < r.len() ==> pos <= #[trigger] r[k].end <= len && r[k].caps@.len() == ncaps
            && caps_ok(r[k].caps@, len)
}

proof fn lemma_outs_append(a: Seq<Out>, b: Seq<Out>)
    ensures
        outs_view(a + b) == outs_view(a) + outs_view(b),
{
    assert(outs_view(a + b) =~= outs_view(a) + outs_view(b));
}

proof fn lemma_outs_ok_append(a: Seq<Out>, b: Seq<Out>, pos: usize, ncaps: nat, len: nat)
    requires
        outs_ok(a, pos, ncaps, len),
        outs_ok(b, pos, ncaps, len),
    ensures
        outs_ok(a + b, pos, ncaps, len),
{
    assert forall|k: int| 0 <= k < (a + b).len() implies pos <= #[trigger] (a + b)[k].end <= len
        && (a + b)[k].caps@.len() == ncaps && caps_ok((a + b)[k].caps@, len) by {
        if k < a.len() {
            assert((a + b)[k] == a[k]);
        } else {
            assert((a + b)[k] == b[k - a.len()]);
        }
    }
}

proof fn lemma_outs_ok_weaken(a: Seq<Out>, p0: usize, p1: usize, ncaps: nat, len: nat)
    requires
        outs_ok(a, p1, ncaps, len),
        p0 <= p1,
    ensures
        outs_ok(a, p0, ncaps, len),
{
}

pub(crate) fn copy_caps(c: &Vec<Span>) -> (r: Vec<Span>)
    ensures
        r@ == c@,
{
    let mut r: Vec<Span> = Vec::new();
    let mut i: usize = 0;
    while i < c.len()
        invariant
            i <= c@.len(),
            r@ == c@.subrange(0, i as int),
        decreases c@.len() - i,
    {
        r.push(c[i]);
        assert(r@ =~= c@.subrange(0, i + 1));
        i = i + 1;
    }
    assert(r@ =~= c@);
    r
}

fn none_exec() -> (r: Vec<Out>)
    ensures
        r@.len() == 0,
        outs_view(r@) == Seq::<Res>::empty(),
{
    let r: Vec<Out> = Vec::new();
    assert(outs_view(r@) =~= Seq::<Res>::empty());
    r
}

fn one_exec(pos: usize, caps: &Vec<Span>) -> (r: Vec<Out>)
    ensures
        outs_view(r@) == one(pos, caps@),
        r@.len() == 1,
        r@[0].end == pos,
        r@[0].caps@ == caps@,
{
    let mut r: Vec<Out> = Vec::new();
    r.push(Out { end: pos, caps: copy_caps(caps) });
    assert(outs_view(r@) =~= one(pos, caps@));
    r
}

fn dec_hi_exec(hi: Option<usize>) -> (r: Option<usize>)
    ensures
        r == dec_hi(hi),
{
    match hi {
        Some(h) => Some(if h > 0 { h - 1 } else { 0 }),
        None => None,
    }
}

fn at_word_boundary_exec(t: &Vec<char>, pos: usize) -> (r: bool)
    requires
        pos <= t@.len(),
    ensures
        r == at_word_boundary(t@, pos as int),
{
    let before = pos > 0 && is_word_exec(t[pos - 1]);
    let after = pos < t.len() && is_word_exec(t[pos]);
    before != after
}

fn set_group_exec(rs: &Vec<Out>, i: usize, start: usize, Ghost(ncaps): Ghost<nat>, Ghost(len): Ghost<nat>) -> (r: Vec<Out>)
    requires
        outs_ok(rs@, start, ncaps, len),
    ensures
        outs_view(r@) == set_group(outs_view(rs@), i, start),
        outs_ok(r@, start, ncaps, len),
{
    let mut r: Vec<Out> = Vec::new();
    let mut k: usize = 0;
    while k < rs.len()
        invariant
            k <= rs@.len(),
            outs_ok(rs@, start, ncaps, len),
            outs_ok(r@, start, ncaps, len),
            outs_view(r@) == set_group(outs_view(rs@), i, start).subrange(0, k as int),
        decreases rs@.len() - k,
    {
        let mut c = copy_caps(&rs[k].caps);
        let e = rs[k].end;
        if i < c.len() {
            c.set(i, Some((start, e)));
        }
        let ghost old_r = r@;
        r.push(Out { end: e, caps: c });
        proof {
            assert(outs_view(r@) =~= outs_view(old_r).push(out_view(r@[k as int])));
            assert(set_group(outs_view(rs@), i, start).subrange(0, k + 1) =~= set_group(
                outs_view(rs@),
                i,
                start,
            ).subrange(0, k as int).push(set_group(outs_view(rs@), i, start)[k as int]));
            assert(caps_ok(r@[k as int].caps@, len));
        }
        k = k + 1;
    }
    assert(set_group(outs_view(rs@), i, start).subrange(0, k as int) =~= set_group(outs_view(rs@), i, start));
    r
}

/// Executes `cat_each`.
fn cat_each_exec(b: &Node, t: &Vec<char>, rs: &Vec<Out>, k: usize, Ghost(pos): Ghost<usize>, Ghost(ncaps): Ghost<nat>) -> (r: Vec<Out>)
    requires
        k <= rs@.len(),
        outs_ok(rs@, pos, ncaps, t@.len()),
    ensures
        outs_view(r@) == cat_each(*b, t@, outs_view(rs@), k as int),
        outs_ok(r@, pos, ncaps, t@.len()),
    decreases *b, 1int, 0int, 0int, 0int, rs@.len() - k,
{
    if k < rs.len() {
        let mut r = ends_exec(b, t, rs[k].end, &rs[k].caps);
        let mut rest = cat_each_exec(b, t, rs, k + 1, Ghost(pos), Ghost(ncaps));
        proof {
            lemma_outs_append(r@, rest@);
            lemma_outs_ok_weaken(r@, pos, rs@[k as int].end, ncaps, t@.len());
            lemma_outs_ok_append(r@, rest@, pos, ncaps, t@.len());
        }
        r.append(&mut rest);
        r
    } else {
        none_exec()
    }
}

/// Executes `rep`.
fn rep_exec(
    x: &Node,
    lo: usize,
    hi: Option<usize>,
    greedy: bool,
    t: &Vec<char>,
    pos: usize,
    caps: &Vec<Span>,
) -> (r: Vec<Out>)
    requires
        pos <= t@.len(),
        caps_ok(caps@, t@.len()),
    ensures
        outs_view(r@) == rep(*x, lo, hi, greedy, t@, pos, caps@),
        outs_ok(r@, pos, caps@.len(), t@.len()),
    decreases *x, 2int, lo as int, t@.len() - pos, 1int, 0int,
{
    let is_zero = match hi {
        Some(h) => h == 0,
        None => false,
    };
    if lo > 0 {
        let rs = ends_exec(x, t, pos, caps);
        rep_min_exec(x, lo, hi, greedy, t, pos, &rs, 0, Ghost(caps@.len()))
    } else if is_zero {
        one_exec(pos, caps)
    } else {
        let rs = ends_exec(x, t, pos, caps);
        let mut more = rep_opt_exec(x, hi, greedy, t, pos, &rs, 0, Ghost(caps@.len()));
        let mut here = one_exec(pos, caps);
        if greedy {
            proof {
                lemma_outs_append(more@, here@);
                lemma_outs_ok_append(more@, here@, pos, caps@.len(), t@.len());
            }
            more.append(&mut here);
            more
        } else {
            proof {
                lemma_outs_append(here@, more@);
                lemma_outs_ok_append(here@, more@, pos, caps@.len(), t@.len());
            }
            here.append(&mut more);
            here
        }
    }
}

/// Executes `rep_min`.
fn rep_min_exec(
    x: &Node,
    lo: usize,
    hi: Option<usize>,
    greedy: bool,
    t: &Vec<char>,
    pos: usize,
    rs: &Vec<Out>,
    k: usize,
    Ghost(ncaps): Ghost<nat>,
) -> (r: Vec<Out>)
    requires
        k <= rs@.len(),
        pos <= t@.len(),
        outs_ok(rs@, pos, ncaps, t@.len()),
    ensures
        outs_view(r@) == rep_min(*x, lo, hi, greedy, t@, pos, outs_view(rs@), k as int),
        outs_ok(r@, pos, ncaps, t@.len()),
    decreases *x, 2int, lo as int, t@.len() - pos, 0int, rs@.len() - k,
{
    if k < rs.len() && lo > 0 {
        let mut r = rep_exec(x, lo - 1, dec_hi_exec(hi), greedy, t, rs[k].end, &rs[k].caps);
        let mut rest = rep_min_exec(x, lo, hi, greedy, t, pos, rs, k + 1, Ghost(ncaps));
        proof {
            lemma_outs_append(r@, rest@);
            lemma_outs_ok_weaken(r@, pos, rs@[k as int].end, ncaps, t@.len());
            lemma_outs_ok_append(r@, rest@, pos, ncaps, t@.len());
        }
        r.append(&mut rest);
        r
    } else {
        none_exec()
    }
}

/// Executes `rep_opt`.
fn rep_opt_exec(
    x: &Node,
    hi: Option<usize>,
    greedy: bool,
    t: &Vec<char>,
    pos: usize,
    rs: &Vec<Out>,
    k: usize,
    Ghost(ncaps): Ghost<nat>,
) -> (r: Vec<Out>)
    requires
        k <= rs@.len(),
        pos <= t@.len(),
        outs_ok(rs@, pos, ncaps, t@.len()),
    ensures
        outs_view(r@) == rep_opt(*x, hi, greedy, t@, pos, outs_view(rs@), k as int),
        outs_ok(r@, pos, ncaps, t@.len()),
    decreases *x, 2int, 0int, t@.len() - pos, 0int, rs@.len() - k,
{
    if k < rs.len() {
        let mut r = if pos < rs[k].end {
            rep_exec(x, 0, dec_hi_exec(hi), greedy, t, rs[k].end, &rs[k].caps)
        } else {
            none_exec()
        };
        let mut rest = rep_opt_exec(x, hi, greedy, t, pos, rs, k + 1, Ghost(ncaps));
        proof {
            lemma_outs_append(r@, rest@);
            lemma_outs_ok_weaken(r@, pos, rs@[k as int].end, ncaps, t@.len());
            lemma_outs_ok_append(r@, rest@, pos, ncaps, t@.len());
        }
        r.append(&mut rest);
        r
    } else {
        none_exec()
    }
}

/// Executes `ends`: every way `n` can match `t` from `pos`, in backtracking order.
pub fn ends_exec(n: &Node, t: &Vec<char>, pos: usize, caps: &Vec<Span>) -> (r: Vec<Out>)
    requires
        pos <= t@.len(),
        caps_ok(caps@, t@.len()),
    ensures
        outs_view(r@) == ends(*n, t@, pos, caps@),
        outs_ok(r@, pos, caps@.len(), t@.len()),
    decreases *n, 0int, 0int, 0int, 0int, 0int,
{
    match n {
        Node::Empty => one_exec(pos, caps),
        Node::Char(c) => if pos < t.len() && t[pos] == *c {
            one_exec(pos + 1, caps)
        } else {
            none_exec()
        },
        Node::Any => if pos < t.len() && t[pos] != '\n' {
            one_exec(pos + 1, caps)
        } else {
            none_exec()
        },
        Node::Class(items, neg) => if pos < t.len() && class_matches_exec(items, *neg, t[pos]) {
            one_exec(pos + 1, caps)
        } else {
            none_exec()
        },
        Node::Start => if pos == 0 {
            one_exec(pos, caps)
        } else {
            none_exec()
        },
        Node::End => if pos == t.len() || (pos + 1 == t.len() && t[pos] == '\n') {
            one_exec(pos, caps)
        } else {
            none_exec()
        },
        Node::WordBoundary(neg) => if at_word_boundary_exec(t, pos) != *neg {
            one_exec(pos, caps)
        } else {
            none_exec()
        },
        Node::Group(i, x) => {
            let rs = ends_exec(x, t, pos, caps);
            set_group_exec(&rs, *i, pos, Ghost(caps@.len()), Ghost(t@.len()))
        },
        Node::Concat(a, b) => {
            let rs = ends_exec(a, t, pos, caps);
            cat_each_exec(b, t, &rs, 0, Ghost(pos), Ghost(caps@.len()))
        },
        Node::Alt(a, b) => {
            let mut r = ends_exec(a, t, pos, caps);
            let mut r2 = ends_exec(b, t, pos, caps);
            proof {
                lemma_outs_append(r@, r2@);
                lemma_outs_ok_append(r@, r2@, pos, caps@.len(), t@.len());
            }
            r.append(&mut r2);
            r
        },
        Node::Repeat(x, lo, hi, greedy) => rep_exec(x, *lo, *hi, *greedy, t, pos, caps),
        Node::BackRef(i) => backref_exec(t, pos, caps, *i),
    }
}

fn backref_exec(t: &Vec<char>, pos: usize, caps: &Vec<Span>, i: usize) -> (r: Vec<Out>)
    requires
        pos <= t@.len(),
        caps_ok(caps@, t@.len()),
    ensures
        outs_view(r@) == backref(t@, pos, caps@, i),
        outs_ok(r@, pos, caps@.len(), t@.len()),
{
    if i < caps.len() {
        match caps[i] {
            Some((s, e)) => {
                assert(caps@[i as int] == Some((s, e)));
                if s <= e && e <= t.len() && e - s <= t.len() - pos {
                    let n = e - s;
                    let tl = t.len();
                    let mut j: usize = 0;
                    while j < n
                        invariant
                            j <= n,
                            n == e - s,
                            s <= e <= t@.len(),
                            pos + n <= t@.len(),
                            tl == t@.len(),
                            i < caps@.len(),
                            caps@[i as int] == Some((s, e)),
                            t@.subrange(pos as int, pos + j) == t@.subrange(s as int, s + j),
                        decreases n - j,
                    {
                        if t[pos + j] != t[s + j] {
                            assert(t@.subrange(pos as int, pos + n)[j as int] != t@.subrange(
                                s as int,
                                e as int,
                            )[j as int]);
                            assert(t@.subrange(pos as int, pos + n) != t@.subrange(s as int, e as int));
                            return none_exec();
                        }
                        assert(t@.subrange(pos as int, pos + j + 1) =~= t@.subrange(pos as int, pos + j).push(t@[pos + j]));
                        assert(t@.subrange(s as int, s + j + 1) =~= t@.subrange(s as int, s + j).push(t@[s + j]));
                        j = j + 1;
                    }
                    assert(t@.subrange(pos as int, pos + n) =~= t@.subrange(s as int, e as int));
                    return one_exec(pos + n, caps);
                }
                none_exec()
            },
            None => none_exec(),
        }
    } else {
        none_exec()
    }
}

/// No group has taken part yet.
pub open spec fn init_caps(n: nat) -> Seq<Span> {
    Seq::new(n, |i: int| None)
}

/// The first match at a position from `from` on: the position, and the first
/// way to finish there.
pub open spec fn search_from(n: Node, t: Seq<char>, from: usize, ncaps: nat) -> Option<(usize, Res)>
    decreases t.len() + 1 - from,
{
    if from <= t.len() {
        let rs = ends(n, t, from, init_caps(ncaps));
        if rs.len() > 0 {
            Some((from, rs[0]))
        } else if from < t.len() && from < usize::MAX {
            search_from(n, t, (from + 1) as usize, ncaps)
        } else {
            None
        }
    } else {
        None
    }
}

fn init_caps_exec(n: usize) -> (r: Vec<Span>)
    ensures
        r@ == init_caps(n as nat),
{
    let mut r: Vec<Span> = Vec::new();
    let mut i: usize = 0;
    while i < n
        invariant
            i <= n,
            r@ == init_caps(i as nat),
        decreases n - i,
    {
        r.push(None);
        assert(r@ =~= init_caps((i + 1) as nat));
        i = i + 1;
    }
    r
}

/// Executes `search_from`.
pub fn search_exec(n: &Node, t: &Vec<char>, from: usize, ncaps: usize) -> (r: Option<(usize, Out)>)
    requires
        from <= t@.len(),
    ensures
        match r {
            None => search_from(*n, t@, from, ncaps as nat) is None,
            Some((s, o)) => {
                &&& search_from(*n, t@, from, ncaps as nat) == Some((s, out_view(o)))
                &&& from <= s <= o.end <= t@.len()
                &&& o.caps@.len() == ncaps
                &&& caps_ok(o.caps@, t@.len())
            },
        },
{
    let mut p: usize = from;
    loop
        invariant
            from <= p <= t@.len(),
            search_from(*n, t@, from, ncaps as nat) == search_from(*n, t@, p, ncaps as nat),
        decreases t@.len() - p,
    {
        let caps = init_caps_exec(ncaps);
        let mut rs = ends_exec(n, t, p, &caps);
        if rs.len() > 0 {
            let ghost first = out_view(rs@[0]);
            assert(outs_view(rs@)[0] == first);
            let o = rs.remove(0);
            return Some((p, o));
        } else if p < t.len() {
            p = p + 1;
        } else {
            return None;
        }
    }
}

/// Every way to finish ends between `pos` and `len` and keeps `n` capture
/// entries.
pub open spec fn res_in(rs: Seq<Res>, pos: int, len: int, n: nat) -> bool {
    forall|k: int| 0 <= k < rs.len() ==> pos <= #[trigger] rs[k].0 <= len && rs[k].1.len() == n
}

proof fn lemma_res_in_append(a: Seq<Res>, b: Seq<Res>, pos: int, len: int, n: nat)
    requires
        res_in(a, pos, len, n),
        res_in(b, pos, len, n),
    ensures
        res_in(a + b, pos, len, n),
{
    assert forall|k: int| 0 <= k < (a + b).len() implies pos <= #[trigger] (a + b)[k].0 <= len && (a
        + b)[k].1.len() == n by {
        if k < a.len() {
            assert((a + b)[k] == a[k]);
        } else {
            assert((a + b)[k] == b[k - a.len()]);
        }
    }
}

/// A node started at `pos` finishes between `pos` and the end of the text,
/// with as many capture entries as it started with.
pub proof fn lemma_ends_in_range(n: Node, t: Seq<char>, pos: usize, caps: Seq<Span>)
    requires
        pos <= t.len(),
        t.len() <= usize::MAX,
    ensures
        res_in(ends(n, t, pos, caps), pos as int, t.len() as int, caps.len()),
    decreases n, 0int, 0int, 0int, 0int, 0int,
{
    match n {
        Node::Group(i, x) => {
            lemma_ends_in_range(*x, t, pos, caps);
            let rs = ends(*x, t, pos, caps);
            assert(ends(n, t, pos, caps) == set_group(rs, i, pos));
            assert forall|k: int| 0 <= k < set_group(rs, i, pos).len() implies pos <= #[trigger] set_group(
                rs,
                i,
                pos,
            )[k].0 <= t.len() && set_group(rs, i, pos)[k].1.len() == caps.len() by {
                assert(set_group(rs, i, pos)[k].0 == rs[k].0);
            }
            assert(res_in(set_group(rs, i, pos), pos as int, t.len() as int, caps.len()));
        },
        Node::Concat(a, b) => {
            lemma_ends_in_range(*a, t, pos, caps);
            lemma_cat_each_in_range(*b, t, ends(*a, t, pos, caps), 0, pos, caps.len());
        },
        Node::Alt(a, b) => {
            lemma_ends_in_range(*a, t, pos, caps);
            lemma_ends_in_range(*b, t, pos, caps);
            lemma_res_in_append(
                ends(*a, t, pos, caps),
                ends(*b, t, pos, caps),
                pos as int,
                t.len() as int,
                caps.len(),
            );
        },
        Node::Repeat(x, lo, hi, greedy) => lemma_rep_in_range(*x, lo, hi, greedy, t, pos, caps),
        Node::BackRef(i) => {
            let rs = backref(t, pos, caps, i);
            assert(ends(n, t, pos, caps) == rs);
        },
        _ => {
            assert(ends(n, t, pos, caps).len() <= 1);
        },
    }
}

proof fn lemma_cat_each_in_range(b: Node, t: Seq<char>, rs: Seq<Res>, k: int, pos: usize, n: nat)
    requires
        pos <= t.len(),
        t.len() <= usize::MAX,
        res_in(rs, pos as int, t.len() as int, n),
    ensures
        res_in(cat_each(b, t, rs, k), pos as int, t.len() as int, n),
    decreases b, 1int, 0int, 0int, 0int, rs.len() - k,
{
    if 0 <= k < rs.len() {
        lemma_ends_in_range(b, t, rs[k].0, rs[k].1);
        lemma_cat_each_in_range(b, t, rs, k + 1, pos, n);
        lemma_res_in_append(
            ends(b, t, rs[k].0, rs[k].1),
            cat_each(b, t, rs, k + 1),
            pos as int,
            t.len() as int,
            n,
        );
    }
}

proof fn lemma_rep_in_range(
    x: Node,
    lo: usize,
    hi: Option<usize>,
    greedy: bool,
    t: Seq<char>,
    pos: usize,
    caps: Seq<Span>,
)
    requires
        pos <= t.len(),
        t.len() <= usize::MAX,
    ensures
        res_in(rep(x, lo, hi, greedy, t, pos, caps), pos as int, t.len() as int, caps.len()),
    decreases x, 2int, lo as int, t.len() - pos, 1int, 0int,
{
    let rs = ends(x, t, pos, caps);
    if lo > 0 {
        lemma_ends_in_range(x, t, pos, caps);
        lemma_rep_min_in_range(x, lo, hi, greedy, t, pos, rs, 0, caps.len());
    } else if hi == Some(0usize) {
    } else {
        lemma_ends_in_range(x, t, pos, caps);
        lemma_rep_opt_in_range(x, hi, greedy, t, pos, rs, 0, caps.len());
        let more = rep_opt(x, hi, greedy, t, pos, rs, 0);
        lemma_res_in_append(more, one(pos, caps), pos as int, t.len() as int, caps.len());
        lemma_res_in_append(one(pos, caps), more, pos as int, t.len() as int, caps.len());
    }
}

proof fn lemma_rep_min_in_range(
    x: Node,
    lo: usize,
    hi: Option<usize>,
    greedy: bool,
    t: Seq<char>,
    pos: usize,
    rs: Seq<Res>,
    k: int,
    n: nat,
)
    requires
        pos <= t.len(),
        t.len() <= usize::MAX,
        res_in(rs, pos as int, t.len() as int, n),
    ensures
        res_in(rep_min(x, lo, hi, greedy, t, pos, rs, k), pos as int, t.len() as int, n),
    decreases x, 2int, lo as int, t.len() - pos, 0int, rs.len() - k,
{
    if 0 <= k < rs.len() && lo > 0 {
        lemma_rep_in_range(x, (lo - 1) as usize, dec_hi(hi), greedy, t, rs[k].0, rs[k].1);
        lemma_rep_min_in_range(x, lo, hi, greedy, t, pos, rs, k + 1, n);
        lemma_res_in_append(
            rep(x, (lo - 1) as usize, dec_hi(hi), greedy, t, rs[k].0, rs[k].1),
            rep_min(x, lo, hi, greedy, t, pos, rs, k + 1),
            pos as int,
            t.len() as int,
            n,
        );
    }
}

proof fn lemma_rep_opt_in_range(
    x: Node,
    hi: Option<usize>,
    greedy: bool,
    t: Seq<char>,
    pos: usize,
    rs: Seq<Res>,
    k: int,
    n: nat,
)
    requires
        pos <= t.len(),
        t.len() <= usize::MAX,
        res_in(rs, pos as int, t.len() as int, n),
    ensures
        res_in(rep_opt(x, hi, greedy, t, pos, rs, k), pos as int, t.len() as int, n),
    decreases x, 2int, 0int, t.len() - pos, 0int, rs.len() - k,
{
    if 0 <= k < rs.len() {
        let here = if pos < rs[k].0 && rs[k].0 <= t.len() {
            rep(x, 0, dec_hi(hi), greedy, t, rs[k].0, rs[k].1)
        } else {
            Seq::empty()
        };
        if pos < rs[k].0 && rs[k].0 <= t.len() {
            lemma_rep_in_range(x, 0, dec_hi(hi), greedy, t, rs[k].0, rs[k].1);
        }
        lemma_rep_opt_in_range(x, hi, greedy, t, pos, rs, k + 1, n);
        lemma_res_in_append(here, rep_opt(x, hi, greedy, t, pos, rs, k + 1), pos as int, t.len() as int, n);
    }
}

/// A match found by searching from `from` starts at or after `from` and ends
/// at or after its start, within the text.
pub proof fn lemma_search_in_range(n: Node, t: Seq<char>, from: usize, ncaps: nat)
    requires
        t.len() <= usize::MAX,
    ensures
        match search_from(n, t, from, ncaps) {
            Some((s, r)) => from <= s <= r.0 <= t.len() && r.1.len() == ncaps,
            None => true,
        },
    decreases t.len() + 1 - from,
{
    if from <= t.len() {
        lemma_ends_in_range(n, t, from, init_caps(ncaps));
        let rs = ends(n, t, from, init_caps(ncaps));
        if rs.len() == 0 && from < t.len() && from < usize::MAX {
            lemma_search_in_range(n, t, (from + 1) as usize, ncaps);
        }
    }
}

/// The characters of `lit[0..k]` in sequence match from `pos` exactly when
/// the text there holds them, and then end `k` characters further.
pub proof fn lemma_literal_ends(lit: Seq<char>, k: int, t: Seq<char>, pos: usize, caps: Seq<Span>)
    requires
        0 <= k <= lit.len(),
        pos <= t.len() <= usize::MAX,
    ensures
        ends(lit_tree(lit, 0, k), t, pos, caps) == (if pos + k <= t.len() && t.subrange(pos as int, pos + k)
            == lit.subrange(0, k) {
            one((pos + k) as usize, caps)
        } else {
            Seq::empty()
        }),
    decreases k,
{
    if k == 0 {
        assert(t.subrange(pos as int, pos as int) =~= lit.subrange(0, 0));
    } else if k == 1 {
        if pos + 1 <= t.len() {
            assert(t.subrange(pos as int, pos + 1) =~= seq![t[pos as int]]);
            assert(lit.subrange(0, 1) =~= seq![lit[0]]);
            if t[pos as int] != lit[0] {
                assert(t.subrange(pos as int, pos + 1)[0] != lit.subrange(0, 1)[0]);
            }
        }
    } else {
        lemma_literal_ends(lit, k - 1, t, pos, caps);
        let c = Node::Char(lit[k - 1]);
        let first = ends(lit_tree(lit, 0, k - 1), t, pos, caps);
        let whole = pos + k <= t.len() && t.subrange(pos as int, pos + k) == lit.subrange(0, k);
        assert(lit_tree(lit, 0, k) == Node::Concat(Box::new(lit_tree(lit, 0, k - 1)), Box::new(c)));
        assert(ends(lit_tree(lit, 0, k), t, pos, caps) == cat_each(c, t, first, 0));
        let same_prefix = pos + k - 1 <= t.len() && t.subrange(pos as int, pos + k - 1) == lit.subrange(
            0,
            k - 1,
        );
        if pos + k <= t.len() {
            assert(t.subrange(pos as int, pos + k) =~= t.subrange(pos as int, pos + k - 1).push(t[pos + k - 1]));
            assert(lit.subrange(0, k) =~= lit.subrange(0, k - 1).push(lit[k - 1]));
            if whole {
                assert(t.subrange(pos as int, pos + k)[k - 1] == lit.subrange(0, k)[k - 1]);
                assert(t.subrange(pos as int, pos + k - 1) =~= t.subrange(pos as int, pos + k).subrange(0, k - 1));
                assert(lit.subrange(0, k - 1) =~= lit.subrange(0, k).subrange(0, k - 1));
            }
        }
        if same_prefix {
            assert(first == one((pos + k - 1) as usize, caps));
            assert(cat_each(c, t, first, 1) == Seq::<Res>::empty());
            assert(cat_each(c, t, first, 0) =~= ends(c, t, (pos + k - 1) as usize, caps));
            if whole {
                assert(ends(c, t, (pos + k - 1) as usize, caps) == one((pos + k) as usize, caps));
            } else {
                assert(ends(c, t, (pos + k - 1) as usize, caps) == Seq::<Res>::empty());
            }
        } else {
            assert(first == Seq::<Res>::empty());
            assert(cat_each(c, t, first, 0) == Seq::<Res>::empty());
            assert(!whole);
        }
    }
}

} // verus!
