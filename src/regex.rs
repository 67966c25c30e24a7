//! Compiled patterns and match results.
use vstd::prelude::*;
use crate::engine::{
    Out, Res, Span, caps_ok, copy_caps, ends, init_caps, lemma_literal_ends, lemma_search_in_range, one,
    out_view, search_exec, search_from,
};
use crate::error::{CompileReason, RegexError, SyntaxReason};
use crate::grammar::{lemma_escaped_parses_literally, s_pattern};
use crate::parser::{lit_tree, names_ok, parse_error_ok, parse_pattern, plain_from, wf_node};
use crate::syntax::Node;
use crate::escape::{escape_seq, escape_text};
use crate::template::{Piece, lookup_exec, lookup_spec, names_view, parse_template, tpl_at};
use crate::text::{byte_len, byte_offset, chars_of, copy_chars, lemma_byte_len_bounds, push_range, string_of};

verus! {

/// Sets group 0 of a search result to the whole match from `s`.
pub open spec fn full_spans(s: usize, r: Res) -> Seq<Span> {
    r.1.update(0, Some((s, r.0)))
}

pub open spec fn span_start(sp: Span) -> int {
    match sp {
        Some((s, _)) => s as int,
        None => -1,
    }
}

pub open spec fn span_end(sp: Span) -> int {
    match sp {
        Some((_, e)) => e as int,
        None => -1,
    }
}

/// The byte offset where a span starts in `t`, or -1 if the group did not
/// take part.
pub open spec fn byte_start(t: Seq<char>, sp: Span) -> int {
    match sp {
        Some((s, _)) => byte_len(t.subrange(0, s as int)) as int,
        None => -1,
    }
}

/// The byte offset where a span ends in `t`, or -1 if the group did not
/// take part.
pub open spec fn byte_end(t: Seq<char>, sp: Span) -> int {
    match sp {
        Some((_, e)) => byte_len(t.subrange(0, e as int)) as int,
        None => -1,
    }
}

/// The text a span covers, if the group took part.
pub open spec fn span_text(t: Seq<char>, sp: Span) -> Option<Seq<char>> {
    match sp {
        Some((s, e)) => Some(t.subrange(s as int, e as int)),
        None => None,
    }
}

/// Where the scan resumes after a match from `s` to `e`: at its end, or one
/// character further after an empty match.
pub open spec fn next_from(s: usize, e: usize) -> int {
    if e > s {
        e as int
    } else {
        e + 1
    }
}

/// The non-overlapping matches found by searching from `from`, then again
/// from past each match.
pub open spec fn all_matches_from(n: Node, t: Seq<char>, from: usize, ncaps: nat) -> Seq<(usize, Res)>
    decreases t.len() + 1 - from,
{
    if from > t.len() {
        Seq::empty()
    } else {
        match search_from(n, t, from, ncaps) {
            None => Seq::empty(),
            Some((s, r)) => if from <= s <= r.0 <= t.len() && r.0 < usize::MAX {
                seq![(s, r)] + all_matches_from(n, t, next_from(s, r.0) as usize, ncaps)
            } else {
                Seq::empty()
            },
        }
    }
}

pub open spec fn mview(v: Seq<(usize, Out)>) -> Seq<(usize, Res)> {
    v.map_values(|x: (usize, Out)| (x.0, out_view(x.1)))
}

/// The text of a whole match.
pub open spec fn match_text(t: Seq<char>, m: (usize, Res)) -> Seq<char> {
    t.subrange(m.0 as int, m.1.0 as int)
}

/// The text of groups 1 and up; a group that did not take part gives the
/// empty text.
pub open spec fn group_pieces(t: Seq<char>, caps: Seq<Span>) -> Seq<Seq<char>> {
    Seq::new(
        (caps.len() - 1) as nat,
        |g: int|
            match caps[g + 1] {
                Some((a, b)) => t.subrange(a as int, b as int),
                None => Seq::empty(),
            },
    )
}

/// The pieces of `t` from `prev` on, cut at the matches `ms`, with the text of
/// each match's groups between the pieces.
pub open spec fn split_rest(t: Seq<char>, ms: Seq<(usize, Res)>, prev: int) -> Seq<Seq<char>>
    decreases ms.len(),
{
    if ms.len() == 0 {
        seq![t.subrange(prev, t.len() as int)]
    } else {
        seq![t.subrange(prev, ms[0].0 as int)] + group_pieces(t, ms[0].1.1) + split_rest(
            t,
            ms.drop_first(),
            ms[0].1.0 as int,
        )
    }
}

pub open spec fn strs_view(v: Seq<String>) -> Seq<Seq<char>> {
    v.map_values(|x: String| x@)
}

pub open spec fn opt_view(o: Option<String>) -> Option<Seq<char>> {
    match o {
        Some(x) => Some(x@),
        None => None,
    }
}

/// Matches found one after another: each within the text, each starting at
/// or after the end of the one before.
pub open spec fn found_ok(r: Seq<(usize, Out)>, len: nat, ncaps: nat) -> bool {
    &&& forall|k: int|
        0 <= k < r.len() ==> #[trigger] r[k].0 <= r[k].1.end <= len && r[k].1.caps@.len() == ncaps
            && caps_ok(r[k].1.caps@, len)
    &&& forall|k: int| 0 < k < r.len() ==> r[k - 1].1.end <= #[trigger] r[k].0
}

/// What a template part stands for in a match with group spans `caps`.
pub open spec fn piece_text(t: Seq<char>, caps: Seq<Span>, p: Piece) -> Seq<char> {
    match p {
        Piece::Lit(c) => seq![c],
        Piece::Grp(i) => if i < caps.len() {
            match caps[i as int] {
                Some((a, b)) => t.subrange(a as int, b as int),
                None => Seq::empty(),
            }
        } else {
            Seq::empty()
        },
    }
}

/// A template filled in for one match.
pub open spec fn expand(t: Seq<char>, caps: Seq<Span>, ps: Seq<Piece>) -> Seq<char>
    decreases ps.len(),
{
    if ps.len() == 0 {
        Seq::empty()
    } else {
        expand(t, caps, ps.drop_last()) + piece_text(t, caps, ps.last())
    }
}

/// The text from `prev` on with each of the matches `ms` replaced by the
/// template filled in for it.
pub open spec fn substitute(t: Seq<char>, ms: Seq<(usize, Res)>, ps: Seq<Piece>, prev: int) -> Seq<char>
    decreases ms.len(),
{
    if ms.len() == 0 {
        t.subrange(prev, t.len() as int)
    } else {
        t.subrange(prev, ms[0].0 as int) + expand(t, full_spans(ms[0].0, ms[0].1), ps) + substitute(
            t,
            ms.drop_first(),
            ps,
            ms[0].1.0 as int,
        )
    }
}

fn expand_exec(out: &mut String, t: &Vec<char>, caps: &Vec<Span>, ps: &Vec<Piece>)
    requires
        caps_ok(caps@, t@.len()),
    ensures
        final(out)@ == old(out)@ + expand(t@, caps@, ps@),
{
    let mut k: usize = 0;
    assert(ps@.subrange(0, 0) =~= Seq::<Piece>::empty());
    assert(old(out)@ + Seq::<char>::empty() =~= old(out)@);
    while k < ps.len()
        invariant
            k <= ps@.len(),
            caps_ok(caps@, t@.len()),
            out@ == old(out)@ + expand(t@, caps@, ps@.subrange(0, k as int)),
        decreases ps@.len() - k,
    {
        let ghost before = out@;
        match ps[k] {
            Piece::Lit(c) => crate::text::push_char(out, c),
            Piece::Grp(i) => {
                if i < caps.len() {
                    match caps[i] {
                        Some((a, b)) => {
                            assert(crate::engine::span_ok(caps@[i as int]->0, t@.len()));
                            push_range(out, t, a, b);
                        },
                        None => {},
                    }
                }
            },
        }
        proof {
            assert(ps@.subrange(0, k + 1).drop_last() =~= ps@.subrange(0, k as int));
            assert(out@ =~= before + piece_text(t@, caps@, ps@[k as int]));
            assert(out@ =~= old(out)@ + expand(t@, caps@, ps@.subrange(0, k + 1)));
        }
        k = k + 1;
    }
    assert(ps@.subrange(0, ps@.len() as int) =~= ps@);
}

/// A compiled pattern.
pub struct PyRegex {
    root: Node,
    ngroups: usize,
    names: Vec<(Vec<char>, usize)>,
}

/// The outcome of one successful search: the text, each group's span (group 0
/// is the whole match), and the pattern's group names.
pub struct PyRegexMatch {
    text: Vec<char>,
    spans: Vec<Span>,
    names: Vec<(Vec<char>, usize)>,
}

impl PyRegex {
    pub closed spec fn wf(&self) -> bool {
        &&& wf_node(self.root, self.ngroups as nat)
        &&& names_ok(self.names@, self.ngroups as nat)
        &&& self.ngroups < usize::MAX
    }

    /// The number of groups, counting group 0.
    pub closed spec fn ncaps(&self) -> nat {
        (self.ngroups + 1) as nat
    }

    /// The group names and their indices.
    pub closed spec fn group_names(&self) -> Seq<(Seq<char>, usize)> {
        names_view(self.names@)
    }

    pub closed spec fn tree(&self) -> Node {
        self.root
    }

    /// The first match in `t`, as the spans of its groups.
    pub open spec fn first_match(&self, t: Seq<char>) -> Option<Seq<Span>> {
        match search_from(self.tree(), t, 0, self.ncaps()) {
            Some((s, r)) => Some(full_spans(s, r)),
            None => None,
        }
    }

    /// Every non-overlapping match in `t`, in order.
    pub open spec fn matches(&self, t: Seq<char>) -> Seq<(usize, Res)> {
        all_matches_from(self.tree(), t, 0, self.ncaps())
    }

    /// The group spans of each match in `t`.
    pub open spec fn match_spans(&self, t: Seq<char>) -> Seq<Seq<Span>> {
        self.matches(t).map_values(|m: (usize, Res)| full_spans(m.0, m.1))
    }

    /// Escapes `text` so that it can stand in a pattern: with `special_only`,
    /// only metacharacters and whitespace get a backslash, otherwise all but
    /// letters, digits and `_`; with `literal_spaces`, spaces never do.
    pub fn escape(text: &str, special_only: bool, literal_spaces: bool) -> (r: Result<String, RegexError>)
        ensures
            r is Ok,
            r->Ok_0@ == escape_seq(text@, special_only, literal_spaces),
    {
        Ok(escape_text(text, special_only, literal_spaces))
    }

    /// Compiles `pattern`.
    pub fn new(pattern: &str) -> (r: Result<PyRegex, RegexError>)
        ensures
            r is Ok ==> r->Ok_0.wf(),
            r is Err ==> parse_error_ok(r->Err_0, pattern@.len()),
            match s_pattern(pattern@) {
                Ok((n, ng, names)) => r is Ok && r->Ok_0.tree() == n && r->Ok_0.ncaps() == ng + 1
                    && r->Ok_0.group_names() == names,
                Err(e) => r is Err && r->Err_0 == e,
            },
            pattern@.len() < usize::MAX && plain_from(pattern@, 0) ==> r is Ok && r->Ok_0.tree()
                == lit_tree(pattern@, 0, pattern@.len() as int) && r->Ok_0.ncaps() == 1,
    {
        let p = chars_of(pattern);
        let (root, ngroups, names) = parse_pattern(&p)?;
        Ok(PyRegex { root, ngroups, names })
    }

    fn make_match(&self, t: &Vec<char>, s: usize, o: &Out) -> (m: PyRegexMatch)
        requires
            self.wf(),
            byte_len(t@) <= isize::MAX,
            s <= o.end <= t@.len(),
            o.caps@.len() == self.ncaps(),
            caps_ok(o.caps@, t@.len()),
        ensures
            m.wf(),
            m.text_of() == t@,
            m.spans_of() == full_spans(s, out_view(*o)),
            m.names_of() == self.group_names(),
    {
        proof {
            lemma_byte_len_bounds(t@, 0);
        }
        let mut spans = copy_caps(&o.caps);
        spans.set(0, Some((s, o.end)));
        let m = PyRegexMatch { text: copy_chars(t), spans, names: copy_names(&self.names) };
        proof {
            assert(m.spans@ =~= full_spans(s, out_view(*o)));
            assert(m.names_of() =~= self.group_names());
            assert forall|i: int| 0 <= i < m.spans@.len() && #[trigger] m.spans@[i] is Some implies crate::engine::span_ok(
                m.spans@[i]->0,
                t@.len(),
            ) by {
                if i != 0 {
                    assert(m.spans@[i] == o.caps@[i]);
                }
            }
            assert forall|j: int, k: int| 0 <= j < k < m.names@.len() implies #[trigger] m.names@[j].0@
                != #[trigger] m.names@[k].0@ by {
                assert(m.names@[j].0@ == self.names@[j].0@);
                assert(m.names@[k].0@ == self.names@[k].0@);
                assert(self.names@[j].0@ != self.names@[k].0@);
            }
            assert forall|k: int| 0 <= k < m.names@.len() implies 1 <= #[trigger] m.names@[k].1 <= (
            m.spans@.len() - 1) by {
                assert(m.names@[k].0@ == self.names@[k].0@);
                assert(1 <= self.names@[k].1 <= self.ngroups);
                assert(m.spans@.len() == self.ngroups + 1);
            }
        }
        m
    }

    /// Searches `text` for the first match.
    pub fn search_match(&self, text: &str) -> (r: Result<Option<PyRegexMatch>, RegexError>)
        requires
            self.wf(),
            byte_len(text@) <= isize::MAX,
        ensures
            r is Ok,
            match r->Ok_0 {
                None => self.first_match(text@) is None,
                Some(m) => m.wf() && m.text_of() == text@ && self.first_match(text@) == Some(
                    m.spans_of(),
                ) && m.names_of() == self.group_names(),
            },
    {
        let t = chars_of(text);
        proof {
            lemma_byte_len_bounds(t@, 0);
        }
        match search_exec(&self.root, &t, 0, self.ngroups + 1) {
            None => Ok(None),
            Some((s, o)) => Ok(Some(self.make_match(&t, s, &o))),
        }
    }

    /// Whether `text` holds a match.
    pub fn is_match(&self, text: &str) -> (r: Result<bool, RegexError>)
        requires
            self.wf(),
        ensures
            r == Ok::<bool, RegexError>(self.first_match(text@) is Some),
    {
        let t = chars_of(text);
        match search_exec(&self.root, &t, 0, self.ngroups + 1) {
            None => Ok(false),
            Some(_) => Ok(true),
        }
    }

    /// Every non-overlapping match of `t`, in order.
    #[verifier::rlimit(50)]
    fn collect_matches(&self, t: &Vec<char>) -> (r: Vec<(usize, Out)>)
        requires
            self.wf(),
            t@.len() <= isize::MAX,
        ensures
            mview(r@) == self.matches(t@),
            found_ok(r@, t@.len(), self.ncaps()),
    {
        let mut acc: Vec<(usize, Out)> = Vec::new();
        let mut p: usize = 0;
        proof {
            assert(mview(acc@) =~= Seq::<(usize, Res)>::empty());
            assert(mview(acc@) + all_matches_from(self.root, t@, 0, self.ncaps()) =~= self.matches(t@));
        }
        loop
            invariant
                p <= t@.len() + 1,
                t@.len() <= isize::MAX,
                self.wf(),
                mview(acc@) + all_matches_from(self.root, t@, p, self.ncaps()) == self.matches(t@),
                found_ok(acc@, t@.len(), self.ncaps()),
                acc@.len() > 0 ==> acc@.last().1.end <= p,
            decreases t@.len() + 1 - p,
        {
            if p > t.len() {
                assert(mview(acc@) =~= self.matches(t@));
                return acc;
            }
            match search_exec(&self.root, t, p, self.ngroups + 1) {
                None => {
                    assert(mview(acc@) =~= self.matches(t@));
                    return acc;
                },
                Some((s, o)) => {
                    let nxt = if o.end > s {
                        o.end
                    } else {
                        o.end + 1
                    };
                    let ghost old_acc = acc@;
                    let ghost m = (s, out_view(o));
                    assert(all_matches_from(self.root, t@, p, self.ncaps()) == seq![m]
                        + all_matches_from(self.root, t@, nxt, self.ncaps()));
                    acc.push((s, o));
                    proof {
                        assert(mview(acc@) =~= mview(old_acc).push(m));
                        assert(mview(acc@) + all_matches_from(self.root, t@, nxt, self.ncaps()) =~= mview(
                            old_acc,
                        ) + all_matches_from(self.root, t@, p, self.ncaps()));
                        assert forall|k: int| 0 <= k < acc@.len() implies #[trigger] acc@[k].0
                            <= acc@[k].1.end <= t@.len() && acc@[k].1.caps@.len() == self.ncaps()
                            && caps_ok(acc@[k].1.caps@, t@.len()) by {
                            if k < acc@.len() - 1 {
                                assert(acc@[k] == old_acc[k]);
                            }
                        }
                        assert forall|k: int| 0 < k < acc@.len() implies acc@[k - 1].1.end
                            <= #[trigger] acc@[k].0 by {
                            if k < acc@.len() - 1 {
                                assert(acc@[k - 1] == old_acc[k - 1] && acc@[k] == old_acc[k]);
                            }
                        }
                    }
                    p = nxt;
                },
            }
        }
    }

    /// Every non-overlapping match of `text`, in order, as match results.
    pub fn find_iter(&self, text: &str) -> (r: Result<Vec<PyRegexMatch>, RegexError>)
        requires
            self.wf(),
            byte_len(text@) <= isize::MAX,
        ensures
            r is Ok,
            r->Ok_0@.len() == self.match_spans(text@).len(),
            forall|k: int|
                0 <= k < r->Ok_0@.len() ==> (#[trigger] r->Ok_0@[k]).wf() && r->Ok_0@[k].text_of()
                    == text@ && r->Ok_0@[k].spans_of() == self.match_spans(text@)[k]
                    && r->Ok_0@[k].names_of() == self.group_names(),
    {
        let t = chars_of(text);
        proof {
            lemma_byte_len_bounds(t@, 0);
        }
        let found = self.collect_matches(&t);
        let mut out: Vec<PyRegexMatch> = Vec::new();
        let mut k: usize = 0;
        while k < found.len()
            invariant
                self.wf(),
                t@ == text@,
                t@.len() <= isize::MAX,
                byte_len(t@) <= isize::MAX,
                k <= found@.len(),
                mview(found@) == self.matches(t@),
                found_ok(found@, t@.len(), self.ncaps()),
                out@.len() == k,
                forall|j: int|
                    0 <= j < k ==> (#[trigger] out@[j]).wf() && out@[j].text_of() == t@
                        && out@[j].spans_of() == self.match_spans(t@)[j]
                        && out@[j].names_of() == self.group_names(),
            decreases found@.len() - k,
        {
            let m = self.make_match(&t, found[k].0, &found[k].1);
            proof {
                assert(mview(found@)[k as int] == (found@[k as int].0, out_view(found@[k as int].1)));
            }
            out.push(m);
            k = k + 1;
        }
        Ok(out)
    }

    /// The text of every non-overlapping match of `text`, in order.
    pub fn find_all(&self, text: &str) -> (r: Result<Vec<String>, RegexError>)
        requires
            self.wf(),
            text@.len() <= isize::MAX,
        ensures
            r is Ok,
            r->Ok_0@.len() == self.matches(text@).len(),
            forall|k: int|
                0 <= k < r->Ok_0@.len() ==> (#[trigger] r->Ok_0@[k])@ == match_text(
                    text@,
                    self.matches(text@)[k],
                ),
    {
        let t = chars_of(text);
        let found = self.collect_matches(&t);
        let mut out: Vec<String> = Vec::new();
        let mut k: usize = 0;
        while k < found.len()
            invariant
                t@ == text@,
                k <= found@.len(),
                mview(found@) == self.matches(t@),
                found_ok(found@, t@.len(), self.ncaps()),
                out@.len() == k,
                forall|j: int|
                    0 <= j < k ==> (#[trigger] out@[j])@ == match_text(t@, self.matches(t@)[j]),
            decreases found@.len() - k,
        {
            let piece = string_of(&t, found[k].0, found[k].1.end);
            proof {
                assert(mview(found@)[k as int] == (found@[k as int].0, out_view(found@[k as int].1)));
            }
            out.push(piece);
            k = k + 1;
        }
        Ok(out)
    }

    /// Replaces every non-overlapping match of `text` with `replacement`, in
    /// which group references are filled in; a group that did not take part
    /// gives the empty text.
    pub fn replace(&self, text: &str, replacement: &str) -> (r: Result<String, RegexError>)
        requires
            self.wf(),
            text@.len() <= isize::MAX,
        ensures
            match tpl_at(replacement@, 0, self.group_names(), self.ncaps()) {
                Err(e) => r == Err::<String, RegexError>(e),
                Ok(ps) => r is Ok && r->Ok_0@ == substitute(text@, self.matches(text@), ps, 0),
            },
    {
        let rep = chars_of(replacement);
        let ps = parse_template(&rep, &self.names, self.ngroups + 1)?;
        let t = chars_of(text);
        let found = self.collect_matches(&t);
        let ghost ms = self.matches(t@);
        let mut out = String::new();
        let mut k: usize = 0;
        let mut prev: usize = 0;
        proof {
            assert(ms.subrange(0, ms.len() as int) =~= ms);
            assert(out@ + substitute(t@, ms, ps@, 0) =~= substitute(t@, ms, ps@, 0));
        }
        while k < found.len()
            invariant
                t@ == text@,
                k <= found@.len(),
                mview(found@) == ms,
                ms == self.matches(t@),
                found_ok(found@, t@.len(), self.ncaps()),
                prev <= t@.len(),
                k < found@.len() ==> prev <= found@[k as int].0,
                out@ + substitute(t@, ms.subrange(k as int, ms.len() as int), ps@, prev as int)
                    == substitute(t@, ms, ps@, 0),
            decreases found@.len() - k,
        {
            let s = found[k].0;
            let e = found[k].1.end;
            let ghost rest = ms.subrange(k as int, ms.len() as int);
            proof {
                assert(mview(found@)[k as int] == (found@[k as int].0, out_view(found@[k as int].1)));
                assert(rest[0] == ms[k as int]);
                assert(rest.drop_first() =~= ms.subrange(k + 1, ms.len() as int));
            }
            let ghost before = out@;
            push_range(&mut out, &t, prev, s);
            let mut spans = copy_caps(&found[k].1.caps);
            spans.set(0, Some((s, e)));
            proof {
                assert(spans@ =~= full_spans(s, out_view(found@[k as int].1)));
                assert forall|i: int| 0 <= i < spans@.len() && #[trigger] spans@[i] is Some implies crate::engine::span_ok(
                    spans@[i]->0,
                    t@.len(),
                ) by {
                    if i != 0 {
                        assert(spans@[i] == found@[k as int].1.caps@[i]);
                    }
                }
            }
            expand_exec(&mut out, &t, &spans, &ps);
            proof {
                assert(out@ + substitute(t@, ms.subrange(k + 1, ms.len() as int), ps@, e as int) =~= before
                    + substitute(t@, rest, ps@, prev as int));
            }
            prev = e;
            k = k + 1;
        }
        let ghost o = out@;
        push_range(&mut out, &t, prev, t.len());
        proof {
            assert(ms.subrange(k as int, ms.len() as int) =~= Seq::<(usize, Res)>::empty());
            assert(out@ =~= substitute(t@, ms, ps@, 0));
        }
        Ok(out)
    }

    /// Splits `text` at every non-overlapping match; the text of each match's
    /// groups stands between the pieces.
    pub fn split(&self, text: &str) -> (r: Result<Vec<String>, RegexError>)
        requires
            self.wf(),
            text@.len() <= isize::MAX,
        ensures
            r is Ok,
            strs_view(r->Ok_0@) == split_rest(text@, self.matches(text@), 0),
    {
        let t = chars_of(text);
        let found = self.collect_matches(&t);
        let ghost ms = self.matches(t@);
        let mut out: Vec<String> = Vec::new();
        let mut k: usize = 0;
        let mut prev: usize = 0;
        proof {
            assert(ms.subrange(0, ms.len() as int) =~= ms);
            assert(strs_view(out@) =~= Seq::<Seq<char>>::empty());
        }
        while k < found.len()
            invariant
                t@ == text@,
                k <= found@.len(),
                mview(found@) == ms,
                ms == self.matches(t@),
                found_ok(found@, t@.len(), self.ncaps()),
                prev <= t@.len(),
                k < found@.len() ==> prev <= found@[k as int].0,
                strs_view(out@) + split_rest(t@, ms.subrange(k as int, ms.len() as int), prev as int)
                    == split_rest(t@, ms, 0),
            decreases found@.len() - k,
        {
            let s = found[k].0;
            let e = found[k].1.end;
            let ghost rest = ms.subrange(k as int, ms.len() as int);
            let ghost caps = found@[k as int].1.caps@;
            proof {
                assert(mview(found@)[k as int] == (found@[k as int].0, out_view(found@[k as int].1)));
                assert(rest[0] == ms[k as int]);
                assert(rest.drop_first() =~= ms.subrange(k + 1, ms.len() as int));
            }
            let ghost before = strs_view(out@);
            out.push(string_of(&t, prev, s));
            let mut g: usize = 1;
            while g < found[k].1.caps.len()
                invariant
                    1 <= g <= caps.len(),
                    k < found@.len(),
                    caps == found@[k as int].1.caps@,
                    caps_ok(caps, t@.len()),
                    caps.len() >= 1,
                    strs_view(out@) == before + seq![t@.subrange(prev as int, s as int)] + group_pieces(
                        t@,
                        caps,
                    ).subrange(0, g - 1),
                decreases caps.len() - g,
            {
                let piece = match found[k].1.caps[g] {
                    Some((a, b)) => string_of(&t, a, b),
                    None => String::new(),
                };
                let ghost o = strs_view(out@);
                out.push(piece);
                proof {
                    assert(strs_view(out@) =~= o.push(piece@));
                    assert(group_pieces(t@, caps).subrange(0, g as int) =~= group_pieces(t@, caps).subrange(
                        0,
                        g - 1,
                    ).push(group_pieces(t@, caps)[g - 1]));
                }
                g = g + 1;
            }
            proof {
                assert(group_pieces(t@, caps).subrange(0, caps.len() - 1) =~= group_pieces(t@, caps));
                assert(strs_view(out@) + split_rest(t@, ms.subrange(k + 1, ms.len() as int), e as int)
                    =~= before + split_rest(t@, rest, prev as int));
            }
            prev = e;
            k = k + 1;
        }
        let last = string_of(&t, prev, t.len());
        let ghost o = strs_view(out@);
        out.push(last);
        proof {
            assert(strs_view(out@) =~= o.push(last@));
            assert(strs_view(out@) =~= split_rest(t@, ms, 0));
        }
        Ok(out)
    }
}

fn copy_names(names: &Vec<(Vec<char>, usize)>) -> (r: Vec<(Vec<char>, usize)>)
    ensures
        r@.len() == names@.len(),
        forall|k: int| 0 <= k < names@.len() ==> #[trigger] r@[k].0@ == names@[k].0@ && r@[k].1 == names@[k].1,
{
    let mut r: Vec<(Vec<char>, usize)> = Vec::new();
    let mut i: usize = 0;
    while i < names.len()
        invariant
            i <= names@.len(),
            r@.len() == i,
            forall|k: int| 0 <= k < i ==> #[trigger] r@[k].0@ == names@[k].0@ && r@[k].1 == names@[k].1,
        decreases names@.len() - i,
    {
        let c = copy_chars(&names[i].0);
        let ghost old_r = r@;
        r.push((c, names[i].1));
        proof {
            assert forall|k: int| 0 <= k < i + 1 implies #[trigger] r@[k].0@ == names@[k].0@ && r@[k].1
                == names@[k].1 by {
                if k < i {
                    assert(r@[k] == old_r[k]);
                }
            }
        }
        i = i + 1;
    }
    r
}

impl PyRegexMatch {
    pub closed spec fn text_of(&self) -> Seq<char> {
        self.text@
    }

    pub closed spec fn spans_of(&self) -> Seq<Span> {
        self.spans@
    }

    /// The group names and their indices.
    pub closed spec fn names_of(&self) -> Seq<(Seq<char>, usize)> {
        self.names@.map_values(|e: (Vec<char>, usize)| (e.0@, e.1))
    }

    pub closed spec fn wf(&self) -> bool {
        &&& self.spans@.len() >= 1
        &&& self.spans@[0] is Some
        &&& caps_ok(self.spans@, self.text@.len())
        &&& self.text@.len() <= isize::MAX
        &&& byte_len(self.text@) <= isize::MAX
        &&& names_ok(self.names@, (self.spans@.len() - 1) as nat)
    }

    fn index_error(&self, i: u16) -> (r: RegexError)
        requires
            self.wf(),
        ensures
            r == (RegexError::GroupIndex { requested: i as usize, max: (self.spans@.len() - 1) as usize }),
    {
        RegexError::GroupIndex { requested: i as usize, max: self.spans.len() - 1 }
    }

    fn span_string(&self, sp: Span) -> (r: Option<String>)
        requires
            self.wf(),
            sp is Some ==> crate::engine::span_ok(sp->0, self.text@.len()),
        ensures
            opt_view(r) == span_text(self.text@, sp),
    {
        match sp {
            Some((a, b)) => Some(string_of(&self.text, a, b)),
            None => None,
        }
    }

    /// The text of group `group`; group 0 is the whole match, and a group that
    /// did not take part gives `None`.
    pub fn group(&self, group: u16) -> (r: Result<Option<String>, RegexError>)
        requires
            self.wf(),
        ensures
            group < self.spans_of().len() ==> r is Ok && opt_view(r->Ok_0) == span_text(
                self.text_of(),
                self.spans_of()[group as int],
            ),
            group >= self.spans_of().len() ==> r == Err::<Option<String>, RegexError>(
                RegexError::GroupIndex {
                    requested: group as usize,
                    max: (self.spans_of().len() - 1) as usize,
                },
            ),
    {
        let i = group as usize;
        if i >= self.spans.len() {
            return Err(self.index_error(group));
        }
        Ok(self.span_string(self.spans[i]))
    }

    /// The text of the group called `name`; a name the pattern does not have
    /// is an error.
    pub fn group_named(&self, name: &str) -> (r: Result<Option<String>, RegexError>)
        requires
            self.wf(),
        ensures
            match lookup_spec(self.names_of(), name@) {
                Some(i) => i < self.spans_of().len() && r is Ok && opt_view(r->Ok_0) == span_text(
                    self.text_of(),
                    self.spans_of()[i as int],
                ),
                None => r is Err && r->Err_0 is GroupName && r->Err_0->GroupName_name@ == name@,
            },
    {
        let nm = chars_of(name);
        proof {
            lemma_lookup_in_names(names_view(self.names@), nm@, (self.spans@.len() - 1) as nat);
        }
        match lookup_exec(&self.names, &nm) {
            Some(i) => Ok(self.span_string(self.spans[i])),
            None => Err(RegexError::GroupName { name: name.to_owned() }),
        }
    }

    /// The text of every group from 1 on.
    pub fn groups(&self) -> (r: Result<Vec<Option<String>>, RegexError>)
        requires
            self.wf(),
        ensures
            r is Ok,
            r->Ok_0@.len() == self.spans_of().len() - 1,
            forall|k: int|
                0 <= k < r->Ok_0@.len() ==> opt_view(#[trigger] r->Ok_0@[k]) == span_text(
                    self.text_of(),
                    self.spans_of()[k + 1],
                ),
    {
        let mut out: Vec<Option<String>> = Vec::new();
        let mut g: usize = 1;
        while g < self.spans.len()
            invariant
                self.wf(),
                1 <= g <= self.spans@.len(),
                out@.len() == g - 1,
                forall|k: int|
                    0 <= k < out@.len() ==> opt_view(#[trigger] out@[k]) == span_text(
                        self.text@,
                        self.spans@[k + 1],
                    ),
            decreases self.spans@.len() - g,
        {
            out.push(self.span_string(self.spans[g]));
            g = g + 1;
        }
        Ok(out)
    }

    /// Each group name, in the order the names were given, with its group's text.
    pub fn groupdict(&self) -> (r: Result<Vec<(String, Option<String>)>, RegexError>)
        requires
            self.wf(),
        ensures
            r is Ok,
            r->Ok_0@.len() == self.names_of().len(),
            forall|k: int|
                0 <= k < r->Ok_0@.len() ==> (#[trigger] r->Ok_0@[k]).0@ == self.names_of()[k].0
                    && self.names_of()[k].1 < self.spans_of().len()
                    && opt_view(r->Ok_0@[k].1) == span_text(
                    self.text_of(),
                    self.spans_of()[self.names_of()[k].1 as int],
                ),
    {
        let mut out: Vec<(String, Option<String>)> = Vec::new();
        let mut k: usize = 0;
        while k < self.names.len()
            invariant
                self.wf(),
                k <= self.names@.len(),
                out@.len() == k,
                forall|j: int|
                    0 <= j < k ==> (#[trigger] out@[j]).0@ == self.names_of()[j].0
                        && self.names_of()[j].1 < self.spans@.len()
                        && opt_view(out@[j].1) == span_text(
                        self.text@,
                        self.spans@[self.names_of()[j].1 as int],
                    ),
            decreases self.names@.len() - k,
        {
            let idx = self.names[k].1;
            proof {
                assert(1 <= self.names@[k as int].1 <= self.spans@.len() - 1);
            }
            let nm = string_of(&self.names[k].0, 0, self.names[k].0.len());
            proof {
                assert(self.names[k as int].0@.subrange(0, self.names[k as int].0@.len() as int) =~= self.names[k as int].0@);
            }
            out.push((nm, self.span_string(self.spans[idx])));
            k = k + 1;
        }
        Ok(out)
    }

    /// The byte offset where group `group` starts, or -1 if it did not take part.
    pub fn start(&self, group: u16) -> (r: Result<isize, RegexError>)
        requires
            self.wf(),
        ensures
            group < self.spans_of().len() ==> r == Ok::<isize, RegexError>(
                byte_start(self.text_of(), self.spans_of()[group as int]) as isize,
            ),
            group >= self.spans_of().len() ==> r == Err::<isize, RegexError>(
                RegexError::GroupIndex {
                    requested: group as usize,
                    max: (self.spans_of().len() - 1) as usize,
                },
            ),
    {
        let i = group as usize;
        if i >= self.spans.len() {
            return Err(self.index_error(group));
        }
        match self.spans[i] {
            Some((a, _)) => {
                proof {
                    lemma_byte_len_bounds(self.text@, a as int);
                }
                Ok(byte_offset(&self.text, a) as isize)
            },
            None => Ok(-1),
        }
    }

    /// The byte offset where group `group` ends, or -1 if it did not take part.
    pub fn end(&self, group: u16) -> (r: Result<isize, RegexError>)
        requires
            self.wf(),
        ensures
            group < self.spans_of().len() ==> r == Ok::<isize, RegexError>(
                byte_end(self.text_of(), self.spans_of()[group as int]) as isize,
            ),
            group >= self.spans_of().len() ==> r == Err::<isize, RegexError>(
                RegexError::GroupIndex {
                    requested: group as usize,
                    max: (self.spans_of().len() - 1) as usize,
                },
            ),
    {
        let i = group as usize;
        if i >= self.spans.len() {
            return Err(self.index_error(group));
        }
        match self.spans[i] {
            Some((_, b)) => {
                proof {
                    lemma_byte_len_bounds(self.text@, b as int);
                }
                Ok(byte_offset(&self.text, b) as isize)
            },
            None => Ok(-1),
        }
    }
}

/// The text of each match.
pub open spec fn match_texts(t: Seq<char>, ms: Seq<(usize, Res)>) -> Seq<Seq<char>> {
    ms.map_values(|m: (usize, Res)| match_text(t, m))
}

/// Pieces joined again, with `seps[k]` between `pieces[k]` and `pieces[k + 1]`.
pub open spec fn rejoin(pieces: Seq<Seq<char>>, seps: Seq<Seq<char>>) -> Seq<char>
    decreases seps.len(),
{
    if pieces.len() == 0 {
        Seq::empty()
    } else if seps.len() == 0 {
        pieces[0]
    } else {
        pieces[0] + seps[0] + rejoin(pieces.drop_first(), seps.drop_first())
    }
}

/// Each match lies within the text and starts at or after the end of the one
/// before (the first at or after `prev`).
pub open spec fn ordered(ms: Seq<(usize, Res)>, prev: int, len: nat) -> bool
    decreases ms.len(),
{
    ms.len() > 0 ==> (prev <= ms[0].0 && ms[0].0 <= ms[0].1.0 && ms[0].1.0 <= len && ordered(
        ms.drop_first(),
        ms[0].1.0 as int,
        len,
    ))
}

proof fn lemma_ordered_weaken(ms: Seq<(usize, Res)>, p0: int, p1: int, len: nat)
    requires
        ordered(ms, p1, len),
        p0 <= p1,
    ensures
        ordered(ms, p0, len),
{
}

proof fn lemma_matches_ordered(n: Node, t: Seq<char>, from: usize, ncaps: nat)
    ensures
        ordered(all_matches_from(n, t, from, ncaps), from as int, t.len()),
    decreases t.len() + 1 - from,
{
    let ms = all_matches_from(n, t, from, ncaps);
    if from <= t.len() {
        match search_from(n, t, from, ncaps) {
            None => {},
            Some((s, r)) => {
                if from <= s <= r.0 <= t.len() && r.0 < usize::MAX {
                    let nxt = next_from(s, r.0) as usize;
                    lemma_matches_ordered(n, t, nxt, ncaps);
                    lemma_ordered_weaken(all_matches_from(n, t, nxt, ncaps), r.0 as int, nxt as int, t.len());
                    assert(ms.drop_first() =~= all_matches_from(n, t, nxt, ncaps));
                }
            },
        }
    }
}

proof fn lemma_rejoin_rest(t: Seq<char>, ms: Seq<(usize, Res)>, prev: int)
    requires
        0 <= prev <= t.len(),
        ordered(ms, prev, t.len()),
        forall|k: int| 0 <= k < ms.len() ==> group_pieces(t, #[trigger] ms[k].1.1).len() == 0,
    ensures
        rejoin(split_rest(t, ms, prev), match_texts(t, ms)) == t.subrange(prev, t.len() as int),
    decreases ms.len(),
{
    if ms.len() > 0 {
        let rest = ms.drop_first();
        assert forall|k: int| 0 <= k < rest.len() implies group_pieces(t, #[trigger] rest[k].1.1).len()
            == 0 by {
            assert(rest[k] == ms[k + 1]);
        }
        lemma_rejoin_rest(t, rest, ms[0].1.0 as int);
        let pieces = split_rest(t, ms, prev);
        assert(group_pieces(t, ms[0].1.1).len() == 0);
        assert(pieces.drop_first() =~= split_rest(t, rest, ms[0].1.0 as int));
        assert(match_texts(t, ms).drop_first() =~= match_texts(t, rest));
        assert(t.subrange(prev, ms[0].0 as int) + t.subrange(ms[0].0 as int, ms[0].1.0 as int)
            + t.subrange(ms[0].1.0 as int, t.len() as int) =~= t.subrange(prev, t.len() as int));
    }
}

/// What every match result holds: group 0 took part, every recorded span
/// lies within the text, and the text's length in bytes fits `isize`.
pub proof fn lemma_match_facts(m: PyRegexMatch)
    requires
        m.wf(),
    ensures
        m.spans_of().len() >= 1,
        m.spans_of()[0] is Some,
        m.text_of().len() <= byte_len(m.text_of()) <= isize::MAX,
        forall|i: int|
            0 <= i < m.spans_of().len() && #[trigger] m.spans_of()[i] is Some ==> 0 <= span_start(
                m.spans_of()[i],
            ) <= span_end(m.spans_of()[i]) <= m.text_of().len(),
{
    lemma_byte_len_bounds(m.text@, 0);
    assert forall|i: int|
        0 <= i < m.spans_of().len() && #[trigger] m.spans_of()[i] is Some implies 0 <= span_start(
            m.spans_of()[i],
        ) <= span_end(m.spans_of()[i]) <= m.text_of().len() by {
        assert(crate::engine::span_ok(m.spans@[i]->0, m.text@.len()));
    }
}

/// The text of a group that took part is the text between its start and its
/// end: `group(i)` is the slice of the text from character `span_start` to
/// `span_end`, and `start(i)` and `end(i)` are the byte offsets of those two
/// character positions.
pub proof fn lemma_group_is_slice(m: PyRegexMatch, i: int)
    requires
        m.wf(),
        0 <= i < m.spans_of().len(),
        m.spans_of()[i] is Some,
    ensures
        0 <= span_start(m.spans_of()[i]) <= span_end(m.spans_of()[i]) <= m.text_of().len(),
        span_text(m.text_of(), m.spans_of()[i]) == Some(
            m.text_of().subrange(span_start(m.spans_of()[i]), span_end(m.spans_of()[i])),
        ),
        byte_start(m.text_of(), m.spans_of()[i]) == byte_len(
            m.text_of().subrange(0, span_start(m.spans_of()[i])),
        ),
        byte_end(m.text_of(), m.spans_of()[i]) == byte_len(
            m.text_of().subrange(0, span_end(m.spans_of()[i])),
        ),
{
    assert(crate::engine::span_ok(m.spans@[i]->0, m.text@.len()));
}

/// Where no match contributes group text, the pieces of `split`, joined again
/// with the matched separators in between, give back the text.
pub proof fn lemma_split_rejoin(re: PyRegex, t: Seq<char>)
    requires
        forall|k: int|
            0 <= k < re.matches(t).len() ==> group_pieces(t, #[trigger] re.matches(t)[k].1.1).len()
                == 0,
    ensures
        rejoin(split_rest(t, re.matches(t), 0), match_texts(t, re.matches(t))) == t,
{
    lemma_matches_ordered(re.tree(), t, 0, re.ncaps());
    lemma_rejoin_rest(t, re.matches(t), 0);
    assert(t.subrange(0, t.len() as int) =~= t);
}

/// A single search finds a match exactly when repeated searching finds at
/// least one, and then it finds the first of them.
pub proof fn lemma_first_match_is_first_of_matches(re: PyRegex, t: Seq<char>)
    requires
        byte_len(t) <= isize::MAX,
    ensures
        (re.first_match(t) is Some) == (re.matches(t).len() > 0),
        re.matches(t).len() > 0 ==> re.first_match(t) == Some(re.match_spans(t)[0]),
{
    lemma_byte_len_bounds(t, 0);
    lemma_search_in_range(re.tree(), t, 0, re.ncaps());
}

proof fn lemma_lookup_in_names(names: Seq<(Seq<char>, usize)>, name: Seq<char>, ng: nat)
    requires
        forall|k: int| 0 <= k < names.len() ==> 1 <= #[trigger] names[k].1 <= ng,
    ensures
        lookup_spec(names, name) is Some ==> 1 <= lookup_spec(names, name)->0 <= ng,
    decreases names.len(),
{
    if names.len() > 0 && names[0].0 != name {
        let rest = names.drop_first();
        assert forall|k: int| 0 <= k < rest.len() implies 1 <= #[trigger] rest[k].1 <= ng by {
            assert(rest[k] == names[k + 1]);
        }
        lemma_lookup_in_names(rest, name, ng);
    }
}

/// A pattern compiled from letters, digits and `_` alone matches at a
/// position exactly when the text there is the pattern, and the match ends
/// right after it.
pub proof fn lemma_plain_pattern_matches_itself(re: PyRegex, pattern: Seq<char>, t: Seq<char>, pos: usize)
    requires
        re.tree() == lit_tree(pattern, 0, pattern.len() as int),
        pos <= t.len() <= usize::MAX,
    ensures
        ends(re.tree(), t, pos, init_caps(re.ncaps())) == (if pos + pattern.len() <= t.len() && t.subrange(
            pos as int,
            pos + pattern.len(),
        ) == pattern {
            one((pos + pattern.len()) as usize, init_caps(re.ncaps()))
        } else {
            Seq::empty()
        }),
{
    lemma_literal_ends(pattern, pattern.len() as int, t, pos, init_caps(re.ncaps()));
    assert(pattern.subrange(0, pattern.len() as int) =~= pattern);
}

proof fn lemma_matches_caps_len(n: Node, t: Seq<char>, from: usize, ncaps: nat)
    requires
        t.len() <= usize::MAX,
    ensures
        forall|k: int|
            0 <= k < all_matches_from(n, t, from, ncaps).len() ==> (#[trigger] all_matches_from(
                n,
                t,
                from,
                ncaps,
            )[k]).1.1.len() == ncaps,
    decreases t.len() + 1 - from,
{
    let ms = all_matches_from(n, t, from, ncaps);
    if from <= t.len() {
        lemma_search_in_range(n, t, from, ncaps);
        match search_from(n, t, from, ncaps) {
            None => {},
            Some((s, r)) => {
                if from <= s <= r.0 <= t.len() && r.0 < usize::MAX {
                    let nxt = next_from(s, r.0) as usize;
                    lemma_matches_caps_len(n, t, nxt, ncaps);
                    assert forall|k: int| 0 <= k < ms.len() implies (#[trigger] ms[k]).1.1.len() == ncaps by {
                        if k > 0 {
                            assert(ms[k] == all_matches_from(n, t, nxt, ncaps)[k - 1]);
                        }
                    }
                }
            },
        }
    }
}

/// Each match's spans have one entry per group, counting group 0, and
/// group 0 is the whole match.
pub proof fn lemma_match_spans_shape(re: PyRegex, t: Seq<char>)
    requires
        byte_len(t) <= isize::MAX,
    ensures
        forall|k: int|
            0 <= k < re.match_spans(t).len() ==> (#[trigger] re.match_spans(t)[k]).len() == re.ncaps()
                && re.match_spans(t)[k][0] == Some((re.matches(t)[k].0, re.matches(t)[k].1.0)),
{
    lemma_byte_len_bounds(t, 0);
    lemma_matches_caps_len(re.tree(), t, 0, re.ncaps());
    assert forall|k: int| 0 <= k < re.match_spans(t).len() implies (#[trigger] re.match_spans(t)[k]).len()
        == re.ncaps() && re.match_spans(t)[k][0] == Some((re.matches(t)[k].0, re.matches(t)[k].1.0)) by {
        assert(re.matches(t)[k].1.1.len() == re.ncaps());
    }
}

/// The output of `escape` compiles to a pattern without groups, and that
/// pattern matches at a position exactly when the text there is the text
/// that was escaped, the match ending right after it.
pub proof fn lemma_escaped_matches_itself(
    t: Seq<char>,
    special_only: bool,
    literal_spaces: bool,
    re: PyRegex,
    u: Seq<char>,
    pos: usize,
)
    requires
        escape_seq(t, special_only, literal_spaces).len() < usize::MAX,
        s_pattern(escape_seq(t, special_only, literal_spaces)) is Ok ==> re.tree() == s_pattern(
            escape_seq(t, special_only, literal_spaces),
        )->Ok_0.0,
        pos <= u.len() <= usize::MAX,
    ensures
        s_pattern(escape_seq(t, special_only, literal_spaces)) is Ok,
        s_pattern(escape_seq(t, special_only, literal_spaces))->Ok_0.1 == 0,
        ends(re.tree(), u, pos, init_caps(re.ncaps())) == (if pos + t.len() <= u.len() && u.subrange(
            pos as int,
            pos + t.len(),
        ) == t {
            one((pos + t.len()) as usize, init_caps(re.ncaps()))
        } else {
            Seq::empty()
        }),
{
    lemma_escaped_parses_literally(t, special_only, literal_spaces);
    lemma_plain_pattern_matches_itself(re, t, u, pos);
}

/// For a pattern without capturing groups, the pieces of `split`, joined
/// again with the matched separators in between, give back the text.
pub proof fn lemma_split_rejoin_without_groups(re: PyRegex, t: Seq<char>)
    requires
        re.ncaps() == 1,
        t.len() <= isize::MAX,
    ensures
        rejoin(split_rest(t, re.matches(t), 0), match_texts(t, re.matches(t))) == t,
{
    lemma_matches_caps_len(re.tree(), t, 0, re.ncaps());
    assert forall|k: int| 0 <= k < re.matches(t).len() implies group_pieces(
        t,
        #[trigger] re.matches(t)[k].1.1,
    ).len() == 0 by {
        assert(re.matches(t)[k].1.1.len() == 1);
    }
    lemma_split_rejoin(re, t);
}

} // verus!
