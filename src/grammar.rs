//! The pattern grammar, as spec functions: for a pattern, its syntax tree,
//! group count and group names, or the kind and position of its error.
//!
//! Alternation binds loosest, then concatenation, then repetition. Capturing
//! groups are numbered from 1 in the order their opening parentheses appear,
//! so an outer group comes before the groups inside it.
use vstd::prelude::*;
use crate::error::{CompileReason, RegexError, SyntaxReason};
use crate::escape::is_word;
use crate::syntax::{ClassItem, ClassList, Node};
use crate::template::lookup_spec;
use crate::escape::{escape_seq, escape_char, needs_escape, is_meta, is_space};
use crate::parser::lit_tree;

verus! {

pub type Names = Seq<(Seq<char>, usize)>;

/// The result of parsing part of a pattern: a tree, the position after it,
/// and the group count and names after it.
pub type SRes = Result<(Node, usize, usize, Names), RegexError>;

/// A syntax error at `position` for `reason`.
pub open spec fn syn(position: usize, reason: SyntaxReason) -> RegexError {
    RegexError::PatternSyntax { position, message: reason }
}

pub open spec fn comp(reason: CompileReason) -> RegexError {
    RegexError::Compile { reason }
}

pub open spec fn s_shorthand(c: char) -> Option<ClassItem> {
    if c == 'd' {
        Some(ClassItem::Digit(false))
    } else if c == 'D' {
        Some(ClassItem::Digit(true))
    } else if c == 'w' {
        Some(ClassItem::Word(false))
    } else if c == 'W' {
        Some(ClassItem::Word(true))
    } else if c == 's' {
        Some(ClassItem::Space(false))
    } else if c == 'S' {
        Some(ClassItem::Space(true))
    } else {
        None
    }
}

pub open spec fn s_control(c: char) -> Option<char> {
    if c == 'n' {
        Some('\n')
    } else if c == 't' {
        Some('\t')
    } else if c == 'r' {
        Some('\r')
    } else if c == 'f' {
        Some('\x0c')
    } else if c == 'v' {
        Some('\x0b')
    } else {
        None
    }
}

pub open spec fn s_letter_or_digit(c: char) -> bool {
    ('a' <= c && c <= 'z') || ('A' <= c && c <= 'Z') || ('0' <= c && c <= '9')
}

pub open spec fn digit_of(c: char) -> usize {
    (c as u32 - '0' as u32) as usize
}

/// An escape outside a class, at the backslash at `pos`.
pub open spec fn s_escape(p: Seq<char>, pos: usize, ng: usize) -> Result<(Node, usize), RegexError> {
    if pos + 1 >= p.len() {
        Err(syn(pos, SyntaxReason::BadEscapeAtEnd))
    } else {
        let c = p[pos + 1];
        let q = (pos + 2) as usize;
        if s_shorthand(c) is Some {
            Ok((Node::Class(ClassList::Cons(s_shorthand(c)->0, Box::new(ClassList::Nil)), false), q))
        } else if c == 'b' {
            Ok((Node::WordBoundary(false), q))
        } else if c == 'B' {
            Ok((Node::WordBoundary(true), q))
        } else if c == 'A' {
            Ok((Node::Start, q))
        } else if '1' <= c && c <= '9' {
            if digit_of(c) > ng {
                Err(syn(pos, SyntaxReason::InvalidGroupReference))
            } else {
                Ok((Node::BackRef(digit_of(c)), q))
            }
        } else if s_control(c) is Some {
            Ok((Node::Char(s_control(c)->0), q))
        } else if s_letter_or_digit(c) {
            Err(syn(pos, SyntaxReason::BadEscape))
        } else {
            Ok((Node::Char(c), q))
        }
    }
}

/// One member of a class at `pos`: a plain character, or a shorthand class.
pub open spec fn s_class_atom(p: Seq<char>, pos: usize) -> Result<(Option<char>, ClassItem, usize), RegexError> {
    let c = p[pos as int];
    if c != '\\' {
        Ok((Some(c), ClassItem::Range(c, c), (pos + 1) as usize))
    } else if pos + 1 >= p.len() {
        Err(syn(pos, SyntaxReason::BadEscapeAtEnd))
    } else {
        let e = p[pos + 1];
        if s_shorthand(e) is Some {
            Ok((None, s_shorthand(e)->0, (pos + 2) as usize))
        } else if s_control(e) is Some {
            Ok((Some(s_control(e)->0), ClassItem::Range(s_control(e)->0, s_control(e)->0), (pos + 2) as usize))
        } else if s_letter_or_digit(e) {
            Err(syn(pos, SyntaxReason::BadEscape))
        } else {
            Ok((Some(e), ClassItem::Range(e, e), (pos + 2) as usize))
        }
    }
}

/// One member of a class at `q` (a character, a range or a shorthand),
/// added at the front of `items`, and the position after it.
pub open spec fn s_class_step(p: Seq<char>, q: usize, items: ClassList) -> Result<(usize, ClassList), RegexError> {
    match s_class_atom(p, q) {
        Err(e) => Err(e),
        Ok((lo, item, q2)) => match lo {
            Some(a) => if q2 + 1 < p.len() && p[q2 as int] == '-' && p[q2 + 1] != ']' {
                match s_class_atom(p, (q2 + 1) as usize) {
                    Err(e) => Err(e),
                    Ok((hi, _, q3)) => match hi {
                        Some(b) => if b < a {
                            Err(syn(q2, SyntaxReason::BadCharacterRange))
                        } else {
                            Ok((q3, ClassList::Cons(ClassItem::Range(a, b), Box::new(items))))
                        },
                        None => Err(syn(q2, SyntaxReason::BadCharacterRange)),
                    },
                }
            } else {
                Ok((q2, ClassList::Cons(item, Box::new(items))))
            },
            None => Ok((q2, ClassList::Cons(item, Box::new(items)))),
        },
    }
}

/// The members of a class from `q` on; members are added at the front.
pub open spec fn s_class_loop(p: Seq<char>, pos: usize, q: usize, items: ClassList, neg: bool, first: bool) -> Result<(Node, usize), RegexError>
    decreases p.len() - q,
{
    if q >= p.len() {
        Err(syn(pos, SyntaxReason::UnterminatedCharacterSet))
    } else if p[q as int] == ']' && !first {
        Ok((Node::Class(items, neg), (q + 1) as usize))
    } else {
        match s_class_step(p, q, items) {
            Err(e) => Err(e),
            Ok((q2, items2)) => if q2 <= q || q2 > p.len() {
                Err(syn(pos, SyntaxReason::UnterminatedCharacterSet))
            } else {
                s_class_loop(p, pos, q2, items2, neg, false)
            },
        }
    }
}

/// The class opened by the bracket at `pos`.
pub open spec fn s_class(p: Seq<char>, pos: usize) -> Result<(Node, usize), RegexError> {
    let q = (pos + 1) as usize;
    let neg = q < p.len() && p[q as int] == '^';
    s_class_loop(p, pos, if neg { (q + 1) as usize } else { q }, ClassList::Nil, neg, true)
}

/// The digits from `q` on, added to `v`; `None` on overflow or without digits.
pub open spec fn s_number_loop(p: Seq<char>, q: usize, v: usize, any: bool) -> (Option<usize>, usize)
    decreases p.len() - q,
{
    if q < p.len() && q < usize::MAX && '0' <= p[q as int] && p[q as int] <= '9' {
        let d = digit_of(p[q as int]);
        if v > (usize::MAX - d) / 10 {
            (None, q)
        } else {
            s_number_loop(p, (q + 1) as usize, (v * 10 + d) as usize, true)
        }
    } else if any {
        (Some(v), q)
    } else {
        (None, q)
    }
}

/// A counted repetition at the brace at `pos`, if it is one.
pub open spec fn s_braces(p: Seq<char>, pos: usize) -> Option<(usize, Option<usize>, usize)> {
    let (lo, q) = s_number_loop(p, (pos + 1) as usize, 0, false);
    match lo {
        None => None,
        Some(lo) => if q < p.len() && p[q as int] == '}' {
            Some((lo, Some(lo), (q + 1) as usize))
        } else if !(q < p.len() && p[q as int] == ',') {
            None
        } else {
            let (hi, q2) = s_number_loop(p, (q + 1) as usize, 0, false);
            if q2 < p.len() && p[q2 as int] == '}' {
                Some((lo, hi, (q2 + 1) as usize))
            } else {
                None
            }
        },
    }
}

/// A quantifier at `pos`, if there is one.
pub open spec fn s_quant(p: Seq<char>, pos: usize) -> Result<Option<(usize, Option<usize>, usize)>, RegexError> {
    let c = p[pos as int];
    if c == '*' {
        Ok(Some((0, None, (pos + 1) as usize)))
    } else if c == '+' {
        Ok(Some((1, None, (pos + 1) as usize)))
    } else if c == '?' {
        Ok(Some((0, Some(1), (pos + 1) as usize)))
    } else if c == '{' {
        match s_braces(p, pos) {
            Some((lo, hi, q)) => if hi is Some && lo > hi->0 {
                Err(syn(pos, SyntaxReason::MinRepeatGreaterThanMax))
            } else {
                Ok(Some((lo, hi, q)))
            },
            None => Ok(None),
        }
    } else {
        Ok(None)
    }
}

/// The characters from `q` up to the first `stop`, after `acc`.
pub open spec fn s_read_loop(p: Seq<char>, q: usize, stop: char, acc: Seq<char>) -> Option<(Seq<char>, usize)>
    decreases p.len() - q,
{
    if q >= p.len() || q >= usize::MAX {
        None
    } else if p[q as int] == stop {
        Some((acc, q))
    } else {
        s_read_loop(p, (q + 1) as usize, stop, acc.push(p[q as int]))
    }
}

pub open spec fn s_valid_name(name: Seq<char>) -> bool {
    name.len() > 0 && forall|i: int| 0 <= i < name.len() ==> is_word(#[trigger] name[i])
}

/// Opens group `ng + 1`, with a name if given.
pub open spec fn s_open_group(ng: usize, names: Names, name: Option<Seq<char>>) -> Result<(usize, Names), RegexError> {
    if ng >= usize::MAX - 1 {
        Err(comp(CompileReason::TooManyGroups))
    } else {
        match name {
            Some(nm) => if lookup_spec(names, nm) is Some {
                Err(comp(CompileReason::DuplicateGroupName))
            } else {
                Ok(((ng + 1) as usize, names.push((nm, (ng + 1) as usize))))
            },
            None => Ok(((ng + 1) as usize, names)),
        }
    }
}

pub open spec fn is_named_def(p: Seq<char>, q: usize) -> bool {
    (q + 2 < p.len() && p[q + 1] == 'P' && p[q + 2] == '<') || (q + 1 < p.len() && p[q + 1] == '<')
}

pub open spec fn is_named_ref(p: Seq<char>, q: usize) -> bool {
    q + 2 < p.len() && p[q + 1] == 'P' && p[q + 2] == '='
}

/// What opens the group at `pos`: where its body starts, its index (0 for a
/// group that does not capture), and the group count and names then.
pub open spec fn s_group_head(p: Seq<char>, pos: usize, ng: usize, names: Names) -> Result<(usize, usize, usize, Names), RegexError> {
    let q = (pos + 1) as usize;
    if q < p.len() && p[q as int] == '?' {
        if q + 1 < p.len() && p[q + 1] == ':' {
            Ok(((q + 2) as usize, 0, ng, names))
        } else if is_named_def(p, q) {
            let start = if p[q + 1] == 'P' { (q + 3) as usize } else { (q + 2) as usize };
            match s_read_loop(p, start, '>', Seq::empty()) {
                None => Err(syn(pos, SyntaxReason::MissingGreaterThan)),
                Some((name, close)) => if !s_valid_name(name) {
                    Err(syn(start, SyntaxReason::BadGroupName))
                } else {
                    match s_open_group(ng, names, Some(name)) {
                        Err(e) => Err(e),
                        Ok((idx, names2)) => Ok(((close + 1) as usize, idx, idx, names2)),
                    }
                },
            }
        } else {
            Err(syn(q, SyntaxReason::UnknownExtension))
        }
    } else {
        match s_open_group(ng, names, None) {
            Err(e) => Err(e),
            Ok((idx, names2)) => Ok((q, idx, idx, names2)),
        }
    }
}

#[verifier::opaque]
pub open spec fn s_group(p: Seq<char>, pos: usize, ng: usize, names: Names) -> SRes
    decreases p.len() - pos, 0int,
{
    let q = (pos + 1) as usize;
    if q < p.len() && p[q as int] == '?' && !(q + 1 < p.len() && p[q + 1] == ':') && !is_named_def(p, q)
        && is_named_ref(p, q) {
        match s_read_loop(p, (q + 3) as usize, ')', Seq::empty()) {
            None => Err(syn(pos, SyntaxReason::UnterminatedName)),
            Some((name, close)) => match lookup_spec(names, name) {
                Some(i) => Ok((Node::BackRef(i), (close + 1) as usize, ng, names)),
                None => Err(syn((q + 3) as usize, SyntaxReason::UnknownGroupName)),
            },
        }
    } else {
        match s_group_head(p, pos, ng, names) {
            Err(e) => Err(e),
            Ok((inner, idx, ng2, names2)) => if inner <= pos || inner > p.len() {
                Err(syn(pos, SyntaxReason::MissingClosingParenthesis))
            } else {
                match s_alt(p, inner, ng2, names2) {
                    Err(e) => Err(e),
                    Ok((n, close, ng3, names3)) => if close >= p.len() || p[close as int] != ')' {
                        Err(syn(pos, SyntaxReason::MissingClosingParenthesis))
                    } else if idx > 0 {
                        Ok((Node::Group(idx, Box::new(n)), (close + 1) as usize, ng3, names3))
                    } else {
                        Ok((n, (close + 1) as usize, ng3, names3))
                    },
                }
            },
        }
    }
}

pub open spec fn s_atom(p: Seq<char>, pos: usize, ng: usize, names: Names) -> SRes
    decreases p.len() - pos, 1int,
{
    let c = p[pos as int];
    let q = (pos + 1) as usize;
    if c == '(' {
        s_group(p, pos, ng, names)
    } else if c == '[' {
        match s_class(p, pos) {
            Ok((n, q)) => Ok((n, q, ng, names)),
            Err(e) => Err(e),
        }
    } else if c == '.' {
        Ok((Node::Any, q, ng, names))
    } else if c == '^' {
        Ok((Node::Start, q, ng, names))
    } else if c == '$' {
        Ok((Node::End, q, ng, names))
    } else if c == '*' || c == '+' || c == '?' {
        Err(syn(pos, SyntaxReason::NothingToRepeat))
    } else if c == ')' {
        Err(syn(pos, SyntaxReason::UnbalancedParenthesis))
    } else if c == '\\' {
        match s_escape(p, pos, ng) {
            Ok((n, q)) => Ok((n, q, ng, names)),
            Err(e) => Err(e),
        }
    } else {
        Ok((Node::Char(c), q, ng, names))
    }
}

pub open spec fn s_repeat(p: Seq<char>, pos: usize, ng: usize, names: Names) -> SRes
    decreases p.len() - pos, 2int,
{
    match s_atom(p, pos, ng, names) {
        Err(e) => Err(e),
        Ok((a, q, ng2, names2)) => if q >= p.len() {
            Ok((a, q, ng2, names2))
        } else {
            match s_quant(p, q) {
                Err(e) => Err(e),
                Ok(None) => Ok((a, q, ng2, names2)),
                Ok(Some((lo, hi, q2))) => {
                    let lazy = q2 < p.len() && p[q2 as int] == '?';
                    let q3 = if lazy { (q2 + 1) as usize } else { q2 };
                    if q3 < p.len() && (p[q3 as int] == '*' || p[q3 as int] == '+' || p[q3 as int] == '?') {
                        Err(syn(q3, SyntaxReason::MultipleRepeat))
                    } else {
                        Ok((Node::Repeat(Box::new(a), lo, hi, !lazy), q3, ng2, names2))
                    }
                },
            }
        },
    }
}

pub open spec fn s_concat_loop(p: Seq<char>, q: usize, node: Node, first: bool, ng: usize, names: Names) -> SRes
    decreases p.len() - q, 3int,
{
    if q < p.len() && p[q as int] != '|' && p[q as int] != ')' {
        match s_repeat(p, q, ng, names) {
            Err(e) => Err(e),
            Ok((a, q2, ng2, names2)) => if q2 <= q || q2 > p.len() {
                Err(syn(q, SyntaxReason::UnbalancedParenthesis))
            } else {
                s_concat_loop(
                    p,
                    q2,
                    if first { a } else { Node::Concat(Box::new(node), Box::new(a)) },
                    false,
                    ng2,
                    names2,
                )
            },
        }
    } else {
        Ok((node, q, ng, names))
    }
}

pub open spec fn s_concat(p: Seq<char>, pos: usize, ng: usize, names: Names) -> SRes
    decreases p.len() - pos, 4int,
{
    s_concat_loop(p, pos, Node::Empty, true, ng, names)
}

pub open spec fn s_alt_loop(p: Seq<char>, q: usize, node: Node, ng: usize, names: Names) -> SRes
    decreases p.len() - q, 5int,
{
    if q < p.len() && q < usize::MAX && p[q as int] == '|' {
        match s_concat(p, (q + 1) as usize, ng, names) {
            Err(e) => Err(e),
            Ok((b, q2, ng2, names2)) => if q2 <= q || q2 > p.len() {
                Err(syn(q, SyntaxReason::UnbalancedParenthesis))
            } else {
                s_alt_loop(p, q2, Node::Alt(Box::new(node), Box::new(b)), ng2, names2)
            },
        }
    } else {
        Ok((node, q, ng, names))
    }
}

pub open spec fn s_alt(p: Seq<char>, pos: usize, ng: usize, names: Names) -> SRes
    decreases p.len() - pos, 6int,
{
    match s_concat(p, pos, ng, names) {
        Err(e) => Err(e),
        Ok((first, q0, ng2, names2)) => if q0 < pos || q0 > p.len() {
            Err(syn(pos, SyntaxReason::UnbalancedParenthesis))
        } else {
            s_alt_loop(p, q0, first, ng2, names2)
        },
    }
}

/// A whole pattern: its tree, its group count (not counting group 0) and its
/// group names, or its error.
pub open spec fn s_pattern(p: Seq<char>) -> Result<(Node, usize, Names), RegexError> {
    if p.len() >= usize::MAX {
        Err(comp(CompileReason::PatternTooLong))
    } else {
        match s_alt(p, 0, 0, Seq::empty()) {
            Err(e) => Err(e),
            Ok((n, q, ng, names)) => if q < p.len() {
                Err(syn(q, SyntaxReason::UnbalancedParenthesis))
            } else {
                Ok((n, ng, names))
            },
        }
    }
}

proof fn lemma_escape_concat(a: Seq<char>, b: Seq<char>, so: bool, ls: bool)
    ensures
        escape_seq(a + b, so, ls) == escape_seq(a, so, ls) + escape_seq(b, so, ls),
    decreases b.len(),
{
    if b.len() == 0 {
        assert(a + b =~= a);
        assert(escape_seq(a, so, ls) + escape_seq(b, so, ls) =~= escape_seq(a, so, ls));
    } else {
        lemma_escape_concat(a, b.drop_last(), so, ls);
        assert((a + b).drop_last() =~= a + b.drop_last());
        assert((a + b).last() == b.last());
        assert(escape_seq(a + b, so, ls) =~= escape_seq(a, so, ls) + escape_seq(b, so, ls));
    }
}

/// The escaped form of `t[0..k]`, followed by that of `t[k]`, starts the
/// escaped form of `t`.
proof fn lemma_escape_split(t: Seq<char>, k: int, so: bool, ls: bool)
    requires
        0 <= k < t.len(),
    ensures
        escape_seq(t, so, ls) == escape_seq(t.subrange(0, k), so, ls) + escape_char(t[k], so, ls)
            + escape_seq(t.subrange(k + 1, t.len() as int), so, ls),
{
    lemma_escape_concat(t.subrange(0, k + 1), t.subrange(k + 1, t.len() as int), so, ls);
    assert(t.subrange(0, k + 1) + t.subrange(k + 1, t.len() as int) =~= t);
    assert(t.subrange(0, k + 1).drop_last() =~= t.subrange(0, k));
}

/// What each character of escaped text becomes: a backslash and the
/// character, or the character alone, and never a quantifier, `|` or `)`.
proof fn lemma_escape_char_shape(c: char, so: bool, ls: bool)
    ensures
        needs_escape(c, so, ls) ==> !s_letter_or_digit(c) && c != '_',
        !needs_escape(c, so, ls) ==> c != '(' && c != '[' && c != '.' && c != '^' && c != '$' && c != '*'
            && c != '+' && c != '?' && c != ')' && c != '\\' && c != '|' && c != '{',
{
}

/// From where the escaped form of `t[k]` starts, one atom reads exactly
/// that character.
#[verifier::rlimit(100)]
proof fn lemma_escaped_atom(t: Seq<char>, k: int, so: bool, ls: bool)
    requires
        0 <= k < t.len(),
        escape_seq(t, so, ls).len() < usize::MAX,
    ensures
        escape_seq(t.subrange(0, k), so, ls).len() < escape_seq(t.subrange(0, k + 1), so, ls).len()
            <= escape_seq(t, so, ls).len(),
        s_atom(
            escape_seq(t, so, ls),
            escape_seq(t.subrange(0, k), so, ls).len() as usize,
            0,
            Seq::empty(),
        ) == Ok::<(Node, usize, usize, Names), RegexError>(
            (Node::Char(t[k]), escape_seq(t.subrange(0, k + 1), so, ls).len() as usize, 0usize, Seq::empty()),
        ),
        escape_seq(t, so, ls)[escape_seq(t.subrange(0, k), so, ls).len() as int] != '|',
        escape_seq(t, so, ls)[escape_seq(t.subrange(0, k), so, ls).len() as int] != ')',
{
    let e = escape_seq(t, so, ls);
    let q = escape_seq(t.subrange(0, k), so, ls).len();
    lemma_escape_split(t, k, so, ls);
    let c = t[k];
    let ec = escape_char(c, so, ls);
    lemma_escape_char_shape(c, so, ls);
    let q1 = q + ec.len();
    assert(t.subrange(0, k + 1).drop_last() =~= t.subrange(0, k));
    assert(escape_seq(t.subrange(0, k + 1), so, ls) == escape_seq(t.subrange(0, k), so, ls) + ec);
    assert(e[q as int] == ec[0]);
    if ec.len() == 2 {
        assert(e[q + 1 as int] == c);
        assert(s_escape(e, q as usize, 0) == Ok::<(Node, usize), RegexError>((Node::Char(c), q1 as usize)));
    }
}

/// After the escaped form of `t[k]`, no quantifier follows.
#[verifier::rlimit(100)]
proof fn lemma_escaped_no_quant(t: Seq<char>, k: int, so: bool, ls: bool)
    requires
        0 <= k,
        k + 1 < t.len(),
        escape_seq(t, so, ls).len() < usize::MAX,
    ensures
        escape_seq(t.subrange(0, k + 1), so, ls).len() < escape_seq(t, so, ls).len(),
        s_quant(escape_seq(t, so, ls), escape_seq(t.subrange(0, k + 1), so, ls).len() as usize)
            == Ok::<Option<(usize, Option<usize>, usize)>, RegexError>(None),
{
    let e = escape_seq(t, so, ls);
    let q1 = escape_seq(t.subrange(0, k + 1), so, ls).len();
    let d = t[k + 1];
    lemma_escape_split(t, k + 1, so, ls);
    lemma_escape_char_shape(d, so, ls);
    assert(e[q1 as int] == escape_char(d, so, ls)[0]);
}

/// From where the escaped form of `t[k]` starts, one repetition step reads
/// exactly that character and stops where the escaped form of `t[k + 1]`
/// starts.
proof fn lemma_escaped_step(t: Seq<char>, k: int, so: bool, ls: bool)
    requires
        0 <= k < t.len(),
        escape_seq(t, so, ls).len() < usize::MAX,
    ensures
        escape_seq(t.subrange(0, k), so, ls).len() < escape_seq(t.subrange(0, k + 1), so, ls).len()
            <= escape_seq(t, so, ls).len(),
        s_repeat(
            escape_seq(t, so, ls),
            escape_seq(t.subrange(0, k), so, ls).len() as usize,
            0,
            Seq::empty(),
        ) == Ok::<(Node, usize, usize, Names), RegexError>(
            (Node::Char(t[k]), escape_seq(t.subrange(0, k + 1), so, ls).len() as usize, 0usize, Seq::empty()),
        ),
        escape_seq(t, so, ls)[escape_seq(t.subrange(0, k), so, ls).len() as int] != '|',
        escape_seq(t, so, ls)[escape_seq(t.subrange(0, k), so, ls).len() as int] != ')',
{
    lemma_escaped_atom(t, k, so, ls);
    if k + 1 < t.len() {
        lemma_escaped_no_quant(t, k, so, ls);
    } else {
        assert(t.subrange(0, k + 1) =~= t);
    }
}

/// Parsing escaped text from the start of the escaped form of `t[k]` on,
/// with the tree of `t[0..k]` so far, gives the tree of all of `t`.
#[verifier::rlimit(100)]
proof fn lemma_escaped_concat_loop(t: Seq<char>, k: int, so: bool, ls: bool)
    requires
        0 <= k <= t.len(),
        escape_seq(t, so, ls).len() < usize::MAX,
    ensures
        s_concat_loop(
            escape_seq(t, so, ls),
            escape_seq(t.subrange(0, k), so, ls).len() as usize,
            lit_tree(t, 0, k),
            k == 0,
            0,
            Seq::empty(),
        ) == Ok::<(Node, usize, usize, Names), RegexError>(
            (lit_tree(t, 0, t.len() as int), escape_seq(t, so, ls).len() as usize, 0usize, Seq::empty()),
        ),
    decreases t.len() - k,
{
    if k == t.len() {
        assert(t.subrange(0, k) =~= t);
    } else {
        lemma_escaped_step(t, k, so, ls);
        lemma_escaped_concat_loop(t, k + 1, so, ls);
        if k == 0 {
            assert(lit_tree(t, 0, 1) == Node::Char(t[0]));
        } else {
            assert(lit_tree(t, 0, k + 1) == Node::Concat(Box::new(lit_tree(t, 0, k)), Box::new(Node::Char(t[k]))));
        }
    }
}

/// Escaped text is a pattern without groups whose tree is that text's
/// characters in sequence.
pub proof fn lemma_escaped_parses_literally(t: Seq<char>, so: bool, ls: bool)
    requires
        escape_seq(t, so, ls).len() < usize::MAX,
    ensures
        s_pattern(escape_seq(t, so, ls)) == Ok::<(Node, usize, Names), RegexError>((lit_tree(t, 0, t.len() as int), 0usize, Seq::empty())),
{
    lemma_escaped_concat_loop(t, 0, so, ls);
    assert(t.subrange(0, 0) =~= Seq::<char>::empty());
}

} // verus!
