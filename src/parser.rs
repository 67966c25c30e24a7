//! Recursive-descent parsing of pattern text into a syntax tree.
//!
//! Alternation binds loosest, then concatenation, then repetition. Capturing
//! groups are numbered from 1 in the order their opening parentheses appear.
use vstd::prelude::*;
use crate::error::{CompileReason, RegexError, SyntaxReason};
use crate::syntax::{ClassItem, ClassList, Node};
use crate::escape::is_word;
use crate::grammar::{
    s_class_step, Names, s_escape, s_class_atom, s_class, s_class_loop, s_number_loop, s_braces,
    s_quant, s_read_loop, s_valid_name, s_open_group, s_group, s_atom, s_repeat, s_concat, s_concat_loop,
    s_alt, s_alt_loop, s_pattern, s_shorthand, s_control,
};
use crate::template::{lookup_exec, lookup_spec, names_view};

verus! {

pub open spec fn opt_chars(o: Option<Vec<char>>) -> Option<Seq<char>> {
    match o {
        Some(v) => Some(v@),
        None => None,
    }
}

/// The result of a parsing function as the grammar states it.
pub open spec fn sview(r: Result<(Node, usize), RegexError>, st: ParseState) -> crate::grammar::SRes {
    match r {
        Ok((n, q)) => Ok((n, q, st.ngroups, names_view(st.names@))),
        Err(e) => Err(e),
    }
}

/// Groups numbered so far, and the names given to some of them.
pub struct ParseState {
    pub ngroups: usize,
    pub names: Vec<(Vec<char>, usize)>,
}

/// Every group and back-reference index lies in `1..=ng`, and every counted
/// repetition has its minimum at most its maximum.
pub open spec fn wf_node(n: Node, ng: nat) -> bool
    decreases n,
{
    match n {
        Node::Group(i, x) => 1 <= i <= ng && wf_node(*x, ng),
        Node::Concat(a, b) => wf_node(*a, ng) && wf_node(*b, ng),
        Node::Alt(a, b) => wf_node(*a, ng) && wf_node(*b, ng),
        Node::Repeat(x, lo, hi, _) => wf_node(*x, ng) && (hi is Some ==> lo <= hi->0),
        Node::BackRef(i) => 1 <= i <= ng,
        Node::Empty | Node::Char(_) | Node::Any | Node::Class(_, _) | Node::Start | Node::End
        | Node::WordBoundary(_) => true,
    }
}

/// Names are distinct, and each names a numbered group.
pub open spec fn names_ok(names: Seq<(Vec<char>, usize)>, ng: nat) -> bool {
    &&& forall|k: int| 0 <= k < names.len() ==> 1 <= #[trigger] names[k].1 <= ng
    &&& forall|j: int, k: int|
        0 <= j < k < names.len() ==> #[trigger] names[j].0@ != #[trigger] names[k].0@
}

pub open spec fn state_ok(st: ParseState) -> bool {
    names_ok(st.names@, st.ngroups as nat) && st.ngroups < usize::MAX
}

pub proof fn lemma_wf_node_grow(n: Node, ng: nat, ng2: nat)
    requires
        wf_node(n, ng),
        ng <= ng2,
    ensures
        wf_node(n, ng2),
    decreases n,
{
    match n {
        Node::Group(i, x) => lemma_wf_node_grow(*x, ng, ng2),
        Node::Concat(a, b) => {
            lemma_wf_node_grow(*a, ng, ng2);
            lemma_wf_node_grow(*b, ng, ng2);
        },
        Node::Alt(a, b) => {
            lemma_wf_node_grow(*a, ng, ng2);
            lemma_wf_node_grow(*b, ng, ng2);
        },
        Node::Repeat(x, _, _, _) => lemma_wf_node_grow(*x, ng, ng2),
        _ => {},
    }
}

proof fn lemma_wf_char(c: char, ng: nat)
    ensures
        wf_node(Node::Char(c), ng),
{
}

/// From `pos` on, the pattern holds only letters, digits and `_`.
pub open spec fn plain_from(p: Seq<char>, pos: int) -> bool {
    forall|i: int| pos <= i < p.len() ==> is_word(#[trigger] p[i])
}

/// The tree of a literal pattern `p[pos..q]`: its characters in sequence.
pub open spec fn lit_tree(p: Seq<char>, pos: int, q: int) -> Node
    decreases q - pos,
{
    if q <= pos {
        Node::Empty
    } else if q == pos + 1 {
        Node::Char(p[pos])
    } else {
        Node::Concat(Box::new(lit_tree(p, pos, q - 1)), Box::new(Node::Char(p[q - 1])))
    }
}

/// An error that parsing can report: malformed syntax at a position within
/// the pattern, or a compile error.
pub open spec fn parse_error_ok(e: RegexError, len: nat) -> bool {
    match e {
        RegexError::PatternSyntax { position, .. } => position <= len,
        RegexError::Compile { .. } => true,
        _ => false,
    }
}

fn syntax_err(position: usize, reason: SyntaxReason) -> (r: RegexError)
    ensures
        r == (RegexError::PatternSyntax { position, message: reason }),
{
    RegexError::PatternSyntax { position, message: reason }
}

pub fn chars_eq(a: &Vec<char>, b: &Vec<char>) -> (r: bool)
    ensures
        r == (a@ == b@),
{
    if a.len() != b.len() {
        return false;
    }
    let mut i: usize = 0;
    while i < a.len()
        invariant
            a@.len() == b@.len(),
            i <= a@.len(),
            forall|k: int| 0 <= k < i ==> a@[k] == b@[k],
        decreases a@.len() - i,
    {
        if a[i] != b[i] {
            return false;
        }
        i = i + 1;
    }
    assert(a@ =~= b@);
    true
}

/// The character that a one-letter escape such as `\n` stands for.
fn escaped_control(c: char) -> (r: Option<char>)
    ensures
        r == s_control(c),
        r is Some ==> (c == 'n' || c == 't' || c == 'r' || c == 'f' || c == 'v'),
{
    if c == 'n' {
        Some('\n')
    } else if c == 't' {
        Some('\t')
    } else if c == 'r' {
        Some('\r')
    } else if c == 'f' {
        Some('\x0c')
    } else if c == 'v' {
        Some('\x0b')
    } else {
        None
    }
}

/// The shorthand class that `\d`, `\w`, `\s` and their capitals stand for.
fn shorthand(c: char) -> (r: Option<ClassItem>)
    ensures
        r == s_shorthand(c),
{
    if c == 'd' {
        Some(ClassItem::Digit(false))
    } else if c == 'D' {
        Some(ClassItem::Digit(true))
    } else if c == 'w' {
        Some(ClassItem::Word(false))
    } else if c == 'W' {
        Some(ClassItem::Word(true))
    } else if c == 's' {
        Some(ClassItem::Space(false))
    } else if c == 'S' {
        Some(ClassItem::Space(true))
    } else {
        None
    }
}

fn digit_value(c: char) -> (r: usize)
    requires
        '0' <= c <= '9',
    ensures
        r == crate::grammar::digit_of(c),
        r <= 9,
        c != '0' ==> r >= 1,
{
    (c as u32 - '0' as u32) as usize
}

fn is_ascii_letter(c: char) -> (r: bool)
    ensures
        r == (('a' <= c && c <= 'z') || ('A' <= c && c <= 'Z')),
{
    ('a' <= c && c <= 'z') || ('A' <= c && c <= 'Z')
}

/// Parses the escape that starts with the backslash at `pos`.
fn parse_escape(p: &Vec<char>, pos: usize, ngroups: usize) -> (r: Result<(Node, usize), RegexError>)
    requires
        p@.len() < usize::MAX,
        pos < p@.len(),
    ensures
        r == s_escape(p@, pos, ngroups),
        match r {
            Ok((n, q)) => pos < q <= p@.len() && wf_node(n, ngroups as nat),
            Err(e) => parse_error_ok(e, p@.len()),
        },
{
    if pos + 1 >= p.len() {
        return Err(syntax_err(pos, SyntaxReason::BadEscapeAtEnd));
    }
    let c = p[pos + 1];
    let q = pos + 2;
    if let Some(item) = shorthand(c) {
        return Ok((Node::Class(ClassList::Cons(item, Box::new(ClassList::Nil)), false), q));
    }
    if c == 'b' {
        return Ok((Node::WordBoundary(false), q));
    }
    if c == 'B' {
        return Ok((Node::WordBoundary(true), q));
    }
    if c == 'A' {
        return Ok((Node::Start, q));
    }
    if '1' <= c && c <= '9' {
        let d = digit_value(c);
        if d > ngroups {
            return Err(syntax_err(pos, SyntaxReason::InvalidGroupReference));
        }
        return Ok((Node::BackRef(d), q));
    }
    if let Some(x) = escaped_control(c) {
        proof {
            lemma_wf_char(x, ngroups as nat);
        }
        return Ok((Node::Char(x), q));
    }
    if is_ascii_letter(c) || ('0' <= c && c <= '9') {
        return Err(syntax_err(pos, SyntaxReason::BadEscape));
    }
    proof {
        lemma_wf_char(c, ngroups as nat);
    }
    Ok((Node::Char(c), q))
}

/// Parses one member of a character class at `pos`: a plain character
/// (returned as such) or a shorthand class.
fn parse_class_atom(p: &Vec<char>, pos: usize) -> (r: Result<(Option<char>, ClassItem, usize), RegexError>)
    requires
        p@.len() < usize::MAX,
        pos < p@.len(),
    ensures
        r == s_class_atom(p@, pos),
        match r {
            Ok((_, _, q)) => pos < q <= p@.len(),
            Err(e) => parse_error_ok(e, p@.len()),
        },
{
    let c = p[pos];
    if c != '\\' {
        return Ok((Some(c), ClassItem::Range(c, c), pos + 1));
    }
    if pos + 1 >= p.len() {
        return Err(syntax_err(pos, SyntaxReason::BadEscapeAtEnd));
    }
    let e = p[pos + 1];
    if let Some(item) = shorthand(e) {
        return Ok((None, item, pos + 2));
    }
    if let Some(x) = escaped_control(e) {
        return Ok((Some(x), ClassItem::Range(x, x), pos + 2));
    }
    if is_ascii_letter(e) || ('0' <= e && e <= '9') {
        return Err(syntax_err(pos, SyntaxReason::BadEscape));
    }
    Ok((Some(e), ClassItem::Range(e, e), pos + 2))
}

/// Parses the character class that opens with the bracket at `pos`.
fn parse_class(p: &Vec<char>, pos: usize) -> (r: Result<(Node, usize), RegexError>)
    requires
        p@.len() < usize::MAX,
        pos < p@.len(),
    ensures
        r == s_class(p@, pos),
        match r {
            Ok((n, q)) => pos < q <= p@.len() && wf_node(n, 0),
            Err(e) => parse_error_ok(e, p@.len()),
        },
{
    let mut q: usize = pos + 1;
    let mut neg = false;
    if q < p.len() && p[q] == '^' {
        neg = true;
        q = q + 1;
    }
    let mut items = ClassList::Nil;
    let mut first = true;
    loop
        invariant
            pos < q <= p@.len(),
            p@.len() < usize::MAX,
            s_class(p@, pos) == s_class_loop(p@, pos, q, items, neg, first),
        decreases p@.len() - q,
    {
        if q >= p.len() {
            return Err(syntax_err(pos, SyntaxReason::UnterminatedCharacterSet));
        }
        if p[q] == ']' && !first {
            return Ok((Node::Class(items, neg), q + 1));
        }
        let ghost gq = q;
        let ghost gitems = items;
        let ghost gfirst = first;
        first = false;
        let (lo, item, q2) = parse_class_atom(p, q)?;
        assert(s_class_atom(p@, gq) == Ok::<(Option<char>, ClassItem, usize), RegexError>((lo, item, q2)));
        assert(gq < q2 <= p@.len());
        assert(!(p@[gq as int] == ']' && !gfirst));
        q = q2;
        match lo {
            Some(a) => {
                if q + 1 < p.len() && p[q] == '-' && p[q + 1] != ']' {
                    let (hi, hitem, q3) = parse_class_atom(p, q + 1)?;
                    assert(s_class_atom(p@, (q2 + 1) as usize) == Ok::<(Option<char>, ClassItem, usize), RegexError>((hi, hitem, q3)));
                    assert(q2 + 1 < q3);
                    match hi {
                        Some(b) => {
                            if b < a {
                                return Err(syntax_err(q, SyntaxReason::BadCharacterRange));
                            }
                            items = ClassList::Cons(ClassItem::Range(a, b), Box::new(items));
                            assert(s_class_step(p@, gq, gitems) == Ok::<(usize, ClassList), RegexError>((q3, items)));
                        },
                        None => {
                            return Err(syntax_err(q, SyntaxReason::BadCharacterRange));
                        },
                    }
                    q = q3;
                } else {
                    items = ClassList::Cons(item, Box::new(items));
                }
            },
            None => {
                items = ClassList::Cons(item, Box::new(items));
            },
        }
        assert(s_class_step(p@, gq, gitems) == Ok::<(usize, ClassList), RegexError>((q, items)));
        assert(s_class_loop(p@, pos, gq, gitems, neg, gfirst) == s_class_loop(p@, pos, q, items, neg, first));
    }
}

/// Reads a decimal number at `pos`, if one is there.
fn parse_number(p: &Vec<char>, pos: usize) -> (r: (Option<usize>, usize))
    requires
        p@.len() < usize::MAX,
        pos <= p@.len(),
    ensures
        r == s_number_loop(p@, pos, 0, false),
        pos <= r.1 <= p@.len(),
        r.0 is Some ==> pos < r.1,
{
    let mut q: usize = pos;
    let mut v: usize = 0;
    let mut any = false;
    while q < p.len() && '0' <= p[q] && p[q] <= '9'
        invariant
            pos <= q <= p@.len(),
            p@.len() < usize::MAX,
            s_number_loop(p@, pos, 0, false) == s_number_loop(p@, q, v, any),
            any ==> pos < q,
        decreases p@.len() - q,
    {
        let d = digit_value(p[q]);
        if v > (usize::MAX - d) / 10 {
            return (None, q);
        }
        v = v * 10 + d;
        any = true;
        q = q + 1;
    }
    if any {
        (Some(v), q)
    } else {
        (None, q)
    }
}

/// Reads a counted repetition `{m}`, `{m,}` or `{m,n}` at `pos`; `None` where
/// the brace does not open one.
fn parse_braces(p: &Vec<char>, pos: usize) -> (r: Option<(usize, Option<usize>, usize)>)
    requires
        p@.len() < usize::MAX,
        pos < p@.len(),
    ensures
        r == s_braces(p@, pos),
        match r {
            Some((_, _, q)) => pos < q <= p@.len(),
            None => true,
        },
{
    let (lo, q) = parse_number(p, pos + 1);
    let lo = match lo {
        Some(v) => v,
        None => return None,
    };
    if q < p.len() && p[q] == '}' {
        return Some((lo, Some(lo), q + 1));
    }
    if !(q < p.len() && p[q] == ',') {
        return None;
    }
    let (hi, q2) = parse_number(p, q + 1);
    if q2 < p.len() && p[q2] == '}' {
        Some((lo, hi, q2 + 1))
    } else {
        None
    }
}

/// Reads the characters from `from` up to the first `stop`; returns them and
/// the position of `stop`, or `None` where no `stop` follows.
fn read_until(p: &Vec<char>, from: usize, stop: char) -> (r: Option<(Vec<char>, usize)>)
    requires
        from <= p@.len(),
        p@.len() < usize::MAX,
    ensures
        match r {
            Some((v, q)) => s_read_loop(p@, from, stop, Seq::empty()) == Some((v@, q)),
            None => s_read_loop(p@, from, stop, Seq::empty()) is None,
        },
        match r {
            Some((_, q)) => from <= q < p@.len() && p@[q as int] == stop,
            None => true,
        },
{
    let mut name: Vec<char> = Vec::new();
    let mut q: usize = from;
    while q < p.len()
        invariant
            from <= q <= p@.len(),
            p@.len() < usize::MAX,
            s_read_loop(p@, from, stop, Seq::empty()) == s_read_loop(p@, q, stop, name@),
        decreases p@.len() - q,
    {
        if p[q] == stop {
            return Some((name, q));
        }
        let ghost before = name@;
        name.push(p[q]);
        assert(name@ == before.push(p@[q as int]));
        q = q + 1;
    }
    None
}

fn valid_name(name: &Vec<char>) -> (r: bool)
    ensures
        r == s_valid_name(name@),
{
    if name.len() == 0 {
        return false;
    }
    let mut i: usize = 0;
    while i < name.len()
        invariant
            i <= name@.len(),
            name@.len() > 0,
            forall|k: int| 0 <= k < i ==> is_word(#[trigger] name@[k]),
        decreases name@.len() - i,
    {
        if !crate::escape::is_word_exec(name[i]) {
            return false;
        }
        i = i + 1;
    }
    true
}

/// Opens a new capturing group, optionally named, and returns its index.
fn open_group(st: &mut ParseState, name: Option<Vec<char>>, pos: usize) -> (r: Result<usize, RegexError>)
    requires
        state_ok(*old(st)),
    ensures
        state_ok(*final(st)),
        old(st).ngroups <= final(st).ngroups,
        r is Ok ==> 1 <= r->Ok_0 <= final(st).ngroups,
        r is Err ==> r->Err_0 is Compile,
        match s_open_group(old(st).ngroups, names_view(old(st).names@), opt_chars(name)) {
            Ok((idx, names2)) => r == Ok::<usize, RegexError>(idx) && final(st).ngroups == idx && names_view(
                final(st).names@,
            ) == names2,
            Err(e) => r == Err::<usize, RegexError>(e),
        },
{
    proof {
        crate::template::lemma_lookup_facts(names_view(st.names@), match opt_chars(name) { Some(x) => x, None => Seq::empty() }, st.ngroups as nat);
    }
    if st.ngroups >= usize::MAX - 1 {
        return Err(RegexError::Compile { reason: CompileReason::TooManyGroups });
    }
    let idx = st.ngroups + 1;
    match name {
        Some(nm) => {
            if lookup_exec(&st.names, &nm).is_some() {
                return Err(RegexError::Compile { reason: CompileReason::DuplicateGroupName });
            }
            let ghost old_names = st.names@;
            st.names.push((nm, idx));
            st.ngroups = idx;
            proof {
                assert(names_view(st.names@) =~= names_view(old_names).push((nm@, idx)));
                assert forall|k: int| 0 <= k < old_names.len() implies #[trigger] old_names[k].0@ != nm@ by {
                    assert(names_view(old_names)[k].0 == old_names[k].0@);
                }
                assert(st.names@.last().0@ == nm@);
                assert forall|j: int, k: int| 0 <= j < k < st.names@.len() implies #[trigger] st.names@[j].0@
                    != #[trigger] st.names@[k].0@ by {
                    if k < old_names.len() {
                        assert(st.names@[j] == old_names[j] && st.names@[k] == old_names[k]);
                    } else {
                        assert(st.names@[j] == old_names[j]);
                    }
                }
                assert forall|k: int| 0 <= k < st.names@.len() implies 1 <= #[trigger] st.names@[k].1
                    <= st.ngroups by {
                    if k < old_names.len() {
                        assert(st.names@[k] == old_names[k]);
                    }
                }
            }
        },
        None => {
            st.ngroups = idx;
        },
    }
    Ok(idx)
}

/// Parses the group that opens with the parenthesis at `pos`.
#[verifier::rlimit(60)]
fn parse_group(p: &Vec<char>, pos: usize, st: &mut ParseState) -> (r: Result<(Node, usize), RegexError>)
    requires
        p@.len() < usize::MAX,
        pos < p@.len(),
        state_ok(*old(st)),
    ensures
        sview(r, *final(st)) == s_group(p@, pos, old(st).ngroups, names_view(old(st).names@)),
        state_ok(*final(st)),
        old(st).ngroups <= final(st).ngroups,
        match r {
            Ok((n, q)) => pos < q <= p@.len() && wf_node(n, final(st).ngroups as nat),
            Err(e) => parse_error_ok(e, p@.len()),
        },
    decreases p@.len() - pos, 0int,
{
    reveal(s_group);
    let q = pos + 1;
    let mut idx: usize = 0;
    let inner: usize;
    if q < p.len() && p[q] == '?' {
        if q + 1 < p.len() && p[q + 1] == ':' {
            inner = q + 2;
        } else if (q + 2 < p.len() && p[q + 1] == 'P' && p[q + 2] == '<') || (q + 1 < p.len()
            && p[q + 1] == '<') {
            let start = if p[q + 1] == 'P' {
                q + 3
            } else {
                q + 2
            };
            let (name, close) = match read_until(p, start, '>') {
                Some(x) => x,
                None => return Err(syntax_err(pos, SyntaxReason::MissingGreaterThan)),
            };
            if !valid_name(&name) {
                return Err(syntax_err(start, SyntaxReason::BadGroupName));
            }
            idx = open_group(st, Some(name), pos)?;
            inner = close + 1;
        } else if q + 2 < p.len() && p[q + 1] == 'P' && p[q + 2] == '=' {
            let (name, close) = match read_until(p, q + 3, ')') {
                Some(x) => x,
                None => return Err(syntax_err(pos, SyntaxReason::UnterminatedName)),
            };
            proof {
                crate::template::lemma_lookup_facts(names_view(st.names@), name@, st.ngroups as nat);
            }
            return match lookup_exec(&st.names, &name) {
                Some(i) => Ok((Node::BackRef(i), close + 1)),
                None => Err(syntax_err(q + 3, SyntaxReason::UnknownGroupName)),
            };
        } else {
            return Err(syntax_err(q, SyntaxReason::UnknownExtension));
        }
    } else {
        idx = open_group(st, None, pos)?;
        inner = q;
    }
    let ghost ng = st.ngroups;
    let (n, close) = parse_alt(p, inner, st)?;
    if close >= p.len() || p[close] != ')' {
        return Err(syntax_err(pos, SyntaxReason::MissingClosingParenthesis));
    }
    if idx > 0 {
        Ok((Node::Group(idx, Box::new(n)), close + 1))
    } else {
        Ok((n, close + 1))
    }
}

/// Parses one atom at `pos`: a character, a class, an anchor, an escape or a group.
#[verifier::rlimit(60)]
fn parse_atom(p: &Vec<char>, pos: usize, st: &mut ParseState) -> (r: Result<(Node, usize), RegexError>)
    requires
        p@.len() < usize::MAX,
        pos < p@.len(),
        state_ok(*old(st)),
    ensures
        sview(r, *final(st)) == s_atom(p@, pos, old(st).ngroups, names_view(old(st).names@)),
        state_ok(*final(st)),
        old(st).ngroups <= final(st).ngroups,
        match r {
            Ok((n, q)) => pos < q <= p@.len() && wf_node(n, final(st).ngroups as nat),
            Err(e) => parse_error_ok(e, p@.len()),
        },
        is_word(p@[pos as int]) ==> r is Ok && r->Ok_0.1 == pos + 1 && r->Ok_0.0 == Node::Char(p@[pos as int])
            && final(st).ngroups == old(st).ngroups,
    decreases p@.len() - pos, 1int,
{
    let c = p[pos];
    if c == '(' {
        let r = parse_group(p, pos, st);
        proof {
            reveal(s_group);
        }
        r
    } else if c == '[' {
        match parse_class(p, pos) {
            Ok((n, q)) => {
                proof {
                    lemma_wf_node_grow(n, 0, st.ngroups as nat);
                }
                Ok((n, q))
            },
            Err(e) => Err(e),
        }
    } else if c == '.' {
        Ok((Node::Any, pos + 1))
    } else if c == '^' {
        Ok((Node::Start, pos + 1))
    } else if c == '$' {
        Ok((Node::End, pos + 1))
    } else if c == '*' || c == '+' || c == '?' {
        Err(syntax_err(pos, SyntaxReason::NothingToRepeat))
    } else if c == ')' {
        Err(syntax_err(pos, SyntaxReason::UnbalancedParenthesis))
    } else if c == '\\' {
        parse_escape(p, pos, st.ngroups)
    } else {
        proof {
            lemma_wf_char(c, st.ngroups as nat);
        }
        Ok((Node::Char(c), pos + 1))
    }
}

/// Reads a quantifier at `pos`, if one is there: minimum, maximum and the
/// position after it.
fn parse_quantifier(p: &Vec<char>, pos: usize) -> (r: Result<Option<(usize, Option<usize>, usize)>, RegexError>)
    requires
        p@.len() < usize::MAX,
        pos < p@.len(),
    ensures
        r == s_quant(p@, pos),
        match r {
            Ok(Some((lo, hi, q))) => pos < q <= p@.len() && (hi is Some ==> lo <= hi->0),
            Ok(None) => true,
            Err(e) => parse_error_ok(e, p@.len()),
        },
        is_word(p@[pos as int]) ==> r == Ok::<Option<(usize, Option<usize>, usize)>, RegexError>(None),
{
    let c = p[pos];
    if c == '*' {
        Ok(Some((0, None, pos + 1)))
    } else if c == '+' {
        Ok(Some((1, None, pos + 1)))
    } else if c == '?' {
        Ok(Some((0, Some(1), pos + 1)))
    } else if c == '{' {
        match parse_braces(p, pos) {
            Some((lo, hi, q)) => {
                match hi {
                    Some(h) => if lo > h {
                        return Err(syntax_err(pos, SyntaxReason::MinRepeatGreaterThanMax));
                    },
                    None => {},
                }
                Ok(Some((lo, hi, q)))
            },
            None => Ok(None),
        }
    } else {
        Ok(None)
    }
}

/// Parses an atom and the quantifier that may follow it.
fn parse_repeat(p: &Vec<char>, pos: usize, st: &mut ParseState) -> (r: Result<(Node, usize), RegexError>)
    requires
        p@.len() < usize::MAX,
        pos < p@.len(),
        state_ok(*old(st)),
    ensures
        sview(r, *final(st)) == s_repeat(p@, pos, old(st).ngroups, names_view(old(st).names@)),
        state_ok(*final(st)),
        old(st).ngroups <= final(st).ngroups,
        match r {
            Ok((n, q)) => pos < q <= p@.len() && wf_node(n, final(st).ngroups as nat),
            Err(e) => parse_error_ok(e, p@.len()),
        },
        plain_from(p@, pos as int) ==> r is Ok && r->Ok_0.1 == pos + 1 && r->Ok_0.0 == Node::Char(p@[pos as int])
            && final(st).ngroups == old(st).ngroups,
    decreases p@.len() - pos, 2int,
{
    let (a, q) = parse_atom(p, pos, st)?;
    if q >= p.len() {
        return Ok((a, q));
    }
    match parse_quantifier(p, q)? {
        None => Ok((a, q)),
        Some((lo, hi, q2)) => {
            let mut q3 = q2;
            let mut greedy = true;
            if q3 < p.len() && p[q3] == '?' {
                greedy = false;
                q3 = q3 + 1;
            }
            if q3 < p.len() && (p[q3] == '*' || p[q3] == '+' || p[q3] == '?') {
                return Err(syntax_err(q3, SyntaxReason::MultipleRepeat));
            }
            Ok((Node::Repeat(Box::new(a), lo, hi, greedy), q3))
        },
    }
}

/// Parses a concatenation, up to `|`, `)` or the end.
fn parse_concat(p: &Vec<char>, pos: usize, st: &mut ParseState) -> (r: Result<(Node, usize), RegexError>)
    requires
        p@.len() < usize::MAX,
        pos <= p@.len(),
        state_ok(*old(st)),
    ensures
        sview(r, *final(st)) == s_concat(p@, pos, old(st).ngroups, names_view(old(st).names@)),
        state_ok(*final(st)),
        old(st).ngroups <= final(st).ngroups,
        match r {
            Ok((n, q)) => pos <= q <= p@.len() && wf_node(n, final(st).ngroups as nat),
            Err(e) => parse_error_ok(e, p@.len()),
        },
        plain_from(p@, pos as int) ==> r is Ok && r->Ok_0.1 == p@.len() && r->Ok_0.0 == lit_tree(p@, pos as int, p@.len() as int)
            && final(st).ngroups == old(st).ngroups,
    decreases p@.len() - pos, 3int,
{
    let mut node = Node::Empty;
    let mut first = true;
    let mut q: usize = pos;
    while q < p.len() && p[q] != '|' && p[q] != ')'
        invariant
            p@.len() < usize::MAX,
            pos <= q <= p@.len(),
            state_ok(*st),
            old(st).ngroups <= st.ngroups,
            wf_node(node, st.ngroups as nat),
            plain_from(p@, pos as int) ==> plain_from(p@, q as int),
            s_concat(p@, pos, old(st).ngroups, names_view(old(st).names@)) == s_concat_loop(
                p@,
                q,
                node,
                first,
                st.ngroups,
                names_view(st.names@),
            ),
            plain_from(p@, pos as int) ==> node == lit_tree(p@, pos as int, q as int) && st.ngroups == old(
                st,
            ).ngroups && (first <==> q == pos),
        decreases p@.len() - q,
    {
        let ghost ng = st.ngroups;
        let (a, q2) = parse_repeat(p, q, st)?;
        proof {
            lemma_wf_node_grow(node, ng as nat, st.ngroups as nat);
        }
        if first {
            node = a;
            first = false;
        } else {
            node = Node::Concat(Box::new(node), Box::new(a));
        }
        q = q2;
    }
    Ok((node, q))
}

/// Parses an alternation of concatenations, up to `)` or the end.
fn parse_alt(p: &Vec<char>, pos: usize, st: &mut ParseState) -> (r: Result<(Node, usize), RegexError>)
    requires
        p@.len() < usize::MAX,
        pos <= p@.len(),
        state_ok(*old(st)),
    ensures
        sview(r, *final(st)) == s_alt(p@, pos, old(st).ngroups, names_view(old(st).names@)),
        state_ok(*final(st)),
        old(st).ngroups <= final(st).ngroups,
        match r {
            Ok((n, q)) => pos <= q <= p@.len() && wf_node(n, final(st).ngroups as nat),
            Err(e) => parse_error_ok(e, p@.len()),
        },
        plain_from(p@, pos as int) ==> r is Ok && r->Ok_0.1 == p@.len() && r->Ok_0.0 == lit_tree(p@, pos as int, p@.len() as int)
            && final(st).ngroups == old(st).ngroups,
    decreases p@.len() - pos, 4int,
{
    let (first, q0) = parse_concat(p, pos, st)?;
    let mut node = first;
    let mut q: usize = q0;
    while q < p.len() && p[q] == '|'
        invariant
            p@.len() < usize::MAX,
            s_alt(p@, pos, old(st).ngroups, names_view(old(st).names@)) == s_alt_loop(
                p@,
                q,
                node,
                st.ngroups,
                names_view(st.names@),
            ),
            plain_from(p@, pos as int) ==> q == p@.len() && node == lit_tree(p@, pos as int, q as int)
                && st.ngroups == old(st).ngroups,
            pos <= q <= p@.len(),
            state_ok(*st),
            old(st).ngroups <= st.ngroups,
            wf_node(node, st.ngroups as nat),
        decreases p@.len() - q,
    {
        let ghost ng = st.ngroups;
        let (b, q2) = parse_concat(p, q + 1, st)?;
        proof {
            lemma_wf_node_grow(node, ng as nat, st.ngroups as nat);
        }
        node = Node::Alt(Box::new(node), Box::new(b));
        q = q2;
    }
    Ok((node, q))
}

/// Parses a whole pattern: its tree, its number of groups and its group names.
#[verifier::rlimit(50)]
pub fn parse_pattern(p: &Vec<char>) -> (r: Result<(Node, usize, Vec<(Vec<char>, usize)>), RegexError>)
    ensures
        match s_pattern(p@) {
            Ok((n, ng, names)) => r is Ok && r->Ok_0.0 == n && r->Ok_0.1 == ng && names_view(r->Ok_0.2@)
                == names,
            Err(e) => r is Err && r->Err_0 == e,
        },
        match r {
            Ok((n, ng, names)) => wf_node(n, ng as nat) && names_ok(names@, ng as nat) && ng < usize::MAX,
            Err(e) => parse_error_ok(e, p@.len()),
        },
        plain_from(p@, 0) && p@.len() < usize::MAX ==> r is Ok && r->Ok_0.0 == lit_tree(p@, 0, p@.len() as int)
            && r->Ok_0.1 == 0,
{
    if p.len() == usize::MAX {
        return Err(RegexError::Compile { reason: CompileReason::PatternTooLong });
    }
    let mut st = ParseState { ngroups: 0, names: Vec::new() };
    assert(names_view(st.names@) =~= Seq::<(Seq<char>, usize)>::empty());
    let (n, q) = match parse_alt(p, 0, &mut st) {
        Ok(x) => x,
        Err(e) => return Err(e),
    };
    if q < p.len() {
        return Err(syntax_err(q, SyntaxReason::UnbalancedParenthesis));
    }
    Ok((n, st.ngroups, st.names))
}

} // verus!
