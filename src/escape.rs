//! Backslash-escaping of pattern text.
use vstd::prelude::*;
use crate::text::{chars_of, push_char};

verus! {

/// Characters with a syntactic meaning in a pattern.
pub open spec fn is_meta(c: char) -> bool {
    c == '(' || c == ')' || c == '[' || c == ']' || c == '{' || c == '}' || c == '?' || c == '*'
        || c == '+' || c == '|' || c == '^' || c == '$' || c == '\\' || c == '.' || c == '-'
        || c == '#' || c == '&' || c == '~'
}

/// ASCII whitespace.
pub open spec fn is_space(c: char) -> bool {
    c == ' ' || c == '\t' || c == '\n' || c == '\r' || c == '\x0b' || c == '\x0c'
}

/// ASCII letters, digits and the underscore.
pub open spec fn is_word(c: char) -> bool {
    ('a' <= c && c <= 'z') || ('A' <= c && c <= 'Z') || ('0' <= c && c <= '9') || c == '_'
}

/// Whether `c` receives a backslash in front of it.
pub open spec fn needs_escape(c: char, special_only: bool, literal_spaces: bool) -> bool {
    if c == ' ' && literal_spaces {
        false
    } else if special_only {
        is_meta(c) || is_space(c)
    } else {
        !is_word(c)
    }
}

/// The escaped form of one character.
pub open spec fn escape_char(c: char, special_only: bool, literal_spaces: bool) -> Seq<char> {
    if needs_escape(c, special_only, literal_spaces) {
        seq!['\\', c]
    } else {
        seq![c]
    }
}

/// The escaped form of a whole text: each character escaped in turn.
pub open spec fn escape_seq(s: Seq<char>, special_only: bool, literal_spaces: bool) -> Seq<char>
    decreases s.len(),
{
    if s.len() == 0 {
        Seq::empty()
    } else {
        escape_seq(s.drop_last(), special_only, literal_spaces) + escape_char(
            s.last(),
            special_only,
            literal_spaces,
        )
    }
}

pub fn is_meta_exec(c: char) -> (r: bool)
    ensures
        r == is_meta(c),
{
    c == '(' || c == ')' || c == '[' || c == ']' || c == '{' || c == '}' || c == '?' || c == '*'
        || c == '+' || c == '|' || c == '^' || c == '$' || c == '\\' || c == '.' || c == '-'
        || c == '#' || c == '&' || c == '~'
}

pub fn is_space_exec(c: char) -> (r: bool)
    ensures
        r == is_space(c),
{
    c == ' ' || c == '\t' || c == '\n' || c == '\r' || c == '\x0b' || c == '\x0c'
}

pub fn is_word_exec(c: char) -> (r: bool)
    ensures
        r == is_word(c),
{
    ('a' <= c && c <= 'z') || ('A' <= c && c <= 'Z') || ('0' <= c && c <= '9') || c == '_'
}

/// Escapes `s`: with `special_only`, only pattern metacharacters and whitespace
/// are escaped, otherwise everything but letters, digits and `_`; with
/// `literal_spaces`, a space is always left as it is.
pub fn escape_text(s: &str, special_only: bool, literal_spaces: bool) -> (r: String)
    ensures
        r@ == escape_seq(s@, special_only, literal_spaces),
{
    let cs = chars_of(s);
    let mut out = String::new();
    let mut i: usize = 0;
    while i < cs.len()
        invariant
            i <= cs@.len(),
            cs@ == s@,
            out@ == escape_seq(cs@.subrange(0, i as int), special_only, literal_spaces),
        decreases cs@.len() - i,
    {
        let c = cs[i];
        let esc = if c == ' ' && literal_spaces {
            false
        } else if special_only {
            is_meta_exec(c) || is_space_exec(c)
        } else {
            !is_word_exec(c)
        };
        if esc {
            push_char(&mut out, '\\');
        }
        push_char(&mut out, c);
        proof {
            let pre = cs@.subrange(0, i + 1);
            assert(pre.drop_last() =~= cs@.subrange(0, i as int));
        }
        i = i + 1;
    }
    assert(cs@.subrange(0, cs@.len() as int) =~= cs@);
    out
}

/// A text without metacharacters and whitespace is its own escaped form.
pub proof fn lemma_escape_plain_identity(s: Seq<char>)
    requires
        forall|i: int| 0 <= i < s.len() ==> !is_meta(#[trigger] s[i]) && !is_space(s[i]),
    ensures
        escape_seq(s, true, false) == s,
    decreases s.len(),
{
    if s.len() > 0 {
        lemma_escape_plain_identity(s.drop_last());
        assert(s.drop_last().push(s.last()) =~= s);
    }
}

/// Escaping with `special_only` is idempotent on text without metacharacters
/// and whitespace: escaping the escaped text again changes nothing.
pub proof fn lemma_escape_special_only_idempotent(s: Seq<char>)
    requires
        forall|i: int| 0 <= i < s.len() ==> !is_meta(#[trigger] s[i]) && !is_space(s[i]),
    ensures
        escape_seq(escape_seq(s, true, false), true, false) == escape_seq(s, true, false),
{
    lemma_escape_plain_identity(s);
}

} // verus!
