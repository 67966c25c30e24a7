//! The abstract syntax of patterns.
use vstd::prelude::*;
use crate::escape::{is_space, is_word, is_space_exec, is_word_exec};

verus! {

/// One member of a character class; the flag negates the shorthand classes.
pub enum ClassItem {
    Range(char, char),
    Digit(bool),
    Word(bool),
    Space(bool),
}

/// The members of a character class.
pub enum ClassList {
    Nil,
    Cons(ClassItem, Box<ClassList>),
}

/// A pattern's syntax tree.
pub enum Node {
    /// Matches the empty string.
    Empty,
    Char(char),
    /// Any character but a newline.
    Any,
    /// A character class; the flag negates it.
    Class(ClassList, bool),
    /// Start of the text.
    Start,
    /// End of the text, or just before a final newline.
    End,
    /// A word boundary; the flag negates it.
    WordBoundary(bool),
    /// A capturing group with its index (at least 1).
    Group(usize, Box<Node>),
    Concat(Box<Node>, Box<Node>),
    /// Alternation: the left branch is tried first.
    Alt(Box<Node>, Box<Node>),
    /// Repetition: minimum, optional maximum, and whether it is greedy.
    Repeat(Box<Node>, usize, Option<usize>, bool),
    /// A reference to what a group captured.
    BackRef(usize),
}

pub open spec fn is_digit(c: char) -> bool {
    '0' <= c && c <= '9'
}

pub open spec fn item_matches(it: ClassItem, c: char) -> bool {
    match it {
        ClassItem::Range(lo, hi) => lo <= c && c <= hi,
        ClassItem::Digit(neg) => is_digit(c) != neg,
        ClassItem::Word(neg) => is_word(c) != neg,
        ClassItem::Space(neg) => is_space(c) != neg,
    }
}

/// Whether some member of `items` holds `c`.
pub open spec fn list_has(items: ClassList, c: char) -> bool
    decreases items,
{
    match items {
        ClassList::Nil => false,
        ClassList::Cons(it, rest) => item_matches(it, c) || list_has(*rest, c),
    }
}

/// Whether `c` belongs to the class made of `items`, negated by `neg`.
pub open spec fn class_matches(items: ClassList, neg: bool, c: char) -> bool {
    list_has(items, c) != neg
}

pub fn item_matches_exec(it: &ClassItem, c: char) -> (r: bool)
    ensures
        r == item_matches(*it, c),
{
    match it {
        ClassItem::Range(lo, hi) => *lo <= c && c <= *hi,
        ClassItem::Digit(neg) => ('0' <= c && c <= '9') != *neg,
        ClassItem::Word(neg) => is_word_exec(c) != *neg,
        ClassItem::Space(neg) => is_space_exec(c) != *neg,
    }
}

fn list_has_exec(items: &ClassList, c: char) -> (r: bool)
    ensures
        r == list_has(*items, c),
    decreases *items,
{
    match items {
        ClassList::Nil => false,
        ClassList::Cons(it, rest) => item_matches_exec(it, c) || list_has_exec(rest, c),
    }
}

pub fn class_matches_exec(items: &ClassList, neg: bool, c: char) -> (r: bool)
    ensures
        r == class_matches(*items, neg, c),
{
    list_has_exec(items, c) != neg
}

} // verus!
