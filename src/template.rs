//! Replacement templates: literal text with references to groups.
//!
//! In a template `\N` (one digit from 1 to 9), `\g<N>` and `\g<name>` stand for
//! a group's text; `\n`, `\t`, `\r`, `\f`, `\v` and `\\` for one character; a
//! backslash before a letter or a digit otherwise is an error, and before any
//! other character it stays as it is.
use vstd::prelude::*;
use crate::error::{RegexError, SyntaxReason};
use crate::parser::chars_eq;

verus! {

/// A part of a parsed template.
pub enum Piece {
    Lit(char),
    Grp(usize),
}

pub open spec fn cons(p: Piece, rest: Result<Seq<Piece>, RegexError>) -> Result<Seq<Piece>, RegexError> {
    match rest {
        Ok(s) => Ok(seq![p] + s),
        Err(e) => Err(e),
    }
}

/// A template error at `i` for `reason`.
pub open spec fn tpl_err(i: int, reason: SyntaxReason) -> Result<Seq<Piece>, RegexError> {
    Err(RegexError::PatternSyntax { position: i as usize, message: reason })
}

pub open spec fn control_char(c: char) -> Option<char> {
    if c == 'n' {
        Some('\n')
    } else if c == 't' {
        Some('\t')
    } else if c == 'r' {
        Some('\r')
    } else if c == 'f' {
        Some('\x0c')
    } else if c == 'v' {
        Some('\x0b')
    } else if c == '\\' {
        Some('\\')
    } else {
        None
    }
}

pub open spec fn is_alnum(c: char) -> bool {
    ('a' <= c && c <= 'z') || ('A' <= c && c <= 'Z') || ('0' <= c && c <= '9')
}

/// The first `>` at or after `k`.
pub open spec fn close_at(r: Seq<char>, k: int) -> Option<int>
    decreases r.len() - k,
{
    if k < 0 || k >= r.len() {
        None
    } else if r[k] == '>' {
        Some(k)
    } else {
        close_at(r, k + 1)
    }
}

/// The index given to `name`, if any.
pub open spec fn lookup_spec(names: Seq<(Seq<char>, usize)>, name: Seq<char>) -> Option<usize>
    decreases names.len(),
{
    if names.len() == 0 {
        None
    } else if names[0].0 == name {
        Some(names[0].1)
    } else {
        lookup_spec(names.drop_first(), name)
    }
}

/// The group that `\g<name>` refers to: a single digit names a group by
/// number, anything else by name.
pub open spec fn ref_index(name: Seq<char>, names: Seq<(Seq<char>, usize)>, ncaps: nat) -> Option<usize> {
    let g = if name.len() == 1 && '0' <= name[0] && name[0] <= '9' {
        Some((name[0] as u32 - '0' as u32) as usize)
    } else {
        lookup_spec(names, name)
    };
    match g {
        Some(i) => if i < ncaps {
            Some(i)
        } else {
            None
        },
        None => None,
    }
}

/// The parts of the template `r` from `i` on, or the error at the first
/// malformed escape (its position and reason)
/// or refers to a group that does not exist.
pub open spec fn tpl_at(r: Seq<char>, i: int, names: Seq<(Seq<char>, usize)>, ncaps: nat) -> Result<Seq<Piece>, RegexError>
    decreases r.len() - i,
{
    if i < 0 || i >= r.len() {
        Ok(Seq::empty())
    } else if r[i] != '\\' {
        cons(Piece::Lit(r[i]), tpl_at(r, i + 1, names, ncaps))
    } else if i + 1 >= r.len() {
        tpl_err(i, SyntaxReason::BadEscapeAtEnd)
    } else {
        let c = r[i + 1];
        if '1' <= c && c <= '9' {
            let d = (c as u32 - '0' as u32) as usize;
            if d < ncaps {
                cons(Piece::Grp(d), tpl_at(r, i + 2, names, ncaps))
            } else {
                tpl_err(i, SyntaxReason::InvalidGroupReference)
            }
        } else if c == 'g' {
            if i + 2 < r.len() && r[i + 2] == '<' {
                match close_at(r, i + 3) {
                    Some(j) => if i + 3 <= j < r.len() {
                        match ref_index(r.subrange(i + 3, j), names, ncaps) {
                            Some(g) => cons(Piece::Grp(g), tpl_at(r, j + 1, names, ncaps)),
                            None => tpl_err(i, SyntaxReason::InvalidGroupReference),
                        }
                    } else {
                        tpl_err(i, SyntaxReason::MissingGreaterThan)
                    },
                    None => tpl_err(i, SyntaxReason::MissingGreaterThan),
                }
            } else {
                tpl_err(i, SyntaxReason::MissingLessThan)
            }
        } else if control_char(c) is Some {
            cons(Piece::Lit(control_char(c)->0), tpl_at(r, i + 2, names, ncaps))
        } else if is_alnum(c) {
            tpl_err(i, SyntaxReason::BadEscape)
        } else {
            cons(Piece::Lit('\\'), cons(Piece::Lit(c), tpl_at(r, i + 2, names, ncaps)))
        }
    }
}

pub open spec fn names_view(names: Seq<(Vec<char>, usize)>) -> Seq<(Seq<char>, usize)> {
    names.map_values(|e: (Vec<char>, usize)| (e.0@, e.1))
}

fn control_exec(c: char) -> (r: Option<char>)
    ensures
        r == control_char(c),
{
    if c == 'n' {
        Some('\n')
    } else if c == 't' {
        Some('\t')
    } else if c == 'r' {
        Some('\r')
    } else if c == 'f' {
        Some('\x0c')
    } else if c == 'v' {
        Some('\x0b')
    } else if c == '\\' {
        Some('\\')
    } else {
        None
    }
}

fn close_exec(r: &Vec<char>, k: usize) -> (res: Option<usize>)
    ensures
        match res {
            Some(j) => close_at(r@, k as int) == Some(j as int),
            None => close_at(r@, k as int) is None,
        },
{
    let mut j: usize = k;
    while j < r.len()
        invariant
            k <= j,
            close_at(r@, k as int) == close_at(r@, j as int),
        decreases r@.len() - j,
    {
        if r[j] == '>' {
            return Some(j);
        }
        j = j + 1;
    }
    None
}

pub(crate) fn lookup_exec(names: &Vec<(Vec<char>, usize)>, name: &Vec<char>) -> (r: Option<usize>)
    ensures
        r == lookup_spec(names_view(names@), name@),
{
    let mut k: usize = 0;
    assert(names_view(names@).subrange(0, names@.len() as int) =~= names_view(names@));
    while k < names.len()
        invariant
            k <= names@.len(),
            lookup_spec(names_view(names@), name@) == lookup_spec(
                names_view(names@).subrange(k as int, names@.len() as int),
                name@,
            ),
        decreases names@.len() - k,
    {
        let ghost rest = names_view(names@).subrange(k as int, names@.len() as int);
        assert(rest.drop_first() =~= names_view(names@).subrange(k + 1, names@.len() as int));
        if chars_eq(&names[k].0, name) {
            return Some(names[k].1);
        }
        k = k + 1;
    }
    assert(names_view(names@).subrange(k as int, names@.len() as int) =~= Seq::<(Seq<char>, usize)>::empty());
    None
}

fn ref_exec(r: &Vec<char>, lo: usize, hi: usize, names: &Vec<(Vec<char>, usize)>, ncaps: usize) -> (res: Option<usize>)
    requires
        lo <= hi <= r@.len(),
    ensures
        res == ref_index(r@.subrange(lo as int, hi as int), names_view(names@), ncaps as nat),
{
    let mut name: Vec<char> = Vec::new();
    let mut k: usize = lo;
    while k < hi
        invariant
            lo <= k <= hi <= r@.len(),
            name@ == r@.subrange(lo as int, k as int),
        decreases hi - k,
    {
        name.push(r[k]);
        assert(name@ =~= r@.subrange(lo as int, k + 1));
        k = k + 1;
    }
    let g = if name.len() == 1 && '0' <= name[0] && name[0] <= '9' {
        Some((name[0] as u32 - '0' as u32) as usize)
    } else {
        lookup_exec(names, &name)
    };
    match g {
        Some(i) => if i < ncaps {
            Some(i)
        } else {
            None
        },
        None => None,
    }
}

/// Parses the template `r`, for a pattern with `ncaps` groups (counting group
/// 0) and the group names `names`.
pub fn parse_template(r: &Vec<char>, names: &Vec<(Vec<char>, usize)>, ncaps: usize) -> (res: Result<Vec<Piece>, RegexError>)
    ensures
        match res {
            Ok(v) => tpl_at(r@, 0, names_view(names@), ncaps as nat) == Ok::<Seq<Piece>, RegexError>(v@),
            Err(e) => tpl_at(r@, 0, names_view(names@), ncaps as nat) == Err::<Seq<Piece>, RegexError>(e),
        },
{
    let ghost nv = names_view(names@);
    let mut out: Vec<Piece> = Vec::new();
    let mut i: usize = 0;
    while i < r.len()
        invariant
            i <= r@.len(),
            nv == names_view(names@),
            tpl_at(r@, 0, nv, ncaps as nat) == (match tpl_at(r@, i as int, nv, ncaps as nat) {
                Ok(s) => Ok(out@ + s),
                Err(e) => Err::<Seq<Piece>, RegexError>(e),
            }),
        decreases r@.len() - i,
    {
        let ghost o = out@;
        let c = r[i];
        if c != '\\' {
            out.push(Piece::Lit(c));
            proof {
                assert(out@ == o.push(Piece::Lit(c)));
                match tpl_at(r@, i + 1, nv, ncaps as nat) {
                    Ok(s) => {
                        lemma_push_append(o, Piece::Lit(c), s);
                    },
                    Err(_) => {},
                }
            }
            i = i + 1;
        } else if i + 1 >= r.len() {
            return Err(RegexError::PatternSyntax { position: i, message: SyntaxReason::BadEscapeAtEnd });
        } else {
            let e = r[i + 1];
            if '1' <= e && e <= '9' {
                let d = (e as u32 - '0' as u32) as usize;
                if d >= ncaps {
                    return Err(RegexError::PatternSyntax { position: i, message: SyntaxReason::InvalidGroupReference });
                }
                out.push(Piece::Grp(d));
                proof {
                    match tpl_at(r@, i + 2, nv, ncaps as nat) {
                        Ok(s) => assert(o + (seq![Piece::Grp(d)] + s) =~= out@ + s),
                        Err(_) => {},
                    }
                }
                i = i + 2;
            } else if e == 'g' {
                if !(i + 2 < r.len() && r[i + 2] == '<') {
                    return Err(RegexError::PatternSyntax { position: i, message: SyntaxReason::MissingLessThan });
                }
                let j = match close_exec(r, i + 3) {
                    Some(j) => j,
                    None => return Err(RegexError::PatternSyntax { position: i, message: SyntaxReason::MissingGreaterThan }),
                };
                proof {
                    lemma_close_at_bounds(r@, i + 3);
                }
                let g = match ref_exec(r, i + 3, j, names, ncaps) {
                    Some(g) => g,
                    None => return Err(RegexError::PatternSyntax { position: i, message: SyntaxReason::InvalidGroupReference }),
                };
                out.push(Piece::Grp(g));
                proof {
                    match tpl_at(r@, j + 1, nv, ncaps as nat) {
                        Ok(s) => assert(o + (seq![Piece::Grp(g)] + s) =~= out@ + s),
                        Err(_) => {},
                    }
                }
                i = j + 1;
            } else if let Some(x) = control_exec(e) {
                out.push(Piece::Lit(x));
                proof {
                    match tpl_at(r@, i + 2, nv, ncaps as nat) {
                        Ok(s) => assert(o + (seq![Piece::Lit(x)] + s) =~= out@ + s),
                        Err(_) => {},
                    }
                }
                i = i + 2;
            } else if ('a' <= e && e <= 'z') || ('A' <= e && e <= 'Z') || ('0' <= e && e <= '9') {
                return Err(RegexError::PatternSyntax { position: i, message: SyntaxReason::BadEscape });
            } else {
                out.push(Piece::Lit('\\'));
                out.push(Piece::Lit(e));
                proof {
                    assert(out@ == o.push(Piece::Lit('\\')).push(Piece::Lit(e)));
                    match tpl_at(r@, i + 2, nv, ncaps as nat) {
                        Ok(s) => {
                            lemma_push_append(o.push(Piece::Lit('\\')), Piece::Lit(e), s);
                            lemma_push_append(o, Piece::Lit('\\'), seq![Piece::Lit(e)] + s);
                        },
                        Err(_) => {},
                    }
                }
                i = i + 2;
            }
        }
    }
    assert(out@ + Seq::<Piece>::empty() =~= out@);
    Ok(out)
}

proof fn lemma_push_append(o: Seq<Piece>, x: Piece, s: Seq<Piece>)
    ensures
        o.push(x) + s == o + (seq![x] + s),
{
    assert(o.push(x) + s =~= o + (seq![x] + s));
}

proof fn lemma_close_at_bounds(r: Seq<char>, k: int)
    ensures
        match close_at(r, k) {
            Some(j) => k <= j < r.len() && r[j] == '>',
            None => true,
        },
    decreases r.len() - k,
{
    if 0 <= k < r.len() && r[k] != '>' {
        lemma_close_at_bounds(r, k + 1);
    }
}

/// A name that is found gives an index of the table; a name that is not
/// found is none of the table's names.
pub proof fn lemma_lookup_facts(names: Seq<(Seq<char>, usize)>, name: Seq<char>, ng: nat)
    requires
        forall|k: int| 0 <= k < names.len() ==> 1 <= #[trigger] names[k].1 <= ng,
    ensures
        lookup_spec(names, name) is Some ==> 1 <= lookup_spec(names, name)->0 <= ng,
        lookup_spec(names, name) is None ==> forall|k: int| 0 <= k < names.len() ==> #[trigger] names[k].0 != name,
    decreases names.len(),
{
    if names.len() > 0 {
        let rest = names.drop_first();
        assert forall|k: int| 0 <= k < rest.len() implies 1 <= #[trigger] rest[k].1 <= ng by {
            assert(rest[k] == names[k + 1]);
        }
        lemma_lookup_facts(rest, name, ng);
        if names[0].0 != name && lookup_spec(names, name) is None {
            assert forall|k: int| 0 <= k < names.len() implies #[trigger] names[k].0 != name by {
                if k > 0 {
                    assert(names[k] == rest[k - 1]);
                }
            }
        }
    }
}

} // verus!
