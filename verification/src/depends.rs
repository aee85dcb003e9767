//! Dependency clauses: a package name, then optionally one white space and a
//! constraint. A clause is split at its first white space.

use vstd::prelude::*;
use vstd::string::StrSliceExecFns;

use crate::text::char_is_whitespace;
use crate::text::chars_of;
use crate::text::first_index;
use crate::text::is_whitespace;
use crate::text::lemma_first_index;

verus! {

/// Where the name of a clause ends: at its first white space, or at its end.
pub open spec fn name_end(clause: Seq<char>) -> int {
    first_index(clause, |c: char| is_whitespace(c))
}

/// The package that a clause depends on: what stands before its first white
/// space.
pub open spec fn dependency_name(clause: Seq<char>) -> Seq<char> {
    clause.take(name_end(clause))
}

/// The constraint of a clause: what follows the white space after the name;
/// empty where the clause is a name alone.
pub open spec fn dependency_spec(clause: Seq<char>) -> Seq<char> {
    if name_end(clause) < clause.len() {
        clause.skip(name_end(clause) + 1)
    } else {
        Seq::empty()
    }
}

/// Where the name of `clause` ends, counted in characters.
pub fn find_name_end(clause: &str) -> (res: usize)
    ensures
        res == name_end(clause@),
        res <= clause@.len(),
{
    let chars = chars_of(clause);
    let mut i: usize = 0;
    while i < chars.len()
        invariant
            chars@ == clause@,
            i <= chars.len(),
            forall|j: int| 0 <= j < i ==> !is_whitespace(#[trigger] chars@[j]),
        decreases chars.len() - i,
    {
        if char_is_whitespace(chars[i]) {
            proof {
                lemma_first_index(clause@, |c: char| is_whitespace(c), i as int);
            }
            return i;
        }
        i = i + 1;
    }
    proof {
        lemma_first_index(clause@, |c: char| is_whitespace(c), i as int);
    }
    i
}

/// Splits a dependency clause into the name of the package depended on and
/// the constraint on it.
pub fn dependsstr_to_name_and_spec<'a>(depend: &'a str) -> (res: (&'a str, &'a str))
    ensures
        res.0@ == dependency_name(depend@),
        res.1@ == dependency_spec(depend@),
{
    let end = find_name_end(depend);
    let length = depend.unicode_len();
    let dependency_name = depend.substring_char(0, end);
    let dependency_spec = if end == length {
        depend.substring_char(end, end)
    } else {
        depend.substring_char(end + 1, length)
    };
    (dependency_name, dependency_spec)
}

} // verus!
