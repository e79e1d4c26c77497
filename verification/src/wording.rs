use vstd::prelude::*;
use crate::refs::to_chars;

verus! {

/// `part` stands in `text` at the place `at`.
pub open spec fn stands_at(text: Seq<char>, part: Seq<char>, at: int) -> bool {
    &&& 0 <= at
    &&& at + part.len() <= text.len()
    &&& forall|j: int| 0 <= j < part.len() ==> #[trigger] text[at + j] == part[j]
}

/// `part` stands somewhere in `text`.
pub open spec fn has_text(text: Seq<char>, part: Seq<char>) -> bool {
    exists|at: int| stands_at(text, part, at)
}

/// Tells whether `part` stands in `text` at the place `at`.
fn stands_at_exec(text: &Vec<char>, part: &Vec<char>, at: usize) -> (found: bool)
    requires
        at + part@.len() <= text@.len(),
    ensures
        found == stands_at(text@, part@, at as int),
{
    let mut j: usize = 0;
    let len: usize = text.len();
    while j < part.len()
        invariant
            j <= part@.len(),
            len == text@.len(),
            at + part@.len() <= text@.len(),
            forall|k: int| 0 <= k < j ==> #[trigger] text@[at + k] == part@[k],
        decreases part.len() - j,
    {
        if text[at + j] != part[j] {
            assert(text@[at + j] != part@[j as int]);
            return false;
        }
        j += 1;
    }
    true
}

/// Tells whether `part` stands somewhere in `text`.
pub fn holds_text(text: &str, part: &str) -> (found: bool)
    ensures
        found == has_text(text@, part@),
{
    let t = to_chars(text);
    let p = to_chars(part);
    if p.len() > t.len() {
        assert forall|k: int| !stands_at(text@, part@, k) by {}
        return false;
    }
    let last: usize = t.len() - p.len();
    let mut at: usize = 0;
    while at < last
        invariant
            at <= last,
            last == t@.len() - p@.len(),
            t@ == text@,
            p@ == part@,
            forall|k: int| 0 <= k < at ==> !stands_at(t@, p@, k),
        decreases last - at,
    {
        if stands_at_exec(&t, &p, at) {
            assert(stands_at(text@, part@, at as int));
            return true;
        }
        at += 1;
    }
    let found = stands_at_exec(&t, &p, last);
    proof {
        if found {
            assert(stands_at(text@, part@, last as int));
        } else {
            assert forall|k: int| !stands_at(text@, part@, k) by {
                if stands_at(text@, part@, k) {
                    assert(k <= last);
                }
            }
        }
    }
    found
}

/// Whether a message of the script engine says that a value of the wrong
/// kind was used.
///
/// The engine words such a failure as an attempt to do something to a
/// value of some kind, or to one kind with another, or as an argument of
/// one kind where another was expected.
pub open spec fn says_wrong_kind(msg: Seq<char>) -> bool {
    ||| has_text(msg, "attempt to "@) && (has_text(msg, " value"@) || has_text(msg, " with "@))
    ||| has_text(msg, " expected, got "@)
}

/// Tells whether a message of the script engine says that a value of the
/// wrong kind was used.
pub fn wrong_kind(msg: &str) -> (wrong: bool)
    ensures
        wrong == says_wrong_kind(msg@),
{
    if holds_text(msg, "attempt to ") {
        if holds_text(msg, " value") || holds_text(msg, " with ") {
            return true;
        }
    }
    holds_text(msg, " expected, got ")
}

} // verus!
