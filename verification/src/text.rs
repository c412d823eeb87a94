//! Comparisons of text, character by character.

use vstd::prelude::*;
use vstd::string::StrSliceExecFns;

verus! {

/// Whether `a` and `b` hold the same characters.
pub fn same_text(a: &str, b: &str) -> (r: bool)
    ensures
        r == (a@ == b@),
{
    let n = a.unicode_len();
    if n != b.unicode_len() {
        return false;
    }
    let mut i: usize = 0;
    while i < n
        invariant
            n == a@.len(),
            n == b@.len(),
            i <= n,
            forall|k: int| 0 <= k < i ==> a@[k] == b@[k],
        decreases n - i,
    {
        if a.get_char(i) != b.get_char(i) {
            return false;
        }
        i = i + 1;
    }
    assert(a@ =~= b@);
    true
}

/// Whether `s` begins with the characters of `prefix`.
pub fn starts_with(s: &str, prefix: &str) -> (r: bool)
    ensures
        r == (prefix@.len() <= s@.len() && s@.subrange(0, prefix@.len() as int) == prefix@),
{
    let n = prefix.unicode_len();
    if n > s.unicode_len() {
        return false;
    }
    let mut i: usize = 0;
    while i < n
        invariant
            n == prefix@.len(),
            n <= s@.len(),
            i <= n,
            forall|k: int| 0 <= k < i ==> s@[k] == prefix@[k],
        decreases n - i,
    {
        if s.get_char(i) != prefix.get_char(i) {
            assert(s@.subrange(0, n as int)[i as int] != prefix@[i as int]);
            return false;
        }
        i = i + 1;
    }
    assert(s@.subrange(0, n as int) =~= prefix@);
    true
}


/// The position of the first of `fields` named `name`, if any.
pub fn position_of(fields: &Vec<String>, name: &str) -> (r: Option<usize>)
    ensures
        match r {
            Some(i) => i < fields@.len() && fields@[i as int]@ == name@
                && forall|k: int| 0 <= k < i ==> (#[trigger] fields@[k])@ != name@,
            None => forall|k: int| 0 <= k < fields@.len() ==> (#[trigger] fields@[k])@ != name@,
        },
{
    let mut i: usize = 0;
    while i < fields.len()
        invariant
            i <= fields@.len(),
            forall|k: int| 0 <= k < i ==> (#[trigger] fields@[k])@ != name@,
        decreases fields@.len() - i,
    {
        if same_text(fields[i].as_str(), name) {
            return Some(i);
        }
        i = i + 1;
    }
    None
}


/// The position of the `message` field among the callsite's `fields`, when
/// the event carries a value there (it has `values_len` values): the first
/// field so named counts.
pub fn message_field(fields: &Vec<String>, values_len: usize) -> (r: Option<usize>)
    ensures
        match r {
            Some(i) => i < values_len && i < fields@.len() && fields@[i as int]@ == "message"@
                && forall|k: int| 0 <= k < i ==> (#[trigger] fields@[k])@ != "message"@,
            None => forall|i: int| 0 <= i < fields@.len() && (#[trigger] fields@[i])@ == "message"@
                ==> i >= values_len || exists|k: int| 0 <= k < i && (#[trigger] fields@[k])@ == "message"@,
        },
{
    match position_of(fields, "message") {
        Some(i) => if i < values_len {
            Some(i)
        } else {
            None
        },
        None => None,
    }
}

} // verus!
