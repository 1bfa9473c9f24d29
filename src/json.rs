//! A JSON document as a tree of plain values.

use vstd::prelude::*;
use crate::text::chars_of;

verus! {

/// A JSON value. Numbers keep the text they were written with; object
/// members keep their order.
pub enum Json {
    Null,
    Bool(bool),
    Number(String),
    Str(String),
    Array(Vec<Json>),
    Object(Vec<(String, Json)>),
}

/// `j` is the string `t`.
pub open spec fn is_str(j: Json, t: Seq<char>) -> bool {
    j matches Json::Str(s) && s@ == t
}

/// Whether `s` reads `lit`.
pub fn text_is(s: &String, lit: &str) -> (r: bool)
    ensures
        r == (s@ == lit@),
{
    let a = chars_of(s.as_str());
    let b = chars_of(lit);
    if a.len() != b.len() {
        return false;
    }
    let mut i: usize = 0;
    while i < a.len()
        invariant
            a@.len() == b@.len(),
            a@ == s@,
            b@ == lit@,
            i <= a@.len(),
            forall|j: int| 0 <= j < i ==> a@[j] == b@[j],
        decreases a@.len() - i,
    {
        if a[i] != b[i] {
            assert(a@[i as int] != b@[i as int]);
            assert(s@[i as int] != lit@[i as int]);
            return false;
        }
        i = i + 1;
    }
    assert(a@ =~= b@);
    true
}

/// The index of a member of `f` named `k`; where names are unique, the one.
pub open spec fn member_index(f: Seq<(String, Json)>, k: Seq<char>) -> Option<int> {
    if exists|i: int| 0 <= i < f.len() && #[trigger] f[i].0@ == k {
        Some(choose|i: int| 0 <= i < f.len() && #[trigger] f[i].0@ == k)
    } else {
        None
    }
}

/// Member names are pairwise different.
pub open spec fn keys_unique(f: Seq<(String, Json)>) -> bool {
    forall|i: int, j: int| 0 <= i < j < f.len() ==> #[trigger] f[i].0@ != #[trigger] f[j].0@
}

/// Index of a member named `key`.
pub fn find_member(f: &Vec<(String, Json)>, key: &str) -> (r: Option<usize>)
    ensures
        r is None <==> member_index(f@, key@) is None,
        r matches Some(i) ==> i < f@.len() && f@[i as int].0@ == key@,
{
    let mut i: usize = 0;
    while i < f.len()
        invariant
            i <= f@.len(),
            forall|j: int| 0 <= j < i ==> #[trigger] f@[j].0@ != key@,
        decreases f@.len() - i,
    {
        if text_is(&f[i].0, key) {
            return Some(i);
        }
        i = i + 1;
    }
    None
}

/// Whether member names of `f` are pairwise different.
pub fn check_keys_unique(f: &Vec<(String, Json)>) -> (r: bool)
    ensures
        r == keys_unique(f@),
{
    let mut i: usize = 0;
    while i < f.len()
        invariant
            i <= f@.len(),
            forall|a: int, b: int| 0 <= a < i && a < b < f@.len() ==> #[trigger] f@[a].0@ != #[trigger] f@[b].0@,
        decreases f@.len() - i,
    {
        let mut j: usize = i + 1;
        while j < f.len()
            invariant
                i < f@.len(),
                i + 1 <= j <= f@.len(),
                forall|a: int, b: int| 0 <= a < i && a < b < f@.len() ==> #[trigger] f@[a].0@ != #[trigger] f@[b].0@,
                forall|b: int| i < b < j ==> f@[i as int].0@ != #[trigger] f@[b].0@,
            decreases f@.len() - j,
        {
            if f[i].0 == f[j].0 {
                return false;
            }
            j = j + 1;
        }
        i = i + 1;
    }
    true
}


/// Two documents are the same text: same kinds, same member names in the
/// same order, same strings and numbers.
pub open spec fn json_same(a: Json, b: Json) -> bool
    decreases a,
{
    match a {
        Json::Null => b is Null,
        Json::Bool(x) => b matches Json::Bool(y) && x == y,
        Json::Number(x) => b matches Json::Number(y) && x@ == y@,
        Json::Str(x) => b matches Json::Str(y) && x@ == y@,
        Json::Array(x) => b matches Json::Array(y) && x@.len() == y@.len() && forall|i: int|
            0 <= i < x@.len() ==> json_same(#[trigger] x@[i], y@[i]),
        Json::Object(x) => b matches Json::Object(y) && x@.len() == y@.len() && forall|i: int|
            0 <= i < x@.len() ==> (#[trigger] x@[i]).0@ == y@[i].0@ && json_same(x@[i].1, y@[i].1),
    }
}

} // verus!
