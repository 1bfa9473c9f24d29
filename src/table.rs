//! The patch table: entries sorted strictly by name, so each name occurs once.

use vstd::prelude::*;
use crate::oid::Oid;
use crate::order::{name_lt, name_lt_exec, lemma_lt_irreflexive, lemma_lt_total, lemma_lt_transitive};
use crate::text::chars_of;

verus! {

/// One row of the patch table: a patch name and the commit that holds the patch.
pub struct PatchEntry {
    pub name: String,
    pub oid: Oid,
}

/// The abstract table: (name, commit bytes) rows.
pub open spec fn table_of(v: Seq<PatchEntry>) -> Seq<(Seq<char>, Seq<u8>)> {
    v.map_values(|e: PatchEntry| (e.name@, e.oid@))
}

/// Rows are in strictly increasing name order.
pub open spec fn is_sorted(t: Seq<(Seq<char>, Seq<u8>)>) -> bool {
    forall|i: int, j: int| 0 <= i < j < t.len() ==> name_lt(#[trigger] t[i].0, #[trigger] t[j].0)
}

pub open spec fn has_key(t: Seq<(Seq<char>, Seq<u8>)>, k: Seq<char>) -> bool {
    exists|i: int| 0 <= i < t.len() && #[trigger] t[i].0 == k
}

/// The commit recorded for name `k`.
pub open spec fn lookup(t: Seq<(Seq<char>, Seq<u8>)>, k: Seq<char>) -> Option<Seq<u8>> {
    if has_key(t, k) {
        Some(t[choose|i: int| 0 <= i < t.len() && #[trigger] t[i].0 == k].1)
    } else {
        None
    }
}

pub proof fn lemma_lookup_at(t: Seq<(Seq<char>, Seq<u8>)>, i: int)
    requires
        is_sorted(t),
        0 <= i < t.len(),
    ensures
        lookup(t, t[i].0) == Some(t[i].1),
{
    assert(has_key(t, t[i].0));
    let j = choose|j: int| 0 <= j < t.len() && #[trigger] t[j].0 == t[i].0;
    if j != i {
        lemma_lt_irreflexive(t[i].0);
        if j < i {
            assert(name_lt(t[j].0, t[i].0));
        } else {
            assert(name_lt(t[i].0, t[j].0));
        }
    }
}

proof fn lemma_lookup_rest(a: Seq<(Seq<char>, Seq<u8>)>, k: Seq<char>)
    requires
        is_sorted(a),
        a.len() > 0,
    ensures
        lookup(a.drop_first(), k) == if k == a[0].0 { None } else { lookup(a, k) },
{
    let r = a.drop_first();
    assert(is_sorted(r)) by {
        assert forall|i: int, j: int| 0 <= i < j < r.len() implies name_lt(#[trigger] r[i].0, #[trigger] r[j].0) by {
            assert(r[i] == a[i + 1] && r[j] == a[j + 1]);
        }
    }
    if k == a[0].0 {
        if has_key(r, k) {
            let i = choose|i: int| 0 <= i < r.len() && #[trigger] r[i].0 == k;
            assert(r[i] == a[i + 1]);
            assert(name_lt(a[0].0, a[i + 1].0));
            lemma_lt_irreflexive(k);
        }
    } else {
        if has_key(r, k) {
            let i = choose|i: int| 0 <= i < r.len() && #[trigger] r[i].0 == k;
            lemma_lookup_at(r, i);
            assert(r[i] == a[i + 1]);
            lemma_lookup_at(a, i + 1);
        }
        if has_key(a, k) {
            let i = choose|i: int| 0 <= i < a.len() && #[trigger] a[i].0 == k;
            assert(i > 0);
            assert(r[i - 1].0 == k);
        }
    }
}

/// Two sorted tables that agree on every name are the same table.
pub proof fn lemma_sorted_tables_equal(a: Seq<(Seq<char>, Seq<u8>)>, b: Seq<(Seq<char>, Seq<u8>)>)
    requires
        is_sorted(a),
        is_sorted(b),
        forall|k: Seq<char>| #[trigger] lookup(a, k) == lookup(b, k),
    ensures
        a == b,
    decreases a.len() + b.len(),
{
    if a.len() == 0 {
        if b.len() > 0 {
            lemma_lookup_at(b, 0);
            assert(lookup(a, b[0].0) is None);
        }
        assert(a =~= b);
    } else if b.len() == 0 {
        lemma_lookup_at(a, 0);
        assert(lookup(b, a[0].0) is None);
    } else {
        lemma_lookup_at(a, 0);
        lemma_lookup_at(b, 0);
        assert(lookup(b, a[0].0) is Some);
        assert(lookup(a, b[0].0) is Some);
        let j = choose|j: int| 0 <= j < b.len() && #[trigger] b[j].0 == a[0].0;
        let i = choose|i: int| 0 <= i < a.len() && #[trigger] a[i].0 == b[0].0;
        if j > 0 {
            assert(name_lt(b[0].0, b[j].0));
            if i > 0 {
                assert(name_lt(a[0].0, a[i].0));
                crate::order::lemma_lt_asymmetric(a[0].0, a[i].0);
            } else {
                lemma_lt_irreflexive(a[0].0);
            }
        }
        assert(a[0].0 == b[0].0);
        assert(a[0].1 == b[0].1);
        assert forall|k: Seq<char>| #[trigger] lookup(a.drop_first(), k) == lookup(b.drop_first(), k) by {
            lemma_lookup_rest(a, k);
            lemma_lookup_rest(b, k);
        }
        lemma_lookup_rest(a, a[0].0);
        lemma_lookup_rest(b, b[0].0);
        lemma_sorted_tables_equal(a.drop_first(), b.drop_first());
        assert(a =~= seq![a[0]] + a.drop_first());
        assert(b =~= seq![b[0]] + b.drop_first());
    }
}

/// Whether the rows are in strictly increasing name order.
pub fn check_sorted(v: &Vec<PatchEntry>) -> (r: bool)
    ensures
        r == is_sorted(table_of(v@)),
{
    let ghost t = table_of(v@);
    if v.len() == 0 {
        return true;
    }
    let mut i: usize = 1;
    while i < v.len()
        invariant
            1 <= i <= v@.len(),
            t == table_of(v@),
            forall|a: int, b: int| 0 <= a < b < i ==> name_lt(#[trigger] t[a].0, #[trigger] t[b].0),
        decreases v@.len() - i,
    {
        let x = chars_of(v[i - 1].name.as_str());
        let y = chars_of(v[i].name.as_str());
        if !name_lt_exec(x.as_slice(), y.as_slice()) {
            assert(!name_lt(t[i - 1].0, t[i as int].0));
            return false;
        }
        assert forall|a: int, b: int| 0 <= a < b < i + 1 implies name_lt(#[trigger] t[a].0, #[trigger] t[b].0) by {
            if b == i && a < i - 1 {
                lemma_lt_transitive(t[a].0, t[i - 1].0, t[b].0);
            }
        }
        i = i + 1;
    }
    true
}

/// Index of the row for `name`, if there is one.
pub fn find_entry(v: &Vec<PatchEntry>, name: &String) -> (r: Option<usize>)
    ensures
        r is None <==> !has_key(table_of(v@), name@),
        r matches Some(i) ==> i < v@.len() && v@[i as int].name@ == name@,
{
    let mut i: usize = 0;
    while i < v.len()
        invariant
            i <= v@.len(),
            forall|j: int| 0 <= j < i ==> #[trigger] v@[j].name@ != name@,
        decreases v@.len() - i,
    {
        if v[i].name == *name {
            assert(table_of(v@)[i as int].0 == name@);
            return Some(i);
        }
        i = i + 1;
    }
    assert forall|j: int| 0 <= j < table_of(v@).len() implies #[trigger] table_of(v@)[j].0 != name@ by {
        assert(v@[j].name@ != name@);
    }
    None
}

/// Puts a row for `name` in its place. Returns `false`, changing nothing,
/// when the name is there already.
pub fn insert_entry(v: &mut Vec<PatchEntry>, name: String, oid: Oid) -> (r: bool)
    requires
        is_sorted(table_of(old(v)@)),
    ensures
        r == !has_key(table_of(old(v)@), name@),
        is_sorted(table_of(final(v)@)),
        !r ==> final(v)@ == old(v)@,
        r ==> table_of(final(v)@).len() == table_of(old(v)@).len() + 1,
        r ==> forall|k: Seq<char>|
            #[trigger] lookup(table_of(final(v)@), k) == if k == name@ {
                Some(oid@)
            } else {
                lookup(table_of(old(v)@), k)
            },
        r && (forall|j: int| 0 <= j < old(v)@.len() ==> name_lt(#[trigger] old(v)@[j].name@, name@))
            ==> table_of(final(v)@) == table_of(old(v)@).push((name@, oid@)),
{
    let ghost t = table_of(v@);
    let key = chars_of(name.as_str());
    let mut i: usize = 0;
    while i < v.len()
        invariant
            i <= v@.len(),
            t == table_of(v@),
            key@ == name@,
            forall|j: int| 0 <= j < i ==> name_lt(#[trigger] t[j].0, name@),
        ensures
            i <= v@.len(),
            t == table_of(v@),
            key@ == name@,
            forall|j: int| 0 <= j < i ==> name_lt(#[trigger] t[j].0, name@),
            i < v@.len() ==> !name_lt(t[i as int].0, name@),
        decreases v@.len() - i,
    {
        let other = chars_of(v[i].name.as_str());
        if !name_lt_exec(other.as_slice(), key.as_slice()) {
            break;
        }
        i = i + 1;
    }
    if i < v.len() && v[i].name == name {
        assert(t[i as int].0 == name@);
        return false;
    }
    proof {
        if i < t.len() {
            lemma_lt_total(t[i as int].0, name@);
        }
        assert forall|j: int| i <= j < t.len() implies name_lt(name@, #[trigger] t[j].0) by {
            if j > i {
                lemma_lt_transitive(name@, t[i as int].0, t[j].0);
            }
        }
        assert forall|j: int| 0 <= j < t.len() implies #[trigger] t[j].0 != name@ by {
            lemma_lt_irreflexive(name@);
        }
    }
    v.insert(i, PatchEntry { name, oid });
    let ghost n = table_of(v@);
    proof {
        assert(n =~= t.insert(i as int, (name@, oid@)));
        assert forall|a: int, b: int| 0 <= a < b < n.len() implies name_lt(#[trigger] n[a].0, #[trigger] n[b].0) by {
            if a < i && b > i {
                lemma_lt_transitive(n[a].0, name@, n[b].0);
            }
        }
        assert forall|k: Seq<char>| #[trigger] lookup(n, k) == if k == name@ {
            Some(oid@)
        } else {
            lookup(t, k)
        } by {
            if k == name@ {
                lemma_lookup_at(n, i as int);
            } else if has_key(t, k) {
                let j = choose|j: int| 0 <= j < t.len() && #[trigger] t[j].0 == k;
                lemma_lookup_at(t, j);
                let jj = if j < i { j } else { j + 1 };
                assert(n[jj].0 == k);
                lemma_lookup_at(n, jj);
            } else {
                if has_key(n, k) {
                    let j = choose|j: int| 0 <= j < n.len() && #[trigger] n[j].0 == k;
                    if j < i {
                        assert(t[j].0 == k);
                    } else if j > i {
                        assert(t[j - 1].0 == k);
                    }
                }
            }
        }
        if forall|j: int| 0 <= j < old(v)@.len() ==> name_lt(#[trigger] old(v)@[j].name@, name@) {
            if i < t.len() {
                assert(name_lt(old(v)@[i as int].name@, name@));
                lemma_lt_irreflexive(name@);
                crate::order::lemma_lt_asymmetric(name@, t[i as int].0);
            }
            assert(n =~= t.push((name@, oid@)));
        }
    }
    true
}

} // verus!
