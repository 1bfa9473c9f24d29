//! The in-memory stack snapshot and its invariants.

use vstd::prelude::*;
use crate::error::StackError;
use crate::oid::Oid;
use crate::table::{PatchEntry, table_of, is_sorted, has_key, lookup, find_entry, insert_entry, check_sorted};

verus! {

/// The names held by a queue.
pub open spec fn names_of(v: Seq<String>) -> Seq<Seq<char>> {
    v.map_values(|s: String| s@)
}

pub open spec fn oid_opt(o: Option<Oid>) -> Option<Seq<u8>> {
    match o {
        Some(x) => Some(x@),
        None => None,
    }
}

/// A snapshot as plain values.
pub struct StackModel {
    pub prev: Option<Seq<u8>>,
    pub head: Seq<u8>,
    pub applied: Seq<Seq<char>>,
    pub unapplied: Seq<Seq<char>>,
    pub hidden: Seq<Seq<char>>,
    pub patches: Seq<(Seq<char>, Seq<u8>)>,
}

/// Every patch name, applied first, then unapplied, then hidden.
pub open spec fn all_names(m: StackModel) -> Seq<Seq<char>> {
    m.applied + m.unapplied + m.hidden
}

/// The queues are pairwise disjoint, hold no name twice, and together hold
/// exactly the names of the patch table, which is sorted by name.
pub open spec fn consistent(m: StackModel) -> bool {
    &&& is_sorted(m.patches)
    &&& all_names(m).no_duplicates()
    &&& forall|k: Seq<char>| #[trigger] all_names(m).contains(k) <==> has_key(m.patches, k)
}

/// The logical tip: the commit of the last applied patch, else the base.
pub open spec fn top_of(m: StackModel) -> Seq<u8> {
    if m.applied.len() == 0 {
        m.head
    } else {
        lookup(m.patches, m.applied.last())->0
    }
}

/// One snapshot of a patch stack.
pub struct Stack {
    /// Commit of the previous snapshot, if any.
    pub prev: Option<Oid>,
    /// The branch tip beneath the applied patches.
    pub head: Oid,
    pub applied: Vec<String>,
    pub unapplied: Vec<String>,
    pub hidden: Vec<String>,
    /// Sorted by name.
    pub patches: Vec<PatchEntry>,
}

impl View for Stack {
    type V = StackModel;

    open spec fn view(&self) -> StackModel {
        StackModel {
            prev: oid_opt(self.prev),
            head: self.head@,
            applied: names_of(self.applied@),
            unapplied: names_of(self.unapplied@),
            hidden: names_of(self.hidden@),
            patches: table_of(self.patches@),
        }
    }
}

fn clone_names(v: &Vec<String>) -> (r: Vec<String>)
    ensures
        names_of(r@) == names_of(v@),
{
    let mut r: Vec<String> = Vec::new();
    let mut i: usize = 0;
    while i < v.len()
        invariant
            i <= v@.len(),
            r@.len() == i,
            forall|j: int| 0 <= j < i ==> #[trigger] r@[j]@ == v@[j]@,
        decreases v@.len() - i,
    {
        let s: String = v[i].clone();
        r.push(s);
        i = i + 1;
    }
    assert(names_of(r@) =~= names_of(v@));
    r
}

pub(crate) fn contains_name(v: &Vec<String>, name: &String) -> (r: bool)
    ensures
        r == names_of(v@).contains(name@),
{
    let mut i: usize = 0;
    while i < v.len()
        invariant
            i <= v@.len(),
            forall|j: int| 0 <= j < i ==> #[trigger] v@[j]@ != name@,
        decreases v@.len() - i,
    {
        if v[i] == *name {
            assert(names_of(v@)[i as int] == name@);
            return true;
        }
        i = i + 1;
    }
    assert(!names_of(v@).contains(name@)) by {
        if names_of(v@).contains(name@) {
            let j = choose|j: int| 0 <= j < names_of(v@).len() && names_of(v@)[j] == name@;
            assert(v@[j]@ == name@);
        }
    }
    false
}

impl Stack {
    /// An empty stack on `head`, with no previous snapshot.
    pub fn new(head: Oid) -> (r: Stack)
        ensures
            r@ == (StackModel {
                prev: None,
                head: head@,
                applied: Seq::empty(),
                unapplied: Seq::empty(),
                hidden: Seq::empty(),
                patches: Seq::empty(),
            }),
            consistent(r@),
    {
        let r = Stack {
            prev: None,
            head,
            applied: Vec::new(),
            unapplied: Vec::new(),
            hidden: Vec::new(),
            patches: Vec::new(),
        };
        assert(names_of(r.applied@) =~= Seq::empty());
        assert(names_of(r.unapplied@) =~= Seq::empty());
        assert(names_of(r.hidden@) =~= Seq::empty());
        assert(table_of(r.patches@) =~= Seq::empty());
        assert(all_names(r@) =~= Seq::empty());
        r
    }

    /// Every patch name: applied, then unapplied, then hidden.
    pub fn all_patches(&self) -> (r: Vec<String>)
        ensures
            names_of(r@) == all_names(self@),
    {
        let mut r = clone_names(&self.applied);
        let mut u = clone_names(&self.unapplied);
        let mut h = clone_names(&self.hidden);
        let ghost (a, b, c) = (r@, u@, h@);
        r.append(&mut u);
        r.append(&mut h);
        assert(r@ =~= a + b + c);
        assert(names_of(a + b + c) =~= names_of(a) + names_of(b) + names_of(c));
        r
    }

    /// Whether the snapshot meets its invariant; callers outside the library
    /// ask this before handing over a snapshot they assembled themselves.
    pub fn is_consistent(&self) -> (r: bool)
        ensures
            r == consistent(self@),
    {
        if !check_sorted(&self.patches) {
            return false;
        }
        crate::codec::queues_agree(self)
    }

    /// The patch names in queue order, one at a time.
    pub fn all_patches_iter(&self) -> (r: AllPatchesIter)
        ensures
            r.remaining() == all_names(self@),
    {
        AllPatchesIter { names: self.all_patches(), pos: 0 }
    }

    /// Whether a queue holds `name`.
    pub fn has_patch(&self, name: &String) -> (r: bool)
        ensures
            r == all_names(self@).contains(name@),
    {
        let a = contains_name(&self.applied, name);
        let u = contains_name(&self.unapplied, name);
        let h = contains_name(&self.hidden, name);
        let ghost m = self@;
        assert(all_names(m).contains(name@) == (m.applied.contains(name@) || m.unapplied.contains(name@) || m.hidden.contains(name@))) by {
            if all_names(m).contains(name@) {
                let j = choose|j: int| 0 <= j < all_names(m).len() && all_names(m)[j] == name@;
                if j < m.applied.len() {
                    assert(m.applied[j] == name@);
                } else if j < m.applied.len() + m.unapplied.len() {
                    assert(m.unapplied[j - m.applied.len()] == name@);
                } else {
                    assert(m.hidden[j - m.applied.len() - m.unapplied.len()] == name@);
                }
            }
            if m.applied.contains(name@) {
                let j = choose|j: int| 0 <= j < m.applied.len() && m.applied[j] == name@;
                assert(all_names(m)[j] == name@);
            }
            if m.unapplied.contains(name@) {
                let j = choose|j: int| 0 <= j < m.unapplied.len() && m.unapplied[j] == name@;
                assert(all_names(m)[m.applied.len() + j] == name@);
            }
            if m.hidden.contains(name@) {
                let j = choose|j: int| 0 <= j < m.hidden.len() && m.hidden[j] == name@;
                assert(all_names(m)[m.applied.len() + m.unapplied.len() + j] == name@);
            }
        }
        a || u || h
    }

    /// The commit recorded for `name`, if the table has one.
    pub fn patch_oid(&self, name: &String) -> (r: Option<&Oid>)
        requires
            is_sorted(self@.patches),
        ensures
            oid_opt_ref(r) == lookup(self@.patches, name@),
    {
        match find_entry(&self.patches, name) {
            Some(i) => {
                proof {
                    crate::table::lemma_lookup_at(self@.patches, i as int);
                }
                Some(&self.patches[i].oid)
            },
            None => None,
        }
    }

    /// The logical tip: the commit of the last applied patch, else `head`.
    pub fn top(&self) -> (r: Oid)
        requires
            consistent(self@),
        ensures
            r@ == top_of(self@),
    {
        if self.applied.len() == 0 {
            self.head.duplicate()
        } else {
            let last = &self.applied[self.applied.len() - 1];
            proof {
                let m = self@;
                assert(all_names(m)[m.applied.len() - 1] == m.applied.last());
                assert(all_names(m).contains(m.applied.last()));
            }
            match self.patch_oid(last) {
                Some(o) => o.duplicate(),
                None => {
                    assert(false);
                    self.head.duplicate()
                },
            }
        }
    }

    /// Adds a patch on top of the applied queue.
    pub fn push_applied(&mut self, name: String, oid: Oid) -> (r: Result<(), StackError>)
        requires
            consistent(old(self)@),
        ensures
            consistent(final(self)@),
            r is Err <==> all_names(old(self)@).contains(name@),
            r is Err ==> final(self)@ == old(self)@,
            r matches Err(e) ==> (e matches StackError::PatchAlreadyExists(n) && n@ == name@),
            r is Ok ==> final(self)@ == (StackModel {
                applied: old(self)@.applied.push(name@),
                patches: final(self)@.patches,
                ..old(self)@
            }),
            r is Ok ==> lookup(final(self)@.patches, name@) == Some(oid@),
            r is Ok ==> forall|k: Seq<char>| k != name@ ==> #[trigger] lookup(final(self)@.patches, k) == lookup(old(self)@.patches, k),
            r is Ok ==> top_of(final(self)@) == oid@,
    {
        if self.has_patch(&name) {
            return Err(StackError::PatchAlreadyExists(name));
        }
        let ghost m = self@;
        let key = name.clone();
        let fresh = insert_entry(&mut self.patches, name, oid);
        assert(fresh);
        self.applied.push(key);
        proof {
            let n = self@;
            assert(names_of(self.applied@) =~= m.applied.push(key@));
            assert(all_names(n) =~= all_names(m).insert(m.applied.len() as int, key@));
            assert forall|k: Seq<char>| #[trigger] all_names(n).contains(k) <==> has_key(n.patches, k) by {
                assert(lookup(n.patches, k) == if k == key@ { Some(oid@) } else { lookup(m.patches, k) });
                if all_names(n).contains(k) && k != key@ {
                    let j = choose|j: int| 0 <= j < all_names(n).len() && all_names(n)[j] == k;
                    if j < m.applied.len() {
                        assert(all_names(m)[j] == k);
                    } else {
                        assert(all_names(m)[j - 1] == k);
                    }
                }
                if all_names(m).contains(k) {
                    let j = choose|j: int| 0 <= j < all_names(m).len() && all_names(m)[j] == k;
                    if j < m.applied.len() {
                        assert(all_names(n)[j] == k);
                    } else {
                        assert(all_names(n)[j + 1] == k);
                    }
                }
                if k == key@ {
                    assert(all_names(n)[m.applied.len() as int] == k);
                }
            }
            assert(all_names(n).no_duplicates()) by {
                assert forall|a: int, b: int| 0 <= a < b < all_names(n).len() implies all_names(n)[a] != all_names(n)[b] by {
                    let p = m.applied.len() as int;
                    if a == p {
                        assert(all_names(m).contains(all_names(n)[b]) ) by {
                            assert(all_names(m)[b - 1] == all_names(n)[b]);
                        }
                    } else if b == p {
                        assert(all_names(m)[a] == all_names(n)[a]);
                    } else {
                        let a2 = if a < p { a } else { a - 1 };
                        let b2 = if b < p { b } else { b - 1 };
                        assert(all_names(m)[a2] == all_names(n)[a]);
                        assert(all_names(m)[b2] == all_names(n)[b]);
                    }
                }
            }
        }
        Ok(())
    }
}

/// Hands out patch names in queue order: applied, unapplied, hidden.
pub struct AllPatchesIter {
    names: Vec<String>,
    pos: usize,
}

impl AllPatchesIter {
    /// The names still to come.
    pub closed spec fn remaining(&self) -> Seq<Seq<char>> {
        if self.pos <= self.names@.len() {
            names_of(self.names@).skip(self.pos as int)
        } else {
            Seq::empty()
        }
    }

    /// The next name, if any.
    pub fn next(&mut self) -> (r: Option<String>)
        ensures
            old(self).remaining().len() == 0 ==> r is None && final(self).remaining() == old(self).remaining(),
            old(self).remaining().len() > 0 ==> (r matches Some(n) && n@ == old(self).remaining()[0]
                && final(self).remaining() == old(self).remaining().drop_first()),
    {
        if self.pos >= self.names.len() {
            return None;
        }
        let n = self.names[self.pos].clone();
        let ghost before = names_of(self.names@).skip(self.pos as int);
        self.pos = self.pos + 1;
        assert(names_of(self.names@).skip(self.pos as int) =~= before.drop_first());
        Some(n)
    }
}

pub open spec fn oid_opt_ref(o: Option<&Oid>) -> Option<Seq<u8>> {
    match o {
        Some(x) => Some(x@),
        None => None,
    }
}

/// The tip is the last applied patch's commit when patches are applied, and
/// the base otherwise.
pub proof fn lemma_top_law(s: StackModel)
    requires
        consistent(s),
    ensures
        s.applied.len() > 0 ==> Some(top_of(s)) == lookup(s.patches, s.applied.last()),
        s.applied.len() == 0 ==> top_of(s) == s.head,
{
    if s.applied.len() > 0 {
        assert(all_names(s)[s.applied.len() - 1] == s.applied.last());
        assert(all_names(s).contains(s.applied.last()));
    }
}

} // verus!
