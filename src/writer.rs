//! Decisions of the snapshot writer: which commits the new snapshot commit
//! must pin, and how they are grouped under the per-commit parent cap.
//! The caller performs the writes these functions ask for.

use vstd::prelude::*;
use crate::oid::Oid;
use crate::stack::{Stack, StackModel, all_names, consistent, top_of};
use crate::table::lookup;
use crate::order::{bytes_lt, bytes_lt_exec, lemma_bytes_lt_irreflexive, lemma_bytes_lt_total, lemma_bytes_lt_transitive};

verus! {

/// Most parents a commit may have.
pub const MAX_PARENTS: usize = 16;

/// The identifiers held by a list.
pub open spec fn oid_seq(v: Seq<Oid>) -> Seq<Seq<u8>> {
    v.map_values(|o: Oid| o@)
}

/// Some name of queue `q` is recorded with commit `x`.
pub open spec fn queue_has_oid(m: StackModel, q: Seq<Seq<char>>, x: Seq<u8>) -> bool {
    exists|i: int| 0 <= i < q.len() && lookup(m.patches, #[trigger] q[i]) == Some(x)
}

/// Commits the snapshot itself asks to pin: base, tip, the unapplied and
/// hidden patches, and the previous snapshot.
pub open spec fn candidate(m: StackModel, x: Seq<u8>) -> bool {
    x == m.head || x == top_of(m) || queue_has_oid(m, m.unapplied, x) || queue_has_oid(m, m.hidden, x)
        || m.prev == Some(x)
}

/// The parent set: the candidates, less the commits of the previous
/// snapshot's patches, which that snapshot pins already.
pub open spec fn in_parent_set(m: StackModel, prev: Option<StackModel>, x: Seq<u8>) -> bool {
    candidate(m, x) && !(prev matches Some(p) && queue_has_oid(p, all_names(p), x))
}

#[verifier::loop_isolation(false)]
fn add_unique(v: &mut Vec<Oid>, o: Oid)
    requires
        oid_seq(old(v)@).no_duplicates(),
    ensures
        oid_seq(final(v)@).no_duplicates(),
        forall|x: Seq<u8>| #[trigger] oid_seq(final(v)@).contains(x) <==> oid_seq(old(v)@).contains(x) || x == o@,
{
    let mut i: usize = 0;
    while i < v.len()
        invariant
            i <= v@.len(),
            forall|j: int| 0 <= j < i ==> (#[trigger] v@[j])@ != o@,
        decreases v@.len() - i,
    {
        if v[i].same_as(&o) {
            assert(oid_seq(v@)[i as int] == o@);
            return;
        }
        i = i + 1;
    }
    let ghost before = oid_seq(v@);
    v.push(o);
    assert(oid_seq(v@) =~= before.push(o@));
    proof {
        assert forall|x: Seq<u8>| #[trigger] oid_seq(v@).contains(x) <==> before.contains(x) || x == o@ by {
            if oid_seq(v@).contains(x) {
                let j = choose|j: int| 0 <= j < oid_seq(v@).len() && oid_seq(v@)[j] == x;
                if j < before.len() {
                    assert(before[j] == x);
                }
            }
            if before.contains(x) {
                let j = choose|j: int| 0 <= j < before.len() && before[j] == x;
                assert(oid_seq(v@)[j] == x);
            }
            if x == o@ {
                assert(oid_seq(v@)[before.len() as int] == x);
            }
        }
        assert forall|a: int, b: int| 0 <= a < b < oid_seq(v@).len() implies oid_seq(v@)[a] != oid_seq(v@)[b] by {
            if b == before.len() {
                assert(v@[a]@ != o@);
            } else {
                assert(before[a] != before[b]);
            }
        }
    }
}

#[verifier::loop_isolation(false)]
fn remove_oid(v: &mut Vec<Oid>, o: &Oid)
    requires
        oid_seq(old(v)@).no_duplicates(),
    ensures
        oid_seq(final(v)@).no_duplicates(),
        forall|x: Seq<u8>| #[trigger] oid_seq(final(v)@).contains(x) <==> oid_seq(old(v)@).contains(x) && x != o@,
{
    let mut i: usize = 0;
    while i < v.len()
        invariant
            v@ == old(v)@,
            i <= v@.len(),
            forall|j: int| 0 <= j < i ==> (#[trigger] v@[j])@ != o@,
        decreases v@.len() - i,
    {
        if v[i].same_as(o) {
            let ghost before = oid_seq(v@);
            let ghost k = i as int;
            assert(before[k] == o@);
            v.remove(i);
            proof {
                assert(oid_seq(v@) =~= before.remove(k));
                assert forall|x: Seq<u8>| #[trigger] oid_seq(v@).contains(x) <==> before.contains(x) && x != o@ by {
                    if oid_seq(v@).contains(x) {
                        let j = choose|j: int| 0 <= j < oid_seq(v@).len() && oid_seq(v@)[j] == x;
                        let jj = if j < k { j } else { j + 1 };
                        assert(before[jj] == x);
                        assert(jj != k);
                    }
                    if before.contains(x) && x != o@ {
                        let j = choose|j: int| 0 <= j < before.len() && before[j] == x;
                        assert(j != k);
                        let jj = if j < k { j } else { j - 1 };
                        assert(oid_seq(v@)[jj] == x);
                    }
                }
                assert forall|a: int, b: int| 0 <= a < b < oid_seq(v@).len() implies oid_seq(v@)[a] != oid_seq(v@)[b] by {
                    let aa = if a < k { a } else { a + 1 };
                    let bb = if b < k { b } else { b + 1 };
                    assert(before[aa] != before[bb]);
                }
            }
            return;
        }
        i = i + 1;
    }
    proof {
        assert forall|x: Seq<u8>| #[trigger] oid_seq(v@).contains(x) <==> oid_seq(v@).contains(x) && x != o@ by {
            if oid_seq(v@).contains(x) {
                let j = choose|j: int| 0 <= j < oid_seq(v@).len() && oid_seq(v@)[j] == x;
                assert(v@[j]@ != o@);
            }
        }
    }
}


proof fn lemma_queue_step(m: StackModel, q: Seq<Seq<char>>, i: int, x: Seq<u8>)
    requires
        0 <= i < q.len(),
    ensures
        queue_has_oid(m, q.subrange(0, i + 1), x) <==> queue_has_oid(m, q.subrange(0, i), x) || lookup(m.patches, q[i]) == Some(x),
{
    let a = q.subrange(0, i);
    let b = q.subrange(0, i + 1);
    if queue_has_oid(m, b, x) {
        let j = choose|j: int| 0 <= j < b.len() && lookup(m.patches, #[trigger] b[j]) == Some(x);
        if j < i {
            assert(a[j] == b[j]);
        }
    }
    if queue_has_oid(m, a, x) {
        let j = choose|j: int| 0 <= j < a.len() && lookup(m.patches, #[trigger] a[j]) == Some(x);
        assert(b[j] == a[j]);
    }
    if lookup(m.patches, q[i]) == Some(x) {
        assert(b[i] == q[i]);
    }
}

/// Adds the commits of the patches named in `q` to `set`.
#[verifier::loop_isolation(false)]
fn add_queue(s: &Stack, q: &Vec<String>, set: &mut Vec<Oid>, Ghost(names): Ghost<Seq<Seq<char>>>)
    requires
        consistent(s@),
        names == crate::stack::names_of(q@),
        forall|k: int| 0 <= k < names.len() ==> all_names(s@).contains(#[trigger] names[k]),
        oid_seq(old(set)@).no_duplicates(),
    ensures
        oid_seq(final(set)@).no_duplicates(),
        forall|x: Seq<u8>| #[trigger] oid_seq(final(set)@).contains(x) <==> oid_seq(old(set)@).contains(x) || queue_has_oid(s@, names, x),
{
    let ghost start = oid_seq(set@);
    let mut i: usize = 0;
    while i < q.len()
        invariant
            i <= q@.len(),
            oid_seq(set@).no_duplicates(),
            forall|x: Seq<u8>| #[trigger] oid_seq(set@).contains(x) <==> start.contains(x) || queue_has_oid(s@, names.subrange(0, i as int), x),
        decreases q@.len() - i,
    {
        assert(all_names(s@).contains(names[i as int]));
        assert(names[i as int] == q@[i as int]@);
        match s.patch_oid(&q[i]) {
            Some(o) => {
                add_unique(set, o.duplicate());
                proof {
                    assert forall|x: Seq<u8>| #[trigger] oid_seq(set@).contains(x) <==> start.contains(x) || queue_has_oid(s@, names.subrange(0, i + 1), x) by {
                        lemma_queue_step(s@, names, i as int, x);
                    }
                }
            },
            None => {
                assert(false);
            },
        }
        i = i + 1;
    }
    assert(names.subrange(0, i as int) =~= names);
}

/// Removes the commits of the patches named in `q` from `set`.
#[verifier::loop_isolation(false)]
fn remove_queue(p: &Stack, q: &Vec<String>, set: &mut Vec<Oid>)
    requires
        consistent(p@),
        crate::stack::names_of(q@) == all_names(p@),
        oid_seq(old(set)@).no_duplicates(),
    ensures
        oid_seq(final(set)@).no_duplicates(),
        forall|x: Seq<u8>| #[trigger] oid_seq(final(set)@).contains(x) <==> oid_seq(old(set)@).contains(x) && !queue_has_oid(p@, all_names(p@), x),
{
    let ghost names = all_names(p@);
    let ghost start = oid_seq(set@);
    let mut i: usize = 0;
    while i < q.len()
        invariant
            i <= q@.len(),
            oid_seq(set@).no_duplicates(),
            forall|x: Seq<u8>| #[trigger] oid_seq(set@).contains(x) <==> start.contains(x) && !queue_has_oid(p@, names.subrange(0, i as int), x),
        decreases q@.len() - i,
    {
        assert(names[i as int] == q@[i as int]@);
        assert(all_names(p@).contains(names[i as int]));
        match p.patch_oid(&q[i]) {
            Some(o) => {
                remove_oid(set, o);
                proof {
                    assert forall|x: Seq<u8>| #[trigger] oid_seq(set@).contains(x) <==> start.contains(x) && !queue_has_oid(p@, names.subrange(0, i + 1), x) by {
                        lemma_queue_step(p@, names, i as int, x);
                    }
                }
            },
            None => {
                assert(false);
            },
        }
        i = i + 1;
    }
    assert(names.subrange(0, i as int) =~= names);
}

impl Stack {
    /// The commits the new snapshot commit must pin, each once, in the order
    /// first added. `prev_state` is the snapshot stored at `prev`.
    pub fn parent_set(&self, prev_state: Option<&Stack>) -> (r: Vec<Oid>)
        requires
            consistent(self@),
            prev_state matches Some(p) ==> consistent(p@),
            (self@.prev is Some) == (prev_state is Some),
        ensures
            oid_seq(r@).no_duplicates(),
            forall|x: Seq<u8>| #[trigger] oid_seq(r@).contains(x) <==> in_parent_set(
                self@,
                match prev_state { Some(p) => Some(p@), None => None },
                x,
            ),
    {
        let mut set: Vec<Oid> = Vec::new();
        assert(oid_seq(set@) =~= Seq::empty());
        add_unique(&mut set, self.head.duplicate());
        add_unique(&mut set, self.top());
        let ghost m = self@;
        proof {
            assert forall|k: int| 0 <= k < m.unapplied.len() implies all_names(m).contains(#[trigger] m.unapplied[k]) by {
                assert(all_names(m)[m.applied.len() + k] == m.unapplied[k]);
            }
            assert forall|k: int| 0 <= k < m.hidden.len() implies all_names(m).contains(#[trigger] m.hidden[k]) by {
                assert(all_names(m)[m.applied.len() + m.unapplied.len() + k] == m.hidden[k]);
            }
        }
        add_queue(self, &self.unapplied, &mut set, Ghost(m.unapplied));
        add_queue(self, &self.hidden, &mut set, Ghost(m.hidden));
        match (&self.prev, prev_state) {
            (Some(p), Some(ps)) => {
                add_unique(&mut set, p.duplicate());
                let names = ps.all_patches();
                remove_queue(ps, &names, &mut set);
            },
            _ => {},
        }
        set
    }
}



/// Identifiers in strictly increasing byte order.
pub open spec fn sorted_oids(s: Seq<Seq<u8>>) -> bool {
    forall|i: int, j: int| 0 <= i < j < s.len() ==> bytes_lt(#[trigger] s[i], #[trigger] s[j])
}

/// Puts `o` in its place in a sorted list, unless it is there already.
fn add_sorted(v: &mut Vec<Oid>, o: Oid)
    requires
        sorted_oids(oid_seq(old(v)@)),
    ensures
        sorted_oids(oid_seq(final(v)@)),
        forall|x: Seq<u8>| #[trigger] oid_seq(final(v)@).contains(x) <==> oid_seq(old(v)@).contains(x) || x == o@,
{
    let ghost t = oid_seq(v@);
    let mut i: usize = 0;
    while i < v.len()
        invariant
            i <= v@.len(),
            v@ == old(v)@,
            t == oid_seq(old(v)@),
            sorted_oids(t),
            forall|j: int| 0 <= j < i ==> bytes_lt(#[trigger] t[j], o@),
        ensures
            i <= v@.len(),
            v@ == old(v)@,
            t == oid_seq(old(v)@),
            sorted_oids(t),
            forall|j: int| 0 <= j < i ==> bytes_lt(#[trigger] t[j], o@),
            i < v@.len() ==> !bytes_lt(t[i as int], o@),
        decreases v@.len() - i,
    {
        if !bytes_lt_exec(v[i].as_bytes(), o.as_bytes()) {
            break;
        }
        i = i + 1;
    }
    if i < v.len() && v[i].same_as(&o) {
        assert(t[i as int] == o@);
        return;
    }
    proof {
        if i < t.len() {
            lemma_bytes_lt_total(t[i as int], o@);
        }
        assert forall|j: int| i <= j < t.len() implies bytes_lt(o@, #[trigger] t[j]) by {
            if j > i {
                lemma_bytes_lt_transitive(o@, t[i as int], t[j]);
            }
        }
    }
    v.insert(i, o);
    proof {
        let n = oid_seq(v@);
        assert(n =~= t.insert(i as int, o@));
        assert forall|a: int, b: int| 0 <= a < b < n.len() implies bytes_lt(#[trigger] n[a], #[trigger] n[b]) by {
            if a < i && b > i {
                lemma_bytes_lt_transitive(n[a], o@, n[b]);
            }
        }
        assert forall|x: Seq<u8>| #[trigger] n.contains(x) <==> t.contains(x) || x == o@ by {
            if n.contains(x) {
                let j = choose|j: int| 0 <= j < n.len() && n[j] == x;
                if j < i {
                    assert(t[j] == x);
                } else if j > i {
                    assert(t[j - 1] == x);
                }
            }
            if t.contains(x) {
                let j = choose|j: int| 0 <= j < t.len() && t[j] == x;
                let jj = if j < i { j } else { j + 1 };
                assert(n[jj] == x);
            }
            if x == o@ {
                assert(n[i as int] == x);
            }
        }
    }
}

/// Commits reachable from `roots` through recorded grouping commits; each
/// record is (grouping commit, its parents), oldest first, and a record may
/// only name earlier records among its parents.
pub open spec fn reach(log: Seq<(Seq<u8>, Seq<Seq<u8>>)>, roots: Set<Seq<u8>>) -> Set<Seq<u8>>
    decreases log.len(),
{
    if log.len() == 0 {
        roots
    } else {
        let (id, ps) = log.last();
        let next = if roots.contains(id) { roots.union(ps.to_set()) } else { roots };
        reach(log.drop_last(), next)
    }
}

pub proof fn lemma_reach_monotone(log: Seq<(Seq<u8>, Seq<Seq<u8>>)>, a: Set<Seq<u8>>, b: Set<Seq<u8>>)
    requires
        a.subset_of(b),
    ensures
        a.subset_of(reach(log, a)),
        reach(log, a).subset_of(reach(log, b)),
    decreases log.len(),
{
    if log.len() > 0 {
        let (id, ps) = log.last();
        let na = if a.contains(id) { a.union(ps.to_set()) } else { a };
        let nb = if b.contains(id) { b.union(ps.to_set()) } else { b };
        lemma_reach_monotone(log.drop_last(), na, nb);
    }
}

/// Splits a parent set into grouping commits of `MAX_PARENTS` parents until
/// it fits, recording each grouping so that nothing pinned is lost.
pub struct ParentGrouping {
    pending: Vec<Oid>,
    outstanding: Option<Vec<Oid>>,
    initial: Ghost<Set<Seq<u8>>>,
    log: Ghost<Seq<(Seq<u8>, Seq<Seq<u8>>)>>,
}

impl ParentGrouping {
    /// Identifiers still to become parents of the final commit.
    pub closed spec fn pending(&self) -> Seq<Seq<u8>> {
        oid_seq(self.pending@)
    }

    /// The group handed out and not yet written, if any.
    pub closed spec fn outstanding(&self) -> Option<Seq<Seq<u8>>> {
        match self.outstanding {
            Some(g) => Some(oid_seq(g@)),
            None => None,
        }
    }

    /// The set the grouping started from.
    pub closed spec fn initial(&self) -> Set<Seq<u8>> {
        self.initial@
    }

    /// The grouping commits written so far, with their parents.
    pub closed spec fn log(&self) -> Seq<(Seq<u8>, Seq<Seq<u8>>)> {
        self.log@
    }

    /// Everything started from is still pinned by what is pending, what is
    /// handed out, and the grouping commits written.
    pub open spec fn wf(&self) -> bool {
        &&& self.initial().subset_of(reach(
            self.log(),
            self.pending().to_set().union(match self.outstanding() {
                Some(g) => g.to_set(),
                None => Set::empty(),
            }),
        ))
        &&& forall|i: int| 0 <= i < self.log().len() ==> (#[trigger] self.log()[i]).1.len() == MAX_PARENTS
        &&& (self.outstanding() matches Some(g) ==> g.len() == MAX_PARENTS)
        &&& sorted_oids(self.pending())
    }

    /// Starts from `parents`, kept as a sorted set.
    pub fn new(parents: Vec<Oid>) -> (r: ParentGrouping)
        ensures
            r.wf(),
            r.pending().to_set() == oid_seq(parents@).to_set(),
            r.outstanding() is None,
            r.initial() == oid_seq(parents@).to_set(),
            r.log().len() == 0,
    {
        let ghost o = oid_seq(parents@).to_set();
        let mut pending: Vec<Oid> = Vec::new();
        let mut rest = parents;
        let ghost all = oid_seq(rest@);
        assert(oid_seq(pending@) =~= Seq::<Seq<u8>>::empty());
        while rest.len() > 0
            invariant
                sorted_oids(oid_seq(pending@)),
                all.to_set() == o,
                forall|x: Seq<u8>| all.contains(x) <==> #[trigger] oid_seq(pending@).contains(x) || oid_seq(rest@).contains(x),
            decreases rest@.len(),
        {
            let ghost before = oid_seq(rest@);
            let ghost p0 = oid_seq(pending@);
            assert(forall|y: Seq<u8>| #[trigger] all.contains(y) <==> p0.contains(y) || before.contains(y));
            let x = rest.pop().unwrap();
            proof {
                assert(before =~= oid_seq(rest@).push(x@));
            }
            add_sorted(&mut pending, x);
            proof {
                assert forall|y: Seq<u8>| all.contains(y) <==> #[trigger] oid_seq(pending@).contains(y) || oid_seq(rest@).contains(y) by {
                    if before.contains(y) && y != x@ {
                        let j = choose|j: int| 0 <= j < before.len() && before[j] == y;
                        assert(oid_seq(rest@)[j] == y);
                    }
                    if oid_seq(rest@).contains(y) {
                        let j = choose|j: int| 0 <= j < oid_seq(rest@).len() && oid_seq(rest@)[j] == y;
                        assert(before[j] == y);
                    }
                    if y == x@ {
                        assert(before[before.len() - 1] == y);
                    }
                    assert(all.contains(y) <==> p0.contains(y) || before.contains(y));
                }
            }
        }
        assert(oid_seq(pending@).to_set() =~= o);
        let r = ParentGrouping { pending, outstanding: None, initial: Ghost(o), log: Ghost(Seq::empty()) };
        assert(o.union(Set::empty()) =~= o);
        r
    }

    /// The next group of parents to write as a grouping commit, taken from
    /// the end of the pending list; `None` once at most `MAX_PARENTS` remain.
    pub fn next_group(&mut self) -> (r: Option<Vec<Oid>>)
        requires
            old(self).wf(),
            old(self).outstanding() is None,
        ensures
            final(self).wf(),
            final(self).initial() == old(self).initial(),
            final(self).log() == old(self).log(),
            r is None <==> old(self).pending().len() <= MAX_PARENTS,
            r is None ==> *final(self) == *old(self),
            r matches Some(g) ==> {
                let n = old(self).pending().len();
                &&& g@.len() == MAX_PARENTS
                &&& oid_seq(g@) == old(self).pending().subrange(n - MAX_PARENTS, n as int)
                &&& final(self).pending() == old(self).pending().subrange(0, n - MAX_PARENTS)
                &&& final(self).outstanding() == Some(oid_seq(g@))
            },
    {
        if self.pending.len() <= MAX_PARENTS {
            return None;
        }
        let ghost before = oid_seq(self.pending@);
        let n = self.pending.len();
        let group = self.pending.split_off(n - MAX_PARENTS);
        let mut copy: Vec<Oid> = Vec::new();
        let mut i: usize = 0;
        while i < group.len()
            invariant
                i <= group@.len(),
                copy@.len() == i,
                forall|k: int| 0 <= k < i ==> (#[trigger] copy@[k])@ == group@[k]@,
            decreases group@.len() - i,
        {
            copy.push(group[i].duplicate());
            i = i + 1;
        }
        assert(oid_seq(copy@) =~= oid_seq(group@));
        assert(oid_seq(self.pending@) =~= before.subrange(0, n - MAX_PARENTS));
        assert(oid_seq(group@) =~= before.subrange(n - MAX_PARENTS, n as int));
        proof {
            let after = oid_seq(self.pending@).to_set().union(oid_seq(group@).to_set());
            assert(before.to_set() =~= after) by {
                assert forall|x: Seq<u8>| before.to_set().contains(x) <==> after.contains(x) by {
                    if before.contains(x) {
                        let j = choose|j: int| 0 <= j < before.len() && before[j] == x;
                        if j < n - MAX_PARENTS {
                            assert(oid_seq(self.pending@)[j] == x);
                        } else {
                            assert(oid_seq(group@)[j - (n - MAX_PARENTS)] == x);
                        }
                    }
                    if oid_seq(self.pending@).contains(x) {
                        let j = choose|j: int| 0 <= j < oid_seq(self.pending@).len() && oid_seq(self.pending@)[j] == x;
                        assert(before[j] == x);
                    }
                    if oid_seq(group@).contains(x) {
                        let j = choose|j: int| 0 <= j < oid_seq(group@).len() && oid_seq(group@)[j] == x;
                        assert(before[j + (n - MAX_PARENTS)] == x);
                    }
                }
            }
            assert(before.to_set().union(Set::empty()) =~= before.to_set());
        }
        assert(sorted_oids(oid_seq(self.pending@))) by {
            assert forall|a: int, b: int| 0 <= a < b < oid_seq(self.pending@).len() implies bytes_lt(#[trigger] oid_seq(self.pending@)[a], #[trigger] oid_seq(self.pending@)[b]) by {
                assert(oid_seq(self.pending@)[a] == before[a] && oid_seq(self.pending@)[b] == before[b]);
            }
        }
        self.outstanding = Some(group);
        Some(copy)
    }

    /// Records that the outstanding group was written as commit `id`, which
    /// joins the pending set in its sorted place.
    pub fn group_written(&mut self, id: Oid)
        requires
            old(self).wf(),
            old(self).outstanding() is Some,
        ensures
            final(self).wf(),
            final(self).initial() == old(self).initial(),
            final(self).outstanding() is None,
            final(self).pending().to_set() == old(self).pending().to_set().insert(id@),
            final(self).log() == old(self).log().push((id@, old(self).outstanding()->0)),
    {
        let ghost g = self.outstanding()->0;
        let ghost before = self.pending();
        let ghost log0 = self.log();
        let ghost idv = id@;
        self.outstanding = None;
        add_sorted(&mut self.pending, id);
        proof {
            let log1 = log0.push((idv, g));
            self.log = Ghost(log1);
            let roots = self.pending().to_set();
            assert(roots =~= before.to_set().insert(idv));
            assert(roots.contains(idv));
            assert(log1.drop_last() =~= log0);
            assert(reach(log1, roots) == reach(log0, roots.union(g.to_set())));
            let old_roots = before.to_set().union(g.to_set());
            assert(old_roots.subset_of(roots.union(g.to_set())));
            lemma_reach_monotone(log0, old_roots, roots.union(g.to_set()));
            assert(roots.union(Set::empty()) =~= roots);
            assert(self.initial().subset_of(reach(self.log(), roots)));
            assert forall|i: int| 0 <= i < self.log().len() implies (#[trigger] self.log()[i]).1.len() == MAX_PARENTS by {
                if i < log0.len() {
                    assert(self.log()[i] == log0[i]);
                }
            }
        }
    }

    /// The parents of the final snapshot commit: `simplified` first, then
    /// what remains pending, in increasing byte order.
    pub fn final_parents(self, simplified: Oid) -> (r: Vec<Oid>)
        requires
            self.wf(),
            self.outstanding() is None,
            self.pending().len() <= MAX_PARENTS,
        ensures
            r@.len() <= MAX_PARENTS + 1,
            oid_seq(r@) == seq![simplified@] + self.pending(),
            sorted_oids(oid_seq(r@).drop_first()),
            self.initial().subset_of(reach(self.log(), oid_seq(r@).to_set())),
    {
        let ghost p = self.pending();
        let mut r: Vec<Oid> = Vec::new();
        r.push(simplified);
        let mut rest = self.pending;
        r.append(&mut rest);
        proof {
            assert(oid_seq(r@) =~= seq![simplified@] + p);
            assert(oid_seq(r@).drop_first() =~= p);
            assert(p.to_set().union(Set::empty()).subset_of(oid_seq(r@).to_set())) by {
                assert forall|x: Seq<u8>| p.to_set().union(Set::empty()).contains(x) implies oid_seq(r@).to_set().contains(x) by {
                    let j = choose|j: int| 0 <= j < p.len() && p[j] == x;
                    assert(oid_seq(r@)[j + 1] == x);
                }
            }
            lemma_reach_monotone(self.log(), p.to_set().union(Set::empty()), oid_seq(r@).to_set());
        }
        r
    }
}

/// Parents of the simplified commit: the previous snapshot's first parent,
/// when there is a previous snapshot.
pub fn simplified_parents(prev_first_parent: Option<Oid>) -> (r: Vec<Oid>)
    ensures
        r@.len() <= 1,
        oid_seq(r@) == match prev_first_parent {
            Some(p) => seq![p@],
            None => Seq::empty(),
        },
{
    let mut r: Vec<Oid> = Vec::new();
    match prev_first_parent {
        Some(p) => {
            r.push(p);
        },
        None => {},
    }
    assert(oid_seq(r@) =~= match prev_first_parent {
        Some(p) => seq![p@],
        None => Seq::<Seq<u8>>::empty(),
    });
    r
}


/// No grouping commit gets more than `MAX_PARENTS` parents.
pub proof fn lemma_fanout_bound(g: ParentGrouping)
    requires
        g.wf(),
    ensures
        forall|i: int| 0 <= i < g.log().len() ==> (#[trigger] g.log()[i]).1.len() <= MAX_PARENTS,
{
}

/// Once the parent set has gone through grouping, the base, the tip, the
/// previous snapshot and every unapplied or hidden patch commit are reachable
/// from the final commit's parents, except the commits that the previous
/// snapshot lists, which it pins itself.
pub proof fn lemma_parent_completeness(
    m: StackModel,
    prev: Option<StackModel>,
    set: Seq<Seq<u8>>,
    log: Seq<(Seq<u8>, Seq<Seq<u8>>)>,
    parents: Seq<Seq<u8>>,
)
    requires
        forall|x: Seq<u8>| #[trigger] set.contains(x) <==> in_parent_set(m, prev, x),
        set.to_set().subset_of(reach(log, parents.to_set())),
    ensures
        forall|x: Seq<u8>| candidate(m, x) ==> #[trigger] reach(log, parents.to_set()).contains(x)
            || (prev matches Some(p) && queue_has_oid(p, all_names(p), x)),
{
    assert forall|x: Seq<u8>| candidate(m, x) implies #[trigger] reach(log, parents.to_set()).contains(x)
        || (prev matches Some(p) && queue_has_oid(p, all_names(p), x)) by {
        if in_parent_set(m, prev, x) {
            assert(set.contains(x));
            assert(set.to_set().contains(x));
        }
    }
}


/// One snapshot write as the store sees it: the simplified commit with its
/// parents, and the parents of the final commit.
pub struct SnapshotWrite {
    pub simplified: Seq<u8>,
    pub simplified_parents: Seq<Seq<u8>>,
    pub final_parents: Seq<Seq<u8>>,
}

/// The writes of a stack's history, the initializing one first, each made
/// by `simplified_parents` and `final_parents` from the one before.
pub open spec fn linked(h: Seq<SnapshotWrite>) -> bool {
    &&& h.len() > 0
    &&& h[0].simplified_parents == Seq::<Seq<u8>>::empty()
    &&& forall|i: int| 0 <= i < h.len() ==> (#[trigger] h[i]).final_parents.len() > 0 && h[i].final_parents[0] == h[i].simplified
    &&& forall|i: int| 0 < i < h.len() ==> (#[trigger] h[i]).simplified_parents == seq![h[i - 1].final_parents[0]]
}

/// The simplified commits met by following first parents from write `i`.
pub open spec fn first_parent_chain(h: Seq<SnapshotWrite>, i: int) -> Seq<Seq<u8>>
    decreases i,
{
    if i <= 0 || h[i].simplified_parents.len() == 0 {
        seq![h[i].simplified]
    } else {
        seq![h[i].simplified] + first_parent_chain(h, i - 1)
    }
}

/// From the commit of the snapshot at depth `d`, first parents lead through
/// exactly `d + 1` simplified commits, ending at the initializing one.
pub proof fn lemma_simplified_linear(h: Seq<SnapshotWrite>, d: int)
    requires
        linked(h),
        0 <= d < h.len(),
    ensures
        first_parent_chain(h, d).len() == d + 1,
        first_parent_chain(h, d).last() == h[0].simplified,
        first_parent_chain(h, d)[0] == h[d].final_parents[0],
    decreases d,
{
    assert(h[d].final_parents[0] == h[d].simplified);
    if d > 0 {
        lemma_simplified_linear(h, d - 1);
        assert(h[d].simplified_parents.len() == 1);
    }
}


/// The commit `k` parent steps up from `x` in the store's parent map.
pub open spec fn ancestor(parent: Map<Seq<u8>, Seq<u8>>, x: Seq<u8>, k: nat) -> Seq<u8>
    decreases k,
{
    if k == 0 {
        x
    } else {
        ancestor(parent, parent[x], (k - 1) as nat)
    }
}

/// Each applied patch's commit has as parent the patch below it, and the
/// lowest has the base.
pub open spec fn applied_chained(m: StackModel, parent: Map<Seq<u8>, Seq<u8>>) -> bool {
    forall|i: int| 0 <= i < m.applied.len() ==> parent[lookup(m.patches, #[trigger] m.applied[i])->0] == if i == 0 {
        m.head
    } else {
        lookup(m.patches, m.applied[i - 1])->0
    }
}

/// Where applied patches are chained, every applied patch commit, and the
/// base, lie on the parent path from the tip; the tip itself is pinned by
/// the snapshot commit.
pub proof fn lemma_applied_below_tip(m: StackModel, parent: Map<Seq<u8>, Seq<u8>>)
    requires
        consistent(m),
        applied_chained(m, parent),
    ensures
        forall|i: int| 0 <= i < m.applied.len() ==> ancestor(parent, top_of(m), (m.applied.len() - 1 - i) as nat)
            == lookup(m.patches, #[trigger] m.applied[i])->0,
        ancestor(parent, top_of(m), m.applied.len()) == m.head,
{
    let n = m.applied.len();
    assert forall|i: int| 0 <= i < n implies ancestor(parent, top_of(m), (n - 1 - i) as nat)
        == lookup(m.patches, #[trigger] m.applied[i])->0 by {
        lemma_chain_step(m, parent, i);
    }
    if n > 0 {
        lemma_chain_step(m, parent, 0);
        assert(ancestor(parent, top_of(m), n as nat) == ancestor(parent, parent[ancestor(parent, top_of(m), (n - 1) as nat)], 0)) by {
            lemma_ancestor_last(parent, top_of(m), (n - 1) as nat);
        }
    }
}

proof fn lemma_ancestor_last(parent: Map<Seq<u8>, Seq<u8>>, x: Seq<u8>, k: nat)
    ensures
        ancestor(parent, x, k + 1) == parent[ancestor(parent, x, k)],
    decreases k,
{
    assert(ancestor(parent, x, k + 1) == ancestor(parent, parent[x], k));
    if k > 0 {
        lemma_ancestor_last(parent, parent[x], (k - 1) as nat);
        assert(((k - 1) as nat) + 1 == k);
        assert(ancestor(parent, x, k) == ancestor(parent, parent[x], (k - 1) as nat));
    }
}

proof fn lemma_chain_step(m: StackModel, parent: Map<Seq<u8>, Seq<u8>>, i: int)
    requires
        consistent(m),
        applied_chained(m, parent),
        0 <= i < m.applied.len(),
    ensures
        ancestor(parent, top_of(m), (m.applied.len() - 1 - i) as nat) == lookup(m.patches, m.applied[i])->0,
    decreases m.applied.len() - i,
{
    let n = m.applied.len();
    if i == n - 1 {
        assert(m.applied.last() == m.applied[i]);
    } else {
        lemma_chain_step(m, parent, i + 1);
        lemma_ancestor_last(parent, top_of(m), (n - 1 - (i + 1)) as nat);
        assert(parent[lookup(m.patches, m.applied[i + 1])->0] == lookup(m.patches, m.applied[i])->0);
        assert((n - 1 - (i + 1)) as nat + 1 == (n - 1 - i) as nat);
    }
}

} // verus!
