//! The snapshot's document form: what `stack.json` holds.
//!
//! ```text
//! { "version": "5", "prev": <hex> | null, "head": <hex>,
//!   "applied": [..], "unapplied": [..], "hidden": [..],
//!   "patches": { name: { "oid": <hex> }, .. } }
//! ```
//! Members come in this order and patches sorted by name. Reading accepts
//! members in any order, the version as the number 5 or the string "5", and
//! refuses unknown members.

use vstd::prelude::*;
use crate::error::StackError;
use crate::json::{Json, is_str, json_same, member_index, keys_unique, find_member, check_keys_unique, text_is};
use crate::oid::{Oid, hex_text, hex_bytes, is_oid_text, OID_LEN};
use crate::stack::{Stack, StackModel, all_names, consistent, names_of, oid_opt};
use crate::order::name_lt;
use crate::table::{PatchEntry, table_of, is_sorted, has_key, lookup, insert_entry, find_entry};

verus! {

// ----- writing -----

pub open spec fn names_doc(j: Json, names: Seq<Seq<char>>) -> bool {
    j matches Json::Array(v) && v@.len() == names.len() && forall|i: int|
        0 <= i < names.len() ==> is_str(#[trigger] v@[i], names[i])
}

pub open spec fn oid_doc(j: Json, id: Seq<u8>) -> bool {
    j matches Json::Object(g) && g@.len() == 1 && g@[0].0@ == "oid"@ && is_str(g@[0].1, hex_text(id))
}

pub open spec fn patches_doc(j: Json, t: Seq<(Seq<char>, Seq<u8>)>) -> bool {
    j matches Json::Object(f) && f@.len() == t.len() && forall|i: int|
        0 <= i < t.len() ==> (#[trigger] f@[i]).0@ == t[i].0 && oid_doc(f@[i].1, t[i].1)
}

pub open spec fn prev_doc(j: Json, p: Option<Seq<u8>>) -> bool {
    match p {
        None => j is Null,
        Some(x) => is_str(j, hex_text(x)),
    }
}

/// Every identifier of the snapshot has the full twenty bytes.
pub open spec fn ids_valid(m: StackModel) -> bool {
    &&& m.head.len() == OID_LEN
    &&& (m.prev matches Some(p) ==> p.len() == OID_LEN)
    &&& forall|i: int| 0 <= i < m.patches.len() ==> (#[trigger] m.patches[i]).1.len() == OID_LEN
}

/// `j` is the document of snapshot `m`, member by member; every identifier
/// in it is forty hex digits.
pub open spec fn encoded(m: StackModel, j: Json) -> bool {
    &&& ids_valid(m)
    &&& j matches Json::Object(f) && f@.len() == 7
        && f@[0].0@ == "version"@ && is_str(f@[0].1, "5"@)
        && f@[1].0@ == "prev"@ && prev_doc(f@[1].1, m.prev)
        && f@[2].0@ == "head"@ && is_str(f@[2].1, hex_text(m.head))
        && f@[3].0@ == "applied"@ && names_doc(f@[3].1, m.applied)
        && f@[4].0@ == "unapplied"@ && names_doc(f@[4].1, m.unapplied)
        && f@[5].0@ == "hidden"@ && names_doc(f@[5].1, m.hidden)
        && f@[6].0@ == "patches"@ && patches_doc(f@[6].1, m.patches)
}

fn names_json(v: &Vec<String>) -> (r: Json)
    ensures
        names_doc(r, names_of(v@)),
{
    let mut out: Vec<Json> = Vec::new();
    let mut i: usize = 0;
    while i < v.len()
        invariant
            i <= v@.len(),
            out@.len() == i,
            forall|k: int| 0 <= k < i ==> is_str(#[trigger] out@[k], v@[k]@),
        decreases v@.len() - i,
    {
        out.push(Json::Str(v[i].clone()));
        i = i + 1;
    }
    Json::Array(out)
}

fn patches_json(v: &Vec<PatchEntry>) -> (r: Json)
    ensures
        patches_doc(r, table_of(v@)),
        forall|k: int| 0 <= k < v@.len() ==> (#[trigger] v@[k]).oid@.len() == OID_LEN,
{
    let mut out: Vec<(String, Json)> = Vec::new();
    let mut i: usize = 0;
    while i < v.len()
        invariant
            i <= v@.len(),
            out@.len() == i,
            forall|k: int| 0 <= k < i ==> (#[trigger] out@[k]).0@ == v@[k].name@ && oid_doc(out@[k].1, v@[k].oid@),
            forall|k: int| 0 <= k < i ==> (#[trigger] v@[k]).oid@.len() == OID_LEN,
        decreases v@.len() - i,
    {
        let mut inner: Vec<(String, Json)> = Vec::new();
        inner.push(("oid".to_owned(), Json::Str(v[i].oid.to_hex())));
        out.push((v[i].name.clone(), Json::Object(inner)));
        i = i + 1;
    }
    Json::Object(out)
}

/// The document of a snapshot.
pub fn encode(s: &Stack) -> (r: Json)
    ensures
        encoded(s@, r),
{
    let prev = match &s.prev {
        Some(p) => Json::Str(p.to_hex()),
        None => Json::Null,
    };
    let mut f: Vec<(String, Json)> = Vec::new();
    f.push(("version".to_owned(), Json::Str("5".to_owned())));
    f.push(("prev".to_owned(), prev));
    f.push(("head".to_owned(), Json::Str(s.head.to_hex())));
    f.push(("applied".to_owned(), names_json(&s.applied)));
    f.push(("unapplied".to_owned(), names_json(&s.unapplied)));
    f.push(("hidden".to_owned(), names_json(&s.hidden)));
    f.push(("patches".to_owned(), patches_json(&s.patches)));
    Json::Object(f)
}

// ----- reading -----

/// The member names a document may have.
pub open spec fn known_key(k: Seq<char>) -> bool {
    k == "version"@ || k == "prev"@ || k == "head"@ || k == "applied"@ || k == "unapplied"@
        || k == "hidden"@ || k == "patches"@
}

/// The value of member `k` of object members `f`.
pub open spec fn field(f: Seq<(String, Json)>, k: Seq<char>) -> Json {
    f[member_index(f, k)->0].1
}

pub open spec fn is_name_list(j: Json) -> bool {
    j matches Json::Array(v) && forall|i: int| 0 <= i < v@.len() ==> (#[trigger] v@[i]) is Str
}

pub open spec fn name_list(j: Json) -> Seq<Seq<char>> {
    Seq::new(j->Array_0@.len(), |i: int| j->Array_0@[i]->Str_0@)
}

pub open spec fn is_oid_member(j: Json) -> bool {
    j matches Json::Object(g) && g@.len() == 1 && g@[0].0@ == "oid"@ && g@[0].1 is Str
}

pub open spec fn oid_member_text(j: Json) -> Seq<char> {
    j->Object_0@[0].1->Str_0@
}

pub open spec fn is_patch_map(j: Json) -> bool {
    j matches Json::Object(f) && keys_unique(f@) && forall|i: int|
        0 <= i < f@.len() ==> is_oid_member(#[trigger] f@[i].1)
}

/// The document is an object with exactly the known members, each of the right kind.
pub open spec fn shape_ok(j: Json) -> bool {
    &&& j matches Json::Object(f)
    &&& keys_unique(j->Object_0@)
    &&& forall|i: int| 0 <= i < j->Object_0@.len() ==> known_key(#[trigger] j->Object_0@[i].0@)
    &&& member_index(j->Object_0@, "version"@) is Some
    &&& member_index(j->Object_0@, "prev"@) is Some
    &&& member_index(j->Object_0@, "head"@) is Some
    &&& member_index(j->Object_0@, "applied"@) is Some
    &&& member_index(j->Object_0@, "unapplied"@) is Some
    &&& member_index(j->Object_0@, "hidden"@) is Some
    &&& member_index(j->Object_0@, "patches"@) is Some
    &&& (field(j->Object_0@, "version"@) is Number || field(j->Object_0@, "version"@) is Str)
    &&& (field(j->Object_0@, "prev"@) is Null || field(j->Object_0@, "prev"@) is Str)
    &&& field(j->Object_0@, "head"@) is Str
    &&& is_name_list(field(j->Object_0@, "applied"@))
    &&& is_name_list(field(j->Object_0@, "unapplied"@))
    &&& is_name_list(field(j->Object_0@, "hidden"@))
    &&& is_patch_map(field(j->Object_0@, "patches"@))
}

/// The version as written, number or string.
pub open spec fn version_text(j: Json) -> Seq<char> {
    match field(j->Object_0@, "version"@) {
        Json::Number(t) => t@,
        Json::Str(t) => t@,
        _ => Seq::empty(),
    }
}

pub open spec fn version_ok(j: Json) -> bool {
    version_text(j) == "5"@
}

/// The patch table as written, in document order.
pub open spec fn raw_table(p: Json) -> Seq<(Seq<char>, Seq<u8>)> {
    Seq::new(p->Object_0@.len(), |i: int| (p->Object_0@[i].0@, hex_bytes(oid_member_text(p->Object_0@[i].1))))
}

/// Every identifier in the document is forty hex digits.
pub open spec fn ids_ok(j: Json) -> bool {
    let f = j->Object_0@;
    &&& (field(f, "prev"@) matches Json::Str(t) ==> is_oid_text(t@))
    &&& is_oid_text(field(f, "head"@)->Str_0@)
    &&& forall|i: int| 0 <= i < field(f, "patches"@)->Object_0@.len()
        ==> is_oid_text(oid_member_text(#[trigger] field(f, "patches"@)->Object_0@[i].1))
}

/// The snapshot a well-formed document describes, patches in document order.
pub open spec fn raw_model(j: Json) -> StackModel {
    let f = j->Object_0@;
    StackModel {
        prev: match field(f, "prev"@) {
            Json::Str(t) => Some(hex_bytes(t@)),
            _ => None,
        },
        head: hex_bytes(field(f, "head"@)->Str_0@),
        applied: name_list(field(f, "applied"@)),
        unapplied: name_list(field(f, "unapplied"@)),
        hidden: name_list(field(f, "hidden"@)),
        patches: raw_table(field(f, "patches"@)),
    }
}

/// The queues hold each name once and exactly the names of the table.
pub open spec fn queues_ok(m: StackModel) -> bool {
    &&& all_names(m).no_duplicates()
    &&& forall|k: Seq<char>| #[trigger] all_names(m).contains(k) <==> has_key(m.patches, k)
}

/// What reading document `j` gives.
pub open spec fn decodes_to(j: Json, r: Result<Stack, StackError>) -> bool {
    &&& r is Ok <==> shape_ok(j) && version_ok(j) && ids_ok(j) && queues_ok(raw_model(j))
    &&& (r matches Err(StackError::UnsupportedStackVersion(_))) <==> shape_ok(j) && !version_ok(j)
    &&& (r matches Err(StackError::UnsupportedStackVersion(t)) ==> t@ == version_text(j))
    &&& (r matches Err(e) ==> (e is UnsupportedStackVersion || e is MalformedPersistedState))
    &&& (r matches Ok(s) ==> {
        let m = raw_model(j);
        &&& consistent(s@)
        &&& s@.prev == m.prev
        &&& s@.head == m.head
        &&& s@.applied == m.applied
        &&& s@.unapplied == m.unapplied
        &&& s@.hidden == m.hidden
        &&& forall|k: Seq<char>| #[trigger] lookup(s@.patches, k) == lookup(m.patches, k)
    })
}

proof fn lemma_member_at(f: Seq<(String, Json)>, i: int)
    requires
        keys_unique(f),
        0 <= i < f.len(),
    ensures
        member_index(f, f[i].0@) == Some(i),
{
    let k = f[i].0@;
    assert(f[i].0@ == k);
    let j = choose|j: int| 0 <= j < f.len() && #[trigger] f[j].0@ == k;
    if j < i {
        assert(f[j].0@ != f[i].0@);
    } else if j > i {
        assert(f[i].0@ != f[j].0@);
    }
}

fn malformed(why: &str) -> (r: StackError)
    ensures
        r is MalformedPersistedState,
{
    StackError::MalformedPersistedState(why.to_owned())
}

/// The member named `key` of a document with unique member names.
fn get_field<'a>(f: &'a Vec<(String, Json)>, key: &str) -> (r: Option<&'a Json>)
    requires
        keys_unique(f@),
    ensures
        r is None <==> member_index(f@, key@) is None,
        r matches Some(x) ==> *x == field(f@, key@),
{
    match find_member(f, key) {
        Some(i) => {
            proof {
                lemma_member_at(f@, i as int);
            }
            Some(&f[i].1)
        },
        None => None,
    }
}

fn is_known_key(k: &String) -> (r: bool)
    ensures
        r == known_key(k@),
{
    text_is(k, "version") || text_is(k, "prev") || text_is(k, "head") || text_is(k, "applied")
        || text_is(k, "unapplied") || text_is(k, "hidden") || text_is(k, "patches")
}

fn read_names(j: &Json) -> (r: Option<Vec<String>>)
    ensures
        r is Some <==> is_name_list(*j),
        r matches Some(v) ==> names_of(v@) == name_list(*j),
{
    let v = match j {
        Json::Array(v) => v,
        _ => return None,
    };
    let mut out: Vec<String> = Vec::new();
    let mut i: usize = 0;
    while i < v.len()
        invariant
            *j == Json::Array(*v),
            i <= v@.len(),
            out@.len() == i,
            forall|k: int| 0 <= k < i ==> (#[trigger] v@[k]) is Str && out@[k]@ == v@[k]->Str_0@,
        decreases v@.len() - i,
    {
        match &v[i] {
            Json::Str(s) => out.push(s.clone()),
            _ => return None,
        }
        i = i + 1;
    }
    assert(names_of(out@) =~= name_list(*j));
    Some(out)
}

fn read_oid(t: &String) -> (r: Result<Oid, StackError>)
    ensures
        r is Ok <==> is_oid_text(t@),
        r matches Ok(o) ==> o@ == hex_bytes(t@),
        r matches Err(e) ==> e is MalformedPersistedState,
{
    match Oid::from_hex(t.as_str()) {
        Some(o) => Ok(o),
        None => Err(malformed("object id is not forty hex digits")),
    }
}

fn all_distinct(v: &Vec<String>) -> (r: bool)
    ensures
        r == names_of(v@).no_duplicates(),
{
    let mut i: usize = 0;
    while i < v.len()
        invariant
            i <= v@.len(),
            forall|a: int, b: int| 0 <= a < i && a < b < v@.len() ==> #[trigger] v@[a]@ != #[trigger] v@[b]@,
        decreases v@.len() - i,
    {
        let mut j: usize = i + 1;
        while j < v.len()
            invariant
                i < v@.len(),
                i + 1 <= j <= v@.len(),
                forall|a: int, b: int| 0 <= a < i && a < b < v@.len() ==> #[trigger] v@[a]@ != #[trigger] v@[b]@,
                forall|b: int| i < b < j ==> v@[i as int]@ != #[trigger] v@[b]@,
            decreases v@.len() - j,
        {
            if v[i] == v[j] {
                assert(names_of(v@)[i as int] == names_of(v@)[j as int]);
                return false;
            }
            j = j + 1;
        }
        i = i + 1;
    }
    assert forall|a: int, b: int| 0 <= a < names_of(v@).len() && 0 <= b < names_of(v@).len() && a != b
        implies names_of(v@)[a] != names_of(v@)[b] by {
        if a < b {
            assert(v@[a]@ != v@[b]@);
        } else {
            assert(v@[b]@ != v@[a]@);
        }
    }
    true
}

/// Whether the queues and the table of `s` agree; the table is sorted already.
pub(crate) fn queues_agree(s: &Stack) -> (r: bool)
    requires
        is_sorted(s@.patches),
    ensures
        r == queues_ok(s@),
{
    let names = s.all_patches();
    if !all_distinct(&names) {
        return false;
    }
    let mut i: usize = 0;
    while i < names.len()
        invariant
            i <= names@.len(),
            names_of(names@) == all_names(s@),
            forall|k: int| 0 <= k < i ==> has_key(s@.patches, #[trigger] names@[k]@),
        decreases names@.len() - i,
    {
        if find_entry(&s.patches, &names[i]).is_none() {
            assert(all_names(s@)[i as int] == names@[i as int]@);
            assert(all_names(s@).contains(names@[i as int]@));
            return false;
        }
        i = i + 1;
    }
    let mut k: usize = 0;
    while k < s.patches.len()
        invariant
            k <= s.patches@.len(),
            forall|x: int| 0 <= x < k ==> all_names(s@).contains(#[trigger] s@.patches[x].0),
        decreases s.patches@.len() - k,
    {
        if !s.has_patch(&s.patches[k].name) {
            assert(s@.patches[k as int].0 == s.patches@[k as int].name@);
            assert(has_key(s@.patches, s@.patches[k as int].0));
            return false;
        }
        k = k + 1;
    }
    assert forall|key: Seq<char>| #[trigger] all_names(s@).contains(key) <==> has_key(s@.patches, key) by {
        if all_names(s@).contains(key) {
            let x = choose|x: int| 0 <= x < all_names(s@).len() && all_names(s@)[x] == key;
            assert(names@[x]@ == key);
        }
        if has_key(s@.patches, key) {
            let x = choose|x: int| 0 <= x < s@.patches.len() && #[trigger] s@.patches[x].0 == key;
            assert(all_names(s@).contains(s@.patches[x].0));
        }
    }
    true
}

fn read_patches(f: &Vec<(String, Json)>) -> (r: Result<Vec<PatchEntry>, StackError>)
    requires
        is_patch_map(Json::Object(*f)),
    ensures
        r is Ok <==> forall|i: int| 0 <= i < f@.len() ==> is_oid_text(oid_member_text(#[trigger] f@[i].1)),
        r matches Err(e) ==> e is MalformedPersistedState,
        r matches Ok(v) ==> is_sorted(table_of(v@)),
        r matches Ok(v) ==> forall|k: Seq<char>|
            #[trigger] lookup(table_of(v@), k) == lookup(raw_table(Json::Object(*f)), k),
        r matches Ok(v) ==> (is_sorted(raw_table(Json::Object(*f))) ==> table_of(v@) == raw_table(Json::Object(*f))),
{
    let ghost raw = raw_table(Json::Object(*f));
    let mut out: Vec<PatchEntry> = Vec::new();
    let mut i: usize = 0;
    assert(table_of(out@) =~= raw.subrange(0, 0));
    while i < f.len()
        invariant
            is_patch_map(Json::Object(*f)),
            raw == raw_table(Json::Object(*f)),
            i <= f@.len(),
            is_sorted(table_of(out@)),
            table_of(out@).len() == i,
            forall|x: int| 0 <= x < i ==> is_oid_text(oid_member_text(#[trigger] f@[x].1)),
            forall|k: Seq<char>| #[trigger] lookup(table_of(out@), k) == lookup(raw.subrange(0, i as int), k),
            is_sorted(raw) ==> table_of(out@) == raw.subrange(0, i as int),
        decreases f@.len() - i,
    {
        let text = match &f[i].1 {
            Json::Object(g) => match &g[0].1 {
                Json::Str(t) => t,
                _ => return Err(malformed("patch oid is not a string")),
            },
            _ => return Err(malformed("patch entry is not an object")),
        };
        let oid = match read_oid(text) {
            Ok(o) => o,
            Err(e) => return Err(e),
        };
        let ghost before = table_of(out@);
        let ghost sub = raw.subrange(0, i as int);
        let ghost sub2 = raw.subrange(0, i + 1);
        proof {
            assert forall|x: int| 0 <= x < sub.len() implies #[trigger] sub[x].0 != raw[i as int].0 by {
                assert(f@[x].0@ != f@[i as int].0@);
            }
            assert(!has_key(before, f@[i as int].0@)) by {
                if has_key(before, f@[i as int].0@) {
                    assert(lookup(before, f@[i as int].0@) is Some);
                    assert(lookup(sub, f@[i as int].0@) is Some);
                }
            }
            if is_sorted(raw) {
                assert forall|j: int| 0 <= j < out@.len() implies crate::order::name_lt(#[trigger] out@[j].name@, f@[i as int].0@) by {
                    assert(table_of(out@)[j] == raw.subrange(0, i as int)[j]);
                    assert(name_lt(raw[j].0, raw[i as int].0));
                }
            }
        }
        let inserted = insert_entry(&mut out, f[i].0.clone(), oid);
        proof {
            assert(inserted);
            assert forall|k: Seq<char>| #[trigger] lookup(table_of(out@), k) == lookup(sub2, k) by {
                assert(lookup(table_of(out@), k) == if k == f@[i as int].0@ { Some(hex_bytes(text@)) } else { lookup(before, k) });
                assert(sub2 =~= sub.push(raw[i as int]));
                if has_key(sub2, k) {
                    let x = choose|x: int| 0 <= x < sub2.len() && #[trigger] sub2[x].0 == k;
                    let y = choose|y: int| 0 <= y < sub2.len() && #[trigger] sub2[y].0 == k;
                    if x != y {
                        assert(f@[x].0@ == f@[y].0@);
                        if x < y { assert(f@[x].0@ != f@[y].0@); } else { assert(f@[y].0@ != f@[x].0@); }
                    }
                    if k != f@[i as int].0@ {
                        assert(x < i);
                        assert(sub[x].0 == k);
                        let z = choose|z: int| 0 <= z < sub.len() && #[trigger] sub[z].0 == k;
                        assert(sub2[z].0 == k);
                    } else {
                        assert(sub2[i as int].0 == k);
                    }
                } else if k != f@[i as int].0@ {
                    if has_key(sub, k) {
                        let z = choose|z: int| 0 <= z < sub.len() && #[trigger] sub[z].0 == k;
                        assert(sub2[z].0 == k);
                    }
                } else {
                    assert(sub2[i as int].0 == k);
                }
            }
            if is_sorted(raw) {
                assert(table_of(out@) =~= sub2);
            }
        }
        i = i + 1;
    }
    assert(raw.subrange(0, i as int) =~= raw);
    Ok(out)
}

/// Reads a snapshot from its document.
#[verifier::loop_isolation(false)]
pub fn decode(j: &Json) -> (r: Result<Stack, StackError>)
    ensures
        decodes_to(*j, r),
{
    let f = match j {
        Json::Object(f) => f,
        _ => return Err(malformed("document is not an object")),
    };
    if !check_keys_unique(f) {
        return Err(malformed("a member occurs twice"));
    }
    let mut i: usize = 0;
    while i < f.len()
        invariant
            i <= f@.len(),
            forall|x: int| 0 <= x < i ==> known_key(#[trigger] f@[x].0@),
        decreases f@.len() - i,
    {
        if !is_known_key(&f[i].0) {
            assert(!known_key(f@[i as int].0@));
            return Err(malformed("unknown member"));
        }
        i = i + 1;
    }
    let version = get_field(f, "version");
    let prev = get_field(f, "prev");
    let head = get_field(f, "head");
    let applied = get_field(f, "applied");
    let unapplied = get_field(f, "unapplied");
    let hidden = get_field(f, "hidden");
    let patches = get_field(f, "patches");
    let (version, prev, head, applied, unapplied, hidden, patches) = match (version, prev, head, applied, unapplied, hidden, patches) {
        (Some(a), Some(b), Some(c), Some(d), Some(e), Some(g), Some(h)) => (a, b, c, d, e, g, h),
        _ => return Err(malformed("a member is missing")),
    };
    let version = match version {
        Json::Number(t) => t,
        Json::Str(t) => t,
        _ => return Err(malformed("version is neither number nor string")),
    };
    let prev: Option<&String> = match prev {
        Json::Null => None,
        Json::Str(t) => Some(t),
        _ => return Err(malformed("prev is neither null nor string")),
    };
    let head = match head {
        Json::Str(t) => t,
        _ => return Err(malformed("head is not a string")),
    };
    let applied = match read_names(applied) {
        Some(v) => v,
        None => return Err(malformed("applied is not a list of names")),
    };
    let unapplied = match read_names(unapplied) {
        Some(v) => v,
        None => return Err(malformed("unapplied is not a list of names")),
    };
    let hidden = match read_names(hidden) {
        Some(v) => v,
        None => return Err(malformed("hidden is not a list of names")),
    };
    let members = match patches {
        Json::Object(m) => m,
        _ => return Err(malformed("patches is not an object")),
    };
    if !check_keys_unique(members) {
        return Err(malformed("a patch occurs twice"));
    }
    let mut k: usize = 0;
    while k < members.len()
        invariant
            k <= members@.len(),
            forall|x: int| 0 <= x < k ==> is_oid_member(#[trigger] members@[x].1),
        decreases members@.len() - k,
    {
        let ok = match &members[k].1 {
            Json::Object(g) => g.len() == 1 && text_is(&g[0].0, "oid") && matches!(g[0].1, Json::Str(_)),
            _ => false,
        };
        if !ok {
            assert(!is_oid_member(members@[k as int].1));
            assert(!is_patch_map(Json::Object(*members)));
            return Err(malformed("patch entry is not an oid record"));
        }
        k = k + 1;
    }
    assert(shape_ok(*j));
    if !text_is(version, "5") {
        return Err(StackError::UnsupportedStackVersion(version.clone()));
    }
    let prev = match prev {
        Some(t) => match read_oid(t) {
            Ok(o) => Some(o),
            Err(e) => return Err(e),
        },
        None => None,
    };
    let head = match read_oid(head) {
        Ok(o) => o,
        Err(e) => return Err(e),
    };
    let table = match read_patches(members) {
        Ok(t) => t,
        Err(e) => return Err(e),
    };
    let s = Stack { prev, head, applied, unapplied, hidden, patches: table };
    proof {
        let m = raw_model(*j);
        assert(oid_opt(s.prev) == m.prev);
        assert forall|key: Seq<char>| has_key(s@.patches, key) == has_key(m.patches, key) by {
            assert(lookup(s@.patches, key) == lookup(m.patches, key));
        }
        assert(all_names(s@) == all_names(m));
    }
    if !queues_agree(&s) {
        return Err(malformed("queues and patch table disagree"));
    }
    Ok(s)
}

// ----- laws -----

proof fn lemma_names_back(j: Json, names: Seq<Seq<char>>)
    requires
        names_doc(j, names),
    ensures
        is_name_list(j),
        name_list(j) == names,
{
    assert(name_list(j) =~= names);
}

/// Reading the document of a consistent snapshot gives that snapshot back.
pub proof fn lemma_round_trip(m: StackModel, j: Json, r: Result<Stack, StackError>)
    requires
        consistent(m),
        encoded(m, j),
        decodes_to(j, r),
    ensures
        r matches Ok(s) && s@ == m,
{
    reveal_strlit("version");
    reveal_strlit("prev");
    reveal_strlit("head");
    reveal_strlit("applied");
    reveal_strlit("unapplied");
    reveal_strlit("hidden");
    reveal_strlit("patches");
    let f = j->Object_0@;
    assert(f[0].0@[0] == 'v' && f[0].0@.len() == 7);
    assert(f[1].0@[0] == 'p' && f[1].0@.len() == 4);
    assert(f[2].0@[0] == 'h' && f[2].0@.len() == 4);
    assert(f[3].0@[0] == 'a' && f[3].0@.len() == 7);
    assert(f[4].0@[0] == 'u' && f[4].0@.len() == 9);
    assert(f[5].0@[0] == 'h' && f[5].0@.len() == 6);
    assert(f[6].0@[0] == 'p' && f[6].0@.len() == 7);
    assert(keys_unique(f));
    lemma_member_at(f, 0);
    lemma_member_at(f, 1);
    lemma_member_at(f, 2);
    lemma_member_at(f, 3);
    lemma_member_at(f, 4);
    lemma_member_at(f, 5);
    lemma_member_at(f, 6);
    lemma_names_back(f[3].1, m.applied);
    lemma_names_back(f[4].1, m.unapplied);
    lemma_names_back(f[5].1, m.hidden);
    let p = f[6].1;
    let pf = p->Object_0@;
    assert forall|a: int, b: int| 0 <= a < b < pf.len() implies #[trigger] pf[a].0@ != #[trigger] pf[b].0@ by {
        assert(name_lt(m.patches[a].0, m.patches[b].0));
        crate::order::lemma_lt_irreflexive(m.patches[a].0);
    }
    assert forall|i: int| 0 <= i < pf.len() implies is_oid_member(#[trigger] pf[i].1) by {
        assert(oid_doc(pf[i].1, m.patches[i].1));
    }
    assert(shape_ok(j));
    assert(version_ok(j));
    crate::oid::lemma_hex_round_trip(m.head);
    if let Some(q) = m.prev {
        crate::oid::lemma_hex_round_trip(q);
    }
    assert forall|i: int| 0 <= i < pf.len() implies is_oid_text(oid_member_text(#[trigger] pf[i].1)) && hex_bytes(oid_member_text(pf[i].1)) == m.patches[i].1 by {
        assert(oid_doc(pf[i].1, m.patches[i].1));
        crate::oid::lemma_hex_round_trip(m.patches[i].1);
    }
    assert(ids_ok(j));
    assert(raw_table(p) =~= m.patches);
    let raw = raw_model(j);
    assert(raw.prev == m.prev);
    assert(raw == m);
    let s = r->Ok_0;
    crate::table::lemma_sorted_tables_equal(s@.patches, m.patches);
}

/// A well-formed document whose version is not 5 is refused as such.
pub proof fn lemma_version_gating(j: Json, r: Result<Stack, StackError>)
    requires
        shape_ok(j),
        !version_ok(j),
        decodes_to(j, r),
    ensures
        r matches Err(StackError::UnsupportedStackVersion(t)) && t@ == version_text(j),
{
}

/// Every snapshot that reading yields keeps the queues disjoint and in
/// agreement with the patch table.
pub proof fn lemma_decoded_consistent(j: Json, r: Result<Stack, StackError>)
    requires
        decodes_to(j, r),
    ensures
        r matches Ok(s) ==> consistent(s@),
{
}


proof fn lemma_same_str(a: Json, b: Json, t: Seq<char>)
    requires
        is_str(a, t),
        is_str(b, t),
    ensures
        json_same(a, b),
{
}

proof fn lemma_same_names(a: Json, b: Json, names: Seq<Seq<char>>)
    requires
        names_doc(a, names),
        names_doc(b, names),
    ensures
        json_same(a, b),
{
    let x = a->Array_0@;
    let y = b->Array_0@;
    assert forall|i: int| 0 <= i < x.len() implies json_same(#[trigger] x[i], y[i]) by {
        lemma_same_str(x[i], y[i], names[i]);
    }
}

proof fn lemma_same_oid(a: Json, b: Json, id: Seq<u8>)
    requires
        oid_doc(a, id),
        oid_doc(b, id),
    ensures
        json_same(a, b),
{
    let x = a->Object_0@;
    let y = b->Object_0@;
    lemma_same_str(x[0].1, y[0].1, hex_text(id));
    assert forall|i: int| 0 <= i < x.len() implies (#[trigger] x[i]).0@ == y[i].0@ && json_same(x[i].1, y[i].1) by {
        assert(i == 0);
    }
}

proof fn lemma_same_patches(a: Json, b: Json, t: Seq<(Seq<char>, Seq<u8>)>)
    requires
        patches_doc(a, t),
        patches_doc(b, t),
    ensures
        json_same(a, b),
{
    let x = a->Object_0@;
    let y = b->Object_0@;
    assert forall|i: int| 0 <= i < x.len() implies (#[trigger] x[i]).0@ == y[i].0@ && json_same(x[i].1, y[i].1) by {
        lemma_same_oid(x[i].1, y[i].1, t[i].1);
    }
}

/// The document of a snapshot depends on the snapshot alone: member order is
/// fixed and patches come sorted by name, so equal snapshots give the same text.
pub proof fn lemma_encoding_deterministic(m: StackModel, j1: Json, j2: Json)
    requires
        encoded(m, j1),
        encoded(m, j2),
    ensures
        json_same(j1, j2),
{
    let x = j1->Object_0@;
    let y = j2->Object_0@;
    lemma_same_str(x[0].1, y[0].1, "5"@);
    match m.prev {
        Some(p) => lemma_same_str(x[1].1, y[1].1, hex_text(p)),
        None => {},
    }
    lemma_same_str(x[2].1, y[2].1, hex_text(m.head));
    lemma_same_names(x[3].1, y[3].1, m.applied);
    lemma_same_names(x[4].1, y[4].1, m.unapplied);
    lemma_same_names(x[5].1, y[5].1, m.hidden);
    lemma_same_patches(x[6].1, y[6].1, m.patches);
    assert forall|i: int| 0 <= i < x.len() implies (#[trigger] x[i]).0@ == y[i].0@ && json_same(x[i].1, y[i].1) by {
        if i == 1 && m.prev is None {
            assert(x[1].1 is Null && y[1].1 is Null);
        }
    }
}

} // verus!
