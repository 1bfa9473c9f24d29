use stackstate::codec::{decode, encode};
use stackstate::error::StackError;
use stackstate::json::Json;
use stackstate::meta::{format_patch_meta, patch_meta_text, reuses_meta};
use stackstate::name::{make_unique, validate};
use stackstate::oid::Oid;
use stackstate::refs::{check_initialized, check_not_initialized, get_command, stack_refname, stack_refname_from_branch_shorthand};
use stackstate::stack::Stack;
use stackstate::writer::{simplified_parents, ParentGrouping, MAX_PARENTS};

fn oid(n: u8) -> Oid {
    let mut b = [0u8; 20];
    b[19] = n;
    b[0] = 0xab;
    Oid::from_bytes(&b).unwrap()
}

fn hex(n: u8) -> String {
    oid(n).to_hex()
}

fn s(x: &str) -> String {
    x.to_string()
}

fn doc(members: Vec<(&str, Json)>) -> Json {
    Json::Object(members.into_iter().map(|(k, v)| (s(k), v)).collect())
}

fn names(v: &[&str]) -> Json {
    Json::Array(v.iter().map(|x| Json::Str(s(x))).collect())
}

fn oid_record(h: String) -> Json {
    doc(vec![("oid", Json::Str(h))])
}

fn base_doc(version: Json) -> Vec<(&'static str, Json)> {
    vec![
        ("version", version),
        ("prev", Json::Null),
        ("head", Json::Str(hex(1))),
        ("applied", names(&["a"])),
        ("unapplied", names(&[])),
        ("hidden", names(&[])),
        ("patches", doc(vec![("a", oid_record(hex(2)))])),
    ]
}

#[test]
fn hex_round_trip() {
    let o = oid(7);
    let h = o.to_hex();
    assert_eq!(h, "ab00000000000000000000000000000000000007");
    let back = Oid::from_hex(&h).unwrap();
    assert!(back.same_as(&o));
    assert!(Oid::from_hex("AB00000000000000000000000000000000000007").unwrap().same_as(&o));
}

#[test]
fn hex_rejects_bad_text() {
    assert!(Oid::from_hex("ab").is_none());
    assert!(Oid::from_hex("zz00000000000000000000000000000000000007").is_none());
    assert!(Oid::from_bytes(&[1, 2, 3]).is_none());
}

#[test]
fn new_stack_is_empty() {
    let st = Stack::new(oid(1));
    assert!(st.prev.is_none());
    assert!(st.all_patches().is_empty());
    assert!(st.top().same_as(&oid(1)));
}

#[test]
fn top_follows_last_applied() {
    let mut st = Stack::new(oid(1));
    st.push_applied(s("feat-x"), oid(2)).unwrap();
    assert!(st.top().same_as(&oid(2)));
    st.push_applied(s("feat-y"), oid(3)).unwrap();
    assert!(st.top().same_as(&oid(3)));
    assert_eq!(st.all_patches(), vec![s("feat-x"), s("feat-y")]);
    assert!(st.has_patch(&s("feat-x")));
    assert!(!st.has_patch(&s("feat-z")));
}

#[test]
fn push_applied_refuses_existing_name() {
    let mut st = Stack::new(oid(1));
    st.push_applied(s("p"), oid(2)).unwrap();
    let r = st.push_applied(s("p"), oid(3));
    assert!(matches!(r, Err(StackError::PatchAlreadyExists(ref n)) if n == "p"));
    assert_eq!(st.applied.len(), 1);
}

#[test]
fn patches_are_kept_sorted() {
    let mut st = Stack::new(oid(1));
    st.push_applied(s("zeta"), oid(2)).unwrap();
    st.push_applied(s("alpha"), oid(3)).unwrap();
    st.push_applied(s("mid"), oid(4)).unwrap();
    let order: Vec<String> = st.patches.iter().map(|e| e.name.clone()).collect();
    assert_eq!(order, vec![s("alpha"), s("mid"), s("zeta")]);
}

#[test]
fn encode_layout() {
    let mut st = Stack::new(oid(1));
    st.push_applied(s("b"), oid(2)).unwrap();
    st.push_applied(s("a"), oid(3)).unwrap();
    let j = encode(&st);
    match j {
        Json::Object(f) => {
            let keys: Vec<&str> = f.iter().map(|(k, _)| k.as_str()).collect();
            assert_eq!(keys, vec!["version", "prev", "head", "applied", "unapplied", "hidden", "patches"]);
            assert!(matches!(&f[0].1, Json::Str(v) if v == "5"));
            assert!(matches!(&f[1].1, Json::Null));
            match &f[6].1 {
                Json::Object(p) => {
                    assert_eq!(p[0].0, "a");
                    assert_eq!(p[1].0, "b");
                }
                _ => panic!("patches is not an object"),
            }
        }
        _ => panic!("document is not an object"),
    }
}

#[test]
fn codec_round_trip() {
    let mut st = Stack::new(oid(1));
    st.prev = Some(oid(9));
    st.push_applied(s("one"), oid(2)).unwrap();
    st.push_applied(s("two"), oid(3)).unwrap();
    let j = encode(&st);
    let back = decode(&j).unwrap();
    assert!(back.prev.unwrap().same_as(&oid(9)));
    assert!(back.head.same_as(&oid(1)));
    assert_eq!(back.applied, vec![s("one"), s("two")]);
    assert_eq!(back.patches.len(), 2);
    assert!(back.patches[0].oid.same_as(&oid(2)));
}

#[test]
fn decode_accepts_number_and_string_version() {
    assert!(decode(&doc(base_doc(Json::Number(s("5"))))).is_ok());
    assert!(decode(&doc(base_doc(Json::Str(s("5"))))).is_ok());
}

#[test]
fn decode_rejects_version_four() {
    let r = decode(&doc(base_doc(Json::Number(s("4")))));
    assert!(matches!(r, Err(StackError::UnsupportedStackVersion(ref v)) if v == "4"));
    let r = decode(&doc(base_doc(Json::Str(s("6")))));
    assert!(matches!(r, Err(StackError::UnsupportedStackVersion(ref v)) if v == "6"));
}

#[test]
fn decode_rejects_unknown_member() {
    let mut m = base_doc(Json::Number(s("5")));
    m.push(("extra", Json::Null));
    assert!(matches!(decode(&doc(m)), Err(StackError::MalformedPersistedState(_))));
}

#[test]
fn decode_rejects_bad_oid() {
    let mut m = base_doc(Json::Number(s("5")));
    m[2] = ("head", Json::Str(s("xyz")));
    assert!(matches!(decode(&doc(m)), Err(StackError::MalformedPersistedState(_))));
}

#[test]
fn decode_rejects_queue_without_patch() {
    let mut m = base_doc(Json::Number(s("5")));
    m[4] = ("unapplied", names(&["ghost"]));
    assert!(matches!(decode(&doc(m)), Err(StackError::MalformedPersistedState(_))));
}

#[test]
fn decode_sorts_patches_in_any_order() {
    let mut m = base_doc(Json::Number(s("5")));
    m[4] = ("unapplied", names(&["b"]));
    m[6] = ("patches", doc(vec![("b", oid_record(hex(4))), ("a", oid_record(hex(2)))]));
    m.reverse();
    let st = decode(&doc(m)).unwrap();
    assert_eq!(st.patches[0].name, "a");
    assert_eq!(st.patches[1].name, "b");
}

#[test]
fn parent_set_one_applied() {
    let mut prev = Stack::new(oid(1));
    prev.prev = None;
    let mut st = Stack::new(oid(1));
    st.prev = Some(oid(50));
    st.push_applied(s("feat-x"), oid(2)).unwrap();
    let set = st.parent_set(Some(&prev));
    assert_eq!(set.len(), 3);
    assert!(set[0].same_as(&oid(1)));
    assert!(set[1].same_as(&oid(2)));
    assert!(set[2].same_as(&oid(50)));
}

#[test]
fn parent_set_leaves_out_previous_patches() {
    let mut prev = Stack::new(oid(1));
    prev.push_applied(s("u"), oid(7)).unwrap();
    let mut st = Stack::new(oid(1));
    st.prev = Some(oid(50));
    st.unapplied.push(s("u"));
    st.patches = Vec::new();
    let mut tmp = Stack::new(oid(1));
    tmp.push_applied(s("u"), oid(7)).unwrap();
    st.patches = tmp.patches;
    let set = st.parent_set(Some(&prev));
    assert_eq!(set.len(), 2);
    assert!(set[0].same_as(&oid(1)));
    assert!(set[1].same_as(&oid(50)));
}

#[test]
fn fanout_groups_twenty_unapplied() {
    let mut st = Stack::new(oid(1));
    let mut tmp = Stack::new(oid(1));
    for i in 0..20u8 {
        let n = format!("p{}", i);
        tmp.push_applied(n.clone(), oid(100 + i)).unwrap();
        st.unapplied.push(n);
    }
    st.patches = tmp.patches;
    let set = st.parent_set(None);
    assert_eq!(set.len(), 21);
    let mut g = ParentGrouping::new(set);
    let mut groups = 0;
    while let Some(group) = g.next_group() {
        assert_eq!(group.len(), MAX_PARENTS);
        groups += 1;
        g.group_written(oid(200 + groups));
    }
    assert_eq!(groups, 1);
    let parents = g.final_parents(oid(250));
    assert!(parents.len() <= MAX_PARENTS + 1);
    assert_eq!(parents.len(), 7);
    assert!(parents[0].same_as(&oid(250)));
    assert!(parents[6].same_as(&oid(201)));
}

#[test]
fn fanout_leaves_small_sets() {
    let st = Stack::new(oid(1));
    let mut g = ParentGrouping::new(st.parent_set(None));
    assert!(g.next_group().is_none());
    let parents = g.final_parents(oid(9));
    assert_eq!(parents.len(), 2);
}

#[test]
fn simplified_parents_follow_prev() {
    assert!(simplified_parents(None).is_empty());
    let p = simplified_parents(Some(oid(3)));
    assert_eq!(p.len(), 1);
    assert!(p[0].same_as(&oid(3)));
}

#[test]
fn make_unique_from_message() {
    let none: Vec<String> = vec![];
    assert_eq!(make_unique("\n  Fix the  Bug!\nbody", None, true, &none, &none), "fix-the-bug");
    assert_eq!(make_unique("Fix the Bug", None, false, &none, &none), "Fix-the-Bug");
    assert_eq!(make_unique("   \n!!!", None, true, &none, &none), "patch");
    assert_eq!(make_unique("--a -- b--", None, true, &none, &none), "a-b");
}

#[test]
fn make_unique_numbers_taken_names() {
    let none: Vec<String> = vec![];
    let taken = vec![s("fix"), s("fix-1")];
    assert_eq!(make_unique("fix", None, true, &none, &taken), "fix-2");
    assert_eq!(make_unique("fix", None, true, &vec![s("fix")], &taken), "fix");
}

#[test]
fn make_unique_truncates() {
    let none: Vec<String> = vec![];
    assert_eq!(make_unique("alpha beta gamma", Some(12), true, &none, &none), "alpha-beta");
    assert_eq!(make_unique("abcdefgh", Some(4), true, &none, &none), "abcd");
}

#[test]
fn validate_names() {
    assert!(validate("feat-x_1").is_ok());
    assert!(matches!(validate(""), Err(StackError::InvalidPatchName(_, _))));
    assert!(validate("a b").is_err());
    assert!(validate("123").is_err());
    assert!(validate("top").is_err());
    assert!(validate("HEAD").is_err());
    assert!(validate(".hidden").is_err());
}

#[test]
fn meta_layout_text() {
    let t = format_patch_meta(&oid(1), &oid(2), "A U Thor <a@example.com>", "2020-01-02 03:04:05", "+01:00");
    assert_eq!(
        t,
        format!(
            "Bottom: {}\nTop:    {}\nAuthor: A U Thor <a@example.com>\nDate:   2020-01-02 03:04:05 +01:00\n",
            hex(1),
            hex(2)
        )
    );
}

#[test]
fn meta_text_uses_local_time() {
    let t = patch_meta_text(&oid(1), &oid(2), "X <x@y>", 0, 90).unwrap();
    assert!(t.ends_with("Date:   1970-01-01 01:30:00 +01:30\n"), "{}", t);
    let t = patch_meta_text(&oid(1), &oid(2), "X <x@y>", 86400, -60).unwrap();
    assert!(t.ends_with("Date:   1970-01-01 23:00:00 -01:00\n"), "{}", t);
    assert!(patch_meta_text(&oid(1), &oid(2), "X", 0, 1440).is_none());
}

#[test]
fn meta_reuse_needs_same_commit() {
    let mut prev = Stack::new(oid(1));
    prev.push_applied(s("p"), oid(2)).unwrap();
    assert!(reuses_meta(&prev, &s("p"), &oid(2)));
    assert!(!reuses_meta(&prev, &s("p"), &oid(3)));
    assert!(!reuses_meta(&prev, &s("q"), &oid(2)));
}

#[test]
fn stack_reference_names() {
    assert_eq!(get_command(), "new");
    assert_eq!(stack_refname_from_branch_shorthand("master"), "refs/stacks/master");
    assert!(matches!(stack_refname(false, false, Some("x")), Err(StackError::HeadDetached)));
    assert!(matches!(stack_refname(true, false, None), Err(StackError::NonTextBranchName)));
    assert_eq!(stack_refname(false, true, Some("dev")).unwrap(), "refs/stacks/dev");
    assert!(matches!(check_not_initialized(true, "m"), Err(StackError::StackAlreadyInitialized(ref b)) if b == "m"));
    assert!(check_not_initialized(false, "m").is_ok());
    assert!(matches!(check_initialized(false, "m"), Err(StackError::StackNotInitialized(ref b)) if b == "m"));
}

#[test]
fn consistency_check() {
    let mut st = Stack::new(oid(1));
    st.push_applied(s("a"), oid(2)).unwrap();
    assert!(st.is_consistent());
    st.hidden.push(s("a"));
    assert!(!st.is_consistent());
    st.hidden.clear();
    st.unapplied.push(s("b"));
    assert!(!st.is_consistent());
}

#[test]
fn patch_iterator_order() {
    let mut st = Stack::new(oid(1));
    let mut tmp = Stack::new(oid(1));
    tmp.push_applied(s("h"), oid(4)).unwrap();
    tmp.push_applied(s("u"), oid(3)).unwrap();
    tmp.push_applied(s("a"), oid(2)).unwrap();
    st.patches = tmp.patches;
    st.applied.push(s("a"));
    st.unapplied.push(s("u"));
    st.hidden.push(s("h"));
    let mut it = st.all_patches_iter();
    assert_eq!(it.next(), Some(s("a")));
    assert_eq!(it.next(), Some(s("u")));
    assert_eq!(it.next(), Some(s("h")));
    assert_eq!(it.next(), None);
}

#[test]
fn make_unique_two_digit_suffix() {
    let none: Vec<String> = vec![];
    let mut taken = vec![s("fix")];
    for i in 1..10 {
        taken.push(format!("fix-{}", i));
    }
    assert_eq!(make_unique("Fix", None, true, &none, &taken), "fix-10");
}

#[test]
fn offset_text_has_sign_hours_minutes() {
    let t = patch_meta_text(&oid(1), &oid(2), "X", 0, -330).unwrap();
    assert!(t.ends_with("Date:   1969-12-31 18:30:00 -05:30\n"), "{}", t);
}

#[test]
fn final_parents_are_sorted() {
    let mut st = Stack::new(oid(90));
    let mut tmp = Stack::new(oid(90));
    for i in 0..20u8 {
        let n = format!("q{}", i);
        tmp.push_applied(n.clone(), oid(119 - i)).unwrap();
        st.unapplied.push(n);
    }
    st.patches = tmp.patches;
    let mut g = ParentGrouping::new(st.parent_set(None));
    while let Some(group) = g.next_group() {
        g.group_written(oid(5));
        assert_eq!(group.len(), MAX_PARENTS);
    }
    let parents = g.final_parents(oid(250));
    let rest: Vec<Vec<u8>> = parents[1..].iter().map(|o| o.as_bytes().to_vec()).collect();
    let mut sorted = rest.clone();
    sorted.sort();
    assert_eq!(rest, sorted);
    assert!(parents[1].same_as(&oid(5)));
}

#[test]
fn invalid_name_is_carried() {
    assert!(matches!(validate("bad name"), Err(StackError::InvalidPatchName(ref n, _)) if n == "bad name"));
}

#[test]
fn meta_text_far_times() {
    assert!(patch_meta_text(&oid(1), &oid(2), "X", 7_999_999_000_000, 60).is_some());
    assert!(patch_meta_text(&oid(1), &oid(2), "X", -7_999_999_000_000, -60).is_some());
}
