//! Patch names: validation, and deriving a fresh name from free text.

use vstd::prelude::*;
use crate::error::StackError;
use crate::text::{chars_of, string_of};

verus! {

pub open spec fn is_space(c: char) -> bool {
    c == ' ' || c == '\t' || c == '\n' || c == '\r' || c == '\x0b' || c == '\x0c'
}

pub open spec fn is_alnum(c: char) -> bool {
    ('a' <= c && c <= 'z') || ('A' <= c && c <= 'Z') || ('0' <= c && c <= '9')
}

/// Characters a patch name may hold.
pub open spec fn is_name_char(c: char) -> bool {
    is_alnum(c) || c == '-' || c == '_'
}

pub open spec fn all_digits(s: Seq<char>) -> bool {
    forall|i: int| 0 <= i < s.len() ==> '0' <= #[trigger] s[i] && s[i] <= '9'
}

/// A valid patch name: nonempty, of name characters only, not all digits,
/// and none of the reserved words.
pub open spec fn valid_name(s: Seq<char>) -> bool {
    &&& s.len() > 0
    &&& forall|i: int| 0 <= i < s.len() ==> is_name_char(#[trigger] s[i])
    &&& !all_digits(s)
    &&& s != "top"@ && s != "bottom"@ && s != "HEAD"@
}

fn is_space_exec(c: char) -> (r: bool)
    ensures
        r == is_space(c),
{
    c == ' ' || c == '\t' || c == '\n' || c == '\r' || c == '\x0b' || c == '\x0c'
}

fn is_alnum_exec(c: char) -> (r: bool)
    ensures
        r == is_alnum(c),
{
    ('a' <= c && c <= 'z') || ('A' <= c && c <= 'Z') || ('0' <= c && c <= '9')
}

fn invalid(name: &str, why: &str) -> (r: StackError)
    ensures
        r matches StackError::InvalidPatchName(n, _) && n@ == name@,
{
    StackError::InvalidPatchName(name.to_owned(), why.to_owned())
}

/// Checks a patch name against the naming rules.
pub fn validate(name: &str) -> (r: Result<(), StackError>)
    ensures
        r is Ok <==> valid_name(name@),
        r matches Err(e) ==> (e matches StackError::InvalidPatchName(n, _) && n@ == name@),
{
    let c = chars_of(name);
    if c.len() == 0 {
        return Err(invalid(name, "empty"));
    }
    let mut i: usize = 0;
    let mut digits = true;
    while i < c.len()
        invariant
            c@ == name@,
            i <= c@.len(),
            forall|k: int| 0 <= k < i ==> is_name_char(#[trigger] c@[k]),
            digits == all_digits(c@.subrange(0, i as int)),
        decreases c@.len() - i,
    {
        let ch = c[i];
        if !(is_alnum_exec(ch) || ch == '-' || ch == '_') {
            return Err(invalid(name, "character not allowed"));
        }
        proof {
            let a = c@.subrange(0, i as int);
            let b = c@.subrange(0, i + 1);
            assert(b =~= a.push(ch));
            if all_digits(b) {
                assert forall|k: int| 0 <= k < a.len() implies '0' <= #[trigger] a[k] && a[k] <= '9' by {
                    assert(b[k] == a[k]);
                }
                assert(b[i as int] == ch);
            }
            if all_digits(a) && '0' <= ch && ch <= '9' {
                assert forall|k: int| 0 <= k < b.len() implies '0' <= #[trigger] b[k] && b[k] <= '9' by {
                    if k < i {
                        assert(b[k] == a[k]);
                    }
                }
            }
        }
        digits = digits && '0' <= ch && ch <= '9';
        i = i + 1;
    }
    assert(c@.subrange(0, i as int) =~= c@);
    if digits {
        return Err(invalid(name, "only digits"));
    }
    if crate::json::text_is(&name.to_owned(), "top") || crate::json::text_is(&name.to_owned(), "bottom")
        || crate::json::text_is(&name.to_owned(), "HEAD") {
        return Err(invalid(name, "reserved"));
    }
    Ok(())
}

// ----- deriving a name from text -----

/// `s` without its leading white space.
pub open spec fn skip_space(s: Seq<char>) -> Seq<char>
    decreases s.len(),
{
    if s.len() > 0 && is_space(s[0]) {
        skip_space(s.drop_first())
    } else {
        s
    }
}

/// `s` up to its first line break.
pub open spec fn first_line(s: Seq<char>) -> Seq<char>
    decreases s.len(),
{
    if s.len() == 0 || s[0] == '\n' {
        Seq::empty()
    } else {
        seq![s[0]] + first_line(s.drop_first())
    }
}

pub open spec fn lower(c: char) -> char {
    if 'A' <= c && c <= 'Z' {
        ((c as u32) + 32) as char
    } else {
        c
    }
}

/// What a character becomes in a name: white space a dash, a name character
/// itself (lowered if asked), anything else nothing.
pub open spec fn convert(c: char, lowercase: bool) -> Option<char> {
    if is_space(c) {
        Some('-')
    } else if is_name_char(c) {
        Some(if lowercase { lower(c) } else { c })
    } else {
        None
    }
}

/// Converted characters, with no leading dash and no two dashes in a row.
pub open spec fn slug_acc(s: Seq<char>, lowercase: bool) -> Seq<char>
    decreases s.len(),
{
    if s.len() == 0 {
        Seq::empty()
    } else {
        let p = slug_acc(s.drop_last(), lowercase);
        match convert(s.last(), lowercase) {
            None => p,
            Some(x) => if x == '-' && (p.len() == 0 || p.last() == '-') {
                p
            } else {
                p.push(x)
            },
        }
    }
}

/// The slug of `s`: its conversion without a trailing dash.
pub open spec fn slug(s: Seq<char>, lowercase: bool) -> Seq<char> {
    let p = slug_acc(s, lowercase);
    if p.len() > 0 && p.last() == '-' {
        p.drop_last()
    } else {
        p
    }
}

/// The name a text suggests, before any length limit: the slug of its first
/// nonblank line, or `patch`.
pub open spec fn base_name(seed: Seq<char>, lowercase: bool) -> Seq<char> {
    let s = slug(first_line(skip_space(seed)), lowercase);
    if s.len() == 0 {
        "patch"@
    } else {
        s
    }
}

/// Largest `k <= l` with a dash at `s[k]`, if any with `k > 0`.
pub open spec fn last_dash(s: Seq<char>, l: int) -> int
    decreases l,
{
    if l <= 0 {
        0
    } else if l < s.len() && s[l] == '-' {
        l
    } else {
        last_dash(s, l - 1)
    }
}

/// `s` cut to at most `l` characters, at a dash where there is one.
pub open spec fn truncated(s: Seq<char>, limit: Option<usize>) -> Seq<char> {
    match limit {
        Some(l) => if s.len() > l {
            let k = last_dash(s, l as int);
            if k > 0 {
                s.take(k)
            } else {
                s.take(l as int)
            }
        } else {
            s
        },
        None => s,
    }
}

pub open spec fn digit_char(d: nat) -> char {
    ((d % 10) as u32 + 48) as char
}

/// Decimal text of `n`.
pub open spec fn decimal(n: nat) -> Seq<char>
    decreases n,
{
    if n < 10 {
        seq![digit_char(n)]
    } else {
        decimal(n / 10).push(digit_char(n % 10))
    }
}

/// `base` with suffix `-n`.
pub open spec fn numbered(base: Seq<char>, n: nat) -> Seq<char> {
    base + "-"@ + decimal(n)
}

/// The name `make_unique` picks: `base` unless `disallowed` holds it and
/// `allowed` does not; else `base-n` for the least `n >= 1` outside `disallowed`.
pub open spec fn unique_name(base: Seq<char>, allowed: Seq<Seq<char>>, disallowed: Seq<Seq<char>>) -> Seq<char> {
    if !disallowed.contains(base) || allowed.contains(base) {
        base
    } else {
        let n = choose|n: nat|
            n >= 1 && !disallowed.contains(numbered(base, n)) && forall|k: nat|
                1 <= k < n ==> disallowed.contains(#[trigger] numbered(base, k));
        numbered(base, n)
    }
}

proof fn lemma_decimal_len(n: nat)
    ensures
        decimal(n).len() >= 1,
        n < 10 <==> decimal(n).len() == 1,
    decreases n,
{
    if n >= 10 {
        lemma_decimal_len(n / 10);
    }
}

proof fn lemma_decimal_injective(a: nat, b: nat)
    requires
        decimal(a) == decimal(b),
    ensures
        a == b,
    decreases a,
{
    lemma_decimal_len(a);
    lemma_decimal_len(b);
    if a < 10 && b < 10 {
        assert(decimal(a)[0] == digit_char(a));
        assert(decimal(b)[0] == digit_char(b));
    } else if a >= 10 && b >= 10 {
        let da = decimal(a);
        let db = decimal(b);
        assert(da.last() == digit_char(a % 10));
        assert(db.last() == digit_char(b % 10));
        assert(da.drop_last() == decimal(a / 10));
        assert(db.drop_last() == decimal(b / 10));
        lemma_decimal_injective(a / 10, b / 10);
    }
}

proof fn lemma_numbered_injective(base: Seq<char>, a: nat, b: nat)
    requires
        numbered(base, a) == numbered(base, b),
    ensures
        a == b,
{
    let pre = base + "-"@;
    assert(numbered(base, a).skip(pre.len() as int) =~= decimal(a));
    assert(numbered(base, b).skip(pre.len() as int) =~= decimal(b));
    lemma_decimal_injective(a, b);
}

/// At most `disallowed.len()` numbered names can all be taken.
proof fn lemma_taken_bound(base: Seq<char>, disallowed: Seq<Seq<char>>, n: nat)
    requires
        forall|k: nat| 1 <= k <= n ==> disallowed.contains(#[trigger] numbered(base, k)),
    ensures
        n <= disallowed.len(),
{
    let cs = Seq::new(n, |i: int| numbered(base, (i + 1) as nat));
    assert(cs.no_duplicates()) by {
        assert forall|i: int, j: int| 0 <= i < cs.len() && 0 <= j < cs.len() && i != j implies cs[i] != cs[j] by {
            if cs[i] == cs[j] {
                lemma_numbered_injective(base, (i + 1) as nat, (j + 1) as nat);
            }
        }
    }
    cs.unique_seq_to_set();
    assert(cs.to_set().subset_of(disallowed.to_set())) by {
        assert forall|x: Seq<char>| cs.to_set().contains(x) implies disallowed.to_set().contains(x) by {
            let i = choose|i: int| 0 <= i < cs.len() && cs[i] == x;
            assert(disallowed.contains(numbered(base, (i + 1) as nat)));
        }
    }
    disallowed.lemma_cardinality_of_set();
    vstd::set_lib::lemma_len_subset(cs.to_set(), disallowed.to_set());
}


/// There is a least free number from `n` on, when all below `n` are taken.
proof fn lemma_least_free(base: Seq<char>, disallowed: Seq<Seq<char>>, n: nat)
    requires
        n >= 1,
        forall|k: nat| 1 <= k < n ==> disallowed.contains(#[trigger] numbered(base, k)),
    ensures
        exists|m: nat|
            m >= 1 && !disallowed.contains(numbered(base, m)) && forall|k: nat|
                1 <= k < m ==> disallowed.contains(#[trigger] numbered(base, k)),
    decreases disallowed.len() + 1 - n,
{
    if disallowed.contains(numbered(base, n)) {
        lemma_taken_bound(base, disallowed, n);
        lemma_least_free(base, disallowed, n + 1);
    }
}

/// A name from `make_unique` is outside `disallowed`, provided no name is
/// both allowed and disallowed.
pub proof fn lemma_unique_name_fresh(base: Seq<char>, allowed: Seq<Seq<char>>, disallowed: Seq<Seq<char>>)
    requires
        forall|k: Seq<char>| disallowed.contains(k) ==> !allowed.contains(k),
    ensures
        !disallowed.contains(unique_name(base, allowed, disallowed)),
{
    if disallowed.contains(base) && !allowed.contains(base) {
        lemma_least_free(base, disallowed, 1);
    }
}

fn is_name_char_exec(c: char) -> (r: bool)
    ensures
        r == is_name_char(c),
{
    is_alnum_exec(c) || c == '-' || c == '_'
}

fn convert_exec(c: char, lowercase: bool) -> (r: Option<char>)
    ensures
        r == convert(c, lowercase),
{
    if is_space_exec(c) {
        Some('-')
    } else if is_name_char_exec(c) {
        if lowercase && 'A' <= c && c <= 'Z' {
            Some(((c as u8) + 32) as char)
        } else {
            Some(c)
        }
    } else {
        None
    }
}

/// The name `seed` suggests, before any length limit.
fn base_name_exec(seed: &str, lowercase: bool) -> (r: Vec<char>)
    ensures
        r@ == base_name(seed@, lowercase),
{
    let c = chars_of(seed);
    let mut i: usize = 0;
    assert(c@.skip(0) =~= c@);
    while i < c.len() && is_space_exec(c[i])
        invariant
            c@ == seed@,
            i <= c@.len(),
            skip_space(c@) == skip_space(c@.skip(i as int)),
        decreases c@.len() - i,
    {
        assert(c@.skip(i as int).drop_first() =~= c@.skip(i + 1));
        i = i + 1;
    }
    let ghost rest = c@.skip(i as int);
    assert(skip_space(rest) == rest);
    let mut j: usize = i;
    assert(c@.subrange(i as int, j as int) =~= Seq::<char>::empty());
    while j < c.len() && c[j] != '\n'
        invariant
            i <= j <= c@.len(),
            first_line(rest) == c@.subrange(i as int, j as int) + first_line(c@.skip(j as int)),
        decreases c@.len() - j,
    {
        assert(c@.skip(j as int).drop_first() =~= c@.skip(j + 1));
        assert(c@.subrange(i as int, j + 1) =~= c@.subrange(i as int, j as int) + seq![c@[j as int]]);
        j = j + 1;
    }
    let ghost line = c@.subrange(i as int, j as int);
    assert(first_line(c@.skip(j as int)) =~= Seq::<char>::empty());
    assert(first_line(rest) =~= line);
    let mut out: Vec<char> = Vec::new();
    let mut k: usize = i;
    assert(line.take(0) =~= Seq::<char>::empty());
    while k < j
        invariant
            i <= k <= j <= c@.len(),
            line == c@.subrange(i as int, j as int),
            out@ == slug_acc(line.take(k - i), lowercase),
        decreases j - k,
    {
        let ghost t = line.take(k + 1 - i);
        assert(t.drop_last() =~= line.take(k - i));
        assert(t.last() == c@[k as int]);
        match convert_exec(c[k], lowercase) {
            None => {},
            Some(x) => {
                if x == '-' && (out.len() == 0 || out[out.len() - 1] == '-') {
                } else {
                    out.push(x);
                }
            },
        }
        k = k + 1;
    }
    assert(line.take(j - i) =~= line);
    if out.len() > 0 && out[out.len() - 1] == '-' {
        out.pop();
    }
    if out.len() == 0 {
        chars_of("patch")
    } else {
        out
    }
}

fn truncate_exec(s: Vec<char>, limit: Option<usize>) -> (r: Vec<char>)
    ensures
        r@ == truncated(s@, limit),
{
    match limit {
        Some(l) => {
            if s.len() > l {
                let mut k: usize = l;
                while k > 0 && !(k < s.len() && s[k] == '-')
                    invariant
                        k <= l,
                        last_dash(s@, l as int) == last_dash(s@, k as int),
                    decreases k,
                {
                    k = k - 1;
                }
                let cut = if k > 0 { k } else { l };
                let mut r: Vec<char> = Vec::new();
                let mut i: usize = 0;
                while i < cut
                    invariant
                        cut <= l < s@.len(),
                        i <= cut,
                        r@ == s@.take(i as int),
                    decreases cut - i,
                {
                    r.push(s[i]);
                    assert(s@.take(i + 1) =~= s@.take(i as int).push(s@[i as int]));
                    i = i + 1;
                }
                r
            } else {
                s
            }
        },
        None => s,
    }
}

fn decimal_exec(n: u128) -> (r: Vec<char>)
    ensures
        r@ == decimal(n as nat),
    decreases n,
{
    let d: u32 = (n % 10) as u32;
    let ch = (d + 48) as u8 as char;
    assert(ch == digit_char(n as nat));
    if n < 10 {
        let mut r: Vec<char> = Vec::new();
        r.push(ch);
        assert(r@ =~= seq![digit_char(n as nat)]);
        r
    } else {
        let mut r = decimal_exec(n / 10);
        r.push(ch);
        assert(digit_char(n as nat) == digit_char((n % 10) as nat));
        r
    }
}

/// A patch name derived from `seed`: the slug of its first nonblank line
/// (or `patch`), cut to `len_limit`, and numbered `-1`, `-2`, ... while
/// `disallowed` holds it and `allowed` does not.
pub fn make_unique(
    seed: &str,
    len_limit: Option<usize>,
    lowercase: bool,
    allowed: &Vec<String>,
    disallowed: &Vec<String>,
) -> (r: String)
    ensures
        r@ == unique_name(
            truncated(base_name(seed@, lowercase), len_limit),
            crate::stack::names_of(allowed@),
            crate::stack::names_of(disallowed@),
        ),
{
    let base = truncate_exec(base_name_exec(seed, lowercase), len_limit);
    let ghost b = base@;
    let ghost al = crate::stack::names_of(allowed@);
    let ghost dis = crate::stack::names_of(disallowed@);
    let first = string_of(base.as_slice());
    if !crate::stack::contains_name(disallowed, &first) || crate::stack::contains_name(allowed, &first) {
        return first;
    }
    let dlen = disallowed.len();
    let mut n: u128 = 1;
    loop
        invariant
            1 <= n <= dis.len() + 1,
            dis.len() == dlen,
            dis.len() == disallowed@.len(),
            dis.contains(b),
            !al.contains(b),
            al == crate::stack::names_of(allowed@),
            first@ == b,
            base@ == b,
            b == truncated(base_name(seed@, lowercase), len_limit),
            dis == crate::stack::names_of(disallowed@),
            forall|k: nat| 1 <= k < n ==> dis.contains(#[trigger] numbered(b, k)),
        decreases dis.len() + 1 - n,
    {
        let mut cand: Vec<char> = Vec::new();
        let mut i: usize = 0;
        while i < base.len()
            invariant
                i <= base@.len(),
                cand@ == base@.take(i as int),
            decreases base@.len() - i,
        {
            cand.push(base[i]);
            assert(base@.take(i + 1) =~= base@.take(i as int).push(base@[i as int]));
            i = i + 1;
        }
        cand.push('-');
        let mut digits = decimal_exec(n);
        cand.append(&mut digits);
        proof {
            reveal_strlit("-");
            assert(cand@ =~= numbered(b, n as nat));
        }
        let name = string_of(cand.as_slice());
        if !crate::stack::contains_name(disallowed, &name) {
            proof {
                assert(n >= 1 && !dis.contains(numbered(b, n as nat)) && forall|k: nat|
                        1 <= k < n ==> dis.contains(#[trigger] numbered(b, k)));
                let m = choose|m: nat|
                    m >= 1 && !dis.contains(numbered(b, m)) && forall|k: nat|
                        1 <= k < m ==> dis.contains(#[trigger] numbered(b, k));
                if m < n {
                    assert(dis.contains(numbered(b, m)));
                } else if m > n {
                    assert(dis.contains(numbered(b, n as nat)));
                }
                assert(m == n);
                assert(name@ == numbered(b, n as nat));
                assert(unique_name(b, al, dis) == numbered(b, m));
            }
            return name;
        }
        proof {
            assert forall|k: nat| 1 <= k <= n implies dis.contains(#[trigger] numbered(b, k)) by {
                if k == n {
                    assert(dis.contains(numbered(b, n as nat)));
                }
            }
            lemma_taken_bound(b, dis, n as nat);
        }
        n = n + 1;
    }
}

} // verus!
