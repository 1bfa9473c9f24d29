//! The per-patch descriptor stored at `patches/<name>` in a snapshot tree.

use vstd::prelude::*;
use crate::oid::{Oid, hex_text};
use crate::stack::{Stack, StackModel, all_names, consistent};
use crate::table::lookup;
use crate::name::digit_char;
use crate::text::{chars_of, string_of};

verus! {

/// Seconds from the epoch, either way, within which every instant has a
/// date and time (about 253 000 years).
pub const MAX_SHOWN_SECS: i64 = 8_000_000_000_000;

/// Text chrono gives for the naive date and time `secs` seconds after the epoch.
pub uninterp spec fn naive_time_text(secs: int) -> Seq<char>;

pub open spec fn two_digits(n: int) -> Seq<char> {
    seq![digit_char((n / 10) as nat), digit_char((n % 10) as nat)]
}

/// A fixed offset of `secs` seconds east of UTC as text: sign, hours and
/// minutes, and seconds only where there are some (`+01:30`, `-00:00:30`).
pub open spec fn offset_text(secs: int) -> Seq<char> {
    let a = if secs < 0 { -secs } else { secs };
    let hm = seq![if secs < 0 { '-' } else { '+' }] + two_digits(a / 3600) + seq![':'] + two_digits((a / 60) % 60);
    if a % 60 == 0 {
        hm
    } else {
        hm + seq![':'] + two_digits(a % 60)
    }
}

/// Relies on `chrono::DateTime::from_timestamp` (seconds, no nanoseconds),
/// `naive_utc` and its `Display`: `None` only when the day falls outside
/// chrono's years -262143 to 262142, which `|secs| <= MAX_SHOWN_SECS` keeps
/// clear of; else the date and time as text.
#[verifier::external_body]
fn naive_time(secs: i64) -> (r: Option<String>)
    ensures
        -MAX_SHOWN_SECS <= secs <= MAX_SHOWN_SECS ==> r is Some,
        r matches Some(t) ==> t@ == naive_time_text(secs as int),
{
    match chrono::DateTime::from_timestamp(secs, 0) {
        Some(d) => Some(d.naive_utc().to_string()),
        None => None,
    }
}

/// Relies on `chrono::FixedOffset::east_opt`, which makes an offset exactly
/// for `-86400 < secs < 86400`, and on its `Display`, which writes the sign,
/// two-digit hours and minutes, and two-digit seconds where they are not zero.
#[verifier::external_body]
fn offset(secs: i32) -> (r: Option<String>)
    ensures
        r is Some <==> -86400 < secs < 86400,
        r matches Some(t) ==> t@ == offset_text(secs as int),
{
    match chrono::FixedOffset::east_opt(secs) {
        Some(o) => Some(o.to_string()),
        None => None,
    }
}

/// The descriptor layout, given the date and offset as text.
pub open spec fn meta_layout(bottom: Seq<u8>, top: Seq<u8>, author: Seq<char>, date: Seq<char>, zone: Seq<char>) -> Seq<char> {
    "Bottom: "@ + hex_text(bottom) + "\n"@
        + "Top:    "@ + hex_text(top) + "\n"@
        + "Author: "@ + author + "\n"@
        + "Date:   "@ + date + " "@ + zone + "\n"@
}

/// The descriptor text of a patch: its trees, author and time, with the
/// local time and offset as chrono writes them.
pub open spec fn meta_text(bottom: Seq<u8>, top: Seq<u8>, author: Seq<char>, time: int, offset_minutes: int) -> Seq<char> {
    meta_layout(bottom, top, author, naive_time_text(time + offset_minutes * 60), offset_text(offset_minutes * 60))
}

fn put(out: &mut Vec<char>, s: &str)
    ensures
        final(out)@ == old(out)@ + s@,
{
    let mut c = chars_of(s);
    out.append(&mut c);
}

/// Lays out a descriptor from its parts.
pub fn format_patch_meta(bottom: &Oid, top: &Oid, author: &str, date: &str, zone: &str) -> (r: String)
    ensures
        r@ == meta_layout(bottom@, top@, author@, date@, zone@),
{
    let mut out: Vec<char> = Vec::new();
    put(&mut out, "Bottom: ");
    put(&mut out, bottom.to_hex().as_str());
    put(&mut out, "\n");
    put(&mut out, "Top:    ");
    put(&mut out, top.to_hex().as_str());
    put(&mut out, "\n");
    put(&mut out, "Author: ");
    put(&mut out, author);
    put(&mut out, "\n");
    put(&mut out, "Date:   ");
    put(&mut out, date);
    put(&mut out, " ");
    put(&mut out, zone);
    put(&mut out, "\n");
    assert(out@ =~= meta_layout(bottom@, top@, author@, date@, zone@));
    string_of(out.as_slice())
}

/// The descriptor of a patch whose commit has tree `top`, whose parent has
/// tree `bottom`, with the given author and author time (seconds since the
/// epoch, offset in minutes east of UTC). The date is the local time at that
/// offset. `None` when the offset is a day or more, or the local time lies
/// beyond `MAX_SHOWN_SECS`.
pub fn patch_meta_text(bottom: &Oid, top: &Oid, author: &str, time: i64, offset_minutes: i32) -> (r: Option<String>)
    ensures
        r matches Some(t) ==> t@ == meta_text(bottom@, top@, author@, time as int, offset_minutes as int),
        !(-1440 < offset_minutes < 1440) ==> r is None,
        -1440 < offset_minutes < 1440 && -MAX_SHOWN_SECS <= time + 60 * offset_minutes <= MAX_SHOWN_SECS
            ==> r is Some,
{
    if !(-1440 < offset_minutes && offset_minutes < 1440) {
        return None;
    }
    let secs: i32 = offset_minutes * 60;
    let zone = match offset(secs) {
        Some(z) => z,
        None => return None,
    };
    let local = match time.checked_add(secs as i64) {
        Some(t) => t,
        None => return None,
    };
    let date = match naive_time(local) {
        Some(d) => d,
        None => return None,
    };
    Some(format_patch_meta(bottom, top, author, date.as_str(), zone.as_str()))
}

/// The previous snapshot lists patch `name` with the same commit, so its
/// descriptor can be reused.
pub open spec fn meta_reusable(prev: StackModel, name: Seq<char>, oid: Seq<u8>) -> bool {
    all_names(prev).contains(name) && lookup(prev.patches, name) == Some(oid)
}

/// Whether the descriptor of patch `name` at commit `oid` can be taken from
/// the previous snapshot's tree instead of being written anew.
pub fn reuses_meta(prev_state: &Stack, name: &String, oid: &Oid) -> (r: bool)
    requires
        consistent(prev_state@),
    ensures
        r == meta_reusable(prev_state@, name@, oid@),
{
    if !prev_state.has_patch(name) {
        return false;
    }
    match prev_state.patch_oid(name) {
        Some(o) => o.same_as(oid),
        None => false,
    }
}


/// A patch recorded with the same commit in a snapshot and in its previous
/// snapshot keeps the previous descriptor.
pub proof fn lemma_meta_reuse(prev: StackModel, s: StackModel, name: Seq<char>)
    requires
        consistent(prev),
        lookup(s.patches, name) is Some,
        lookup(prev.patches, name) == lookup(s.patches, name),
    ensures
        meta_reusable(prev, name, lookup(s.patches, name)->0),
{
    assert(all_names(prev).contains(name));
}

} // verus!
