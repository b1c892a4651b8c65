//! Suppression of findings in files that version control ignores.

use vstd::prelude::*;

use crate::diagnostic::LineError;
use crate::text::{has_prefix, occurs_at_exec, replace_all, replaced, split_on, split_spec, views};

verus! {

/// `file` falls under the ignored entry `entry`: the same path, or a path
/// inside the directory that an entry ending in `/` names.
pub open spec fn entry_covers(entry: Seq<char>, file: Seq<char>) -> bool {
    &&& entry.len() > 0
    &&& (file == entry || (entry.last() == '/' && has_prefix(file, entry)))
}

/// Some entry of `entries` covers `file`.
pub open spec fn ignored_by(entries: Seq<Seq<char>>, file: Seq<char>) -> bool {
    exists|j: int| 0 <= j < entries.len() && entry_covers(#[trigger] entries[j], file)
}

/// The record after the filter: suppressed if it was, or if an entry covers
/// its file.
pub open spec fn marked(e: LineError, entries: Seq<Seq<char>>) -> LineError {
    LineError { ignore: e.ignore || ignored_by(entries, e.file@), ..e }
}

fn covers(entry: &String, file: &String) -> (r: bool)
    ensures
        r == entry_covers(entry@, file@),
{
    let n = entry.as_str().unicode_len();
    if n == 0 {
        return false;
    }
    if *file == *entry {
        return true;
    }
    entry.as_str().get_char(n - 1) == '/' && occurs_at_exec(file.as_str(), 0, entry.as_str())
}

/// Marks as suppressed every finding whose file an entry covers; no finding
/// is removed and no mark is cleared.
pub fn mark_ignored(errors: &mut Vec<LineError>, entries: &Vec<String>)
    ensures
        final(errors)@.len() == old(errors)@.len(),
        forall|i: int|
            0 <= i < final(errors)@.len() ==> #[trigger] final(errors)@[i] == marked(
                old(errors)@[i],
                views(entries@),
            ),
{
    let ghost ents = views(entries@);
    let mut out: Vec<LineError> = Vec::new();
    let mut i: usize = 0;
    while i < errors.len()
        invariant
            i <= errors@.len(),
            ents == views(entries@),
            out@.len() == i,
            forall|k: int| 0 <= k < i ==> #[trigger] out@[k] == marked(errors@[k], ents),
        decreases errors@.len() - i,
    {
        let mut e = errors[i].duplicate();
        let mut j: usize = 0;
        while j < entries.len()
            invariant
                j <= entries@.len(),
                ents == views(entries@),
                e == (LineError {
                    ignore: errors@[i as int].ignore || exists|m: int|
                        0 <= m < j && entry_covers(#[trigger] ents[m], errors@[i as int].file@),
                    ..errors@[i as int]
                }),
            decreases entries@.len() - j,
        {
            if covers(&entries[j], &e.file) {
                e.ignore = true;
            }
            proof {
                if entry_covers(ents[j as int], errors@[i as int].file@) {
                    assert(entries@[j as int]@ == ents[j as int]);
                }
            }
            j = j + 1;
            assert(e == (LineError {
                ignore: errors@[i as int].ignore || exists|m: int|
                    0 <= m < j && entry_covers(#[trigger] ents[m], errors@[i as int].file@),
                ..errors@[i as int]
            }));
        }
        out.push(e);
        i = i + 1;
    }
    *errors = out;
}

/// The entries of `git clean -ndX` output: each line with the words
/// `Would remove ` taken out.
pub open spec fn listing_entries(listing: Seq<char>) -> Seq<Seq<char>> {
    split_spec(replaced(listing, "Would remove "@, Seq::<char>::empty()), '\n')
}

/// Reads the ignored paths out of a dry-run clean listing.
pub fn ignore_entries(listing: &str) -> (r: Vec<String>)
    ensures
        views(r@) == listing_entries(listing@),
{
    proof {
        reveal_strlit("Would remove ");
        reveal_strlit("");
    }
    let stripped = replace_all(listing, "Would remove ", "");
    assert(""@ =~= Seq::<char>::empty());
    split_on(stripped.as_str(), '\n')
}

/// Marks the findings that a dry-run clean listing covers.
pub fn verify_ignore(errors: &mut Vec<LineError>, listing: &str)
    ensures
        final(errors)@.len() == old(errors)@.len(),
        forall|i: int|
            0 <= i < final(errors)@.len() ==> #[trigger] final(errors)@[i] == marked(
                old(errors)@[i],
                listing_entries(listing@),
            ),
{
    let entries = ignore_entries(listing);
    mark_ignored(errors, &entries);
}

} // verus!
