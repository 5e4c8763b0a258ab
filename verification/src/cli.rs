//! What the command line decides: which rules are ignored and which status
//! the program exits with.

use crate::text;
use vstd::prelude::*;

verus! {

/// The entries of a comma-separated list that are not blank, trimmed.
pub open spec fn list_entries(list: Seq<char>) -> Seq<Seq<char>> {
    text::split_seq(list, ',').map_values(|p: Seq<char>| text::trimmed(p)).filter(
        |t: Seq<char>| t.len() > 0,
    )
}

/// Reads the comma-separated list of rules to ignore.
pub fn ignore_list(list: &str) -> (r: Vec<String>)
    ensures
        text::string_texts(r@) == list_entries(list@),
{
    let chars = text::chars_of(list);
    let pieces = text::split(chars.as_slice(), ',');
    let ghost all = text::split_seq(list@, ',').map_values(|p: Seq<char>| text::trimmed(p));
    let ghost pred = |t: Seq<char>| t.len() > 0;
    let mut out: Vec<String> = Vec::new();
    let mut i: usize = 0;
    assert(all.take(0).filter(pred) =~= Seq::empty()) by {
        reveal(Seq::filter);
    }
    assert(text::string_texts(out@) =~= Seq::empty());
    while i < pieces.len()
        invariant
            i <= pieces@.len(),
            all == text::texts(pieces@).map_values(|p: Seq<char>| text::trimmed(p)),
            pred == (|t: Seq<char>| t.len() > 0),
            text::string_texts(out@) == all.take(i as int).filter(pred),
        decreases pieces@.len() - i,
    {
        let piece = text::trim(pieces[i]);
        let ghost before = text::string_texts(out@);
        proof {
            assert(all.take(i + 1).drop_last() =~= all.take(i as int));
            assert(all[i as int] == piece@);
            reveal(Seq::filter);
        }
        if piece.len() > 0 {
            let entry = text::string_of(piece);
            out.push(entry);
            assert(text::string_texts(out@) =~= before.push(piece@));
        }
        i += 1;
    }
    assert(all.take(i as int) =~= all);
    out
}

/// The exit status: 2 if a file could not be audited, otherwise 1 if findings
/// were reported and failing is not switched off, otherwise 0.
pub open spec fn status(had_error: bool, no_fail: bool, findings: nat) -> u8 {
    if had_error {
        2
    } else if !no_fail && findings > 0 {
        1
    } else {
        0
    }
}

/// The status to exit with.
#[must_use]
pub fn exit_status(had_error: bool, no_fail: bool, findings: usize) -> (r: u8)
    ensures
        r == status(had_error, no_fail, findings as nat),
{
    if had_error {
        2
    } else if !no_fail && findings > 0 {
        1
    } else {
        0
    }
}

} // verus!
