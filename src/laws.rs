//! Properties of loading and classification, proved over the models.
use vstd::prelude::*;

use crate::classify::{header_matches, lookup, verdict_of, Verdict};
use crate::report::{extension_of, step, Probe, ReportView};
use crate::signature::{load_spec, loaded_from, Signature, SignatureView};

verus! {

/// Whether entry `i` is the first one of `table` that lists `ext`.
pub open spec fn first_for(table: Seq<SignatureView>, ext: Seq<char>, i: int) -> bool {
    &&& 0 <= i < table.len()
    &&& table[i].extensions.contains(ext)
    &&& forall|j: int| 0 <= j < i ==> !(#[trigger] table[j]).extensions.contains(ext)
}

proof fn lemma_lookup_first(table: Seq<SignatureView>, ext: Seq<char>, i: int)
    requires
        first_for(table, ext, i),
    ensures
        lookup(table, ext) == Some(table[i].magic),
    decreases i,
{
    if i > 0 {
        assert(!table[0].extensions.contains(ext));
        let rest = table.drop_first();
        assert forall|j: int| 0 <= j < i - 1 implies !(#[trigger] rest[j]).extensions.contains(
            ext,
        ) by {
            assert(rest[j] == table[j + 1]);
        }
        lemma_lookup_first(rest, ext, i - 1);
    }
}

proof fn lemma_lookup_none(table: Seq<SignatureView>, ext: Seq<char>)
    requires
        forall|j: int| 0 <= j < table.len() ==> !(#[trigger] table[j]).extensions.contains(ext),
    ensures
        lookup(table, ext) is None,
    decreases table.len(),
{
    if table.len() > 0 {
        let rest = table.drop_first();
        assert forall|j: int| 0 <= j < rest.len() implies !(#[trigger] rest[j]).extensions.contains(
            ext,
        ) by {
            assert(rest[j] == table[j + 1]);
        }
        lemma_lookup_none(rest, ext);
    }
}

/// Loading the same text twice gives the same table, or the same error.
pub proof fn load_is_idempotent(
    text: Seq<char>,
    first: Result<Vec<Signature>, crate::signature::ParseError>,
    second: Result<Vec<Signature>, crate::signature::ParseError>,
)
    requires
        loaded_from(text, first),
        loaded_from(text, second),
    ensures
        match (first, second) {
            (Ok(a), Ok(b)) => a@.map_values(|s: Signature| s@) == b@.map_values(
                |s: Signature| s@,
            ),
            (Err(e), Err(f)) => e == f,
            _ => false,
        },
{
}

/// A header that starts with the magic number of the first entry for its
/// extension is matched.
pub proof fn carried_signature_matches(
    table: Seq<SignatureView>,
    header: Seq<u8>,
    ext: Seq<char>,
    i: int,
)
    requires
        first_for(table, ext, i),
        header_matches(table[i].magic, header),
    ensures
        verdict_of(table, header, ext) == Verdict::Matched,
{
    lemma_lookup_first(table, ext, i);
}

/// A header that differs from the magic number of the first entry for its
/// extension at a position within that magic number (or ends before it) is
/// mismatched.
pub proof fn differing_header_mismatches(
    table: Seq<SignatureView>,
    header: Seq<u8>,
    ext: Seq<char>,
    i: int,
    k: int,
)
    requires
        first_for(table, ext, i),
        0 <= k < table[i].magic.len(),
        k >= header.len() || header[k] != table[i].magic[k],
    ensures
        verdict_of(table, header, ext) == Verdict::Mismatched,
{
    lemma_lookup_first(table, ext, i);
    if k < header.len() && table[i].magic.len() <= header.len() {
        assert(header.take(table[i].magic.len() as int)[k] != table[i].magic[k]);
    }
}

/// An extension that no entry lists is matched, whatever the header holds.
pub proof fn unlisted_extension_matches(table: Seq<SignatureView>, header: Seq<u8>, ext: Seq<char>)
    requires
        forall|j: int| 0 <= j < table.len() ==> !(#[trigger] table[j]).extensions.contains(ext),
    ensures
        verdict_of(table, header, ext) == Verdict::Matched,
{
    lemma_lookup_none(table, ext);
}

/// Only the first entry that lists an extension is consulted: tables that
/// agree up to it classify alike, whatever follows, and the verdict is that
/// of its magic number.
pub proof fn first_entry_wins(
    table: Seq<SignatureView>,
    other: Seq<SignatureView>,
    header: Seq<u8>,
    ext: Seq<char>,
    i: int,
)
    requires
        first_for(table, ext, i),
        i < other.len(),
        table.take(i + 1) == other.take(i + 1),
    ensures
        verdict_of(table, header, ext) == verdict_of(other, header, ext),
        verdict_of(table, header, ext) == (if header_matches(table[i].magic, header) {
            Verdict::Matched
        } else {
            Verdict::Mismatched
        }),
{
    assert forall|j: int| 0 <= j <= i implies #[trigger] other[j] == table[j] by {
        assert(table.take(i + 1)[j] == table[j]);
        assert(other.take(i + 1)[j] == other[j]);
    }
    lemma_lookup_first(table, ext, i);
    lemma_lookup_first(other, ext, i);
}

/// An unreadable file lands in the second section only.
pub proof fn unreadable_goes_to_second_section(
    report: ReportView,
    table: Seq<SignatureView>,
    path: Seq<char>,
    name: Seq<char>,
)
    ensures
        step(report, table, path, name, Probe::Unreadable).unreadable == report.unreadable.push(
            path,
        ),
        step(report, table, path, name, Probe::Unreadable).mismatched == report.mismatched,
{
}

/// A readable file without extension leaves the report as it was.
pub proof fn extensionless_file_is_skipped(
    report: ReportView,
    table: Seq<SignatureView>,
    path: Seq<char>,
    name: Seq<char>,
    header: Vec<u8>,
)
    requires
        extension_of(name) is None,
    ensures
        step(report, table, path, name, Probe::Header(header)) == report,
{
}

/// An empty source loads as the empty table, under which every file matches.
pub proof fn empty_table_matches_everything(header: Seq<u8>, ext: Seq<char>)
    ensures
        load_spec(Seq::empty()) == Ok::<Seq<SignatureView>, crate::signature::ParseError>(
            Seq::empty(),
        ),
        verdict_of(Seq::empty(), header, ext) == Verdict::Matched,
{
    let e = Seq::<char>::empty();
    assert(crate::signature::split_on(e, '\n') == seq![Seq::<char>::empty()]);
    assert(crate::signature::lines_of(e) =~= Seq::<Seq<char>>::empty());
}

} // verus!
