//! Deciding whether a file header agrees with the signature table.
use vstd::prelude::*;

use crate::signature::{table_view, Signature, SignatureView};

verus! {

/// Whether `header` starts with `magic`. A header shorter than the magic
/// number never matches.
pub open spec fn header_matches(magic: Seq<u8>, header: Seq<u8>) -> bool {
    magic.len() <= header.len() && header.take(magic.len() as int) == magic
}

/// The magic number of the first entry that lists `ext`, if any.
pub open spec fn lookup(table: Seq<SignatureView>, ext: Seq<char>) -> Option<Seq<u8>>
    decreases table.len(),
{
    if table.len() == 0 {
        None
    } else if table[0].extensions.contains(ext) {
        Some(table[0].magic)
    } else {
        lookup(table.drop_first(), ext)
    }
}

/// A file is mismatched when the first entry for its extension exists and
/// its header does not start with that entry's magic number.
pub open spec fn mismatched(table: Seq<SignatureView>, header: Seq<u8>, ext: Seq<char>) -> bool {
    match lookup(table, ext) {
        Some(m) => !header_matches(m, header),
        None => false,
    }
}

/// The verdict on one readable file with an extension.
#[derive(Clone, Copy, Debug, PartialEq, Eq, Structural)]
pub enum Verdict {
    Matched,
    Mismatched,
}

pub open spec fn verdict_of(table: Seq<SignatureView>, header: Seq<u8>, ext: Seq<char>) -> Verdict {
    if mismatched(table, header, ext) {
        Verdict::Mismatched
    } else {
        Verdict::Matched
    }
}

/// Whether `file_buf` (the bytes actually read) starts with `magic_number`.
pub fn magic_number_match(magic_number: &Vec<u8>, file_buf: &[u8]) -> (r: bool)
    ensures
        r == header_matches(magic_number@, file_buf@),
{
    if magic_number.len() > file_buf.len() {
        return false;
    }
    let mut i: usize = 0;
    while i < magic_number.len()
        invariant
            i <= magic_number.len() <= file_buf@.len(),
            forall|j: int| 0 <= j < i ==> file_buf@[j] == magic_number@[j],
        decreases magic_number.len() - i,
    {
        if file_buf[i] != magic_number[i] {
            assert(file_buf@.take(magic_number.len() as int)[i as int] != magic_number@[i as int]);
            return false;
        }
        i = i + 1;
    }
    assert(file_buf@.take(magic_number.len() as int) =~= magic_number@);
    true
}

/// Whether a file with header `buf` and extension `ext` contradicts the
/// table: only the first entry listing `ext` is consulted.
pub fn is_file_mismatched(signatures: &Vec<Signature>, buf: &[u8], ext: &str) -> (r: bool)
    ensures
        r == mismatched(table_view(signatures@), buf@, ext@),
{
    let ghost t = table_view(signatures@);
    let ext_name: String = ext.to_owned();
    let mut i: usize = 0;
    assert(t.skip(0) =~= t);
    while i < signatures.len()
        invariant
            i <= signatures.len(),
            t == table_view(signatures@),
            ext_name@ == ext@,
            lookup(t, ext@) == lookup(t.skip(i as int), ext@),
        decreases signatures.len() - i,
    {
        let names = &signatures[i].name;
        let ghost exts = t[i as int].extensions;
        assert(exts == names@.map_values(|n: String| n@));
        let mut k: usize = 0;
        while k < names.len()
            invariant
                k <= names.len(),
                i < signatures.len(),
                names == &signatures@[i as int].name,
                t == table_view(signatures@),
                exts == t[i as int].extensions,
                lookup(t, ext@) == lookup(t.skip(i as int), ext@),
                exts == names@.map_values(|n: String| n@),
                ext_name@ == ext@,
                forall|j: int| 0 <= j < k ==> exts[j] != ext@,
            decreases names.len() - k,
        {
            if names[k] == ext_name {
                assert(exts[k as int] == ext@);
                assert(t.skip(i as int)[0].extensions.contains(ext@));
                return !magic_number_match(&signatures[i].magic_number, buf);
            }
            k = k + 1;
        }
        assert(!exts.contains(ext@));
        assert(t.skip(i as int).drop_first() =~= t.skip(i + 1));
        i = i + 1;
    }
    assert(t.skip(signatures.len() as int) =~= Seq::<SignatureView>::empty());
    false
}

/// The verdict on a readable file with extension `ext` and header `header`.
pub fn classify(signatures: &Vec<Signature>, header: &[u8], ext: &str) -> (r: Verdict)
    ensures
        r == verdict_of(table_view(signatures@), header@, ext@),
{
    if is_file_mismatched(signatures, header, ext) {
        Verdict::Mismatched
    } else {
        Verdict::Matched
    }
}

} // verus!
