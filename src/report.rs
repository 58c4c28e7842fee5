//! Per-file decisions of a scan and the report they accumulate into.
use vstd::prelude::*;
use vstd::string::StringExecFns;

use crate::classify::{classify, mismatched, Verdict};
use crate::signature::{table_view, Signature, SignatureView};
use crate::text::{chars_of, push_char, string_of};

verus! {

/// Position of the last `c` in `s`.
pub open spec fn last_index(s: Seq<char>, c: char) -> Option<int>
    decreases s.len(),
{
    if s.len() == 0 {
        None
    } else if s.last() == c {
        Some(s.len() - 1)
    } else {
        last_index(s.drop_last(), c)
    }
}

/// The extension of a file name: what follows its last `.`, unless that dot
/// starts the name, or there is none, or the name is `..`.
pub open spec fn extension_of(name: Seq<char>) -> Option<Seq<char>> {
    if name == seq!['.', '.'] {
        None
    } else {
        match last_index(name, '.') {
            None => None,
            Some(i) => if i == 0 {
                None
            } else {
                Some(name.skip(i + 1))
            },
        }
    }
}

proof fn lemma_last_index(s: Seq<char>, c: char, i: int)
    requires
        0 <= i <= s.len(),
        forall|j: int| i <= j < s.len() ==> s[j] != c,
        i > 0 ==> s[i - 1] == c,
    ensures
        last_index(s, c) == (if i > 0 {
            Some(i - 1)
        } else {
            None::<int>
        }),
    decreases s.len(),
{
    if s.len() > 0 && i < s.len() {
        lemma_last_index(s.drop_last(), c, i);
    }
}

/// The extension of the file name `name`, as `Path::extension` gives it.
pub fn file_extension(name: &str) -> (r: Option<String>)
    ensures
        match r {
            Some(e) => extension_of(name@) == Some(e@),
            None => extension_of(name@) is None,
        },
{
    let v = chars_of(name);
    let n = v.len();
    if n == 2 && v[0] == '.' && v[1] == '.' {
        assert(v@ =~= seq!['.', '.']);
        return None;
    }
    assert(!(v@ =~= seq!['.', '.']));
    let mut i: usize = n;
    while i > 0 && v[i - 1] != '.'
        invariant
            i <= n == v.len(),
            forall|j: int| i <= j < n ==> v@[j] != '.',
        decreases i,
    {
        i = i - 1;
    }
    proof {
        lemma_last_index(v@, '.', i as int);
    }
    if i <= 1 {
        return None;
    }
    assert(v@.subrange(i as int, n as int) =~= v@.skip(i as int));
    Some(string_of(&v, i, n))
}

/// What the traversal learned of one entry.
pub enum Probe {
    /// A directory or another entry that is no regular file.
    NotAFile,
    /// A regular file that could not be opened or read.
    Unreadable,
    /// A regular file and the bytes read from its start (at most the header
    /// capacity).
    Header(Vec<u8>),
}

/// The outcome of one classified entry.
#[derive(Debug, PartialEq, Eq)]
pub enum Outcome {
    Matched,
    Mismatched(String),
    Unreadable(String),
}

/// Mismatched and unreadable paths, each in the order they were met.
pub struct FileCheckResult {
    pub mismatching_extensions: Vec<String>,
    pub failed_to_open: Vec<String>,
}

pub struct ReportView {
    pub mismatched: Seq<Seq<char>>,
    pub unreadable: Seq<Seq<char>>,
}

impl View for FileCheckResult {
    type V = ReportView;

    open spec fn view(&self) -> ReportView {
        ReportView {
            mismatched: self.mismatching_extensions@.map_values(|p: String| p@),
            unreadable: self.failed_to_open@.map_values(|p: String| p@),
        }
    }
}

/// The report after one entry with path `path` and file name `name`:
/// unreadable files go to the second list, mismatched ones to the first,
/// anything else (no regular file, no extension, a match) leaves it as it is.
pub open spec fn step(
    report: ReportView,
    table: Seq<SignatureView>,
    path: Seq<char>,
    name: Seq<char>,
    probe: Probe,
) -> ReportView {
    match probe {
        Probe::NotAFile => report,
        Probe::Unreadable => ReportView { unreadable: report.unreadable.push(path), ..report },
        Probe::Header(h) => match extension_of(name) {
            Some(e) => if mismatched(table, h@, e) {
                ReportView { mismatched: report.mismatched.push(path), ..report }
            } else {
                report
            },
            None => report,
        },
    }
}

/// Decides the outcome of one entry: `None` where the entry is skipped (no
/// regular file, or a readable file without extension).
pub fn assess(signatures: &Vec<Signature>, path: String, file_name: &str, probe: &Probe) -> (r:
    Option<Outcome>)
    ensures
        match *probe {
            Probe::NotAFile => r is None,
            Probe::Unreadable => r matches Some(Outcome::Unreadable(p)) && p@ == path@,
            Probe::Header(h) => match extension_of(file_name@) {
                None => r is None,
                Some(e) => if mismatched(table_view(signatures@), h@, e) {
                    r matches Some(Outcome::Mismatched(p)) && p@ == path@
                } else {
                    r == Some(Outcome::Matched)
                },
            },
        },
{
    match probe {
        Probe::NotAFile => None,
        Probe::Unreadable => Some(Outcome::Unreadable(path)),
        Probe::Header(h) => match file_extension(file_name) {
            None => None,
            Some(e) => match classify(signatures, h.as_slice(), e.as_str()) {
                Verdict::Mismatched => Some(Outcome::Mismatched(path)),
                Verdict::Matched => Some(Outcome::Matched),
            },
        },
    }
}

/// The title of the first section.
pub open spec fn heading() -> Seq<char> {
    "Mismatching extensions\n"@
}

/// The separator and title of the second section.
pub open spec fn second_heading() -> Seq<char> {
    "\n----------\nFailed to open\n"@
}

/// Each path on a line of its own.
pub open spec fn path_lines(ps: Seq<Seq<char>>) -> Seq<char>
    decreases ps.len(),
{
    if ps.len() == 0 {
        Seq::empty()
    } else {
        path_lines(ps.drop_last()) + ps.last().push('\n')
    }
}

/// The report text; the second section stands only where some file was
/// unreadable.
pub open spec fn render_spec(r: ReportView) -> Seq<char> {
    heading() + path_lines(r.mismatched) + if r.unreadable.len() > 0 {
        second_heading() + path_lines(r.unreadable)
    } else {
        Seq::empty()
    }
}

fn append_lines(out: &mut String, ps: &Vec<String>)
    ensures
        final(out)@ == old(out)@ + path_lines(ps@.map_values(|p: String| p@)),
{
    let ghost start = out@;
    let ghost all = ps@.map_values(|p: String| p@);
    let mut i: usize = 0;
    assert(all.take(0) =~= Seq::<Seq<char>>::empty());
    assert(out@ =~= start + path_lines(all.take(0)));
    while i < ps.len()
        invariant
            i <= ps.len(),
            all == ps@.map_values(|p: String| p@),
            out@ == start + path_lines(all.take(i as int)),
        decreases ps.len() - i,
    {
        out.append(ps[i].as_str());
        push_char(out, '\n');
        assert(all.take(i + 1).drop_last() =~= all.take(i as int));
        assert(out@ =~= start + path_lines(all.take(i + 1)));
        i = i + 1;
    }
    assert(all.take(ps.len() as int) =~= all);
}

impl FileCheckResult {
    /// An empty report.
    pub fn new() -> (r: Self)
        ensures
            r@.mismatched == Seq::<Seq<char>>::empty(),
            r@.unreadable == Seq::<Seq<char>>::empty(),
    {
        let r = FileCheckResult { mismatching_extensions: Vec::new(), failed_to_open: Vec::new() };
        assert(r@.mismatched =~= Seq::<Seq<char>>::empty());
        assert(r@.unreadable =~= Seq::<Seq<char>>::empty());
        r
    }

    /// Adds an outcome: a mismatched or unreadable path is appended to its
    /// list; a match changes nothing.
    pub fn record(&mut self, outcome: Outcome)
        ensures
            match outcome {
                Outcome::Matched => final(self)@ == old(self)@,
                Outcome::Mismatched(p) => final(self)@ == ReportView {
                    mismatched: old(self)@.mismatched.push(p@),
                    ..old(self)@
                },
                Outcome::Unreadable(p) => final(self)@ == ReportView {
                    unreadable: old(self)@.unreadable.push(p@),
                    ..old(self)@
                },
            },
    {
        let ghost before = self@;
        match outcome {
            Outcome::Matched => {},
            Outcome::Mismatched(p) => {
                let ghost pv = p@;
                self.mismatching_extensions.push(p);
                assert(self@.mismatched =~= before.mismatched.push(pv));
            },
            Outcome::Unreadable(p) => {
                let ghost pv = p@;
                self.failed_to_open.push(p);
                assert(self@.unreadable =~= before.unreadable.push(pv));
            },
        }
    }

    /// Takes one traversal entry into the report.
    pub fn scan_entry(
        &mut self,
        signatures: &Vec<Signature>,
        path: String,
        file_name: &str,
        probe: Probe,
    )
        ensures
            final(self)@ == step(old(self)@, table_view(signatures@), path@, file_name@, probe),
    {
        match assess(signatures, path, file_name, &probe) {
            Some(o) => self.record(o),
            None => {},
        }
    }

    /// The report text: the mismatched paths under their title, then, where
    /// some file was unreadable, a separator and the unreadable paths under
    /// their own title. Each title and each path ends with a newline.
    pub fn render(&self) -> (r: String)
        ensures
            r@ == render_spec(self@),
    {
        let mut out = String::from_str("Mismatching extensions\n");
        append_lines(&mut out, &self.mismatching_extensions);
        if self.failed_to_open.len() > 0 {
            out.append("\n----------\nFailed to open\n");
            append_lines(&mut out, &self.failed_to_open);
        }
        out
    }
}

} // verus!
