//! The signature table: a textual rule file parsed into magic numbers and
//! the extensions they belong to.
use vstd::prelude::*;

use crate::text::{chars_of, string_of};

verus! {

/// The pieces of `s` between occurrences of `sep`; never empty.
pub open spec fn split_on(s: Seq<char>, sep: char) -> Seq<Seq<char>>
    decreases s.len(),
{
    if s.len() == 0 {
        seq![Seq::<char>::empty()]
    } else {
        let prev = split_on(s.drop_last(), sep);
        if s.last() == sep {
            prev.push(Seq::<char>::empty())
        } else {
            prev.update(prev.len() - 1, prev.last().push(s.last()))
        }
    }
}

/// The sequences picked out of `s` by half-open index ranges.
pub open spec fn pieces(s: Seq<char>, rs: Seq<(usize, usize)>) -> Seq<Seq<char>> {
    rs.map_values(|r: (usize, usize)| s.subrange(r.0 as int, r.1 as int))
}

pub open spec fn ranges_within(rs: Seq<(usize, usize)>, lo: int, hi: int) -> bool {
    forall|k: int| 0 <= k < rs.len() ==> lo <= (#[trigger] rs[k]).0 <= rs[k].1 <= hi
}

proof fn lemma_split_on_len(s: Seq<char>, sep: char)
    ensures
        split_on(s, sep).len() >= 1,
    decreases s.len(),
{
    if s.len() > 0 {
        lemma_split_on_len(s.drop_last(), sep);
    }
}

/// Index ranges of the pieces of `s[lo..hi]` between occurrences of `sep`.
fn split_ranges(s: &Vec<char>, lo: usize, hi: usize, sep: char) -> (r: Vec<(usize, usize)>)
    requires
        lo <= hi <= s.len(),
    ensures
        pieces(s@, r@) == split_on(s@.subrange(lo as int, hi as int), sep),
        ranges_within(r@, lo as int, hi as int),
{
    let mut done: Vec<(usize, usize)> = Vec::new();
    let mut start: usize = lo;
    let mut i: usize = lo;
    assert(s@.subrange(lo as int, lo as int) =~= Seq::<char>::empty());
    assert(pieces(s@, done@).push(Seq::<char>::empty()) =~= seq![Seq::<char>::empty()]);
    while i < hi
        invariant
            lo <= start <= i <= hi <= s.len(),
            ranges_within(done@, lo as int, i as int),
            pieces(s@, done@).push(s@.subrange(start as int, i as int)) == split_on(
                s@.subrange(lo as int, i as int),
                sep,
            ),
        decreases hi - i,
    {
        let ghost t = s@.subrange(lo as int, i + 1);
        assert(t.drop_last() =~= s@.subrange(lo as int, i as int));
        assert(t.last() == s@[i as int]);
        if s[i] == sep {
            let ghost before = pieces(s@, done@);
            done.push((start, i));
            assert(pieces(s@, done@) =~= before.push(s@.subrange(start as int, i as int)));
            start = i + 1;
            assert(s@.subrange(start as int, i + 1) =~= Seq::<char>::empty());
        } else {
            assert(s@.subrange(start as int, i + 1) =~= s@.subrange(start as int, i as int).push(
                s@[i as int],
            ));
        }
        i = i + 1;
    }
    let ghost before = pieces(s@, done@);
    done.push((start, hi));
    assert(pieces(s@, done@) =~= before.push(s@.subrange(start as int, hi as int)));
    done
}

/// Whether `c` is white space in the Unicode sense (`char::is_whitespace`).
pub open spec fn is_blank(c: char) -> bool {
    let u = c as u32;
    (0x9 <= u <= 0xD) || u == 0x20 || u == 0x85 || u == 0xA0 || u == 0x1680 || (0x2000 <= u
        <= 0x200A) || u == 0x2028 || u == 0x2029 || u == 0x202F || u == 0x205F || u == 0x3000
}

/// The runs of non-blank characters of `s`, in order (`str::split_whitespace`).
pub open spec fn words(s: Seq<char>) -> Seq<Seq<char>>
    decreases s.len(),
{
    if s.len() == 0 {
        Seq::empty()
    } else {
        let w = words(s.drop_last());
        let c = s.last();
        if is_blank(c) {
            w
        } else if s.len() >= 2 && !is_blank(s[s.len() - 2]) {
            w.update(w.len() - 1, w.last().push(c))
        } else {
            w.push(seq![c])
        }
    }
}

fn is_blank_char(c: char) -> (r: bool)
    ensures
        r == is_blank(c),
{
    let u = c as u32;
    (0x9 <= u && u <= 0xD) || u == 0x20 || u == 0x85 || u == 0xA0 || u == 0x1680 || (0x2000 <= u
        && u <= 0x200A) || u == 0x2028 || u == 0x2029 || u == 0x202F || u == 0x205F || u == 0x3000
}

/// Index ranges of the words of `s[lo..hi]`.
fn word_ranges(s: &Vec<char>, lo: usize, hi: usize) -> (r: Vec<(usize, usize)>)
    requires
        lo <= hi <= s.len(),
    ensures
        pieces(s@, r@) == words(s@.subrange(lo as int, hi as int)),
        ranges_within(r@, lo as int, hi as int),
{
    let mut done: Vec<(usize, usize)> = Vec::new();
    let mut start: usize = lo;
    let mut i: usize = lo;
    assert(s@.subrange(lo as int, lo as int) =~= Seq::<char>::empty());
    assert(pieces(s@, done@) =~= Seq::<Seq<char>>::empty());
    while i < hi
        invariant
            lo <= start <= i <= hi <= s.len(),
            ranges_within(done@, lo as int, i as int),
            start < i ==> !is_blank(s@[i - 1]) && words(s@.subrange(lo as int, i as int))
                == pieces(s@, done@).push(s@.subrange(start as int, i as int)),
            start == i ==> (i == lo || is_blank(s@[i - 1])) && words(
                s@.subrange(lo as int, i as int),
            ) == pieces(s@, done@),
        decreases hi - i,
    {
        let ghost t = s@.subrange(lo as int, i + 1);
        assert(t.drop_last() =~= s@.subrange(lo as int, i as int));
        assert(t.last() == s@[i as int]);
        assert(t.len() >= 2 ==> t[t.len() - 2] == s@[i - 1]);
        let c = s[i];
        if is_blank_char(c) {
            if start < i {
                let ghost before = pieces(s@, done@);
                done.push((start, i));
                assert(pieces(s@, done@) =~= before.push(s@.subrange(start as int, i as int)));
            }
            start = i + 1;
        } else {
            if start < i {
                assert(s@.subrange(start as int, i + 1) =~= s@.subrange(start as int, i as int).push(
                    c,
                ));
            } else {
                assert(s@.subrange(start as int, i + 1) =~= seq![c]);
            }
        }
        i = i + 1;
    }
    if start < hi {
        let ghost before = pieces(s@, done@);
        done.push((start, hi));
        assert(pieces(s@, done@) =~= before.push(s@.subrange(start as int, hi as int)));
    }
    done
}

/// The value of a base-16 digit, either case.
pub open spec fn hex_value(c: char) -> Option<nat> {
    let u = c as u32;
    if 0x30 <= u <= 0x39 {
        Some((u - 0x30) as nat)
    } else if 0x41 <= u <= 0x46 {
        Some((u - 0x41 + 10) as nat)
    } else if 0x61 <= u <= 0x66 {
        Some((u - 0x61 + 10) as nat)
    } else {
        None
    }
}

/// The number written by the base-16 digits `d`; `None` if one is no digit.
pub open spec fn digits_value(d: Seq<char>) -> Option<nat>
    decreases d.len(),
{
    if d.len() == 0 {
        Some(0)
    } else {
        match (digits_value(d.drop_last()), hex_value(d.last())) {
            (Some(a), Some(b)) => Some(a * 16 + b),
            _ => None,
        }
    }
}

/// The byte a token stands for: an optional `+`, then at least one base-16
/// digit, with a value below 256 (leading zeros allowed).
pub open spec fn token_byte(t: Seq<char>) -> Option<u8> {
    let d = if t.len() > 0 && t[0] == '+' {
        t.drop_first()
    } else {
        t
    };
    if d.len() == 0 {
        None
    } else {
        match digits_value(d) {
            Some(v) => if v < 256 {
                Some(v as u8)
            } else {
                None
            },
            None => None,
        }
    }
}

/// Once a prefix of the digits is invalid the whole is; a valid whole is at
/// least as large as any prefix.
proof fn lemma_digits_prefix(d: Seq<char>, i: int)
    requires
        0 <= i <= d.len(),
    ensures
        digits_value(d.take(i)) is None ==> digits_value(d) is None,
        digits_value(d.take(i)) is Some && digits_value(d) is Some ==> digits_value(d)->0
            >= digits_value(d.take(i))->0,
    decreases d.len(),
{
    if i == d.len() {
        assert(d.take(i) =~= d);
    } else {
        assert(d.drop_last().take(i) =~= d.take(i));
        lemma_digits_prefix(d.drop_last(), i);
    }
}

fn hex_digit(c: char) -> (r: Option<u32>)
    ensures
        r matches Some(x) ==> hex_value(c) == Some(x as nat) && x < 16,
        r is None ==> hex_value(c) is None,
{
    let u = c as u32;
    if 0x30 <= u && u <= 0x39 {
        Some(u - 0x30)
    } else if 0x41 <= u && u <= 0x46 {
        Some(u - 0x41 + 10)
    } else if 0x61 <= u && u <= 0x66 {
        Some(u - 0x61 + 10)
    } else {
        None
    }
}

/// Parses `s[lo..hi]` as one base-16 byte.
fn parse_byte(s: &Vec<char>, lo: usize, hi: usize) -> (r: Option<u8>)
    requires
        lo <= hi <= s.len(),
    ensures
        r == token_byte(s@.subrange(lo as int, hi as int)),
{
    let ghost t = s@.subrange(lo as int, hi as int);
    let start: usize = if lo < hi && s[lo] == '+' {
        lo + 1
    } else {
        lo
    };
    let ghost d = s@.subrange(start as int, hi as int);
    assert(d =~= (if t.len() > 0 && t[0] == '+' {
        t.drop_first()
    } else {
        t
    }));
    if start == hi {
        return None;
    }
    let mut acc: u32 = 0;
    let mut i: usize = start;
    assert(d.take(0) =~= Seq::<char>::empty());
    while i < hi
        invariant
            lo <= start <= i <= hi <= s.len(),
            d == s@.subrange(start as int, hi as int),
            t == s@.subrange(lo as int, hi as int),
            d == (if t.len() > 0 && t[0] == '+' {
                t.drop_first()
            } else {
                t
            }),
            d.len() > 0,
            digits_value(d.take(i - start)) == Some(acc as nat),
            acc < 256,
        decreases hi - i,
    {
        let ghost k = i - start;
        assert(d.take(k + 1).drop_last() =~= d.take(k));
        assert(d.take(k + 1).last() == s@[i as int]);
        match hex_digit(s[i]) {
            None => {
                proof {
                    assert(digits_value(d.take(k + 1)) is None);
                    lemma_digits_prefix(d, k + 1);
                }
                return None;
            },
            Some(x) => {
                let n = acc * 16 + x;
                if n > 255 {
                    proof {
                        assert(digits_value(d.take(k + 1)) == Some(n as nat));
                        lemma_digits_prefix(d, k + 1);
                    }
                    return None;
                }
                assert(digits_value(d.take(k + 1)) == Some(n as nat));
                acc = n;
            },
        }
        i = i + 1;
    }
    assert(d.take(hi - start) =~= d);
    Some(acc as u8)
}

/// Position of the first `c` in `s`.
pub open spec fn first_index(s: Seq<char>, c: char) -> Option<int>
    decreases s.len(),
{
    if s.len() == 0 {
        None
    } else if s[0] == c {
        Some(0)
    } else {
        match first_index(s.drop_first(), c) {
            Some(i) => Some(i + 1),
            None => None,
        }
    }
}

proof fn lemma_first_index(s: Seq<char>, c: char, i: int)
    requires
        0 <= i <= s.len(),
        forall|j: int| 0 <= j < i ==> s[j] != c,
        i < s.len() ==> s[i] == c,
    ensures
        first_index(s, c) == (if i < s.len() {
            Some(i)
        } else {
            None::<int>
        }),
    decreases s.len(),
{
    if s.len() > 0 && i > 0 {
        lemma_first_index(s.drop_first(), c, i - 1);
    }
}

/// The bytes of a sequence of tokens; `None` if one of them is no byte.
pub open spec fn bytes_of(ws: Seq<Seq<char>>) -> Option<Seq<u8>>
    decreases ws.len(),
{
    if ws.len() == 0 {
        Some(Seq::empty())
    } else {
        match (bytes_of(ws.drop_last()), token_byte(ws.last())) {
            (Some(b), Some(x)) => Some(b.push(x)),
            _ => None,
        }
    }
}

proof fn lemma_bytes_prefix(ws: Seq<Seq<char>>, i: int)
    requires
        0 <= i <= ws.len(),
        bytes_of(ws.take(i)) is None,
    ensures
        bytes_of(ws) is None,
    decreases ws.len(),
{
    if i == ws.len() {
        assert(ws.take(i) =~= ws);
    } else {
        assert(ws.drop_last().take(i) =~= ws.take(i));
        lemma_bytes_prefix(ws.drop_last(), i);
    }
}

/// Why a rule line was refused.
#[derive(Clone, Copy, Debug, PartialEq, Eq, Structural)]
pub enum ParseErrorKind {
    /// The line has no `:` between bytes and extensions.
    MissingSeparator,
    /// A token left of the `:` is not a base-16 byte.
    InvalidByte,
    /// No byte stands left of the `:`.
    EmptyMagicNumber,
}

/// A refused signature source: the first bad line (counted from 1) and why.
#[derive(Clone, Copy, Debug, PartialEq, Eq, Structural)]
pub struct ParseError {
    pub line: usize,
    pub kind: ParseErrorKind,
}

/// A magic number and the extensions (case-sensitive, no leading dot) that
/// it belongs to.
#[derive(Debug)]
pub struct Signature {
    pub magic_number: Vec<u8>,
    pub name: Vec<String>,
}

/// What a signature stands for.
pub struct SignatureView {
    pub magic: Seq<u8>,
    pub extensions: Seq<Seq<char>>,
}

impl View for Signature {
    type V = SignatureView;

    open spec fn view(&self) -> SignatureView {
        SignatureView {
            magic: self.magic_number@,
            extensions: self.name@.map_values(|n: String| n@),
        }
    }
}

impl Signature {
    /// A loaded signature has at least one byte and at least one extension.
    pub open spec fn wf(&self) -> bool {
        self.magic_number@.len() > 0 && self.name@.len() > 0
    }
}

/// The views of a table's entries, in order.
pub open spec fn table_view(t: Seq<Signature>) -> Seq<SignatureView> {
    t.map_values(|s: Signature| s@)
}

/// One rule `<hex bytes> : <ext>,<ext>,...`: split at the first `:`, bytes
/// separated by white space, extensions split on `,` and kept as written.
pub open spec fn parse_rule(line: Seq<char>) -> Result<SignatureView, ParseErrorKind> {
    match first_index(line, ':') {
        None => Err(ParseErrorKind::MissingSeparator),
        Some(k) => match bytes_of(words(line.take(k))) {
            None => Err(ParseErrorKind::InvalidByte),
            Some(b) => if b.len() == 0 {
                Err(ParseErrorKind::EmptyMagicNumber)
            } else {
                Ok(SignatureView { magic: b, extensions: split_on(line.skip(k + 1), ',') })
            },
        },
    }
}

/// Parses the rule held in `s[lo..hi]`.
fn parse_rule_at(s: &Vec<char>, lo: usize, hi: usize) -> (r: Result<Signature, ParseErrorKind>)
    requires
        lo <= hi <= s.len(),
    ensures
        match r {
            Ok(sig) => parse_rule(s@.subrange(lo as int, hi as int)) == Ok::<
                SignatureView,
                ParseErrorKind,
            >(sig@) && sig.wf(),
            Err(e) => parse_rule(s@.subrange(lo as int, hi as int)) == Err::<
                SignatureView,
                ParseErrorKind,
            >(e),
        },
{
    let ghost line = s@.subrange(lo as int, hi as int);
    let mut k: usize = lo;
    while k < hi && s[k] != ':'
        invariant
            lo <= k <= hi <= s.len(),
            forall|j: int| lo <= j < k ==> s@[j] != ':',
        decreases hi - k,
    {
        k = k + 1;
    }
    proof {
        lemma_first_index(line, ':', k - lo);
    }
    if k == hi {
        return Err(ParseErrorKind::MissingSeparator);
    }
    assert(line.take(k - lo) =~= s@.subrange(lo as int, k as int));
    assert(line.skip(k - lo + 1) =~= s@.subrange(k + 1, hi as int));
    let ghost ws = words(s@.subrange(lo as int, k as int));
    let tokens = word_ranges(s, lo, k);
    let mut magic_number: Vec<u8> = Vec::new();
    let mut j: usize = 0;
    assert(ws.take(0) =~= Seq::<Seq<char>>::empty());
    while j < tokens.len()
        invariant
            j <= tokens.len(),
            ws == pieces(s@, tokens@),
            ranges_within(tokens@, lo as int, k as int),
            k <= hi <= s.len(),
            bytes_of(ws.take(j as int)) == Some(magic_number@),
            line == s@.subrange(lo as int, hi as int),
            first_index(line, ':') == Some(k - lo),
            line.take(k - lo) == s@.subrange(lo as int, k as int),
            ws == words(s@.subrange(lo as int, k as int)),
        decreases tokens.len() - j,
    {
        assert(ws.take(j + 1).drop_last() =~= ws.take(j as int));
        let (a, b) = tokens[j];
        assert(lo <= tokens@[j as int].0 <= tokens@[j as int].1 <= k);
        match parse_byte(s, a, b) {
            None => {
                proof {
                    assert(ws[j as int] == s@.subrange(a as int, b as int));
                    assert(bytes_of(ws.take(j + 1)) is None);
                    lemma_bytes_prefix(ws, j + 1);
                }
                return Err(ParseErrorKind::InvalidByte);
            },
            Some(x) => {
                magic_number.push(x);
            },
        }
        j = j + 1;
    }
    assert(ws.take(tokens.len() as int) =~= ws);
    if magic_number.len() == 0 {
        return Err(ParseErrorKind::EmptyMagicNumber);
    }
    let ghost exts = split_on(s@.subrange(k + 1, hi as int), ',');
    let parts = split_ranges(s, k + 1, hi, ',');
    let mut name: Vec<String> = Vec::new();
    let mut j: usize = 0;
    while j < parts.len()
        invariant
            j <= parts.len(),
            exts == pieces(s@, parts@),
            ranges_within(parts@, k + 1, hi as int),
            hi <= s.len(),
            name@.map_values(|n: String| n@) == exts.take(j as int),
        decreases parts.len() - j,
    {
        let (a, b) = parts[j];
        assert(k + 1 <= parts@[j as int].0 <= parts@[j as int].1 <= hi);
        let ghost before = name@;
        name.push(string_of(s, a, b));
        assert(name@.map_values(|n: String| n@) =~= before.map_values(|n: String| n@).push(
            s@.subrange(a as int, b as int),
        ));
        assert(exts.take(j + 1) =~= exts.take(j as int).push(exts[j as int]));
        j = j + 1;
    }
    proof {
        lemma_split_on_len(s@.subrange(k + 1, hi as int), ',');
    }
    assert(exts.take(parts.len() as int) =~= exts);
    Ok(Signature { magic_number, name })
}

/// A line without the `\r` of a `\r\n` ending.
pub open spec fn strip_cr(l: Seq<char>) -> Seq<char> {
    if l.len() > 0 && l.last() == '\r' {
        l.drop_last()
    } else {
        l
    }
}

/// The lines of a text: split at `\n`, a `\r` before the `\n` dropped, and
/// no empty line after a final `\n`.
pub open spec fn lines_of(s: Seq<char>) -> Seq<Seq<char>> {
    let parts = split_on(s, '\n');
    let n = parts.len();
    let body = parts.take(n - 1).map_values(|l: Seq<char>| strip_cr(l));
    if parts[n - 1].len() == 0 {
        body
    } else {
        body.push(parts[n - 1])
    }
}

/// The table that a sequence of rule lines describes, or the first bad line.
pub open spec fn parse_rules(ls: Seq<Seq<char>>) -> Result<Seq<SignatureView>, ParseError>
    decreases ls.len(),
{
    if ls.len() == 0 {
        Ok(Seq::empty())
    } else {
        match parse_rules(ls.drop_last()) {
            Err(e) => Err(e),
            Ok(t) => match parse_rule(ls.last()) {
                Err(k) => Err(ParseError { line: ls.len() as usize, kind: k }),
                Ok(v) => Ok(t.push(v)),
            },
        }
    }
}

proof fn lemma_rules_prefix(ls: Seq<Seq<char>>, i: int)
    requires
        0 <= i <= ls.len(),
        parse_rules(ls.take(i)) is Err,
    ensures
        parse_rules(ls) == parse_rules(ls.take(i)),
    decreases ls.len(),
{
    if i == ls.len() {
        assert(ls.take(i) =~= ls);
    } else {
        assert(ls.drop_last().take(i) =~= ls.take(i));
        lemma_rules_prefix(ls.drop_last(), i);
    }
}

/// What loading `text` gives.
pub open spec fn load_spec(text: Seq<char>) -> Result<Seq<SignatureView>, ParseError> {
    parse_rules(lines_of(text))
}

/// Whether `r` is what loading `text` gives.
pub open spec fn loaded_from(text: Seq<char>, r: Result<Vec<Signature>, ParseError>) -> bool {
    match r {
        Ok(t) => load_spec(text) == Ok::<Seq<SignatureView>, ParseError>(table_view(t@))
            && forall|i: int| 0 <= i < t.len() ==> (#[trigger] t@[i]).wf(),
        Err(e) => load_spec(text) == Err::<Seq<SignatureView>, ParseError>(e),
    }
}

impl Signature {
    /// Parses one rule line.
    pub fn parse_line(line: &str) -> (r: Result<Signature, ParseErrorKind>)
        ensures
            match r {
                Ok(sig) => parse_rule(line@) == Ok::<SignatureView, ParseErrorKind>(sig@)
                    && sig.wf(),
                Err(e) => parse_rule(line@) == Err::<SignatureView, ParseErrorKind>(e),
            },
    {
        let v = chars_of(line);
        assert(v@.subrange(0, v.len() as int) =~= line@);
        parse_rule_at(&v, 0, v.len())
    }

    /// Loads a signature table from its text, one rule per line, keeping the
    /// order of the lines. Any bad line refuses the whole text.
    pub fn load(text: &str) -> (r: Result<Vec<Signature>, ParseError>)
        ensures
            loaded_from(text@, r),
    {
        let v = chars_of(text);
        assert(v@.subrange(0, v.len() as int) =~= text@);
        let ghost parts = split_on(text@, '\n');
        let ghost ls = lines_of(text@);
        let ranges = split_ranges(&v, 0, v.len(), '\n');
        proof {
            lemma_split_on_len(text@, '\n');
        }
        let m = ranges.len();
        let (la, lb) = ranges[m - 1];
        assert(parts[m - 1] == v@.subrange(la as int, lb as int));
        let count: usize = if la == lb {
            m - 1
        } else {
            m
        };
        assert(ls.len() == count);
        let mut table: Vec<Signature> = Vec::new();
        let mut j: usize = 0;
        assert(ls.take(0) =~= Seq::<Seq<char>>::empty());
        assert(table_view(table@) =~= Seq::<SignatureView>::empty());
        while j < count
            invariant
                j <= count <= m,
                m == ranges.len(),
                count == ls.len(),
                parts == pieces(v@, ranges@),
                parts.len() == m,
                ls == lines_of(text@),
                parts == split_on(text@, '\n'),
                ranges_within(ranges@, 0, v.len() as int),
                parse_rules(ls.take(j as int)) == Ok::<Seq<SignatureView>, ParseError>(
                    table_view(table@),
                ),
                forall|i: int| 0 <= i < table.len() ==> (#[trigger] table@[i]).wf(),
            decreases count - j,
        {
            let (a, b0) = ranges[j];
            assert(0 <= ranges@[j as int].0 <= ranges@[j as int].1 <= v.len());
            let b: usize = if j + 1 < m && b0 > a && v[b0 - 1] == '\r' {
                b0 - 1
            } else {
                b0
            };
            assert(parts[j as int] == v@.subrange(a as int, b0 as int));
            if j + 1 < m {
                assert(ls[j as int] == strip_cr(parts[j as int]));
                if b0 > a {
                    assert(v@.subrange(a as int, b0 as int).drop_last() =~= v@.subrange(
                        a as int,
                        b0 - 1,
                    ));
                }
            }
            assert(ls[j as int] =~= v@.subrange(a as int, b as int));
            assert(ls.take(j + 1).drop_last() =~= ls.take(j as int));
            match parse_rule_at(&v, a, b) {
                Err(k) => {
                    proof {
                        lemma_rules_prefix(ls, j + 1);
                    }
                    return Err(ParseError { line: j + 1, kind: k });
                },
                Ok(sig) => {
                    let ghost before = table@;
                    let ghost sv = sig@;
                    table.push(sig);
                    assert(table_view(table@) =~= table_view(before).push(sv));
                },
            }
            j = j + 1;
        }
        assert(ls.take(count as int) =~= ls);
        Ok(table)
    }
}

} // verus!
