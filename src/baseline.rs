//! The baseline: misspellings accepted per file, read from lines of the
//! form `<relative-path>: <word>`, and the new lines to append to it.
use vstd::prelude::*;
use crate::dictionary::same_text;
use crate::text::{chars_of, lines_of, split_lines, string_of, views};

verus! {

/// An accepted pair: a relative file path and a word.
pub type Entry = (Seq<char>, Seq<char>);

/// The separator `": "` starts at `i` in `l`.
pub open spec fn sep_at(l: Seq<char>, i: int) -> bool {
    0 <= i && i + 1 < l.len() && l[i] == ':' && l[i + 1] == ' '
}

/// The first position at or after `from` where the separator starts.
pub open spec fn find_sep(l: Seq<char>, from: int) -> Option<int>
    decreases l.len() - from,
{
    if from < 0 || from + 1 >= l.len() {
        None
    } else if sep_at(l, from) {
        Some(from)
    } else {
        find_sep(l, from + 1)
    }
}

/// A baseline line read as an entry: the path before the first separator,
/// the word up to the next separator or the end; none without a separator.
pub open spec fn parse_entry(l: Seq<char>) -> Option<Entry> {
    match find_sep(l, 0) {
        None => None,
        Some(k) => {
            let end = match find_sep(l, k + 2) {
                Some(m) => m,
                None => l.len() as int,
            };
            Some((l.subrange(0, k), l.subrange(k + 2, end)))
        },
    }
}

/// The line that records an entry.
pub open spec fn entry_line(e: Entry) -> Seq<char> {
    e.0 + seq![':', ' '] + e.1
}

/// The entries of a sequence of pairs of strings.
pub open spec fn entry_views(v: Seq<(String, String)>) -> Seq<Entry> {
    v.map_values(|p: (String, String)| (p.0@, p.1@))
}

/// `s` with each entry kept at its first occurrence only.
pub open spec fn dedup(s: Seq<Entry>) -> Seq<Entry>
    decreases s.len(),
{
    if s.len() == 0 {
        s
    } else if s.drop_last().contains(s.last()) {
        dedup(s.drop_last())
    } else {
        dedup(s.drop_last()).push(s.last())
    }
}

/// A baseline line that has no separator; `line_nr` is 1-based.
#[derive(Clone, Copy, Debug, PartialEq, Eq)]
pub struct MalformedLine {
    pub line_nr: usize,
}

/// The accepted misspellings, as (relative path, word) pairs.
pub struct Baseline {
    entries: Vec<(String, String)>,
}

impl View for Baseline {
    type V = Seq<Entry>;

    closed spec fn view(&self) -> Seq<Entry> {
        entry_views(self.entries@)
    }
}

/// `b` accepts `word` in the file at `path`.
pub open spec fn accepts(b: Seq<Entry>, path: Seq<char>, word: Seq<char>) -> bool {
    b.contains((path, word))
}

/// `b` with `e` added unless it is there already.
pub open spec fn recorded(b: Seq<Entry>, e: Entry) -> Seq<Entry> {
    if b.contains(e) {
        b
    } else {
        b.push(e)
    }
}

/// Reads one line: the entry, or `None` where the separator is missing.
pub fn parse_line(line: &str) -> (r: Option<(String, String)>)
    ensures
        r matches Some(p) ==> parse_entry(line@) == Some((p.0@, p.1@)),
        r is None ==> parse_entry(line@) is None,
{
    let l = chars_of(line);
    let k = match next_sep(&l, 0) {
        Some(k) => k,
        None => {
            return None;
        },
    };
    let end = match next_sep(&l, k + 2) {
        Some(m) => m,
        None => l.len(),
    };
    Some((string_of(&l, 0, k), string_of(&l, k + 2, end)))
}

fn next_sep(l: &Vec<char>, from: usize) -> (r: Option<usize>)
    requires
        from <= l.len() + 2,
    ensures
        r matches Some(k) ==> find_sep(l@, from as int) == Some(k as int) && from <= k && k + 2
            <= l.len(),
        r is None ==> find_sep(l@, from as int) is None,
{
    let mut i: usize = from;
    while i < l.len() && l.len() - i >= 2
        invariant
            from <= i,
            i <= l.len() + 2,
            find_sep(l@, from as int) == find_sep(l@, i as int),
        decreases l.len() + 2 - i,
    {
        if l[i] == ':' && l[i + 1] == ' ' {
            return Some(i);
        }
        i = i + 1;
    }
    None
}

impl Baseline {
    /// The empty baseline.
    pub fn new() -> (r: Baseline)
        ensures
            r@ == Seq::<Entry>::empty(),
    {
        let r = Baseline { entries: Vec::new() };
        assert(r@ =~= Seq::<Entry>::empty());
        r
    }

    /// Reads the baseline from its text, one entry per line. Fails on the
    /// first line that has no separator.
    pub fn parse(contents: &str) -> (r: Result<Baseline, MalformedLine>)
        ensures
            r matches Ok(b) ==> (forall|i: int|
                0 <= i < lines_of(contents@).len() ==> #[trigger] parse_entry(
                    lines_of(contents@)[i],
                ) is Some) && b@ == lines_of(contents@).map_values(
                |l: Seq<char>| parse_entry(l)->0,
            ),
            r matches Err(e) ==> 1 <= e.line_nr <= lines_of(contents@).len(),
            r matches Err(e) ==> parse_entry(lines_of(contents@)[e.line_nr - 1]) is None,
            r matches Err(e) ==> forall|i: int|
                0 <= i < e.line_nr - 1 ==> #[trigger] parse_entry(lines_of(contents@)[i]) is Some,
    {
        let lines = split_lines(contents);
        let ghost ls = lines_of(contents@);
        let mut entries: Vec<(String, String)> = Vec::new();
        let mut i: usize = 0;
        while i < lines.len()
            invariant
                i <= lines.len(),
                ls == views(lines@),
                ls == lines_of(contents@),
                forall|j: int| 0 <= j < i ==> #[trigger] parse_entry(ls[j]) is Some,
                entry_views(entries@) == ls.take(i as int).map_values(
                    |l: Seq<char>| parse_entry(l)->0,
                ),
            decreases lines.len() - i,
        {
            assert(ls[i as int] == lines@[i as int]@);
            match parse_line(lines[i].as_str()) {
                Some(p) => {
                    let ghost before = entries@;
                    entries.push(p);
                    assert(ls.take(i + 1) =~= ls.take(i as int).push(ls[i as int]));
                    assert(entry_views(entries@) =~= entry_views(before).push((p.0@, p.1@)));
                    assert(entry_views(entries@) =~= ls.take(i + 1).map_values(
                        |l: Seq<char>| parse_entry(l)->0,
                    ));
                },
                None => {
                    assert(ls.len() == lines.len());
                    return Err(MalformedLine { line_nr: i + 1 });
                },
            }
            i = i + 1;
        }
        assert(ls.take(i as int) =~= ls);
        Ok(Baseline { entries })
    }

    /// Whether `word` is accepted in the file at `path`.
    pub fn is_suppressed(&self, path: &str, word: &str) -> (r: bool)
        ensures
            r == accepts(self@, path@, word@),
    {
        let mut i: usize = 0;
        while i < self.entries.len()
            invariant
                i <= self.entries.len(),
                forall|j: int| 0 <= j < i ==> self@[j] != (path@, word@),
            decreases self.entries.len() - i,
        {
            let e = &self.entries[i];
            assert(self@[i as int] == (e.0@, e.1@));
            if same_text(e.0.as_str(), path) && same_text(e.1.as_str(), word) {
                return true;
            }
            i = i + 1;
        }
        false
    }

    /// Records `word` as accepted in the file at `path`; `true` when the
    /// pair was new.
    pub fn record(&mut self, path: String, word: String) -> (added: bool)
        ensures
            added == !old(self)@.contains((path@, word@)),
            final(self)@ == recorded(old(self)@, (path@, word@)),
    {
        if self.is_suppressed(path.as_str(), word.as_str()) {
            false
        } else {
            let ghost before = self.entries@;
            let e = (path, word);
            self.entries.push(e);
            assert(entry_views(self.entries@) =~= entry_views(before).push((e.0@, e.1@)));
            true
        }
    }
}

/// The line that records `word` as accepted in the file at `path`.
pub fn format_entry(path: &str, word: &str) -> (r: String)
    ensures
        r@ == entry_line((path@, word@)),
{
    let mut r = String::new();
    r.append(path);
    r.push(':');
    r.push(' ');
    r.append(word);
    assert(r@ =~= entry_line((path@, word@)));
    r
}

/// Recording the same pair a second time adds nothing.
pub proof fn lemma_record_idempotent(b: Seq<Entry>, e: Entry)
    ensures
        recorded(recorded(b, e), e) == recorded(b, e),
        dedup(b.push(e).push(e)) == dedup(b.push(e)),
{
    assert(b.push(e).push(e).drop_last() =~= b.push(e));
    assert(b.push(e).contains(e)) by {
        assert(b.push(e)[b.len() as int] == e);
    }
}

/// A word accepted for one file stays reported in another: recording it
/// for `a` does not make it accepted for a different file `b`.
pub proof fn lemma_record_is_per_file(
    base: Seq<Entry>,
    a: Seq<char>,
    b: Seq<char>,
    word: Seq<char>,
)
    requires
        a != b,
        !accepts(base, b, word),
    ensures
        accepts(recorded(base, (a, word)), a, word),
        !accepts(recorded(base, (a, word)), b, word),
{
    let e = (a, word);
    if !base.contains(e) {
        assert(base.push(e)[base.len() as int] == e);
        assert forall|i: int| 0 <= i < base.push(e).len() implies base.push(e)[i] != (b, word) by {
            if i < base.len() {
                assert(base.push(e)[i] == base[i]);
            }
        }
    }
}

} // verus!
