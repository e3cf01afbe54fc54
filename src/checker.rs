//! Tokenizing file contents into words, and checking the words of a file
//! against the dictionary and the baseline.
use vstd::prelude::*;
use crate::text::{chars_of, lines_of, pieces, split_lines, string_of, views};
use crate::baseline::{
    accepts, dedup, entry_line, format_entry, lemma_record_idempotent, recorded, Baseline, Entry,
};
use crate::dictionary::is_sorted;
use crate::word::{
    alpha_char, camel_shaped, is_alpha, misspellings, relative_path, snake_shaped,
    OutsideWorkingDir, Word,
};

verus! {

/// The characters of the Unicode `White_Space` property.
pub open spec fn is_white_space(c: char) -> bool {
    ('\u{9}' <= c && c <= '\u{d}') || c == ' ' || c == '\u{85}' || c == '\u{a0}' || c
        == '\u{1680}' || ('\u{2000}' <= c && c <= '\u{200a}') || c == '\u{2028}' || c
        == '\u{2029}' || c == '\u{202f}' || c == '\u{205f}' || c == '\u{3000}'
}

/// Relies on `char::is_whitespace`: true exactly for the characters of the
/// Unicode `White_Space` property.
pub assume_specification[ char::is_whitespace ](c: char) -> (r: bool)
    ensures
        r == is_white_space(c),
;

/// A character that may stand inside a word: a letter, `_` or `'`.
pub open spec fn is_word_char(c: char) -> bool {
    is_alpha(c) || c == '_' || c == '\''
}

/// The first position at or after `j` that does not hold a word character.
pub open spec fn run_end(s: Seq<char>, j: int) -> int
    decreases s.len() - j,
{
    if j >= s.len() || !is_word_char(s[j]) {
        j
    } else {
        run_end(s, j + 1)
    }
}

/// The last position in `lo..e` that holds a letter, or `lo - 1` if none does.
pub open spec fn last_alpha(s: Seq<char>, lo: int, e: int) -> int
    decreases e - lo,
{
    if e <= lo {
        lo - 1
    } else if is_alpha(s[e - 1]) {
        e - 1
    } else {
        last_alpha(s, lo, e - 1)
    }
}

/// The leftmost word in `s` at or after `i`: it starts at a letter, runs over
/// word characters and ends at the last letter of that run, and holds at
/// least two letters. Given as start and end positions.
pub open spec fn match_from(s: Seq<char>, i: int) -> Option<(int, int)>
    decreases s.len() - i,
{
    if i < 0 || i >= s.len() {
        None
    } else if is_alpha(s[i]) && last_alpha(s, i + 1, run_end(s, i + 1)) > i {
        Some((i, last_alpha(s, i + 1, run_end(s, i + 1)) + 1))
    } else {
        match_from(s, i + 1)
    }
}

/// The first word in a chunk of text, stripped of the punctuation around it.
pub open spec fn first_word(chunk: Seq<char>) -> Option<Seq<char>> {
    match match_from(chunk, 0) {
        Some((a, b)) => Some(chunk.subrange(a, b)),
        None => None,
    }
}

/// The whitespace-separated chunks of a line (empty ones included).
pub open spec fn chunks(line: Seq<char>) -> Seq<Seq<char>> {
    pieces(line, |c: char| is_white_space(c))
}

/// The first words of the chunks that hold one, in order.
pub open spec fn words_of(cs: Seq<Seq<char>>) -> Seq<Seq<char>>
    decreases cs.len(),
{
    if cs.len() == 0 {
        Seq::empty()
    } else {
        let r = words_of(cs.drop_last());
        match first_word(cs.last()) {
            Some(w) => r.push(w),
            None => r,
        }
    }
}

/// The words of one line.
pub open spec fn line_words(line: Seq<char>) -> Seq<Seq<char>> {
    words_of(chunks(line))
}

/// The words of a text with their 1-based line numbers, in document order.
pub open spec fn text_words(lines: Seq<Seq<char>>) -> Seq<(Seq<char>, int)>
    decreases lines.len(),
{
    if lines.len() == 0 {
        Seq::empty()
    } else {
        text_words(lines.drop_last()) + line_words(lines.last()).map_values(
            |w: Seq<char>| (w, lines.len() as int),
        )
    }
}

/// Splits `s` at whitespace.
pub fn split_white(s: &Vec<char>) -> (r: Vec<String>)
    ensures
        views(r@) == chunks(s@),
{
    let mut r: Vec<String> = Vec::new();
    let mut start: usize = 0;
    let mut i: usize = 0;
    assert(views(r@) =~= Seq::<Seq<char>>::empty());
    assert(s@.subrange(0, 0) =~= Seq::<char>::empty());
    assert(views(r@).push(s@.subrange(0, 0)) =~= chunks(s@.subrange(0, 0)));
    while i < s.len()
        invariant
            start <= i <= s.len(),
            views(r@).push(s@.subrange(start as int, i as int)) == chunks(s@.subrange(0, i as int)),
        decreases s.len() - i,
    {
        let ghost before = views(r@).push(s@.subrange(start as int, i as int));
        assert(s@.subrange(0, i + 1).drop_last() == s@.subrange(0, i as int));
        if s[i].is_whitespace() {
            let piece = string_of(s, start, i);
            let ghost old_r = r@;
            r.push(piece);
            start = i + 1;
            assert(views(r@) =~= views(old_r).push(piece@));
            assert(s@.subrange(start as int, i + 1) =~= Seq::<char>::empty());
            assert(views(r@).push(s@.subrange(start as int, i + 1)) =~= before.push(Seq::empty()));
        } else {
            assert(s@.subrange(start as int, i + 1) == s@.subrange(start as int, i as int).push(
                s@[i as int],
            ));
            assert(views(r@).push(s@.subrange(start as int, i + 1)) =~= before.update(
                before.len() - 1,
                before.last().push(s@[i as int]),
            ));
        }
        i = i + 1;
    }
    assert(s@.subrange(0, s.len() as int) == s@);
    let last = string_of(s, start, s.len());
    let ghost old_r = r@;
    r.push(last);
    assert(views(r@) =~= views(old_r).push(last@));
    r
}

fn word_char(c: char) -> (r: bool)
    ensures
        r == is_word_char(c),
{
    alpha_char(c) || c == '_' || c == '\''
}

/// The first word of a chunk, if it holds one.
pub fn first_word_in(s: &Vec<char>) -> (r: Option<String>)
    ensures
        r matches Some(w) ==> first_word(s@) == Some(w@),
        r is None ==> first_word(s@) is None,
{
    let n = s.len();
    let mut i: usize = 0;
    while i < n
        invariant
            n == s.len(),
            i <= n,
            match_from(s@, 0) == match_from(s@, i as int),
        decreases n - i,
    {
        if alpha_char(s[i]) {
            let mut e: usize = i + 1;
            while e < n && word_char(s[e])
                invariant
                    i + 1 <= e <= n,
                    n == s.len(),
                    run_end(s@, e as int) == run_end(s@, i + 1),
                decreases n - e,
            {
                e = e + 1;
            }
            let mut l: usize = e;
            while l > i + 1 && !alpha_char(s[l - 1])
                invariant
                    i + 1 <= l <= e <= n,
                    n == s.len(),
                    last_alpha(s@, i + 1, l as int) == last_alpha(s@, i + 1, e as int),
                decreases l,
            {
                l = l - 1;
            }
            if l > i + 1 {
                return Some(string_of(s, i, l));
            }
        }
        i = i + 1;
    }
    None
}

/// The words of one line, in order.
pub fn words_in_line(line: &str) -> (r: Vec<String>)
    ensures
        views(r@) == line_words(line@),
{
    let cs = chars_of(line);
    let parts = split_white(&cs);
    let ghost ps = views(parts@);
    let mut r: Vec<String> = Vec::new();
    let mut i: usize = 0;
    assert(ps.take(0) =~= Seq::<Seq<char>>::empty());
    assert(views(r@) =~= Seq::<Seq<char>>::empty());
    while i < parts.len()
        invariant
            i <= parts.len(),
            ps == views(parts@),
            views(r@) == words_of(ps.take(i as int)),
        decreases parts.len() - i,
    {
        let chunk = chars_of(parts[i].as_str());
        assert(ps.take(i + 1).drop_last() =~= ps.take(i as int));
        assert(ps.take(i + 1).last() == parts@[i as int]@);
        match first_word_in(&chunk) {
            Some(w) => {
                let ghost before = r@;
                r.push(w);
                assert(views(r@) =~= views(before).push(w@));
            },
            None => {},
        }
        i = i + 1;
    }
    assert(ps.take(i as int) =~= ps);
    r
}

/// The words of a file's contents, each with the file's path and its
/// 1-based line number, in document order.
pub fn read_words(contents: &str, file: &str) -> (r: Vec<Word>)
    requires
        lines_of(contents@).len() <= u32::MAX,
    ensures
        r.len() == text_words(lines_of(contents@)).len(),
        forall|i: int|
            0 <= i < r.len() ==> (#[trigger] r@[i]).word@ == text_words(lines_of(contents@))[i].0
                && r@[i].line_nr == text_words(lines_of(contents@))[i].1 && r@[i].file@ == file@,
{
    let lines = split_lines(contents);
    let ghost ls = views(lines@);
    let mut r: Vec<Word> = Vec::new();
    let mut k: usize = 0;
    assert(ls.take(0) =~= Seq::<Seq<char>>::empty());
    while k < lines.len()
        invariant
            k <= lines.len() <= u32::MAX,
            ls == views(lines@),
            r.len() == text_words(ls.take(k as int)).len(),
            forall|i: int|
                0 <= i < r.len() ==> (#[trigger] r@[i]).word@ == text_words(ls.take(k as int))[i].0
                    && r@[i].line_nr == text_words(ls.take(k as int))[i].1 && r@[i].file@ == file@,
        decreases lines.len() - k,
    {
        let ws = words_in_line(lines[k].as_str());
        let ghost done = text_words(ls.take(k as int));
        let ghost added = line_words(ls[k as int]).map_values(|w: Seq<char>| (w, k + 1));
        assert(ls.take(k + 1).drop_last() =~= ls.take(k as int));
        assert(ls.take(k + 1).last() == lines@[k as int]@);
        assert(text_words(ls.take(k + 1)) == done + added);
        let line_nr: u32 = (k + 1) as u32;
        let mut j: usize = 0;
        while j < ws.len()
            invariant
                j <= ws.len(),
                views(ws@) == line_words(ls[k as int]),
                added == line_words(ls[k as int]).map_values(|w: Seq<char>| (w, k + 1)),
                line_nr == k + 1,
                r.len() == done.len() + j,
                forall|i: int|
                    0 <= i < r.len() ==> (#[trigger] r@[i]).word@ == (done + added)[i].0
                        && r@[i].line_nr == (done + added)[i].1 && r@[i].file@ == file@,
            decreases ws.len() - j,
        {
            assert(views(ws@)[j as int] == ws@[j as int]@);
            r.push(Word { word: ws[j].clone(), file: file.to_owned(), line_nr });
            j = j + 1;
        }
        k = k + 1;
    }
    assert(ls.take(k as int) =~= ls);
    r
}

/// The baseline entry of a word: its file's relative path and its text.
pub open spec fn token_entry(w: Word, cwd: Seq<char>) -> Entry {
    (relative_path(w.file@, cwd)->0, w.word@)
}

pub open spec fn token_entries(ws: Seq<Word>, cwd: Seq<char>) -> Seq<Entry> {
    ws.map_values(|w: Word| token_entry(w, cwd))
}

proof fn lemma_push_contains(t: Seq<Entry>, x: Entry, e: Entry)
    ensures
        t.push(x).contains(e) == (t.contains(e) || x == e),
{
    assert(t.push(x)[t.len() as int] == x);
    if t.contains(e) {
        let k = choose|k: int| 0 <= k < t.len() && t[k] == e;
        assert(t.push(x)[k] == e);
    }
    if t.push(x).contains(e) && x != e {
        let k = choose|k: int| 0 <= k < t.push(x).len() && t.push(x)[k] == e;
        assert(t[k] == e);
    }
}

/// An entry is kept by `dedup` exactly when it occurs.
pub proof fn lemma_dedup_contains(s: Seq<Entry>, e: Entry)
    ensures
        dedup(s).contains(e) == s.contains(e),
    decreases s.len(),
{
    if s.len() > 0 {
        let t = s.drop_last();
        lemma_dedup_contains(t, e);
        assert(s =~= t.push(s.last()));
        lemma_push_contains(t, s.last(), e);
        if !t.contains(s.last()) {
            lemma_push_contains(dedup(t), s.last(), e);
        }
    }
}

/// The baseline lines that accept the given misspelled words, each distinct
/// (path, word) pair once, in order of first occurrence. Fails where a
/// word's file is not under the working directory `cwd`.
pub fn generate_baseline(misspelled_words: &Vec<Word>, cwd: &str) -> (r: Result<
    Vec<String>,
    OutsideWorkingDir,
>)
    ensures
        r is Err <==> exists|i: int|
            0 <= i < misspelled_words.len() && relative_path(
                (#[trigger] misspelled_words@[i]).file@,
                cwd@,
            ) is None,
        r matches Ok(lines) ==> views(lines@) == dedup(
            token_entries(misspelled_words@, cwd@),
        ).map_values(|e: Entry| entry_line(e)),
{
    let ghost ws = misspelled_words@;
    let mut store = Baseline::new();
    let mut lines: Vec<String> = Vec::new();
    let mut i: usize = 0;
    assert(token_entries(ws.take(0), cwd@) =~= Seq::<Entry>::empty());
    assert(views(lines@) =~= Seq::<Seq<char>>::empty());
    while i < misspelled_words.len()
        invariant
            i <= misspelled_words.len(),
            ws == misspelled_words@,
            forall|j: int| 0 <= j < i ==> relative_path((#[trigger] ws[j]).file@, cwd@) is Some,
            store@ == dedup(token_entries(ws.take(i as int), cwd@)),
            views(lines@) == store@.map_values(|e: Entry| entry_line(e)),
        decreases misspelled_words.len() - i,
    {
        let w = &misspelled_words[i];
        let ghost prefix = token_entries(ws.take(i as int), cwd@);
        assert(token_entries(ws.take(i + 1), cwd@) =~= prefix.push(token_entry(ws[i as int], cwd@)));
        match w.relative_file_path(cwd) {
            None => {
                return Err(OutsideWorkingDir);
            },
            Some(p) => {
                let ghost e = (p@, w.word@);
                proof {
                    lemma_dedup_contains(prefix, e);
                    assert(prefix.push(e).drop_last() =~= prefix);
                }
                let line = format_entry(p.as_str(), w.word.as_str());
                let ghost before = store@;
                let added = store.record(p, w.word.clone());
                if added {
                    let ghost old_lines = lines@;
                    lines.push(line);
                    assert(views(lines@) =~= views(old_lines).push(line@));
                    assert(views(lines@) =~= store@.map_values(|e: Entry| entry_line(e)));
                }
            },
        }
        i = i + 1;
    }
    assert(ws.take(i as int) =~= ws);
    Ok(lines)
}

/// A word reported as misspelled: the word, its file's relative path, its
/// misspelled sub-words, and whether it was split into sub-words (camelCase
/// or snake_case) so that each is reported within it.
pub struct Misspelling {
    pub word: Word,
    pub path: String,
    pub sub_words: Vec<String>,
    pub within: bool,
}

/// The text, file and line of a word.
pub open spec fn token_view(w: Word) -> (Seq<char>, Seq<char>, u32) {
    (w.word@, w.file@, w.line_nr)
}

/// A word is reported: it has misspelled sub-words and the baseline does not
/// accept it in its file.
pub open spec fn is_reported(d: Seq<Seq<char>>, b: Seq<Entry>, cwd: Seq<char>, w: Word) -> bool {
    misspellings(d, w.word@).len() > 0 && !(relative_path(w.file@, cwd) matches Some(p) && accepts(
        b,
        p,
        w.word@,
    ))
}

/// A misspelled word whose file is not under the working directory.
pub open spec fn is_unplaced(d: Seq<Seq<char>>, cwd: Seq<char>, w: Word) -> bool {
    misspellings(d, w.word@).len() > 0 && relative_path(w.file@, cwd) is None
}

/// The reported words among `ws`, in order.
pub open spec fn reported(d: Seq<Seq<char>>, b: Seq<Entry>, cwd: Seq<char>, ws: Seq<Word>) -> Seq<
    (Seq<char>, Seq<char>, u32),
>
    decreases ws.len(),
{
    if ws.len() == 0 {
        Seq::empty()
    } else if is_reported(d, b, cwd, ws.last()) {
        reported(d, b, cwd, ws.drop_last()).push(token_view(ws.last()))
    } else {
        reported(d, b, cwd, ws.drop_last())
    }
}

/// The words of the misspellings.
pub open spec fn misspelled_views(v: Seq<Misspelling>) -> Seq<(Seq<char>, Seq<char>, u32)> {
    v.map_values(|m: Misspelling| token_view(m.word))
}

/// What a misspelling must say of its word.
pub open spec fn describes(m: Misspelling, d: Seq<Seq<char>>, cwd: Seq<char>) -> bool {
    &&& views(m.sub_words@) == misspellings(d, m.word.word@)
    &&& relative_path(m.word.file@, cwd) == Some(m.path@)
    &&& m.within == (camel_shaped(m.word.word@) || snake_shaped(m.word.word@))
}

/// Checks the words of a file: the misspelled words that the baseline does
/// not accept, in order. Fails where a misspelled word's file is not under
/// the working directory `cwd`.
pub fn check_spelling_for_file_contents(
    dictionary: &Vec<String>,
    baseline: &Baseline,
    file_words: &Vec<Word>,
    cwd: &str,
) -> (r: Result<Vec<Misspelling>, OutsideWorkingDir>)
    requires
        is_sorted(views(dictionary@)),
    ensures
        r is Err <==> exists|i: int|
            0 <= i < file_words.len() && is_unplaced(
                views(dictionary@),
                cwd@,
                #[trigger] file_words@[i],
            ),
        r matches Ok(v) ==> misspelled_views(v@) == reported(
            views(dictionary@),
            baseline@,
            cwd@,
            file_words@,
        ),
        r matches Ok(v) ==> forall|i: int|
            0 <= i < v.len() ==> describes(#[trigger] v@[i], views(dictionary@), cwd@),
{
    let ghost d = views(dictionary@);
    let ghost ws = file_words@;
    let mut out: Vec<Misspelling> = Vec::new();
    let mut i: usize = 0;
    assert(misspelled_views(out@) =~= Seq::<(Seq<char>, Seq<char>, u32)>::empty());
    while i < file_words.len()
        invariant
            i <= file_words.len(),
            ws == file_words@,
            d == views(dictionary@),
            is_sorted(d),
            forall|j: int| 0 <= j < i ==> !is_unplaced(d, cwd@, #[trigger] ws[j]),
            misspelled_views(out@) == reported(d, baseline@, cwd@, ws.take(i as int)),
            forall|j: int| 0 <= j < out.len() ==> describes(#[trigger] out@[j], d, cwd@),
        decreases file_words.len() - i,
    {
        let w = &file_words[i];
        assert(ws.take(i + 1).drop_last() =~= ws.take(i as int));
        assert(ws.take(i + 1).last() == ws[i as int]);
        if let Err(bad) = w.is_correct_spelling(dictionary) {
            match w.relative_file_path(cwd) {
                None => {
                    return Err(OutsideWorkingDir);
                },
                Some(p) => {
                    if !baseline.is_suppressed(p.as_str(), w.word.as_str()) {
                        let within = w.is_camel_case() || w.is_snake_case();
                        let m = Misspelling {
                            word: Word {
                                word: w.word.clone(),
                                file: w.file.clone(),
                                line_nr: w.line_nr,
                            },
                            path: p,
                            sub_words: bad,
                            within,
                        };
                        let ghost before = out@;
                        out.push(m);
                        assert(misspelled_views(out@) =~= misspelled_views(before).push(
                            token_view(ws[i as int]),
                        ));
                        assert(describes(out@[out.len() - 1], d, cwd@));
                    }
                },
            }
        }
        i = i + 1;
    }
    assert(ws.take(i as int) =~= ws);
    Ok(out)
}

/// Baselining the same misspelled word twice writes one line: the baseline
/// lines for `ws` followed by `w` twice are those for `ws` followed by `w`.
pub proof fn lemma_baseline_line_once(ws: Seq<Word>, w: Word, cwd: Seq<char>)
    ensures
        dedup(token_entries(ws.push(w).push(w), cwd)) == dedup(token_entries(ws.push(w), cwd)),
{
    let e = token_entry(w, cwd);
    assert(token_entries(ws.push(w).push(w), cwd) =~= token_entries(ws, cwd).push(e).push(e));
    assert(token_entries(ws.push(w), cwd) =~= token_entries(ws, cwd).push(e));
    lemma_record_idempotent(token_entries(ws, cwd), e);
}

/// A word baselined for the file at `a` is still reported in any other file:
/// recording `(a, text)` changes nothing for a word whose relative path is not `a`.
pub proof fn lemma_suppression_is_per_file(
    d: Seq<Seq<char>>,
    b: Seq<Entry>,
    cwd: Seq<char>,
    a: Seq<char>,
    w: Word,
)
    requires
        relative_path(w.file@, cwd) matches Some(p) && p != a,
    ensures
        is_reported(d, recorded(b, (a, w.word@)), cwd, w) == is_reported(d, b, cwd, w),
{
    let p = relative_path(w.file@, cwd)->0;
    if !b.contains((a, w.word@)) {
        lemma_push_contains(b, (a, w.word@), (p, w.word@));
    }
}

} // verus!
