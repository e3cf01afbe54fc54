//! A word found in a file, its classification as camelCase or snake_case,
//! its sub-words, and its validation against the dictionary.
use vstd::prelude::*;
use crate::dictionary::{ascii_lower, ascii_lower_char, is_known, is_sorted, known, lowered};
use crate::text::{
    chars_of, lemma_split_pair, split_at_char, split_char, string_of, views,
};
use crate::baseline::{entry_line, format_entry};
use vstd::utf8::is_ascii_chars;

verus! {

pub open spec fn is_lower(c: char) -> bool {
    'a' <= c && c <= 'z'
}

pub open spec fn is_upper(c: char) -> bool {
    'A' <= c && c <= 'Z'
}

/// A letter of the ASCII alphabet.
pub open spec fn is_alpha(c: char) -> bool {
    is_lower(c) || is_upper(c)
}

pub fn lower_char(c: char) -> (r: bool)
    ensures
        r == is_lower(c),
{
    'a' <= c && c <= 'z'
}

pub fn upper_char(c: char) -> (r: bool)
    ensures
        r == is_upper(c),
{
    'A' <= c && c <= 'Z'
}

pub fn alpha_char(c: char) -> (r: bool)
    ensures
        r == is_alpha(c),
{
    lower_char(c) || upper_char(c)
}

/// A camelCase hump in `s` from `i` to `j`: a letter, a lowercase letter,
/// one or more uppercase letters, then a lowercase letter at `j`.
pub open spec fn hump(s: Seq<char>, i: int, j: int) -> bool {
    &&& 0 <= i
    &&& i + 2 < j < s.len()
    &&& is_alpha(s[i])
    &&& is_lower(s[i + 1])
    &&& forall|t: int| i + 2 <= t < j ==> is_upper(#[trigger] s[t])
    &&& is_lower(s[j])
}

/// `s` holds a run of the form letter, lowercase letters, then one or more
/// groups of uppercase letters followed by lowercase letters; such a run
/// exists exactly where a hump does.
pub open spec fn camel_shaped(s: Seq<char>) -> bool {
    exists|i: int, j: int| hump(s, i, j)
}

/// `s` holds a letter followed by an underscore and then by a letter or an underscore.
pub open spec fn snake_shaped(s: Seq<char>) -> bool {
    exists|i: int| snake_joint(s, i)
}

pub open spec fn snake_joint(s: Seq<char>, i: int) -> bool {
    &&& 0 <= i
    &&& i + 2 < s.len()
    &&& is_alpha(s[i])
    &&& s[i + 1] == '_'
    &&& (is_alpha(s[i + 2]) || s[i + 2] == '_')
}

/// A camelCase part starts at `k`: a letter followed by a character that is
/// not an uppercase letter.
pub open spec fn starts_part(s: Seq<char>, k: int) -> bool {
    0 <= k && k + 1 < s.len() && is_alpha(s[k]) && !is_upper(s[k + 1])
}

/// The first position at or after `j` that holds an uppercase letter, or the end.
pub open spec fn part_end(s: Seq<char>, j: int) -> int
    decreases s.len() - j,
{
    if j >= s.len() {
        s.len() as int
    } else if is_upper(s[j]) {
        j
    } else {
        part_end(s, j + 1)
    }
}

pub proof fn lemma_part_end(s: Seq<char>, j: int)
    ensures
        j <= s.len() ==> j <= part_end(s, j) <= s.len(),
        j > s.len() ==> part_end(s, j) == s.len(),
    decreases s.len() - j,
{
    if j < s.len() && !is_upper(s[j]) {
        lemma_part_end(s, j + 1);
    }
}

/// The camelCase parts of `s` found from position `i` on: each starts at the
/// next position where a part starts and runs up to the next uppercase letter.
pub open spec fn camel_parts_from(s: Seq<char>, i: int) -> Seq<Seq<char>>
    decreases s.len() - i,
    via camel_parts_decreases
{
    if i < 0 || i >= s.len() {
        Seq::empty()
    } else if starts_part(s, i) {
        let e = part_end(s, i + 2);
        seq![s.subrange(i, e)] + camel_parts_from(s, e)
    } else {
        camel_parts_from(s, i + 1)
    }
}

#[via_fn]
proof fn camel_parts_decreases(s: Seq<char>, i: int) {
    if 0 <= i < s.len() && starts_part(s, i) {
        lemma_part_end(s, i + 2);
    }
}

/// The camelCase parts of `s`.
pub open spec fn camel_parts(s: Seq<char>) -> Seq<Seq<char>> {
    camel_parts_from(s, 0)
}

/// The sub-words of a word: its camelCase parts, else its snake_case pieces,
/// else the word itself.
pub open spec fn sub_words(w: Seq<char>) -> Seq<Seq<char>> {
    if camel_shaped(w) {
        camel_parts(w)
    } else if snake_shaped(w) {
        split_at_char(w, '_')
    } else {
        seq![w]
    }
}

/// The entries of `parts` that `d` does not know, in order.
pub open spec fn unknown(d: Seq<Seq<char>>, parts: Seq<Seq<char>>) -> Seq<Seq<char>>
    decreases parts.len(),
{
    if parts.len() == 0 {
        Seq::empty()
    } else if known(d, parts[0]) {
        unknown(d, parts.drop_first())
    } else {
        seq![parts[0]] + unknown(d, parts.drop_first())
    }
}

/// The misspelled sub-words of `w` against the dictionary `d`.
pub open spec fn misspellings(d: Seq<Seq<char>>, w: Seq<char>) -> Seq<Seq<char>> {
    unknown(d, sub_words(w))
}

/// `part_end` from `j` is `m` when no uppercase letter stands in between.
pub proof fn lemma_part_end_at(s: Seq<char>, j: int, m: int)
    requires
        0 <= j <= m <= s.len(),
        forall|t: int| j <= t < m ==> !is_upper(#[trigger] s[t]),
        m == s.len() || is_upper(s[m]),
    ensures
        part_end(s, j) == m,
    decreases m - j,
{
    if j < m {
        lemma_part_end_at(s, j + 1, m);
    }
}

/// Whether `s` holds a camelCase hump (single pass over the characters).
pub fn has_hump(s: &Vec<char>) -> (r: bool)
    ensures
        r == camel_shaped(s@),
{
    let n = s.len();
    // start of the run of uppercase letters that ends just before `j`
    let mut run: usize = 0;
    let mut j: usize = 0;
    while j < n
        invariant
            n == s.len(),
            run <= j <= n,
            forall|t: int| run <= t < j ==> is_upper(#[trigger] s@[t]),
            run == 0 || !is_upper(s@[run - 1]),
            forall|i: int, k: int| k < j ==> !hump(s@, i, k),
        decreases n - j,
    {
        if lower_char(s[j]) && run < j && run >= 2 && lower_char(s[run - 1]) && alpha_char(
            s[run - 2],
        ) {
            assert(hump(s@, run - 2, j as int));
            return true;
        }
        assert forall|i: int| !hump(s@, i, j as int) by {
            if hump(s@, i, j as int) {
                assert(is_upper(s@[j - 1]));
                if run > i + 2 {
                    assert(is_upper(s@[run - 1]));
                } else if run < i + 2 {
                    assert(is_upper(s@[i + 1]));
                }
            }
        }
        if !upper_char(s[j]) {
            run = j + 1;
        }
        j = j + 1;
    }
    false
}

/// Whether `s` holds a snake_case joint.
pub fn has_joint(s: &Vec<char>) -> (r: bool)
    ensures
        r == snake_shaped(s@),
{
    let mut i: usize = 0;
    while i < s.len() && s.len() - i > 2
        invariant
            forall|k: int| 0 <= k < i ==> !snake_joint(s@, k),
        decreases s.len() - i,
    {
        if alpha_char(s[i]) && s[i + 1] == '_' && (alpha_char(s[i + 2]) || s[i + 2] == '_') {
            assert(snake_joint(s@, i as int));
            return true;
        }
        i = i + 1;
    }
    false
}

/// Whether `std::path::Path` holds a path relative (it has no root).
pub uninterp spec fn path_is_relative(p: Seq<char>) -> bool;

/// What `std::path::Path::strip_prefix` leaves of a path once the leading
/// components of `base` are taken off; none where `base` does not lead it.
pub uninterp spec fn path_without_prefix(p: Seq<char>, base: Seq<char>) -> Option<Seq<char>>;

/// Relies on `std::path::Path::is_relative`: whether the path has no root,
/// decided from the path's text alone.
#[verifier::external_body]
fn is_relative_path(p: &str) -> (r: bool)
    ensures
        r == path_is_relative(p@),
{
    std::path::Path::new(p).is_relative()
}

/// Relies on `std::path::Path::strip_prefix`: what is left of `p` below
/// `base`, as text, or an error where `base` does not lead `p`.
#[verifier::external_body]
fn strip_path_prefix(p: &str, base: &str) -> (r: Option<String>)
    ensures
        r matches Some(q) ==> path_without_prefix(p@, base@) == Some(q@),
        r is None ==> path_without_prefix(p@, base@) is None,
{
    std::path::Path::new(p).strip_prefix(base).ok().map(|q| q.to_string_lossy().to_string())
}

/// The path of `file` relative to the working directory `cwd`: a relative
/// path as it is, an absolute one without the `cwd` prefix.
pub open spec fn relative_path(file: Seq<char>, cwd: Seq<char>) -> Option<Seq<char>> {
    if path_is_relative(file) {
        Some(file)
    } else {
        path_without_prefix(file, cwd)
    }
}

/// The path of a file is not under the working directory.
#[derive(Clone, Copy, Debug, PartialEq, Eq)]
pub struct OutsideWorkingDir;

/// A word found in a file: its text, the file it came from and its 1-based line.
#[derive(Clone, Debug)]
pub struct Word {
    pub word: String,
    pub file: String,
    pub line_nr: u32,
}

impl Word {
    /// Whether the word holds a camelCase hump.
    pub fn is_camel_case(&self) -> (r: bool)
        ensures
            r == camel_shaped(self.word@),
    {
        has_hump(&chars_of(self.word.as_str()))
    }

    /// The path of the word's file relative to the working directory `cwd`;
    /// `None` where the file is not under it.
    pub fn relative_file_path(&self, cwd: &str) -> (r: Option<String>)
        ensures
            r matches Some(p) ==> relative_path(self.file@, cwd@) == Some(p@),
            r is None ==> relative_path(self.file@, cwd@) is None,
    {
        if is_relative_path(self.file.as_str()) {
            Some(self.file.clone())
        } else {
            strip_path_prefix(self.file.as_str(), cwd)
        }
    }

    /// The baseline line that accepts this word in its file, the path being
    /// relative to `cwd`; `None` where the file is not under `cwd`.
    pub fn generate_baseline_entry(&self, cwd: &str) -> (r: Option<String>)
        ensures
            r matches Some(l) ==> relative_path(self.file@, cwd@) matches Some(p) && l@
                == entry_line((p, self.word@)),
            r is None ==> relative_path(self.file@, cwd@) is None,
    {
        match self.relative_file_path(cwd) {
            Some(p) => Some(format_entry(p.as_str(), self.word.as_str())),
            None => None,
        }
    }

    /// Whether the word holds a snake_case joint.
    pub fn is_snake_case(&self) -> (r: bool)
        ensures
            r == snake_shaped(self.word@),
    {
        has_joint(&chars_of(self.word.as_str()))
    }

    /// Checks the word against the sorted dictionary: `Ok` when every
    /// sub-word is known, else the misspelled sub-words in order.
    pub fn is_correct_spelling(&self, dictionary: &Vec<String>) -> (r: Result<(), Vec<String>>)
        requires
            is_sorted(views(dictionary@)),
        ensures
            r is Ok <==> misspellings(views(dictionary@), self.word@).len() == 0,
            r matches Err(bad) ==> views(bad@) == misspellings(views(dictionary@), self.word@),
    {
        if self.is_camel_case() {
            return self.check_camel_case(dictionary);
        }
        if self.is_snake_case() {
            return self.check_snake_case(dictionary);
        }
        if self.is_dictionary_word(dictionary, &self.word) {
            assert(unknown(views(dictionary@), seq![self.word@]).len() == 0) by {
                assert(seq![self.word@].drop_first() =~= Seq::<Seq<char>>::empty());
                assert(unknown(views(dictionary@), Seq::<Seq<char>>::empty()).len() == 0);
            }
            Ok(())
        } else {
            let bad = vec![self.word.clone()];
            assert(unknown(views(dictionary@), seq![self.word@]) =~= seq![self.word@]) by {
                assert(seq![self.word@].drop_first() =~= Seq::<Seq<char>>::empty());
                assert(unknown(views(dictionary@), Seq::<Seq<char>>::empty()).len() == 0);
            }
            assert(views(bad@) =~= seq![self.word@]);
            Err(bad)
        }
    }

    fn is_dictionary_word(&self, dictionary: &Vec<String>, word: &String) -> (r: bool)
        requires
            is_sorted(views(dictionary@)),
        ensures
            r == known(views(dictionary@), word@),
    {
        is_known(dictionary, word.as_str())
    }

    fn check_camel_case(&self, dictionary: &Vec<String>) -> (r: Result<(), Vec<String>>)
        requires
            is_sorted(views(dictionary@)),
        ensures
            r is Ok <==> unknown(views(dictionary@), camel_parts(self.word@)).len() == 0,
            r matches Err(bad) ==> views(bad@) == unknown(
                views(dictionary@),
                camel_parts(self.word@),
            ),
    {
        let s = chars_of(self.word.as_str());
        let n = s.len();
        let ghost d = views(dictionary@);
        let mut idx: usize = 0;
        let mut misspelled_words: Vec<String> = Vec::new();
        while idx < n
            invariant
                n == s.len(),
                s@ == self.word@,
                d == views(dictionary@),
                is_sorted(d),
                idx <= n,
                views(misspelled_words@) + unknown(d, camel_parts_from(s@, idx as int)) == unknown(
                    d,
                    camel_parts(s@),
                ),
            decreases n - idx,
        {
            // find where the next part starts
            let mut k: usize = idx;
            while k + 1 < n && !(alpha_char(s[k]) && !upper_char(s[k + 1]))
                invariant
                    idx <= k < n,
                    n == s.len(),
                    camel_parts_from(s@, k as int) == camel_parts_from(s@, idx as int),
                decreases n - k,
            {
                k = k + 1;
            }
            if k + 1 >= n {
                assert(camel_parts_from(s@, k as int) == Seq::<Seq<char>>::empty()) by {
                    if k + 1 == n {
                        assert(!starts_part(s@, k as int));
                        assert(camel_parts_from(s@, k + 1) == Seq::<Seq<char>>::empty());
                    }
                }
                idx = n;
            } else {
                // the part runs up to the next uppercase letter
                let mut e: usize = k + 2;
                while e < n && !upper_char(s[e])
                    invariant
                        k + 2 <= e <= n,
                        n == s.len(),
                        part_end(s@, e as int) == part_end(s@, k + 2),
                    decreases n - e,
                {
                    e = e + 1;
                }
                let sub_word = string_of(&s, k, e);
                let ghost parts = camel_parts_from(s@, k as int);
                assert(parts == seq![sub_word@] + camel_parts_from(s@, e as int));
                assert(parts.drop_first() =~= camel_parts_from(s@, e as int));
                let ghost before = views(misspelled_words@);
                if !self.is_dictionary_word(dictionary, &sub_word) {
                    misspelled_words.push(sub_word);
                    assert(views(misspelled_words@) =~= before.push(parts[0]));
                    assert(before + unknown(d, parts) =~= views(misspelled_words@) + unknown(
                        d,
                        camel_parts_from(s@, e as int),
                    ));
                }
                idx = e;
            }
        }
        assert(camel_parts_from(s@, idx as int) =~= Seq::<Seq<char>>::empty());
        assert(unknown(d, Seq::<Seq<char>>::empty()) =~= Seq::<Seq<char>>::empty());
        assert(views(misspelled_words@) =~= views(misspelled_words@) + Seq::<Seq<char>>::empty());
        if misspelled_words.len() == 0 {
            Ok(())
        } else {
            Err(misspelled_words)
        }
    }

    fn check_snake_case(&self, dictionary: &Vec<String>) -> (r: Result<(), Vec<String>>)
        requires
            is_sorted(views(dictionary@)),
        ensures
            r is Ok <==> unknown(views(dictionary@), split_at_char(self.word@, '_')).len() == 0,
            r matches Err(bad) ==> views(bad@) == unknown(
                views(dictionary@),
                split_at_char(self.word@, '_'),
            ),
    {
        let s = chars_of(self.word.as_str());
        let pieces = split_char(&s, '_');
        let ghost d = views(dictionary@);
        let ghost all = views(pieces@);
        let mut misspelled_words: Vec<String> = Vec::new();
        let mut i: usize = 0;
        assert(all.skip(0) =~= all);
        while i < pieces.len()
            invariant
                i <= pieces.len(),
                all == views(pieces@),
                d == views(dictionary@),
                is_sorted(d),
                views(misspelled_words@) + unknown(d, all.skip(i as int)) == unknown(d, all),
            decreases pieces.len() - i,
        {
            assert(all.skip(i as int).drop_first() =~= all.skip(i + 1));
            assert(all.skip(i as int)[0] == pieces@[i as int]@);
            let ghost before = views(misspelled_words@);
            if !self.is_dictionary_word(dictionary, &pieces[i]) {
                misspelled_words.push(pieces[i].clone());
                assert(views(misspelled_words@) =~= before.push(pieces@[i as int]@));
                assert(before + unknown(d, all.skip(i as int)) =~= views(misspelled_words@)
                    + unknown(d, all.skip(i + 1)));
            }
            i = i + 1;
        }
        assert(unknown(d, all.skip(i as int)) =~= Seq::<Seq<char>>::empty()) by {
            assert(all.skip(i as int).len() == 0);
        }
        assert(views(misspelled_words@) =~= views(misspelled_words@) + Seq::<Seq<char>>::empty());
        if misspelled_words.len() == 0 {
            Ok(())
        } else {
            Err(misspelled_words)
        }
    }
}

/// A word of two or more lowercase ASCII letters.
pub open spec fn lowercase_word(a: Seq<char>) -> bool {
    a.len() >= 2 && forall|i: int| 0 <= i < a.len() ==> is_lower(#[trigger] a[i])
}

/// The uppercase form of a lowercase ASCII letter.
pub open spec fn upper_of(c: char) -> char {
    ((c as u32) - 32) as char
}

/// `b` with its first letter in upper case.
pub open spec fn capitalized(b: Seq<char>) -> Seq<char> {
    seq![upper_of(b[0])] + b.drop_first()
}

proof fn lemma_lower_known(d: Seq<Seq<char>>, a: Seq<char>)
    requires
        d.contains(a),
        forall|i: int| 0 <= i < a.len() ==> is_lower(#[trigger] a[i]),
    ensures
        known(d, a),
{
    assert(is_ascii_chars(a));
    assert(ascii_lower(a) =~= a);
}

/// A dictionary entry, written in any letter case, is accepted when it has
/// neither a camelCase hump nor a snake_case joint.
pub proof fn lemma_dictionary_word_accepted(d: Seq<Seq<char>>, entry: Seq<char>, t: Seq<char>)
    requires
        d.contains(entry),
        lowered(t) == entry,
        !camel_shaped(t),
        !snake_shaped(t),
    ensures
        misspellings(d, t) == Seq::<Seq<char>>::empty(),
{
    assert(seq![t].drop_first() =~= Seq::<Seq<char>>::empty());
    assert(unknown(d, Seq::<Seq<char>>::empty()) == Seq::<Seq<char>>::empty());
}

/// A word that the dictionary does not know, with neither a camelCase hump
/// nor a snake_case joint, is reported whole and alone.
pub proof fn lemma_unknown_word_reported(d: Seq<Seq<char>>, t: Seq<char>)
    requires
        !known(d, t),
        !camel_shaped(t),
        !snake_shaped(t),
    ensures
        misspellings(d, t) == seq![t],
{
    assert(seq![t].drop_first() =~= Seq::<Seq<char>>::empty());
    assert(unknown(d, Seq::<Seq<char>>::empty()) == Seq::<Seq<char>>::empty());
    assert(seq![t] + Seq::<Seq<char>>::empty() =~= seq![t]);
}

/// Two dictionary words joined in camelCase (the second capitalised) form a
/// camelCase word whose parts are the two words, and it is accepted.
pub proof fn lemma_camel_composition(d: Seq<Seq<char>>, a: Seq<char>, b: Seq<char>)
    requires
        d.contains(a),
        d.contains(b),
        lowercase_word(a),
        lowercase_word(b),
    ensures
        camel_shaped(a + capitalized(b)),
        sub_words(a + capitalized(b)) == seq![a, capitalized(b)],
        misspellings(d, a + capitalized(b)) == Seq::<Seq<char>>::empty(),
{
    let cb = capitalized(b);
    let w = a + cb;
    let n = a.len() as int;
    assert(is_upper(cb[0]));
    assert(w[n] == cb[0]);
    assert(w[n + 1] == b[1]);
    assert(hump(w, n - 2, n + 1));
    // the first part runs from the start up to the capital
    assert(starts_part(w, 0));
    assert forall|t: int| 2 <= t < n implies !is_upper(#[trigger] w[t]) by {
        assert(w[t] == a[t]);
    }
    lemma_part_end_at(w, 2, n);
    // the second part runs from the capital to the end
    assert(starts_part(w, n));
    assert forall|t: int| n + 2 <= t < w.len() implies !is_upper(#[trigger] w[t]) by {
        assert(w[t] == b[t - n]);
    }
    lemma_part_end_at(w, n + 2, w.len() as int);
    assert(w.subrange(0, n) =~= a);
    assert(w.subrange(n, w.len() as int) =~= cb);
    assert(camel_parts_from(w, w.len() as int) == Seq::<Seq<char>>::empty());
    assert(camel_parts_from(w, n) =~= seq![cb]);
    assert(camel_parts_from(w, 0) =~= seq![a, cb]);
    // both parts are known
    lemma_lower_known(d, a);
    assert(is_ascii_chars(cb));
    assert(ascii_lower(cb) =~= b) by {
        assert(ascii_lower_char(cb[0]) == b[0]);
    }
    assert(known(d, cb));
    assert(known(d, seq![a, cb][0]));
    assert(known(d, seq![cb][0]));
    assert(seq![a, cb].drop_first() =~= seq![cb]);
    assert(seq![cb].drop_first() =~= Seq::<Seq<char>>::empty());
    assert(unknown(d, Seq::<Seq<char>>::empty()) == Seq::<Seq<char>>::empty());
    assert(unknown(d, seq![cb]) == Seq::<Seq<char>>::empty());
    assert(unknown(d, seq![a, cb]) == Seq::<Seq<char>>::empty());
}

/// Two dictionary words joined by an underscore form a snake_case word whose
/// pieces are the two words, and it is accepted.
pub proof fn lemma_snake_composition(d: Seq<Seq<char>>, a: Seq<char>, b: Seq<char>)
    requires
        d.contains(a),
        d.contains(b),
        a.len() >= 1,
        b.len() >= 1,
        forall|i: int| 0 <= i < a.len() ==> is_lower(#[trigger] a[i]),
        forall|i: int| 0 <= i < b.len() ==> is_lower(#[trigger] b[i]),
    ensures
        !camel_shaped(a.push('_') + b),
        snake_shaped(a.push('_') + b),
        sub_words(a.push('_') + b) == seq![a, b],
        misspellings(d, a.push('_') + b) == Seq::<Seq<char>>::empty(),
{
    let w = a.push('_') + b;
    let n = a.len() as int;
    assert forall|t: int| 0 <= t < w.len() implies !is_upper(#[trigger] w[t]) by {
        if t < n {
            assert(w[t] == a[t]);
        } else if t > n {
            assert(w[t] == b[t - n - 1]);
        }
    }
    assert forall|i: int, j: int| !hump(w, i, j) by {
        if hump(w, i, j) {
            assert(is_upper(w[i + 2]));
        }
    }
    assert(w[n - 1] == a[n - 1]);
    assert(w[n + 1] == b[0]);
    assert(snake_joint(w, n - 1));
    assert forall|i: int| 0 <= i < a.len() implies #[trigger] a[i] != '_' by {
        assert(is_lower(a[i]));
    }
    assert forall|i: int| 0 <= i < b.len() implies #[trigger] b[i] != '_' by {
        assert(is_lower(b[i]));
    }
    lemma_split_pair(a, '_', b);
    lemma_lower_known(d, a);
    lemma_lower_known(d, b);
    assert(known(d, seq![a, b][0]));
    assert(known(d, seq![b][0]));
    assert(seq![a, b].drop_first() =~= seq![b]);
    assert(seq![b].drop_first() =~= Seq::<Seq<char>>::empty());
    assert(unknown(d, Seq::<Seq<char>>::empty()) == Seq::<Seq<char>>::empty());
    assert(unknown(d, seq![b]) == Seq::<Seq<char>>::empty());
    assert(unknown(d, seq![a, b]) == Seq::<Seq<char>>::empty());
}

} // verus!
