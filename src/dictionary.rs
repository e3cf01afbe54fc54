//! The dictionary: lower-cased known words kept in the byte order of
//! strings, and the lookup of a word in it.
use vstd::prelude::*;
use vstd::utf8::*;
use crate::text::{lines_of, split_lines, views};

verus! {

broadcast use vstd::string::group_string_axioms;

/// `a` comes strictly before `b` when their bytes are compared lexicographically.
pub open spec fn bytes_lt(a: Seq<u8>, b: Seq<u8>) -> bool
    decreases a.len(),
{
    if b.len() == 0 {
        false
    } else if a.len() == 0 {
        true
    } else if a[0] != b[0] {
        a[0] < b[0]
    } else {
        bytes_lt(a.drop_first(), b.drop_first())
    }
}

/// The order of strings: lexicographic over their UTF-8 bytes.
pub open spec fn word_lt(a: Seq<char>, b: Seq<char>) -> bool {
    bytes_lt(encode_utf8(a), encode_utf8(b))
}

/// No entry is ordered before an entry that precedes it.
pub open spec fn is_sorted(d: Seq<Seq<char>>) -> bool {
    forall|i: int, j: int| 0 <= i < j < d.len() ==> !word_lt(#[trigger] d[j], #[trigger] d[i])
}

/// What the lower-casing of a string gives (Unicode lower case).
pub uninterp spec fn lower_of(s: Seq<char>) -> Seq<char>;

/// The lower case of a string: letter by letter for ASCII text.
pub open spec fn lowered(s: Seq<char>) -> Seq<char> {
    if is_ascii_chars(s) {
        ascii_lower(s)
    } else {
        lower_of(s)
    }
}

/// The ASCII lower case of one character: `A` to `Z` onto `a` to `z`, the rest unchanged.
pub open spec fn ascii_lower_char(c: char) -> char {
    if 'A' <= c && c <= 'Z' {
        ((c as u32) + 32) as char
    } else {
        c
    }
}

/// The ASCII lower case of a character sequence.
pub open spec fn ascii_lower(s: Seq<char>) -> Seq<char> {
    s.map_values(|c: char| ascii_lower_char(c))
}

/// Relies on `str::to_lowercase`: the result depends on the characters
/// alone, and a string of ASCII characters is lowered character by character.
#[verifier::external_body]
pub(crate) fn to_lower(s: &str) -> (r: String)
    ensures
        !is_ascii_chars(s@) ==> r@ == lower_of(s@),
        is_ascii_chars(s@) ==> r@ == ascii_lower(s@),
{
    s.to_lowercase()
}

/// Relies on `slice::sort` for `String`: the entries are permuted into
/// ascending order, strings being ordered by their bytes.
#[verifier::external_body]
fn sort_words(v: &mut Vec<String>)
    ensures
        views(final(v)@).to_multiset() == views(old(v)@).to_multiset(),
        is_sorted(views(final(v)@)),
{
    v.sort();
}

/// Compares two byte strings lexicographically: negative, zero or positive
/// as `a` is before, equal to or after `b`.
pub fn compare_bytes(a: &[u8], b: &[u8]) -> (r: i8)
    ensures
        r < 0 <==> bytes_lt(a@, b@),
        r > 0 <==> bytes_lt(b@, a@),
        r == 0 <==> a@ == b@,
{
    let mut i: usize = 0;
    assert(a@.skip(0) =~= a@ && b@.skip(0) =~= b@);
    while i < a.len() && i < b.len() && a[i] == b[i]
        invariant
            i <= a.len(),
            i <= b.len(),
            a@.take(i as int) == b@.take(i as int),
            bytes_lt(a@, b@) == bytes_lt(a@.skip(i as int), b@.skip(i as int)),
            bytes_lt(b@, a@) == bytes_lt(b@.skip(i as int), a@.skip(i as int)),
        decreases a.len() - i,
    {
        assert(a@.skip(i as int).drop_first() =~= a@.skip(i + 1));
        assert(b@.skip(i as int).drop_first() =~= b@.skip(i + 1));
        assert(a@.take(i + 1) =~= a@.take(i as int).push(a@[i as int]));
        assert(b@.take(i + 1) =~= b@.take(i as int).push(b@[i as int]));
        i = i + 1;
    }
    if i < a.len() && i < b.len() {
        assert(a@ != b@ && a@.skip(i as int)[0] == a@[i as int] && b@.skip(i as int)[0] == b@[i as int]);
        if a[i] < b[i] {
            -1
        } else {
            1
        }
    } else if i < a.len() {
        assert(a@ != b@);
        1
    } else if i < b.len() {
        assert(a@ != b@);
        -1
    } else {
        assert(a@ =~= a@.take(i as int));
        assert(b@ =~= b@.take(i as int));
        0
    }
}

/// Whether two strings hold the same characters.
pub fn same_text(a: &str, b: &str) -> (r: bool)
    ensures
        r == (a@ == b@),
{
    let c = compare_bytes(a.as_bytes(), b.as_bytes());
    proof {
        encode_utf8_decode_utf8(a@);
        encode_utf8_decode_utf8(b@);
    }
    c == 0
}

/// Whether `key` is an entry of the sorted dictionary `d` (binary search).
pub fn contains_word(d: &Vec<String>, key: &str) -> (r: bool)
    requires
        is_sorted(views(d@)),
    ensures
        r == views(d@).contains(key@),
{
    let key_bytes = key.as_bytes();
    let mut lo: usize = 0;
    let mut hi: usize = d.len();
    while lo < hi
        invariant
            hi <= d.len(),
            is_sorted(views(d@)),
            key_bytes@ == encode_utf8(key@),
            forall|i: int| 0 <= i < lo ==> d@[i]@ != key@,
            forall|i: int| hi <= i < d.len() ==> d@[i]@ != key@,
        decreases hi - lo,
    {
        let mid = lo + (hi - lo) / 2;
        let c = compare_bytes(d[mid].as_str().as_bytes(), key_bytes);
        assert(views(d@)[mid as int] == d@[mid as int]@);
        if c == 0 {
            proof {
                encode_utf8_decode_utf8(d@[mid as int]@);
                encode_utf8_decode_utf8(key@);
                assert(views(d@)[mid as int] == key@);
            }
            return true;
        } else if c < 0 {
            assert forall|i: int| 0 <= i <= mid implies d@[i]@ != key@ by {
                assert(views(d@)[i] == d@[i]@);
                if i < mid {
                    assert(!word_lt(views(d@)[mid as int], views(d@)[i]));
                }
            }
            lo = mid + 1;
        } else {
            assert forall|i: int| mid <= i < d.len() implies d@[i]@ != key@ by {
                assert(views(d@)[i] == d@[i]@);
                if i > mid {
                    assert(!word_lt(views(d@)[i], views(d@)[mid as int]));
                }
            }
            hi = mid;
        }
    }
    assert forall|i: int| 0 <= i < views(d@).len() implies views(d@)[i] != key@ by {
        assert(views(d@)[i] == d@[i]@);
    }
    false
}

/// `w` is known: its lower case is an entry of `d`.
pub open spec fn known(d: Seq<Seq<char>>, w: Seq<char>) -> bool {
    d.contains(lowered(w))
}

/// Whether the lower case of `w` is an entry of the sorted dictionary `d`.
pub fn is_known(d: &Vec<String>, w: &str) -> (r: bool)
    requires
        is_sorted(views(d@)),
    ensures
        r == known(views(d@), w@),
{
    let lower = to_lower(w);
    contains_word(d, lower.as_str())
}

/// The entries that a word list adds: its lines, lower-cased.
pub open spec fn word_list_entries(contents: Seq<char>) -> Seq<Seq<char>> {
    lines_of(contents).map_values(|l: Seq<char>| lowered(l))
}

/// Adds the words of a word list (one per line) to the dictionary, lower-cased,
/// and sorts the whole.
pub fn add_word_list(dictionary: &mut Vec<String>, contents: &str)
    ensures
        views(final(dictionary)@).to_multiset() == (views(old(dictionary)@) + word_list_entries(
            contents@,
        )).to_multiset(),
        is_sorted(views(final(dictionary)@)),
{
    let lines = split_lines(contents);
    let ghost ls = views(lines@);
    let ghost start = views(dictionary@);
    let mut i: usize = 0;
    assert(start + ls.take(0).map_values(|l: Seq<char>| lowered(l)) =~= start);
    while i < lines.len()
        invariant
            i <= lines.len(),
            ls == views(lines@),
            ls == lines_of(contents@),
            views(dictionary@) == start + ls.take(i as int).map_values(|l: Seq<char>| lowered(l)),
        decreases lines.len() - i,
    {
        let w = to_lower(lines[i].as_str());
        let ghost before = dictionary@;
        dictionary.push(w);
        assert(ls[i as int] == lines@[i as int]@);
        assert(ls.take(i + 1) =~= ls.take(i as int).push(ls[i as int]));
        assert(views(dictionary@) =~= views(before).push(w@));
        assert(views(dictionary@) =~= start + ls.take(i + 1).map_values(
            |l: Seq<char>| lowered(l),
        ));
        i = i + 1;
    }
    assert(ls.take(i as int) =~= ls);
    sort_words(dictionary);
}

} // verus!
