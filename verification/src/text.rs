use vstd::prelude::*;
use vstd::std_specs::iter::IteratorSpec;
use vstd::string::StrSliceExecFns;
use vstd::utf8::encode_utf8;

verus! {

/// The length of a word in bytes, as UTF-8.
pub open spec fn byte_len(w: Seq<char>) -> nat {
    encode_utf8(w).len()
}

/// The length of a word in bytes.
pub fn byte_length(word: &str) -> (n: usize)
    ensures
        n == byte_len(word@),
{
    word.as_bytes().len()
}

/// The number of double quotes in a text.
pub open spec fn quote_count(s: Seq<char>) -> nat {
    s.filter(|c: char| c == '"').len()
}

/// Counts the double quotes in a text.
pub fn count_quotes(text: &str) -> (n: usize)
    ensures
        n == quote_count(text@),
{
    broadcast use vstd::string::group_string_axioms;

    let ghost is_quote = |c: char| c == '"';
    let ghost all = text@;
    let total = text.unicode_len();
    let mut chars = text.chars();
    let mut n: usize = 0;
    let ghost mut seen: int = 0;
    assert(all.take(0) =~= Seq::<char>::empty());
    assert(all.skip(0) =~= all);
    loop
        invariant
            0 <= seen <= all.len(),
            all == text@,
            total == all.len(),
            chars.remaining() == all.skip(seen),
            n == all.take(seen).filter(is_quote).len(),
            n <= seen,
            is_quote == (|c: char| c == '"'),
        decreases all.len() - seen,
    {
        let ghost before = chars;
        match chars.next() {
            Some(c) => {
                proof {
                    assert(c == all[seen]);
                    reveal(Seq::filter);
                    assert(all.take(seen + 1).drop_last() =~= all.take(seen));
                    assert(all.take(seen + 1).last() == c);
                    assert(all.skip(seen).drop_first() =~= all.skip(seen + 1));
                    seen = seen + 1;
                }
                if c == '"' {
                    n = n + 1;
                }
            },
            None => {
                proof {
                    assert(all.take(seen) =~= all);
                }
                return n;
            },
        }
    }
}

/// The words of a list of strings.
pub open spec fn word_list(v: Seq<String>) -> Seq<Seq<char>> {
    Seq::new(v.len(), |i: int| v[i]@)
}

/// The word lists of a list of lists of strings.
pub open spec fn word_lists(v: Seq<Vec<String>>) -> Seq<Seq<Seq<char>>> {
    Seq::new(v.len(), |i: int| word_list(v[i]@))
}

/// Whether `list` holds `word`.
pub fn contains_word(list: &Vec<String>, word: &String) -> (r: bool)
    ensures
        r == word_list(list@).contains(word@),
{
    let mut i: usize = 0;
    while i < list.len()
        invariant
            i <= list.len(),
            forall|j: int| 0 <= j < i ==> word_list(list@)[j] != word@,
        decreases list.len() - i,
    {
        if list[i] == *word {
            assert(word_list(list@)[i as int] == word@);
            return true;
        }
        i += 1;
    }
    false
}

/// Whether two lists hold the same words in the same order.
pub fn same_word_list(a: &Vec<String>, b: &Vec<String>) -> (r: bool)
    ensures
        r == (word_list(a@) == word_list(b@)),
{
    if a.len() != b.len() {
        assert(word_list(a@).len() != word_list(b@).len());
        return false;
    }
    let mut i: usize = 0;
    while i < a.len()
        invariant
            i <= a.len(),
            a.len() == b.len(),
            forall|j: int| 0 <= j < i ==> word_list(a@)[j] == word_list(b@)[j],
        decreases a.len() - i,
    {
        if a[i] != b[i] {
            assert(word_list(a@)[i as int] != word_list(b@)[i as int]);
            return false;
        }
        i += 1;
    }
    assert(word_list(a@) =~= word_list(b@));
    true
}

/// A copy of a list of words.
pub fn clone_word_list(v: &Vec<String>) -> (r: Vec<String>)
    ensures
        word_list(r@) == word_list(v@),
{
    let mut out: Vec<String> = Vec::new();
    let mut i: usize = 0;
    while i < v.len()
        invariant
            i <= v.len(),
            out.len() == i,
            forall|j: int| 0 <= j < i ==> out@[j]@ == v@[j]@,
        decreases v.len() - i,
    {
        out.push(v[i].clone());
        i += 1;
    }
    assert(word_list(out@) =~= word_list(v@));
    out
}

/// Whether a text holds the character `needle`.
pub fn contains_char(text: &str, needle: char) -> (r: bool)
    ensures
        r == text@.contains(needle),
{
    broadcast use vstd::string::group_string_axioms;

    let ghost all = text@;
    let mut chars = text.chars();
    let ghost mut seen: int = 0;
    assert(all.skip(0) =~= all);
    loop
        invariant
            0 <= seen <= all.len(),
            all == text@,
            chars.remaining() == all.skip(seen),
            forall|j: int| 0 <= j < seen ==> all[j] != needle,
        decreases all.len() - seen,
    {
        match chars.next() {
            Some(c) => {
                proof {
                    assert(c == all[seen]);
                    assert(all.skip(seen).drop_first() =~= all.skip(seen + 1));
                }
                if c == needle {
                    return true;
                }
                proof {
                    seen = seen + 1;
                }
            },
            None => {
                return false;
            },
        }
    }
}

/// A copy of a list of word lists.
pub fn clone_word_lists(v: &Vec<Vec<String>>) -> (r: Vec<Vec<String>>)
    ensures
        word_lists(r@) == word_lists(v@),
{
    let mut out: Vec<Vec<String>> = Vec::new();
    let mut i: usize = 0;
    while i < v.len()
        invariant
            i <= v.len(),
            out.len() == i,
            forall|j: int| 0 <= j < i ==> word_list(out@[j]@) == word_list(v@[j]@),
        decreases v.len() - i,
    {
        out.push(clone_word_list(&v[i]));
        i += 1;
    }
    assert(word_lists(out@) =~= word_lists(v@));
    out
}

} // verus!
