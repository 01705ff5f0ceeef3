use crate::text::{contains_char, word_list};
use vstd::prelude::*;

verus! {

/// How far a text is from a query, as an automaton built for two typos
/// at most tells it.
#[derive(Clone, Copy, Debug, PartialEq, Eq, Structural)]
pub enum Distance {
    /// The distance, where it is no more than two.
    Exact(u8),
    /// A lower bound of the distance, where it is more than two.
    AtLeast(u8),
}

/// The distance that the Levenshtein automaton of `query`, built for two
/// typos at most and with a swap of two neighbours counted as one, gives
/// to `text`.
pub uninterp spec fn automaton_distance(query: Seq<char>, text: Seq<char>) -> Distance;

/// Runs `text` through the automaton of `query`:
/// `LevenshteinAutomatonBuilder::new(2, true)`, then `build_dfa` on the
/// query and `DFA::eval` on the text, of the crate levenshtein_automata.
/// The contract gives the result its name and claims nothing else of it.
#[verifier::external_body]
pub(crate) fn eval_distance(query: &str, text: &str) -> (r: Distance)
    ensures
        r == automaton_distance(query@, text@),
{
    let builder = levenshtein_automata::LevenshteinAutomatonBuilder::new(2, true);
    match builder.build_dfa(query).eval(text) {
        levenshtein_automata::Distance::Exact(d) => Distance::Exact(d),
        levenshtein_automata::Distance::AtLeast(d) => Distance::AtLeast(d),
    }
}

/// Whether a distance is that of a misspelling: the automaton found the
/// text within its reach, and not equal to the query.
pub open spec fn is_misspelling(distance: Distance) -> bool {
    distance matches Distance::Exact(d) && d != 0
}

/// Whether a distance is that of a misspelling.
pub fn is_mistake(distance: Distance) -> (r: bool)
    ensures
        r == is_misspelling(distance),
{
    match distance {
        Distance::Exact(0) => false,
        Distance::Exact(_) => true,
        Distance::AtLeast(_) => false,
    }
}

/// The fields and counts of a list of entries.
pub open spec fn entries(v: Seq<(String, u64)>) -> Seq<(Seq<char>, u64)> {
    Seq::new(v.len(), |i: int| (v[i].0@, v[i].1))
}

/// No field stands twice in the list.
pub open spec fn distinct_fields(e: Seq<(Seq<char>, u64)>) -> bool {
    forall|i: int, j: int| 0 <= i < j < e.len() ==> (#[trigger] e[i]).0 != (#[trigger] e[j]).0
}

/// The name of the field that holds the vectors of a document.
pub open spec fn vectors_field() -> Seq<char> {
    "_vectors"@
}

/// Whether a field of the index looks like a misspelling of the field
/// that holds the vectors: some document has it, it is no nested field,
/// and its name is one or two typos away.
pub open spec fn vector_mistake(entry: (Seq<char>, u64)) -> bool {
    &&& entry.1 != 0
    &&& !entry.0.contains('.')
    &&& is_misspelling(automaton_distance(vectors_field(), entry.0))
}

/// The entries that look like misspellings of the vectors field, in
/// their order.
pub open spec fn vector_mistakes_of(e: Seq<(Seq<char>, u64)>) -> Seq<(Seq<char>, u64)> {
    e.filter(|entry: (Seq<char>, u64)| vector_mistake(entry))
}

/// Whether the name of an unused vector looks like a misspelling of the
/// name of an embedder.
pub open spec fn embedder_mistake(embedder_name: Seq<char>, entry: (Seq<char>, u64)) -> bool {
    is_misspelling(automaton_distance(embedder_name, entry.0))
}

/// The entries that look like misspellings of the name of an embedder,
/// in their order.
pub open spec fn embedder_mistakes_of(embedder_name: Seq<char>, e: Seq<(Seq<char>, u64)>) -> Seq<
    (Seq<char>, u64),
> {
    e.filter(|entry: (Seq<char>, u64)| embedder_mistake(embedder_name, entry))
}

/// What is kept of a list without a field twice has no field twice.
proof fn lemma_filter_distinct(
    e: Seq<(Seq<char>, u64)>,
    pred: spec_fn((Seq<char>, u64)) -> bool,
)
    requires
        distinct_fields(e),
    ensures
        distinct_fields(e.filter(pred)),
        forall|j: int|
            0 <= j < e.filter(pred).len() ==> exists|m: int|
                0 <= m < e.len() && e[m] == #[trigger] e.filter(pred)[j],
    decreases e.len(),
{
    reveal(Seq::filter);
    if e.len() > 0 {
        let rest = e.drop_last();
        assert(distinct_fields(rest)) by {
            assert forall|i: int, j: int| 0 <= i < j < rest.len() implies (#[trigger] rest[i]).0 != (
            #[trigger] rest[j]).0 by {
                assert(rest[i] == e[i] && rest[j] == e[j]);
            }
        }
        lemma_filter_distinct(rest, pred);
        let kept = rest.filter(pred);
        assert forall|j: int| 0 <= j < e.filter(pred).len() implies exists|m: int|
            0 <= m < e.len() && e[m] == #[trigger] e.filter(pred)[j] by {
            if j < kept.len() {
                let m = choose|m: int| 0 <= m < rest.len() && rest[m] == kept[j];
                assert(e[m] == e.filter(pred)[j]);
            } else {
                assert(e[e.len() - 1] == e.filter(pred)[j]);
            }
        }
        if pred(e.last()) {
            assert forall|i: int, j: int| 0 <= i < j < e.filter(pred).len() implies (
            #[trigger] e.filter(pred)[i]).0 != (#[trigger] e.filter(pred)[j]).0 by {
                if j == kept.len() {
                    let m = choose|m: int| 0 <= m < rest.len() && rest[m] == kept[i];
                    assert(e[m] == kept[i]);
                    assert(e[m].0 != e[e.len() - 1].0);
                } else {
                    assert(kept[i].0 != kept[j].0);
                }
            }
        }
    }
}

/// The fields of an index that look like misspellings of the field that
/// holds the vectors, each with the number of documents that have it.
#[derive(Debug)]
pub struct PossibleEmbeddingMistakes {
    pub vectors_mistakes: Vec<(String, u64)>,
}

impl View for PossibleEmbeddingMistakes {
    type V = Seq<(Seq<char>, u64)>;

    open spec fn view(&self) -> Seq<(Seq<char>, u64)> {
        entries(self.vectors_mistakes@)
    }
}

/// The names of the vectors that no embedder of the index uses, each
/// with the number of documents that hold it.
#[derive(Debug)]
pub struct UnusedVectorsDistribution(pub Vec<(String, u64)>);

impl View for UnusedVectorsDistribution {
    type V = Seq<(Seq<char>, u64)>;

    open spec fn view(&self) -> Seq<(Seq<char>, u64)> {
        entries(self.0@)
    }
}

impl PossibleEmbeddingMistakes {
    /// No field stands twice.
    pub open spec fn wf(&self) -> bool {
        distinct_fields(self@)
    }

    /// Picks, from the fields of an index and the number of documents
    /// that have each, those that look like misspellings of `_vectors`.
    pub fn new(field_distribution: &Vec<(String, u64)>) -> (r: Self)
        requires
            distinct_fields(entries(field_distribution@)),
        ensures
            r@ == vector_mistakes_of(entries(field_distribution@)),
            r.wf(),
    {
        let ghost all = entries(field_distribution@);
        let mut vectors_mistakes: Vec<(String, u64)> = Vec::new();
        let mut i: usize = 0;
        proof {
            reveal(Seq::filter);
            assert(all.take(0) =~= Seq::<(Seq<char>, u64)>::empty());
            assert(entries(vectors_mistakes@) =~= vector_mistakes_of(all.take(0)));
        }
        while i < field_distribution.len()
            invariant
                i <= field_distribution.len(),
                all == entries(field_distribution@),
                entries(vectors_mistakes@) == vector_mistakes_of(all.take(i as int)),
            decreases field_distribution.len() - i,
        {
            let field = &field_distribution[i].0;
            let count = field_distribution[i].1;
            proof {
                reveal(Seq::filter);
                assert(all.take(i + 1).drop_last() =~= all.take(i as int));
                assert(all.take(i + 1).last() == (field@, count));
            }
            let ghost before = entries(vectors_mistakes@);
            if count != 0 && !contains_char(field.as_str(), '.') && is_mistake(
                eval_distance("_vectors", field.as_str()),
            ) {
                vectors_mistakes.push((field.clone(), count));
                assert(entries(vectors_mistakes@) =~= before.push((field@, count)));
            }
            i += 1;
        }
        proof {
            assert(all.take(i as int) =~= all);
            lemma_filter_distinct(all, |entry: (Seq<char>, u64)| vector_mistake(entry));
        }
        PossibleEmbeddingMistakes { vectors_mistakes }
    }

    /// The misspellings of the vectors field, each with its count.
    pub fn vector_mistakes(&self) -> (r: Vec<(&str, u64)>)
        ensures
            r@.len() == self@.len(),
            forall|i: int| 0 <= i < r@.len() ==> (#[trigger] r@[i]).0@ == self@[i].0 && r@[i].1 == self@[i].1,
    {
        let mut out: Vec<(&str, u64)> = Vec::new();
        let mut i: usize = 0;
        while i < self.vectors_mistakes.len()
            invariant
                i <= self.vectors_mistakes.len(),
                out@.len() == i,
                forall|j: int|
                    0 <= j < i ==> (#[trigger] out@[j]).0@ == self@[j].0 && out@[j].1 == self@[j].1,
            decreases self.vectors_mistakes.len() - i,
        {
            out.push((self.vectors_mistakes[i].0.as_str(), self.vectors_mistakes[i].1));
            i += 1;
        }
        out
    }

    /// The names of unused vectors that look like misspellings of the
    /// name of an embedder, each with its count.
    pub fn embedder_mistakes<'a>(
        &'a self,
        embedder_name: &'a str,
        unused_vectors_distributions: &'a UnusedVectorsDistribution,
    ) -> (r: Vec<(&'a str, u64)>)
        ensures
            Seq::new(r@.len(), |i: int| (r@[i].0@, r@[i].1)) == embedder_mistakes_of(
                embedder_name@,
                unused_vectors_distributions@,
            ),
    {
        let ghost all = unused_vectors_distributions@;
        let mut out: Vec<(&'a str, u64)> = Vec::new();
        let mut i: usize = 0;
        proof {
            reveal(Seq::filter);
            assert(all.take(0) =~= Seq::<(Seq<char>, u64)>::empty());
            assert(Seq::new(out@.len(), |i: int| (out@[i].0@, out@[i].1)) =~= embedder_mistakes_of(
                embedder_name@,
                all.take(0),
            ));
        }
        while i < unused_vectors_distributions.0.len()
            invariant
                i <= unused_vectors_distributions.0.len(),
                all == unused_vectors_distributions@,
                Seq::new(out@.len(), |i: int| (out@[i].0@, out@[i].1)) == embedder_mistakes_of(
                    embedder_name@,
                    all.take(i as int),
                ),
            decreases unused_vectors_distributions.0.len() - i,
        {
            let field = unused_vectors_distributions.0[i].0.as_str();
            let count = unused_vectors_distributions.0[i].1;
            proof {
                reveal(Seq::filter);
                assert(all.take(i + 1).drop_last() =~= all.take(i as int));
                assert(all.take(i + 1).last() == (field@, count));
            }
            let ghost before = Seq::new(out@.len(), |i: int| (out@[i].0@, out@[i].1));
            if is_mistake(eval_distance(embedder_name, field)) {
                out.push((field, count));
                assert(Seq::new(out@.len(), |i: int| (out@[i].0@, out@[i].1)) =~= before.push(
                    (field@, count),
                ));
            }
            i += 1;
        }
        proof {
            assert(all.take(i as int) =~= all);
        }
        out
    }
}

/// Whether a field stands in the list.
pub open spec fn has_field(e: Seq<(Seq<char>, u64)>, name: Seq<char>) -> bool {
    exists|i: int| 0 <= i < e.len() && (#[trigger] e[i]).0 == name
}

/// Where a field stands in the list.
pub open spec fn field_index(e: Seq<(Seq<char>, u64)>, name: Seq<char>) -> int {
    choose|i: int| 0 <= i < e.len() && (#[trigger] e[i]).0 == name
}

/// The list after `name` was counted once more: its count is one higher,
/// or it is new at the end with a count of one.
pub open spec fn counted(e: Seq<(Seq<char>, u64)>, name: Seq<char>) -> Seq<(Seq<char>, u64)> {
    if has_field(e, name) {
        let i = field_index(e, name);
        e.update(i, (name, (e[i].1 + 1) as u64))
    } else {
        e.push((name, 1))
    }
}

/// The list after each of `names` was counted, first to last.
pub open spec fn appended(e: Seq<(Seq<char>, u64)>, names: Seq<Seq<char>>) -> Seq<
    (Seq<char>, u64),
>
    decreases names.len(),
{
    if names.len() == 0 {
        e
    } else {
        counted(appended(e, names.drop_last()), names.last())
    }
}

/// The count of a field, 0 where it does not stand in the list.
pub open spec fn count_of(e: Seq<(Seq<char>, u64)>, name: Seq<char>) -> int {
    if has_field(e, name) {
        e[field_index(e, name)].1 as int
    } else {
        0
    }
}

/// How often `name` stands in `names`.
pub open spec fn occurrences(names: Seq<Seq<char>>, name: Seq<char>) -> int
    decreases names.len(),
{
    if names.len() == 0 {
        0
    } else {
        occurrences(names.drop_last(), name) + if names.last() == name {
            1int
        } else {
            0int
        }
    }
}

/// Every count leaves room for `room` more.
pub open spec fn counts_leave_room(e: Seq<(Seq<char>, u64)>, room: int) -> bool {
    forall|i: int| 0 <= i < e.len() ==> (#[trigger] e[i]).1 + room <= u64::MAX
}

/// Counting a name once more adds one to its count, leaves the other
/// counts, and keeps the fields distinct.
proof fn lemma_counted(e: Seq<(Seq<char>, u64)>, name: Seq<char>, room: int)
    requires
        distinct_fields(e),
        counts_leave_room(e, room),
        1 <= room <= u64::MAX,
    ensures
        distinct_fields(counted(e, name)),
        counts_leave_room(counted(e, name), room - 1),
        forall|other: Seq<char>|
            count_of(counted(e, name), other) == #[trigger] count_of(e, other) + if other == name {
                1int
            } else {
                0int
            },
{
    let after = counted(e, name);
    if has_field(e, name) {
        let i = field_index(e, name);
        assert forall|other: Seq<char>|
            count_of(after, other) == #[trigger] count_of(e, other) + if other == name {
                1int
            } else {
                0int
            } by {
            if has_field(e, other) {
                let j = field_index(e, other);
                assert(after[j].0 == other);
                assert(has_field(after, other));
                let k = field_index(after, other);
                assert(e[k].0 == other || k == i);
                assert(k == j);
            } else {
                if has_field(after, other) {
                    let k = field_index(after, other);
                    assert(e[k].0 == other || k == i);
                }
            }
        }
    } else {
        assert forall|other: Seq<char>|
            count_of(after, other) == #[trigger] count_of(e, other) + if other == name {
                1int
            } else {
                0int
            } by {
            if has_field(e, other) {
                let j = field_index(e, other);
                assert(after[j].0 == other);
                let k = field_index(after, other);
                assert(k == j);
            } else if other == name {
                assert(after[e.len() as int].0 == name);
                let k = field_index(after, name);
                assert(k == e.len());
            } else {
                if has_field(after, other) {
                    let k = field_index(after, other);
                    assert(k < e.len());
                    assert(e[k].0 == other);
                }
            }
        }
    }
}

/// After a list of names was counted, the count of each name is higher
/// by the number of times it stands in the list.
proof fn lemma_appended_counts(e: Seq<(Seq<char>, u64)>, names: Seq<Seq<char>>)
    requires
        distinct_fields(e),
        counts_leave_room(e, names.len() as int),
        names.len() <= u64::MAX,
    ensures
        distinct_fields(appended(e, names)),
        counts_leave_room(appended(e, names), 0),
        forall|name: Seq<char>|
            count_of(appended(e, names), name) == #[trigger] count_of(e, name) + occurrences(
                names,
                name,
            ),
{
    lemma_appended_part(e, names, names.len() as int);
    assert(names.take(names.len() as int) =~= names);
}

/// The same of the first `k` names.
proof fn lemma_appended_part(e: Seq<(Seq<char>, u64)>, names: Seq<Seq<char>>, k: int)
    requires
        distinct_fields(e),
        counts_leave_room(e, names.len() as int),
        names.len() <= u64::MAX,
        0 <= k <= names.len(),
    ensures
        distinct_fields(appended(e, names.take(k))),
        counts_leave_room(appended(e, names.take(k)), names.len() - k),
        forall|name: Seq<char>|
            count_of(appended(e, names.take(k)), name) == #[trigger] count_of(e, name)
                + occurrences(names.take(k), name),
    decreases k,
{
    if k > 0 {
        lemma_appended_part(e, names, k - 1);
        assert(names.take(k).drop_last() =~= names.take(k - 1));
        assert(names.take(k).last() == names[k - 1]);
        lemma_counted(appended(e, names.take(k - 1)), names[k - 1], names.len() - (k - 1));
    }
}

impl UnusedVectorsDistribution {
    /// No name stands twice.
    pub open spec fn wf(&self) -> bool {
        distinct_fields(self@)
    }

    /// A distribution without a name.
    pub fn new() -> (r: Self)
        ensures
            r@ == Seq::<(Seq<char>, u64)>::empty(),
            r.wf(),
    {
        let r = UnusedVectorsDistribution(Vec::new());
        assert(r@ =~= Seq::<(Seq<char>, u64)>::empty());
        r
    }

    /// Counts each of the names once more. No count may pass the
    /// largest number.
    pub fn append(&mut self, names: Vec<String>)
        requires
            old(self).wf(),
            counts_leave_room(old(self)@, names@.len() as int),
        ensures
            final(self).wf(),
            final(self)@ == appended(old(self)@, word_list(names@)),
            forall|name: Seq<char>|
                count_of(final(self)@, name) == #[trigger] count_of(old(self)@, name)
                    + occurrences(word_list(names@), name),
    {
        let ghost start = self@;
        let ghost all = word_list(names@);
        let n = names.len();
        let mut i: usize = 0;
        proof {
            assert(all.take(0) =~= Seq::<Seq<char>>::empty());
            lemma_appended_counts(start, all);
        }
        while i < n
            invariant
                i <= n,
                n == names@.len(),
                all == word_list(names@),
                start == old(self)@,
                distinct_fields(start),
                counts_leave_room(start, n as int),
                self@ == appended(start, all.take(i as int)),
            decreases n - i,
        {
            let ghost before = self@;
            proof {
                lemma_appended_part(start, all, i as int);
                assert(all.take(i + 1).drop_last() =~= all.take(i as int));
                assert(all.take(i + 1).last() == names@[i as int]@);
            }
            let mut j: usize = 0;
            let mut found = false;
            while j < self.0.len() && !found
                invariant
                    j <= self.0.len(),
                    self@ == before,
                    i < n,
                    n == names@.len(),
                    forall|m: int| 0 <= m < j - (if found { 1int } else { 0int }) ==> before[m].0 != names@[i as int]@,
                    found ==> j > 0 && before[j - 1].0 == names@[i as int]@,
                decreases self.0.len() - j + (if found { 0int } else { 1int }),
            {
                if self.0[j].0 == names[i] {
                    found = true;
                }
                j += 1;
            }
            if found {
                let at = j - 1;
                proof {
                    assert(has_field(before, names@[i as int]@));
                    assert(field_index(before, names@[i as int]@) == at);
                }
                let count = self.0[at].1;
                self.0[at] = (names[i].clone(), count + 1);
                assert(self@ =~= counted(before, names@[i as int]@));
            } else {
                assert(!has_field(before, names@[i as int]@));
                self.0.push((names[i].clone(), 1));
                assert(self@ =~= counted(before, names@[i as int]@));
            }
            i += 1;
        }
        proof {
            assert(all.take(n as int) =~= all);
        }
    }
}

} // verus!
