use crate::line::{is_record, lemma_trimmed_is_record, normalize, trimmed};
use crate::order::{sort_by_text, texts_of};
use crate::text::{lemma_text_lt_total, text_lt};
use vstd::prelude::*;

verus! {

/// The texts of a sequence of strings.
pub open spec fn texts(v: Seq<String>) -> Seq<Seq<char>> {
    Seq::new(v.len(), |i: int| v[i]@)
}

/// The records that a sequence of input lines gives: each line trimmed, the
/// lines of which nothing is left dropped, and each record once however
/// often its line occurs.
pub open spec fn records_of(lines: Seq<Seq<char>>) -> Set<Seq<char>>
    decreases lines.len(),
{
    if lines.len() == 0 {
        Set::empty()
    } else if trimmed(lines.last()).len() > 0 {
        records_of(lines.drop_last()).insert(trimmed(lines.last()))
    } else {
        records_of(lines.drop_last())
    }
}

/// A text is among the records of `lines` exactly where it is not empty and
/// is what trimming leaves of one of the lines.
pub proof fn law_records_of(lines: Seq<Seq<char>>, r: Seq<char>)
    ensures
        records_of(lines).finite(),
        records_of(lines).contains(r) <==> r.len() > 0 && exists|i: int|
            0 <= i < lines.len() && trimmed(#[trigger] lines[i]) == r,
    decreases lines.len(),
{
    if lines.len() > 0 {
        let rest = lines.drop_last();
        law_records_of(rest, r);
        if records_of(lines).contains(r) {
            if records_of(rest).contains(r) {
                let i = choose|i: int| 0 <= i < rest.len() && trimmed(#[trigger] rest[i]) == r;
                assert(trimmed(lines[i]) == r);
            } else {
                assert(trimmed(lines[lines.len() - 1]) == r);
            }
        }
        if r.len() > 0 && exists|i: int| 0 <= i < lines.len() && trimmed(#[trigger] lines[i]) == r {
            let i = choose|i: int| 0 <= i < lines.len() && trimmed(#[trigger] lines[i]) == r;
            if i < lines.len() - 1 {
                assert(trimmed(rest[i]) == r);
            }
        }
    }
}

/// The records that are in exactly one of `a` and `b`.
pub open spec fn symmetric(a: Set<Seq<char>>, b: Set<Seq<char>>) -> Set<Seq<char>> {
    Set::new(|r: Seq<char>| a.contains(r) != b.contains(r))
}

/// Whether `v` holds a string whose text is that of `r`.
fn holds(v: &Vec<String>, r: &String) -> (b: bool)
    ensures
        b == texts(v@).contains(r@),
{
    let mut i: usize = 0;
    while i < v.len()
        invariant
            i <= v@.len(),
            forall|j: int| 0 <= j < i ==> texts(v@)[j] != r@,
        decreases v@.len() - i,
    {
        if v[i] == *r {
            assert(texts(v@)[i as int] == r@);
            return true;
        }
        i += 1;
    }
    false
}

/// Appends to `out` a copy of each string of `from` that is in `against`
/// (`want`) or is not (`!want`).
fn keep(out: &mut Vec<String>, from: &Vec<String>, against: &Vec<String>, want: bool)
    requires
        texts(old(out)@).no_duplicates(),
        texts(from@).no_duplicates(),
        forall|r: Seq<char>|
            texts(old(out)@).contains(r) && texts(from@).contains(r) ==> texts(against@).contains(
                r,
            ) != want,
    ensures
        texts(final(out)@).no_duplicates(),
        forall|r: Seq<char>| #[trigger]
            texts(final(out)@).contains(r) <==> texts(old(out)@).contains(r) || (texts(
                from@,
            ).contains(r) && texts(against@).contains(r) == want),
{
    let ghost start = texts(out@);
    let mut i: usize = 0;
    proof {
        assert(texts(from@).take(0) =~= Seq::<Seq<char>>::empty());
    }
    while i < from.len()
        invariant
            i <= from@.len(),
            start == texts(old(out)@),
            texts(out@).no_duplicates(),
            texts(from@).no_duplicates(),
            forall|r: Seq<char>|
                start.contains(r) && texts(from@).contains(r) ==> texts(against@).contains(r)
                    != want,
            forall|r: Seq<char>| #[trigger]
                texts(out@).contains(r) <==> start.contains(r) || (texts(from@).take(
                    i as int,
                ).contains(r) && texts(against@).contains(r) == want),
        decreases from@.len() - i,
    {
        let ghost was = texts(out@);
        let ghost x = from@[i as int]@;
        let ghost seen = texts(from@).take(i as int);
        proof {
            assert(texts(from@).take(i + 1) =~= seen.push(x));
            assert(texts(from@)[i as int] == x);
            assert(texts(from@).contains(x));
            assert(!seen.contains(x)) by {
                if seen.contains(x) {
                    let j = choose|j: int| 0 <= j < seen.len() && seen[j] == x;
                    assert(texts(from@)[j] == texts(from@)[i as int]);
                }
            }
            assert forall|r: Seq<char>| #[trigger]
                seen.push(x).contains(r) <==> x == r || seen.contains(r) by {
                vstd::seq_lib::lemma_seq_contains_after_push(seen, x, r);
            }
        }
        if holds(against, &from[i]) == want {
            let copy = from[i].clone();
            out.push(copy);
            proof {
                assert(texts(out@) =~= was.push(x));
                assert forall|r: Seq<char>| #[trigger]
                    was.push(x).contains(r) <==> x == r || was.contains(r) by {
                    vstd::seq_lib::lemma_seq_contains_after_push(was, x, r);
                }
                assert(!was.contains(x));
                assert(was.push(x).no_duplicates());
            }
        }
        i += 1;
    }
    proof {
        assert(texts(from@).take(i as int) =~= texts(from@));
    }
}

/// A set of records: trimmed, non-empty lines of text, each held once.
#[derive(Debug)]
pub struct Dataset {
    records: Vec<String>,
}

impl View for Dataset {
    type V = Set<Seq<char>>;

    closed spec fn view(&self) -> Set<Seq<char>> {
        texts(self.records@).to_set()
    }
}

impl Dataset {
    #[verifier::type_invariant]
    spec fn inv(self) -> bool {
        &&& texts(self.records@).no_duplicates()
        &&& forall|i: int| 0 <= i < self.records@.len() ==> is_record(#[trigger] self.records@[i]@)
    }

    /// The dataset without records.
    pub fn new() -> (d: Dataset)
        ensures
            d@ == Set::<Seq<char>>::empty(),
    {
        let d = Dataset { records: Vec::new() };
        assert(d@ =~= Set::<Seq<char>>::empty());
        d
    }

    /// A dataset holds finitely many records.
    pub proof fn lemma_finite(&self)
        ensures
            self@.finite(),
    {
        vstd::seq_lib::seq_to_set_is_finite(texts(self.records@));
    }

    /// How many records the dataset holds.
    pub fn len(&self) -> (n: usize)
        ensures
            n == self@.len(),
            self@.finite(),
    {
        proof {
            use_type_invariant(self);
            texts(self.records@).unique_seq_to_set();
            self.lemma_finite();
        }
        self.records.len()
    }

    /// Whether the dataset holds no record.
    pub fn is_empty(&self) -> (b: bool)
        ensures
            b == (self@.len() == 0),
            b == (self@ == Set::<Seq<char>>::empty()),
            self@.finite(),
    {
        let n = self.len();
        proof {
            if n == 0 {
                self@.lemma_len0_is_empty();
            }
        }
        n == 0
    }

    /// Whether `record` is in the dataset.
    pub fn contains(&self, record: &str) -> (b: bool)
        ensures
            b == self@.contains(record@),
            b ==> is_record(record@),
    {
        let owned = record.to_owned();
        let b = holds(&self.records, &owned);
        proof {
            use_type_invariant(self);
            if b {
                let all = texts(self.records@);
                let j = choose|j: int| 0 <= j < all.len() && all[j] == record@;
                assert(self.records@[j]@ == record@);
            }
        }
        b
    }

    /// The records, each once. The order in which they stand is not part
    /// of what a dataset is.
    pub fn records(&self) -> (out: &Vec<String>)
        ensures
            texts(out@).no_duplicates(),
            texts(out@).to_set() == self@,
            out@.len() == self@.len(),
            forall|i: int| 0 <= i < out@.len() ==> is_record(#[trigger] out@[i]@),
    {
        proof {
            use_type_invariant(self);
            texts(self.records@).unique_seq_to_set();
        }
        &self.records
    }

    /// The records in ascending code point order, each once.
    pub fn sorted_records(&self) -> (out: Vec<&String>)
        ensures
            texts_of(out@).to_set() == self@,
            out@.len() == self@.len(),
            forall|i: int, j: int|
                0 <= i < j < out@.len() ==> text_lt(#[trigger] out@[i]@, #[trigger] out@[j]@),
    {
        let ghost recs = texts(self.records@);
        let mut refs: Vec<&String> = Vec::new();
        let mut i: usize = 0;
        while i < self.records.len()
            invariant
                i <= self.records@.len(),
                refs@.len() == i,
                forall|k: int| 0 <= k < i ==> (#[trigger] refs@[k])@ == self.records@[k]@,
            decreases self.records@.len() - i,
        {
            refs.push(&self.records[i]);
            i += 1;
        }
        let out = sort_by_text(refs.as_slice());
        proof {
            use_type_invariant(self);
            recs.unique_seq_to_set();
            assert(texts_of(refs@) =~= recs);
            let sorted = texts_of(out@);
            recs.lemma_multiset_has_no_duplicates();
            sorted.lemma_multiset_has_no_duplicates_conv();
            assert forall|r: Seq<char>| sorted.contains(r) <==> recs.contains(r) by {
                vstd::seq_lib::to_multiset_contains(sorted, r);
                vstd::seq_lib::to_multiset_contains(recs, r);
            }
            assert(sorted.to_set() =~= recs.to_set());
            assert forall|i: int, j: int| 0 <= i < j < out@.len() implies text_lt(
                #[trigger] out@[i]@,
                #[trigger] out@[j]@,
            ) by {
                assert(sorted[i] == out@[i]@);
                assert(sorted[j] == out@[j]@);
                lemma_text_lt_total(sorted[i], sorted[j]);
            }
        }
        out
    }

    /// The dataset with one more line of input taken in: the line is
    /// trimmed, and what is left of it, if anything, becomes a record unless
    /// it is one already.
    pub fn with_line(self, line: &str) -> (out: Dataset)
        ensures
            out@ == records_of(seq![line@]).union(self@),
    {
        proof {
            use_type_invariant(&self);
            lemma_trimmed_is_record(line@);
            assert(seq![line@].drop_last() =~= Seq::<Seq<char>>::empty());
            assert(records_of(seq![line@].drop_last()) == Set::<Seq<char>>::empty());
        }
        let ghost was = texts(self.records@);
        match normalize(line) {
            None => {
                assert(self@ =~= records_of(seq![line@]).union(self@));
                self
            },
            Some(record) => {
                if holds(&self.records, &record) {
                    assert(self@ =~= records_of(seq![line@]).union(self@));
                    self
                } else {
                    let ghost x = record@;
                    let mut records = self.records;
                    records.push(record);
                    proof {
                        assert(texts(records@) =~= was.push(x));
                        was.lemma_push_to_set_commute(x);
                        assert(was.push(x).to_set() =~= records_of(seq![line@]).union(
                            was.to_set(),
                        ));
                        assert forall|r: Seq<char>| #[trigger]
                            was.push(x).contains(r) <==> x == r || was.contains(r) by {
                            vstd::seq_lib::lemma_seq_contains_after_push(was, x, r);
                        }
                        assert(was.push(x).no_duplicates());
                    }
                    Dataset { records }
                }
            },
        }
    }

    /// The dataset that a sequence of input lines gives.
    pub fn from_lines(lines: &Vec<String>) -> (d: Dataset)
        ensures
            d@ == records_of(texts(lines@)),
    {
        let mut d = Dataset::new();
        let mut i: usize = 0;
        proof {
            assert(texts(lines@).take(0) =~= Seq::<Seq<char>>::empty());
        }
        while i < lines.len()
            invariant
                i <= lines@.len(),
                d@ == records_of(texts(lines@).take(i as int)),
            decreases lines@.len() - i,
        {
            proof {
                let grown = texts(lines@).take(i + 1);
                assert(grown.drop_last() =~= texts(lines@).take(i as int));
                assert(grown.last() == lines@[i as int]@);
                let one = seq![lines@[i as int]@];
                assert(one.drop_last() =~= Seq::<Seq<char>>::empty());
                assert(records_of(one.drop_last()) == Set::<Seq<char>>::empty());
                assert(records_of(grown) =~= records_of(one).union(
                    records_of(texts(lines@).take(i as int)),
                ));
            }
            d = d.with_line(lines[i].as_str());
            i += 1;
        }
        proof {
            assert(texts(lines@).take(i as int) =~= texts(lines@));
        }
        d
    }

    /// The records that are in this dataset or in `other`.
    pub fn union(&self, other: &Dataset) -> (out: Dataset)
        ensures
            out@ == self@.union(other@),
    {
        proof {
            use_type_invariant(self);
            use_type_invariant(other);
        }
        let mut records: Vec<String> = Vec::new();
        keep(&mut records, &self.records, &self.records, true);
        keep(&mut records, &other.records, &self.records, false);
        proof {
            lemma_all_records(records@, self.records@, other.records@);
        }
        let out = Dataset { records };
        assert(out@ =~= self@.union(other@));
        out
    }

    /// The records that are in this dataset and in `other`.
    pub fn intersection(&self, other: &Dataset) -> (out: Dataset)
        ensures
            out@ == self@.intersect(other@),
    {
        proof {
            use_type_invariant(self);
            use_type_invariant(other);
        }
        let mut records: Vec<String> = Vec::new();
        keep(&mut records, &self.records, &other.records, true);
        proof {
            lemma_all_records(records@, self.records@, other.records@);
        }
        let out = Dataset { records };
        assert(out@ =~= self@.intersect(other@));
        out
    }

    /// The records that are in this dataset and not in `other`.
    pub fn difference(&self, other: &Dataset) -> (out: Dataset)
        ensures
            out@ == self@.difference(other@),
    {
        proof {
            use_type_invariant(self);
            use_type_invariant(other);
        }
        let mut records: Vec<String> = Vec::new();
        keep(&mut records, &self.records, &other.records, false);
        proof {
            lemma_all_records(records@, self.records@, other.records@);
        }
        let out = Dataset { records };
        assert(out@ =~= self@.difference(other@));
        out
    }

    /// The records that are in exactly one of this dataset and `other`.
    pub fn symmetric_difference(&self, other: &Dataset) -> (out: Dataset)
        ensures
            out@ == symmetric(self@, other@),
    {
        proof {
            use_type_invariant(self);
            use_type_invariant(other);
        }
        let mut records: Vec<String> = Vec::new();
        keep(&mut records, &self.records, &other.records, false);
        keep(&mut records, &other.records, &self.records, false);
        proof {
            lemma_all_records(records@, self.records@, other.records@);
        }
        let out = Dataset { records };
        assert(out@ =~= symmetric(self@, other@));
        out
    }
}

/// Strings taken from two sequences of records are records.
proof fn lemma_all_records(out: Seq<String>, a: Seq<String>, b: Seq<String>)
    requires
        forall|i: int| 0 <= i < a.len() ==> is_record(#[trigger] a[i]@),
        forall|i: int| 0 <= i < b.len() ==> is_record(#[trigger] b[i]@),
        forall|r: Seq<char>| #[trigger]
            texts(out).contains(r) ==> texts(a).contains(r) || texts(b).contains(r),
    ensures
        forall|i: int| 0 <= i < out.len() ==> is_record(#[trigger] out[i]@),
{
    assert forall|i: int| 0 <= i < out.len() implies is_record(#[trigger] out[i]@) by {
        let r = out[i]@;
        assert(texts(out)[i] == r);
        assert(texts(out).contains(r));
        if texts(a).contains(r) {
            let j = choose|j: int| 0 <= j < texts(a).len() && texts(a)[j] == r;
            assert(a[j]@ == r);
        } else {
            let j = choose|j: int| 0 <= j < texts(b).len() && texts(b)[j] == r;
            assert(b[j]@ == r);
        }
    }
}

} // verus!
