use crate::ip::{ip_number, is_ip_text, parse_ip};
use crate::order_laws::{
    law_ips_come_first, law_ordered_is_ascending, law_ordered_is_rearrangement, lemma_arranged,
    lemma_ascending_all_pairs,
};
use crate::text::{
    chars_of, lemma_text_lt_asymmetric, lemma_text_lt_total, lemma_text_lt_transitive, text_before,
    text_lt,
};
use vstd::prelude::*;

verus! {

/// The display order of two records, strictly: an IP-shaped record comes
/// before every other record, two IP-shaped records go by their numbers,
/// two other records by code point order.
pub open spec fn comes_before(a: Seq<char>, b: Seq<char>) -> bool {
    if is_ip_text(a) {
        if is_ip_text(b) {
            ip_number(a) < ip_number(b)
        } else {
            true
        }
    } else {
        !is_ip_text(b) && text_lt(a, b)
    }
}

/// An order in which records can be arranged.
#[derive(Clone, Copy, Debug, PartialEq, Eq)]
pub enum Arrangement {
    /// Display order: IP-shaped records by number, then the others by code point.
    Display,
    /// Code point order for every record, whatever its shape.
    CodePoint,
}

/// Whether `a` comes strictly before `b` in the order `rule`.
pub open spec fn before_in(rule: Arrangement, a: Seq<char>, b: Seq<char>) -> bool {
    match rule {
        Arrangement::Display => comes_before(a, b),
        Arrangement::CodePoint => text_lt(a, b),
    }
}

/// The IP-shaped records of `s`, in the order in which they stand in `s`.
pub open spec fn ip_records(s: Seq<Seq<char>>) -> Seq<Seq<char>>
    decreases s.len(),
{
    if s.len() == 0 {
        Seq::empty()
    } else if is_ip_text(s.last()) {
        ip_records(s.drop_last()).push(s.last())
    } else {
        ip_records(s.drop_last())
    }
}

/// The records of `s` that are not IP-shaped, in the order in which they stand in `s`.
pub open spec fn text_records(s: Seq<Seq<char>>) -> Seq<Seq<char>>
    decreases s.len(),
{
    if s.len() == 0 {
        Seq::empty()
    } else if is_ip_text(s.last()) {
        text_records(s.drop_last())
    } else {
        text_records(s.drop_last()).push(s.last())
    }
}

/// `s` with `x` put in from the right: `x` passes every record that it comes
/// before and stops behind the first that it does not, so behind its equals.
pub open spec fn place(rule: Arrangement, s: Seq<Seq<char>>, x: Seq<char>) -> Seq<Seq<char>>
    decreases s.len(),
{
    if s.len() > 0 && before_in(rule, x, s.last()) {
        place(rule, s.drop_last(), x).push(s.last())
    } else {
        s.push(x)
    }
}

/// The records of `s` in ascending order by `rule`, records that are equal
/// in that order keeping the order they have in `s`.
pub open spec fn arranged(rule: Arrangement, s: Seq<Seq<char>>) -> Seq<Seq<char>>
    decreases s.len(),
{
    if s.len() == 0 {
        Seq::empty()
    } else {
        place(rule, arranged(rule, s.drop_last()), s.last())
    }
}

/// The display sequence of `s`: its IP-shaped records by ascending number,
/// then its other records in ascending code point order.
pub open spec fn ordered(s: Seq<Seq<char>>) -> Seq<Seq<char>> {
    arranged(Arrangement::Display, ip_records(s)) + arranged(
        Arrangement::Display,
        text_records(s),
    )
}

/// No neighbour in `s` comes before the record on its left in the order `rule`.
pub open spec fn ascending(rule: Arrangement, s: Seq<Seq<char>>) -> bool {
    forall|i: int| 0 <= i < s.len() - 1 ==> !before_in(rule, #[trigger] s[i + 1], s[i])
}

/// The texts of a sequence of records.
pub open spec fn texts_of(v: Seq<&String>) -> Seq<Seq<char>> {
    Seq::new(v.len(), |i: int| v[i]@)
}

/// What a record is ordered by, worked out once: its characters, and its
/// number where it is IP-shaped.
pub struct RecordKey {
    chars: Vec<char>,
    number: Option<u32>,
}

impl RecordKey {
    /// The record that this key was made from.
    pub closed spec fn text(&self) -> Seq<char> {
        self.chars@
    }

    /// The key holds a number exactly where its record is IP-shaped, and
    /// then the record's number.
    #[verifier::type_invariant]
    spec fn inv(&self) -> bool {
        &&& self.number is Some <==> is_ip_text(self.chars@)
        &&& self.number is Some ==> self.number->0 == ip_number(self.chars@)
    }

    /// The key of `record`.
    pub fn of(record: &str) -> (key: RecordKey)
        ensures
            key.text() == record@,
    {
        let chars = chars_of(record);
        let number = parse_ip(&chars);
        RecordKey { chars, number }
    }

    /// Whether the record is IP-shaped.
    pub fn is_ip(&self) -> (r: bool)
        ensures
            r == is_ip_text(self.text()),
    {
        proof {
            use_type_invariant(self);
        }
        self.number.is_some()
    }

    /// Whether this key's record comes strictly before `other`'s in display order.
    pub fn precedes(&self, other: &RecordKey) -> (r: bool)
        ensures
            r == comes_before(self.text(), other.text()),
    {
        proof {
            use_type_invariant(self);
            use_type_invariant(other);
        }
        match self.number {
            Some(a) => match other.number {
                Some(b) => a < b,
                None => true,
            },
            None => match other.number {
                Some(_) => false,
                None => text_before(&self.chars, &other.chars),
            },
        }
    }
}

/// Whether the record of `a` comes strictly before that of `b` in the order `rule`.
fn key_before(rule: Arrangement, a: &RecordKey, b: &RecordKey) -> (r: bool)
    ensures
        r == before_in(rule, a.text(), b.text()),
{
    match rule {
        Arrangement::Display => a.precedes(b),
        Arrangement::CodePoint => text_before(&a.chars, &b.chars),
    }
}

/// The records that a sequence of keys was made from.
pub open spec fn key_texts(keys: Seq<RecordKey>) -> Seq<Seq<char>> {
    Seq::new(keys.len(), |i: int| keys[i].text())
}

/// The records that the positions `idx` pick out of `recs`.
pub open spec fn picked(idx: Seq<usize>, recs: Seq<Seq<char>>) -> Seq<Seq<char>> {
    Seq::new(idx.len(), |i: int| recs[idx[i] as int])
}

/// Of two records at most one comes before the other.
pub proof fn lemma_before_asymmetric(rule: Arrangement, a: Seq<char>, b: Seq<char>)
    ensures
        !(before_in(rule, a, b) && before_in(rule, b, a)),
{
    lemma_text_lt_asymmetric(a, b);
}

/// Where `a` does not come after `b`, nor `b` after `c`, `a` does not come after `c`.
pub proof fn lemma_not_after_transitive(
    rule: Arrangement,
    a: Seq<char>,
    b: Seq<char>,
    c: Seq<char>,
)
    requires
        !before_in(rule, b, a),
        !before_in(rule, c, b),
    ensures
        !before_in(rule, c, a),
{
    let plain = rule == Arrangement::CodePoint || (!is_ip_text(a) && !is_ip_text(b) && !is_ip_text(
        c,
    ));
    if plain && text_lt(c, a) {
        lemma_text_lt_total(a, b);
        if text_lt(a, b) {
            lemma_text_lt_transitive(c, a, b);
        }
    }
}

/// Putting `x` in is inserting it at the position `p` up to which it travels.
pub proof fn lemma_place_is_insert(rule: Arrangement, s: Seq<Seq<char>>, x: Seq<char>, p: int)
    requires
        0 <= p <= s.len(),
        forall|i: int| p <= i < s.len() ==> before_in(rule, x, #[trigger] s[i]),
        p > 0 ==> !before_in(rule, x, s[p - 1]),
    ensures
        place(rule, s, x) == s.insert(p, x),
    decreases s.len(),
{
    if s.len() == 0 || p == s.len() {
        assert(s.push(x) =~= s.insert(p, x));
    } else {
        assert(before_in(rule, x, s[s.len() - 1]));
        lemma_place_is_insert(rule, s.drop_last(), x, p);
        assert(s.drop_last().insert(p, x).push(s.last()) =~= s.insert(p, x));
    }
}

/// The positions `idx` rearranged so that the records they pick stand in
/// ascending order by `rule`, equals keeping their order.
fn sort_indices(idx: &Vec<usize>, keys: &Vec<RecordKey>, rule: Arrangement) -> (out: Vec<usize>)
    requires
        forall|j: int| 0 <= j < idx@.len() ==> #[trigger] idx@[j] < keys@.len(),
    ensures
        forall|j: int| 0 <= j < out@.len() ==> #[trigger] out@[j] < keys@.len(),
        out@.len() == idx@.len(),
        picked(out@, key_texts(keys@)) == arranged(rule, picked(idx@, key_texts(keys@))),
{
    let ghost recs = key_texts(keys@);
    let mut out: Vec<usize> = Vec::new();
    let mut i: usize = 0;
    proof {
        assert(picked(idx@.take(0), recs) =~= Seq::<Seq<char>>::empty());
        assert(picked(out@, recs) =~= Seq::<Seq<char>>::empty());
    }
    while i < idx.len()
        invariant
            i <= idx@.len(),
            recs == key_texts(keys@),
            forall|j: int| 0 <= j < idx@.len() ==> #[trigger] idx@[j] < keys@.len(),
            forall|j: int| 0 <= j < out@.len() ==> #[trigger] out@[j] < keys@.len(),
            out@.len() == i,
            picked(out@, recs) == arranged(rule, picked(idx@.take(i as int), recs)),
        decreases idx@.len() - i,
    {
        let x: usize = idx[i];
        let mut p: usize = out.len();
        while p > 0 && key_before(rule, &keys[x], &keys[out[p - 1]])
            invariant
                p <= out@.len(),
                x < keys@.len(),
                recs == key_texts(keys@),
                forall|j: int| 0 <= j < out@.len() ==> #[trigger] out@[j] < keys@.len(),
                forall|j: int|
                    p <= j < out@.len() ==> before_in(
                        rule,
                        recs[x as int],
                        #[trigger] picked(out@, recs)[j],
                    ),
            decreases p,
        {
            p -= 1;
        }
        proof {
            let before = picked(out@, recs);
            let grown = idx@.take(i + 1);
            assert(grown.drop_last() =~= idx@.take(i as int));
            assert(picked(grown, recs).drop_last() =~= picked(idx@.take(i as int), recs));
            assert(picked(grown, recs).last() == recs[x as int]);
            if p > 0 {
                assert(before[p - 1] == recs[out@[p - 1] as int]);
            }
            lemma_place_is_insert(rule, before, recs[x as int], p as int);
            assert(picked(out@.insert(p as int, x), recs) =~= before.insert(p as int, recs[x as int]));
        }
        out.insert(p, x);
        i += 1;
    }
    proof {
        assert(idx@.take(i as int) =~= idx@);
    }
    out
}

/// Appends to `out` the records of `dataset` at the positions `idx`, in the order of `idx`.
fn gather<'a>(out: &mut Vec<&'a String>, dataset: &[&'a String], idx: &Vec<usize>)
    requires
        forall|j: int| 0 <= j < idx@.len() ==> #[trigger] idx@[j] < dataset@.len(),
    ensures
        texts_of(final(out)@) == texts_of(old(out)@) + picked(idx@, texts_of(dataset@)),
{
    let ghost recs = texts_of(dataset@);
    let ghost start = texts_of(out@);
    let mut a: usize = 0;
    proof {
        assert(texts_of(out@) =~= start + picked(idx@.take(0), recs));
    }
    while a < idx.len()
        invariant
            a <= idx@.len(),
            recs == texts_of(dataset@),
            forall|j: int| 0 <= j < idx@.len() ==> #[trigger] idx@[j] < dataset@.len(),
            texts_of(out@) == start + picked(idx@.take(a as int), recs),
        decreases idx@.len() - a,
    {
        let ghost was = out@;
        out.push(dataset[idx[a]]);
        proof {
            let x = idx@[a as int];
            assert(texts_of(out@) =~= texts_of(was).push(recs[x as int]));
            assert(picked(idx@.take(a + 1), recs) =~= picked(idx@.take(a as int), recs).push(
                recs[x as int],
            ));
            assert(texts_of(out@) =~= start + picked(idx@.take(a + 1), recs));
        }
        a += 1;
    }
    proof {
        assert(idx@.take(a as int) =~= idx@);
    }
}

/// Puts records in code point order, whatever their shape. Records with the
/// same text keep the order in which `dataset` holds them.
pub fn sort_by_text<'a>(dataset: &[&'a String]) -> (out: Vec<&'a String>)
    ensures
        texts_of(out@) == arranged(Arrangement::CodePoint, texts_of(dataset@)),
        out@.len() == dataset@.len(),
        texts_of(out@).to_multiset() == texts_of(dataset@).to_multiset(),
        forall|i: int, j: int|
            0 <= i < j < out@.len() ==> !text_lt(#[trigger] out@[j]@, #[trigger] out@[i]@),
{
    let ghost recs = texts_of(dataset@);
    let n: usize = dataset.len();
    let mut keys: Vec<RecordKey> = Vec::new();
    let mut idx: Vec<usize> = Vec::new();
    let mut i: usize = 0;
    while i < n
        invariant
            i <= n,
            n == dataset@.len(),
            recs == texts_of(dataset@),
            keys@.len() == i,
            idx@.len() == i,
            forall|k: int| 0 <= k < i ==> (#[trigger] keys@[k]).text() == recs[k],
            forall|k: int| 0 <= k < i ==> #[trigger] idx@[k] == k,
        decreases n - i,
    {
        keys.push(RecordKey::of(dataset[i].as_str()));
        idx.push(i);
        i += 1;
    }
    proof {
        assert(key_texts(keys@) =~= recs);
        assert(picked(idx@, recs) =~= recs);
    }
    let sorted = sort_indices(&idx, &keys, Arrangement::CodePoint);
    let mut out: Vec<&'a String> = Vec::new();
    proof {
        assert(texts_of(out@) =~= Seq::<Seq<char>>::empty());
    }
    gather(&mut out, dataset, &sorted);
    proof {
        assert(texts_of(out@) =~= picked(sorted@, recs));
        lemma_arranged(Arrangement::CodePoint, recs);
        assert forall|i: int, j: int| 0 <= i < j < out@.len() implies !text_lt(
            #[trigger] out@[j]@,
            #[trigger] out@[i]@,
        ) by {
            lemma_ascending_all_pairs(Arrangement::CodePoint, texts_of(out@), i, j);
            assert(texts_of(out@)[j] == out@[j]@);
            assert(texts_of(out@)[i] == out@[i]@);
        }
    }
    out
}

/// Puts records in display order: the IP-shaped ones first, by ascending
/// number, then the others in ascending code point order. Records that are
/// equal in that order keep the order in which `dataset` holds them.
pub fn sort_target_vector<'a>(dataset: &[&'a String]) -> (out: Vec<&'a String>)
    ensures
        texts_of(out@) == ordered(texts_of(dataset@)),
        out@.len() == dataset@.len(),
        texts_of(out@).to_multiset() == texts_of(dataset@).to_multiset(),
        forall|i: int, j: int|
            0 <= i < j < out@.len() && is_ip_text(#[trigger] out@[j]@) ==> is_ip_text(
                #[trigger] out@[i]@,
            ),
        ascending(Arrangement::Display, texts_of(out@)),
{
    let ghost recs = texts_of(dataset@);
    let n: usize = dataset.len();
    let mut keys: Vec<RecordKey> = Vec::new();
    let mut ips: Vec<usize> = Vec::new();
    let mut others: Vec<usize> = Vec::new();
    let mut i: usize = 0;
    proof {
        assert(picked(ips@, recs) =~= ip_records(recs.take(0)));
        assert(picked(others@, recs) =~= text_records(recs.take(0)));
    }
    while i < n
        invariant
            i <= n,
            n == dataset@.len(),
            recs == texts_of(dataset@),
            keys@.len() == i,
            forall|k: int| 0 <= k < i ==> (#[trigger] keys@[k]).text() == recs[k],
            forall|j: int| 0 <= j < ips@.len() ==> #[trigger] ips@[j] < i,
            forall|j: int| 0 <= j < others@.len() ==> #[trigger] others@[j] < i,
            picked(ips@, recs) == ip_records(recs.take(i as int)),
            picked(others@, recs) == text_records(recs.take(i as int)),
        decreases n - i,
    {
        let key = RecordKey::of(dataset[i].as_str());
        let shaped = key.is_ip();
        keys.push(key);
        proof {
            assert(recs.take(i + 1).drop_last() =~= recs.take(i as int));
            assert(recs.take(i + 1).last() == recs[i as int]);
        }
        if shaped {
            let ghost was = ips@;
            ips.push(i);
            proof {
                assert(picked(ips@, recs) =~= picked(was, recs).push(recs[i as int]));
            }
        } else {
            let ghost was = others@;
            others.push(i);
            proof {
                assert(picked(others@, recs) =~= picked(was, recs).push(recs[i as int]));
            }
        }
        i += 1;
    }
    proof {
        assert(recs.take(n as int) =~= recs);
        assert(key_texts(keys@) =~= recs);
    }
    let first = sort_indices(&ips, &keys, Arrangement::Display);
    let second = sort_indices(&others, &keys, Arrangement::Display);
    let mut out: Vec<&'a String> = Vec::new();
    proof {
        assert(texts_of(out@) =~= Seq::<Seq<char>>::empty());
    }
    gather(&mut out, dataset, &first);
    gather(&mut out, dataset, &second);
    proof {
        assert(texts_of(out@) =~= picked(first@, recs) + picked(second@, recs));
        law_ordered_is_rearrangement(recs);
        law_ips_come_first(recs);
        law_ordered_is_ascending(recs);
        assert forall|i: int, j: int|
            0 <= i < j < out@.len() && is_ip_text(#[trigger] out@[j]@) implies is_ip_text(
            #[trigger] out@[i]@,
        ) by {
            assert(texts_of(out@)[j] == out@[j]@);
            assert(texts_of(out@)[i] == out@[i]@);
        }
    }
    out
}

} // verus!
