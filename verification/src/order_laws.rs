use crate::ip::{ip_number, is_ip_text};
use crate::order::{
    arranged, ascending, before_in, comes_before, ip_records, lemma_before_asymmetric,
    lemma_not_after_transitive, ordered, place, text_records, Arrangement,
};
use crate::text::text_lt;
use vstd::prelude::*;

verus! {

/// Whether every record of `s` is IP-shaped.
pub open spec fn all_ip(s: Seq<Seq<char>>) -> bool {
    forall|i: int| 0 <= i < s.len() ==> is_ip_text(#[trigger] s[i])
}

/// Whether no record of `s` is IP-shaped.
pub open spec fn none_ip(s: Seq<Seq<char>>) -> bool {
    forall|i: int| 0 <= i < s.len() ==> !is_ip_text(#[trigger] s[i])
}

/// Putting `x` into `s` inserts it at some position, moves nothing else,
/// and keeps an ascending sequence ascending.
pub proof fn lemma_place(rule: Arrangement, s: Seq<Seq<char>>, x: Seq<char>) -> (p: int)
    ensures
        0 <= p <= s.len(),
        place(rule, s, x) == s.insert(p, x),
        place(rule, s, x).to_multiset() == s.to_multiset().insert(x),
        ascending(rule, s) ==> ascending(rule, place(rule, s, x)),
    decreases s.len(),
{
    broadcast use vstd::seq_lib::to_multiset_insert;

    if s.len() > 0 && before_in(rule, x, s.last()) {
        let q = lemma_place(rule, s.drop_last(), x);
        assert(s.drop_last().insert(q, x).push(s.last()) =~= s.insert(q, x));
        if ascending(rule, s) {
            lemma_before_asymmetric(rule, x, s.last());
            assert(ascending(rule, s.drop_last())) by {
                assert forall|i: int| 0 <= i < s.drop_last().len() - 1 implies !before_in(
                    rule,
                    #[trigger] s.drop_last()[i + 1],
                    s.drop_last()[i],
                ) by {
                    assert(!before_in(rule, s[i + 1], s[i]));
                }
            }
            let t = place(rule, s, x);
            let u = place(rule, s.drop_last(), x);
            assert forall|i: int| 0 <= i < t.len() - 1 implies !before_in(
                rule,
                #[trigger] t[i + 1],
                t[i],
            ) by {
                if i + 1 < u.len() {
                    assert(!before_in(rule, u[i + 1], u[i]));
                } else if q == s.len() - 1 {
                    assert(t[i] == x);
                } else {
                    assert(t[i] == s[s.len() - 2]);
                    assert(!before_in(rule, s[s.len() - 2 + 1], s[s.len() - 2]));
                }
            }
        }
        q
    } else {
        assert(s.push(x) =~= s.insert(s.len() as int, x));
        if ascending(rule, s) {
            let t = s.push(x);
            assert forall|i: int| 0 <= i < t.len() - 1 implies !before_in(
                rule,
                #[trigger] t[i + 1],
                t[i],
            ) by {
                if i + 1 < s.len() {
                    assert(!before_in(rule, s[i + 1], s[i]));
                }
            }
        }
        s.len() as int
    }
}

/// Arranging loses no record and adds none, and what it yields is ascending.
pub proof fn lemma_arranged(rule: Arrangement, s: Seq<Seq<char>>)
    ensures
        arranged(rule, s).len() == s.len(),
        arranged(rule, s).to_multiset() == s.to_multiset(),
        ascending(rule, arranged(rule, s)),
    decreases s.len(),
{
    broadcast use vstd::seq_lib::to_multiset_build;

    if s.len() > 0 {
        lemma_arranged(rule, s.drop_last());
        let p = lemma_place(rule, arranged(rule, s.drop_last()), s.last());
        assert(s.drop_last().push(s.last()) =~= s);
        vstd::seq_lib::to_multiset_build(s.drop_last(), s.last());
    } else {
        assert(s =~= Seq::<Seq<char>>::empty());
    }
}

/// Arranging an ascending sequence changes nothing.
pub proof fn lemma_arranged_fixes_ascending(rule: Arrangement, s: Seq<Seq<char>>)
    requires
        ascending(rule, s),
    ensures
        arranged(rule, s) == s,
    decreases s.len(),
{
    if s.len() > 0 {
        let d = s.drop_last();
        assert(ascending(rule, d)) by {
            assert forall|i: int| 0 <= i < d.len() - 1 implies !before_in(
                rule,
                #[trigger] d[i + 1],
                d[i],
            ) by {
                assert(!before_in(rule, s[i + 1], s[i]));
            }
        }
        lemma_arranged_fixes_ascending(rule, d);
        if d.len() > 0 {
            assert(!before_in(rule, s[d.len() - 1 + 1], s[d.len() - 1]));
        }
        assert(d.push(s.last()) =~= s);
    }
}

/// Arranging keeps a sequence of IP-shaped records one, and likewise a
/// sequence without any.
pub proof fn lemma_arranged_keeps_shape(rule: Arrangement, s: Seq<Seq<char>>)
    ensures
        all_ip(s) ==> all_ip(arranged(rule, s)),
        none_ip(s) ==> none_ip(arranged(rule, s)),
{
    lemma_arranged(rule, s);
    let t = arranged(rule, s);
    assert forall|i: int| 0 <= i < t.len() implies s.contains(#[trigger] t[i]) by {
        assert(t.contains(t[i]));
        vstd::seq_lib::to_multiset_contains(t, t[i]);
        vstd::seq_lib::to_multiset_contains(s, t[i]);
    }
    if all_ip(s) {
        assert forall|i: int| 0 <= i < t.len() implies is_ip_text(#[trigger] t[i]) by {
            assert(s.contains(t[i]));
        }
    }
    if none_ip(s) {
        assert forall|i: int| 0 <= i < t.len() implies !is_ip_text(#[trigger] t[i]) by {
            assert(s.contains(t[i]));
        }
    }
}

/// The two halves of the partition: one holds IP-shaped records only, the
/// other none, and between them they hold each record of `s` as often as `s` does.
pub proof fn lemma_partition(s: Seq<Seq<char>>)
    ensures
        all_ip(ip_records(s)),
        none_ip(text_records(s)),
        ip_records(s).len() + text_records(s).len() == s.len(),
        ip_records(s).to_multiset().add(text_records(s).to_multiset()) == s.to_multiset(),
    decreases s.len(),
{
    broadcast use vstd::seq_lib::to_multiset_build;

    if s.len() > 0 {
        lemma_partition(s.drop_last());
        assert(s.drop_last().push(s.last()) =~= s);
        let a = ip_records(s.drop_last()).to_multiset();
        let b = text_records(s.drop_last()).to_multiset();
        if is_ip_text(s.last()) {
            assert(a.insert(s.last()).add(b) =~= a.add(b).insert(s.last()));
        } else {
            assert(a.add(b.insert(s.last())) =~= a.add(b).insert(s.last()));
        }
    } else {
        assert(Seq::<Seq<char>>::empty().to_multiset().add(
            Seq::<Seq<char>>::empty().to_multiset(),
        ) =~= s.to_multiset()) by {
            s.to_multiset_ensures();
            assert(s =~= Seq::<Seq<char>>::empty());
        }
    }
}

/// Partitioning IP-shaped records followed by other records gives back the two runs.
pub proof fn lemma_partition_of_runs(a: Seq<Seq<char>>, b: Seq<Seq<char>>)
    requires
        all_ip(a),
        none_ip(b),
    ensures
        ip_records(a + b) == a,
        text_records(a + b) == b,
    decreases a.len() + b.len(),
{
    let s = a + b;
    if b.len() > 0 {
        assert(s.drop_last() =~= a + b.drop_last());
        assert(s.last() == b.last());
        assert(none_ip(b.drop_last())) by {
            assert forall|i: int| 0 <= i < b.drop_last().len() implies !is_ip_text(
                #[trigger] b.drop_last()[i],
            ) by {
                assert(b.drop_last()[i] == b[i]);
            }
        }
        lemma_partition_of_runs(a, b.drop_last());
        assert(b.drop_last().push(b.last()) =~= b);
    } else if a.len() > 0 {
        assert(s.drop_last() =~= a.drop_last() + b);
        assert(s.last() == a.last());
        assert(all_ip(a.drop_last())) by {
            assert forall|i: int| 0 <= i < a.drop_last().len() implies is_ip_text(
                #[trigger] a.drop_last()[i],
            ) by {
                assert(a.drop_last()[i] == a[i]);
            }
        }
        lemma_partition_of_runs(a.drop_last(), b);
        assert(a.drop_last().push(a.last()) =~= a);
        assert(text_records(s) =~= b);
    } else {
        assert(s =~= Seq::<Seq<char>>::empty());
        assert(ip_records(s) =~= a);
        assert(text_records(s) =~= b);
    }
}

/// Ordering loses no record and adds none: the display sequence holds each
/// record as often as the input does.
pub proof fn law_ordered_is_rearrangement(s: Seq<Seq<char>>)
    ensures
        ordered(s).len() == s.len(),
        ordered(s).to_multiset() == s.to_multiset(),
{
    lemma_partition(s);
    lemma_arranged(Arrangement::Display, ip_records(s));
    lemma_arranged(Arrangement::Display, text_records(s));
    vstd::seq_lib::lemma_multiset_commutative(
        arranged(Arrangement::Display, ip_records(s)),
        arranged(Arrangement::Display, text_records(s)),
    );
}

/// In a display sequence every IP-shaped record stands before every record
/// that is not IP-shaped.
pub proof fn law_ips_come_first(s: Seq<Seq<char>>)
    ensures
        forall|i: int, j: int|
            0 <= i < j < ordered(s).len() && is_ip_text(#[trigger] ordered(s)[j])
                ==> is_ip_text(#[trigger] ordered(s)[i]),
{
    lemma_partition(s);
    lemma_arranged_keeps_shape(Arrangement::Display, ip_records(s));
    lemma_arranged_keeps_shape(Arrangement::Display, text_records(s));
    let a = arranged(Arrangement::Display, ip_records(s));
    let b = arranged(Arrangement::Display, text_records(s));
    assert forall|i: int, j: int|
        0 <= i < j < ordered(s).len() && is_ip_text(#[trigger] ordered(s)[j]) implies is_ip_text(
        #[trigger] ordered(s)[i],
    ) by {
        if j >= a.len() {
            assert(ordered(s)[j] == b[j - a.len()]);
        }
        assert(ordered(s)[i] == a[i]);
    }
}

/// A display sequence is ascending: no record comes before its left
/// neighbour, so numbers do not fall along the IP-shaped records and code
/// point order does not fall along the others.
pub proof fn law_ordered_is_ascending(s: Seq<Seq<char>>)
    ensures
        ascending(Arrangement::Display, ordered(s)),
{
    lemma_partition(s);
    lemma_arranged_keeps_shape(Arrangement::Display, ip_records(s));
    lemma_arranged_keeps_shape(Arrangement::Display, text_records(s));
    lemma_arranged(Arrangement::Display, ip_records(s));
    lemma_arranged(Arrangement::Display, text_records(s));
    let a = arranged(Arrangement::Display, ip_records(s));
    let b = arranged(Arrangement::Display, text_records(s));
    let t = ordered(s);
    assert forall|i: int| 0 <= i < t.len() - 1 implies !comes_before(#[trigger] t[i + 1], t[i]) by {
        if i + 1 < a.len() {
            assert(!comes_before(a[i + 1], a[i]));
        } else if i >= a.len() {
            assert(t[i] == b[i - a.len()]);
            assert(t[i + 1] == b[i - a.len() + 1]);
            assert(!comes_before(b[i - a.len() + 1], b[i - a.len()]));
        } else {
            assert(t[i] == a[i]);
            assert(t[i + 1] == b[0]);
        }
    }
}

/// In an ascending sequence no record comes before any record on its left.
pub proof fn lemma_ascending_all_pairs(rule: Arrangement, s: Seq<Seq<char>>, i: int, j: int)
    requires
        ascending(rule, s),
        0 <= i <= j < s.len(),
    ensures
        !before_in(rule, s[j], s[i]),
    decreases j - i,
{
    if i == j {
        lemma_before_asymmetric(rule, s[i], s[i]);
    } else {
        lemma_ascending_all_pairs(rule, s, i, j - 1);
        assert(!before_in(rule, s[j - 1 + 1], s[j - 1]));
        lemma_not_after_transitive(rule, s[i], s[j - 1], s[j]);
    }
}

/// A display sequence is sorted: of two of its records the one further
/// right never comes before the other, so among IP-shaped records it has no
/// smaller number, and among the rest it does not precede the other in code
/// point order.
pub proof fn law_ordered_is_sorted(s: Seq<Seq<char>>)
    ensures
        forall|i: int, j: int|
            0 <= i < j < ordered(s).len() ==> !comes_before(
                #[trigger] ordered(s)[j],
                #[trigger] ordered(s)[i],
            ),
        forall|i: int, j: int|
            0 <= i < j < ordered(s).len() && is_ip_text(#[trigger] ordered(s)[j]) ==> ip_number(
                #[trigger] ordered(s)[i],
            ) <= ip_number(ordered(s)[j]),
        forall|i: int, j: int|
            0 <= i < j < ordered(s).len() && !is_ip_text(#[trigger] ordered(s)[i]) ==> !text_lt(
                #[trigger] ordered(s)[j],
                ordered(s)[i],
            ),
{
    law_ordered_is_ascending(s);
    law_ips_come_first(s);
    let t = ordered(s);
    assert forall|i: int, j: int| 0 <= i < j < t.len() implies !comes_before(
        #[trigger] t[j],
        #[trigger] t[i],
    ) by {
        lemma_ascending_all_pairs(Arrangement::Display, t, i, j);
    }
}

/// A record that comes before everything in `b` travels through `b` untouched.
pub proof fn lemma_place_passes(rule: Arrangement, a: Seq<Seq<char>>, b: Seq<Seq<char>>, x: Seq<char>)
    requires
        forall|i: int| 0 <= i < b.len() ==> before_in(rule, x, #[trigger] b[i]),
    ensures
        place(rule, a + b, x) == place(rule, a, x) + b,
    decreases b.len(),
{
    if b.len() == 0 {
        assert(a + b =~= a);
        assert(place(rule, a, x) + b =~= place(rule, a, x));
    } else {
        let s = a + b;
        assert(s.last() == b[b.len() - 1]);
        assert(s.drop_last() =~= a + b.drop_last());
        assert forall|i: int| 0 <= i < b.drop_last().len() implies before_in(
            rule,
            x,
            #[trigger] b.drop_last()[i],
        ) by {
            assert(b.drop_last()[i] == b[i]);
        }
        lemma_place_passes(rule, a, b.drop_last(), x);
        assert((place(rule, a, x) + b.drop_last()).push(b.last()) =~= place(rule, a, x) + b);
    }
}

/// A record that comes before nothing in `a` finds its place in what stands behind `a`.
pub proof fn lemma_place_stops(rule: Arrangement, a: Seq<Seq<char>>, b: Seq<Seq<char>>, x: Seq<char>)
    requires
        forall|i: int| 0 <= i < a.len() ==> !before_in(rule, x, #[trigger] a[i]),
    ensures
        place(rule, a + b, x) == a + place(rule, b, x),
    decreases b.len(),
{
    let s = a + b;
    if b.len() == 0 {
        assert(s =~= a);
        if a.len() > 0 {
            assert(!before_in(rule, x, a[a.len() - 1]));
        }
        assert(a.push(x) =~= a + place(rule, b, x));
    } else {
        assert(s.last() == b[b.len() - 1]);
        assert(s.drop_last() =~= a + b.drop_last());
        if before_in(rule, x, b.last()) {
            lemma_place_stops(rule, a, b.drop_last(), x);
            assert((a + place(rule, b.drop_last(), x)).push(b.last()) =~= a + place(rule, b, x));
        } else {
            assert(s.push(x) =~= a + b.push(x));
        }
    }
}

/// Arranging a whole sequence in display order gives its display sequence:
/// one pass over all records does what partitioning and arranging each part does.
pub proof fn law_display_arrangement_is_ordered(s: Seq<Seq<char>>)
    ensures
        arranged(Arrangement::Display, s) == ordered(s),
    decreases s.len(),
{
    let rule = Arrangement::Display;
    if s.len() == 0 {
        assert(ordered(s) =~= Seq::<Seq<char>>::empty());
    } else {
        let d = s.drop_last();
        let x = s.last();
        law_display_arrangement_is_ordered(d);
        lemma_partition(d);
        lemma_arranged_keeps_shape(rule, ip_records(d));
        lemma_arranged_keeps_shape(rule, text_records(d));
        let a = arranged(rule, ip_records(d));
        let b = arranged(rule, text_records(d));
        if is_ip_text(x) {
            lemma_place_passes(rule, a, b, x);
            let grown = ip_records(d).push(x);
            assert(grown.drop_last() =~= ip_records(d));
            assert(arranged(rule, grown) == place(rule, a, x));
        } else {
            lemma_place_stops(rule, a, b, x);
            let grown = text_records(d).push(x);
            assert(grown.drop_last() =~= text_records(d));
            assert(arranged(rule, grown) == place(rule, b, x));
        }
    }
}

/// Ordering twice is ordering once.
pub proof fn law_ordered_idempotent(s: Seq<Seq<char>>)
    ensures
        ordered(ordered(s)) == ordered(s),
{
    lemma_partition(s);
    lemma_arranged_keeps_shape(Arrangement::Display, ip_records(s));
    lemma_arranged_keeps_shape(Arrangement::Display, text_records(s));
    lemma_arranged(Arrangement::Display, ip_records(s));
    lemma_arranged(Arrangement::Display, text_records(s));
    let a = arranged(Arrangement::Display, ip_records(s));
    let b = arranged(Arrangement::Display, text_records(s));
    lemma_partition_of_runs(a, b);
    lemma_arranged_fixes_ascending(Arrangement::Display, a);
    lemma_arranged_fixes_ascending(Arrangement::Display, b);
}

} // verus!
