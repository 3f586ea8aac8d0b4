use crate::text::chars_of;
use vstd::prelude::*;

verus! {

/// Whether `c` is one of the ten decimal digits.
pub open spec fn is_digit(c: char) -> bool {
    48 <= (c as int) && (c as int) <= 57
}

/// The number that a run of decimal digits denotes, leading zeros allowed.
/// The empty run denotes zero.
pub open spec fn decimal_value(s: Seq<char>) -> nat
    decreases s.len(),
{
    if s.len() == 0 {
        0
    } else {
        decimal_value(s.drop_last()) * 10 + ((s.last() as int) - 48) as nat
    }
}

/// Whether every character of `s` is a decimal digit.
pub open spec fn all_digits(s: Seq<char>) -> bool {
    forall|i: int| 0 <= i < s.len() ==> is_digit(#[trigger] s[i])
}

/// Whether `s` is one octet of a dotted quad: at least one digit, nothing
/// but digits (so no sign), and a value of at most 255.
pub open spec fn is_octet(s: Seq<char>) -> bool {
    &&& s.len() > 0
    &&& all_digits(s)
    &&& decimal_value(s) <= 255
}

/// The pieces of `s` between its dots. There is always at least one piece;
/// a piece is empty where two dots meet or where `s` begins or ends with a dot.
pub open spec fn split_dots(s: Seq<char>) -> Seq<Seq<char>>
    decreases s.len(),
{
    if s.len() == 0 {
        seq![Seq::<char>::empty()]
    } else {
        let before = split_dots(s.drop_last());
        if s.last() == '.' {
            before.push(Seq::<char>::empty())
        } else {
            before.update(before.len() - 1, before.last().push(s.last()))
        }
    }
}

/// Whether `s` is shaped like an IPv4 address: exactly four pieces between
/// dots, each of them an octet.
pub open spec fn is_ip_text(s: Seq<char>) -> bool {
    let parts = split_dots(s);
    &&& parts.len() == 4
    &&& forall|j: int| 0 <= j < 4 ==> is_octet(#[trigger] parts[j])
}

/// The 32-bit number of a dotted quad, first octet most significant; zero
/// for a text that is no dotted quad.
pub open spec fn ip_number(s: Seq<char>) -> nat {
    if is_ip_text(s) {
        let parts = split_dots(s);
        decimal_value(parts[0]) * 16777216 + decimal_value(parts[1]) * 65536 + decimal_value(
            parts[2],
        ) * 256 + decimal_value(parts[3])
    } else {
        0
    }
}

/// Whether `parts` can still grow into a dotted quad: at most four pieces,
/// all but the last complete octets, and the last one digits of value at most 255.
pub open spec fn well_begun(parts: Seq<Seq<char>>) -> bool {
    &&& 1 <= parts.len() <= 4
    &&& forall|j: int| 0 <= j < parts.len() - 1 ==> is_octet(#[trigger] parts[j])
    &&& all_digits(parts.last())
    &&& decimal_value(parts.last()) <= 255
}

/// Splitting always yields at least one piece.
pub proof fn lemma_split_dots_nonempty(s: Seq<char>)
    ensures
        split_dots(s).len() >= 1,
    decreases s.len(),
{
    if s.len() > 0 {
        lemma_split_dots_nonempty(s.drop_last());
    }
}

/// A piece without a dot splits into itself.
pub proof fn lemma_split_dots_piece(t: Seq<char>)
    requires
        forall|i: int| 0 <= i < t.len() ==> #[trigger] t[i] != '.',
    ensures
        split_dots(t) == seq![t],
    decreases t.len(),
{
    if t.len() == 0 {
        assert(t =~= Seq::<char>::empty());
    } else {
        lemma_split_dots_piece(t.drop_last());
        assert(seq![t.drop_last()].update(0, t.drop_last().push(t.last())) =~= seq![t]) by {
            assert(t.drop_last().push(t.last()) =~= t);
        }
    }
}

/// A dot and a piece without a dot, put behind `s`, add that piece to the pieces of `s`.
pub proof fn lemma_split_dots_append(s: Seq<char>, t: Seq<char>)
    requires
        forall|i: int| 0 <= i < t.len() ==> #[trigger] t[i] != '.',
    ensures
        split_dots(s + seq!['.'] + t) == split_dots(s).push(t),
    decreases t.len(),
{
    let u = s + seq!['.'] + t;
    if t.len() == 0 {
        assert(u.drop_last() =~= s);
        assert(t =~= Seq::<char>::empty());
    } else {
        let v = t.drop_last();
        assert(u.drop_last() =~= s + seq!['.'] + v);
        assert(u.last() == t.last());
        lemma_split_dots_append(s, v);
        let before = split_dots(s).push(v);
        assert(v.push(t.last()) =~= t);
        assert(before.update(before.len() - 1, before.last().push(t.last())) =~= split_dots(
            s,
        ).push(t));
    }
}

/// Four octets joined by dots are a dotted quad, and its number is the four
/// values read as the digits of a number in base 256, the first weighing most.
pub proof fn law_dotted_quad(a: Seq<char>, b: Seq<char>, c: Seq<char>, d: Seq<char>)
    requires
        is_octet(a),
        is_octet(b),
        is_octet(c),
        is_octet(d),
    ensures
        is_ip_text(a + seq!['.'] + b + seq!['.'] + c + seq!['.'] + d),
        ip_number(a + seq!['.'] + b + seq!['.'] + c + seq!['.'] + d) == decimal_value(a) * 16777216
            + decimal_value(b) * 65536 + decimal_value(c) * 256 + decimal_value(d),
        ip_number(a + seq!['.'] + b + seq!['.'] + c + seq!['.'] + d) <= u32::MAX,
{
    lemma_split_dots_piece(a);
    lemma_split_dots_append(a, b);
    lemma_split_dots_append(a + seq!['.'] + b, c);
    lemma_split_dots_append(a + seq!['.'] + b + seq!['.'] + c, d);
    let parts = split_dots(a + seq!['.'] + b + seq!['.'] + c + seq!['.'] + d);
    assert(parts =~= seq![a, b, c, d]);
}

/// The pieces put together again, with a dot between neighbours.
pub open spec fn join_dots(parts: Seq<Seq<char>>) -> Seq<char>
    decreases parts.len(),
{
    if parts.len() == 0 {
        Seq::empty()
    } else if parts.len() == 1 {
        parts[0]
    } else {
        join_dots(parts.drop_last()) + seq!['.'] + parts.last()
    }
}

/// Splitting a text and joining the pieces gives the text back.
pub proof fn lemma_join_split(s: Seq<char>)
    ensures
        join_dots(split_dots(s)) == s,
    decreases s.len(),
{
    if s.len() == 0 {
        assert(join_dots(seq![Seq::<char>::empty()]) =~= s);
    } else {
        let t = s.drop_last();
        let c = s.last();
        let before = split_dots(t);
        lemma_join_split(t);
        lemma_split_dots_nonempty(t);
        assert(t.push(c) =~= s);
        if c == '.' {
            let after = before.push(Seq::<char>::empty());
            assert(after.drop_last() =~= before);
            assert(join_dots(after) =~= t.push(c));
        } else {
            let after = before.update(before.len() - 1, before.last().push(c));
            if before.len() > 1 {
                assert(after.drop_last() =~= before.drop_last());
                assert(join_dots(after) =~= join_dots(before).push(c));
            }
        }
    }
}

/// A dotted quad is its four pieces with dots between them, and nothing else.
pub proof fn law_ip_text_is_dotted_quad(s: Seq<char>)
    requires
        is_ip_text(s),
    ensures
        ({
            let p = split_dots(s);
            &&& is_octet(p[0]) && is_octet(p[1]) && is_octet(p[2]) && is_octet(p[3])
            &&& s == p[0] + seq!['.'] + p[1] + seq!['.'] + p[2] + seq!['.'] + p[3]
        }),
{
    let p = split_dots(s);
    lemma_join_split(s);
    reveal_with_fuel(join_dots, 5);
    assert(p.drop_last().drop_last().drop_last() =~= seq![p[0]]);
    assert(p.drop_last().drop_last() =~= seq![p[0], p[1]]);
    assert(p.drop_last() =~= seq![p[0], p[1], p[2]]);
    assert(join_dots(seq![p[0]]) == p[0]);
    assert(join_dots(seq![p[0], p[1]]) == p[0] + seq!['.'] + p[1]);
    assert(join_dots(seq![p[0], p[1], p[2]]) == p[0] + seq!['.'] + p[1] + seq!['.'] + p[2]);
}

/// Appending one character to a run of digits.
proof fn lemma_digits_push(s: Seq<char>, c: char)
    ensures
        all_digits(s.push(c)) == (all_digits(s) && is_digit(c)),
        decimal_value(s.push(c)) == decimal_value(s) * 10 + ((c as int) - 48) as nat,
        decimal_value(s.push(c)) >= decimal_value(s),
{
    let t = s.push(c);
    assert(t.drop_last() =~= s);
    assert(t.last() == c);
    if all_digits(t) {
        assert forall|i: int| 0 <= i < s.len() implies is_digit(#[trigger] s[i]) by {
            assert(t[i] == s[i]);
        }
        assert(is_digit(t[s.len() as int]));
    }
    if !all_digits(s) {
        let i = choose|i: int| 0 <= i < s.len() && !is_digit(#[trigger] s[i]);
        assert(t[i] == s[i]);
    }
}

/// Reads `chars` as a dotted quad in one pass: its number where it is one,
/// `None` where it is not.
pub fn parse_ip(chars: &Vec<char>) -> (r: Option<u32>)
    ensures
        r is Some <==> is_ip_text(chars@),
        r is Some ==> r->0 == ip_number(chars@),
{
    let mut ok = true;
    let mut octets: Vec<u32> = Vec::new();
    let mut cur: u32 = 0;
    let mut seen_digit = false;
    let mut i: usize = 0;
    while i < chars.len()
        invariant
            i <= chars.len(),
            ok == well_begun(split_dots(chars@.take(i as int))),
            ok ==> ({
                let parts = split_dots(chars@.take(i as int));
                &&& octets@.len() == parts.len() - 1
                &&& forall|j: int| 0 <= j < octets@.len() ==> octets@[j] == decimal_value(#[trigger] parts[j])
                &&& cur == decimal_value(parts.last())
                &&& seen_digit == (parts.last().len() > 0)
            }),
        decreases chars.len() - i,
    {
        let c = chars[i];
        let ghost parts = split_dots(chars@.take(i as int));
        let ghost next = split_dots(chars@.take(i + 1));
        proof {
            assert(chars@.take(i + 1).drop_last() =~= chars@.take(i as int));
            assert(chars@.take(i + 1).last() == c);
            lemma_split_dots_nonempty(chars@.take(i as int));
            lemma_digits_push(parts.last(), c);
            if c == '.' {
                assert(next == parts.push(Seq::<char>::empty()));
                assert(forall|j: int| 0 <= j < parts.len() ==> next[j] == parts[j]);
                if well_begun(next) {
                    assert(forall|j: int| 0 <= j < parts.len() - 1 ==> is_octet(#[trigger] parts[j])) by {
                        assert forall|j: int| 0 <= j < parts.len() - 1 implies is_octet(#[trigger] parts[j]) by {
                            assert(is_octet(next[j]));
                        }
                    }
                    assert(is_octet(next[parts.len() - 1]));
                }
            } else {
                assert(next == parts.update(parts.len() - 1, parts.last().push(c)));
                assert(forall|j: int| 0 <= j < parts.len() - 1 ==> next[j] == parts[j]);
                if well_begun(next) {
                    assert forall|j: int| 0 <= j < parts.len() - 1 implies is_octet(#[trigger] parts[j]) by {
                        assert(is_octet(next[j]));
                    }
                }
            }
        }
        if ok {
            if c == '.' {
                if octets.len() < 3 && seen_digit {
                    octets.push(cur);
                    cur = 0;
                    seen_digit = false;
                } else {
                    ok = false;
                }
            } else if c >= '0' && c <= '9' {
                let d: u32 = (c as u32) - 48;
                let v: u32 = cur * 10 + d;
                if v <= 255 {
                    cur = v;
                    seen_digit = true;
                } else {
                    ok = false;
                }
            } else {
                ok = false;
            }
        }
        i += 1;
    }
    proof {
        assert(chars@.take(i as int) =~= chars@);
    }
    if ok && octets.len() == 3 && seen_digit {
        proof {
            let parts = split_dots(chars@);
            assert(is_octet(parts[0]) && is_octet(parts[1]) && is_octet(parts[2]));
            assert(is_octet(parts[3]));
        }
        let n: u32 = octets[0] * 16777216 + octets[1] * 65536 + octets[2] * 256 + cur;
        Some(n)
    } else {
        None
    }
}

/// Whether `val` is shaped like an IPv4 address. Leading zeros in an octet
/// are accepted; a sign, a blank or an empty piece is not.
pub fn is_ip(val: &String) -> (r: bool)
    ensures
        r == is_ip_text(val@),
{
    let chars = chars_of(val.as_str());
    parse_ip(&chars).is_some()
}

/// The number by which an IP-shaped record is ordered: the dotted quad read
/// as a big-endian 32-bit value. Zero for a text that is no dotted quad.
pub fn ip_to_u32(val: &str) -> (r: u32)
    ensures
        r == ip_number(val@),
{
    let chars = chars_of(val);
    match parse_ip(&chars) {
        Some(n) => n,
        None => 0,
    }
}

} // verus!
