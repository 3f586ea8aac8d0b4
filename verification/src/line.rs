use crate::text::chars_of;
use vstd::prelude::*;

verus! {

/// Whether `c` is white space: one of the characters that Unicode classes
/// as White_Space.
pub open spec fn is_blank(c: char) -> bool {
    let n = c as int;
    ||| 9 <= n <= 13
    ||| n == 32
    ||| n == 133
    ||| n == 160
    ||| n == 5760
    ||| 8192 <= n <= 8202
    ||| n == 8232
    ||| n == 8233
    ||| n == 8239
    ||| n == 8287
    ||| n == 12288
}

/// `s` without the white space at its two ends.
pub open spec fn trimmed(s: Seq<char>) -> Seq<char>
    decreases s.len(),
{
    if s.len() == 0 {
        s
    } else if is_blank(s[0]) {
        trimmed(s.drop_first())
    } else if is_blank(s.last()) {
        trimmed(s.drop_last())
    } else {
        s
    }
}

/// Whether `s` can stand as a record: not empty, and no white space at either end.
pub open spec fn is_record(s: Seq<char>) -> bool {
    s.len() > 0 && !is_blank(s[0]) && !is_blank(s.last())
}

/// Trimming cuts `s` down to the stretch from its first to its last
/// character that is not white space.
pub proof fn lemma_trimmed_is_subrange(s: Seq<char>, from: int, to: int)
    requires
        0 <= from <= to <= s.len(),
        forall|i: int| 0 <= i < from ==> is_blank(#[trigger] s[i]),
        forall|i: int| to <= i < s.len() ==> is_blank(#[trigger] s[i]),
        from < to ==> !is_blank(s[from]) && !is_blank(s[to - 1]),
    ensures
        trimmed(s) == s.subrange(from, to),
    decreases s.len(),
{
    if s.len() == 0 {
        assert(s.subrange(from, to) =~= s);
    } else if from > 0 {
        let t = s.drop_first();
        assert forall|i: int| to - 1 <= i < t.len() implies is_blank(#[trigger] t[i]) by {
            assert(t[i] == s[i + 1]);
        }
        assert forall|i: int| 0 <= i < from - 1 implies is_blank(#[trigger] t[i]) by {
            assert(t[i] == s[i + 1]);
        }
        lemma_trimmed_is_subrange(t, from - 1, to - 1);
        assert(t.subrange(from - 1, to - 1) =~= s.subrange(from, to));
    } else if to < s.len() {
        let t = s.drop_last();
        if to == 0 {
            assert(is_blank(s[0]));
            let u = s.drop_first();
            assert forall|i: int| 0 <= i < u.len() implies is_blank(#[trigger] u[i]) by {
                assert(u[i] == s[i + 1]);
            }
            lemma_trimmed_is_subrange(u, 0, 0);
            assert(u.subrange(0, 0) =~= s.subrange(0, 0));
        } else {
            assert forall|i: int| to <= i < t.len() implies is_blank(#[trigger] t[i]) by {
                assert(t[i] == s[i]);
            }
            lemma_trimmed_is_subrange(t, 0, to);
            assert(t.subrange(0, to) =~= s.subrange(0, to));
        }
    } else {
        assert(s.subrange(0, to) =~= s);
    }
}

/// What is left after trimming is empty or can stand as a record.
pub proof fn lemma_trimmed_is_record(s: Seq<char>)
    ensures
        trimmed(s).len() == 0 || is_record(trimmed(s)),
    decreases s.len(),
{
    if s.len() > 0 {
        if is_blank(s[0]) {
            lemma_trimmed_is_record(s.drop_first());
        } else if is_blank(s.last()) {
            lemma_trimmed_is_record(s.drop_last());
        }
    }
}

/// Whether `c` is white space.
pub fn blank(c: char) -> (r: bool)
    ensures
        r == is_blank(c),
{
    let n: u32 = c as u32;
    (9 <= n && n <= 13) || n == 32 || n == 133 || n == 160 || n == 5760 || (8192 <= n && n
        <= 8202) || n == 8232 || n == 8233 || n == 8239 || n == 8287 || n == 12288
}

/// The record that a line of input stands for: the line without the white
/// space at its ends, or `None` where nothing is left of it.
pub fn normalize(line: &str) -> (r: Option<String>)
    ensures
        r is Some <==> trimmed(line@).len() > 0,
        r is Some ==> r->0@ == trimmed(line@),
{
    let chars = chars_of(line);
    let n: usize = chars.len();
    let mut from: usize = 0;
    while from < n && blank(chars[from])
        invariant
            from <= n,
            n == chars@.len(),
            forall|i: int| 0 <= i < from ==> is_blank(#[trigger] chars@[i]),
        decreases n - from,
    {
        from += 1;
    }
    let mut to: usize = n;
    while to > from && blank(chars[to - 1])
        invariant
            from <= to <= n,
            n == chars@.len(),
            forall|i: int| to <= i < n ==> is_blank(#[trigger] chars@[i]),
        decreases to,
    {
        to -= 1;
    }
    proof {
        lemma_trimmed_is_subrange(line@, from as int, to as int);
    }
    if from == to {
        None
    } else {
        Some(line.substring_char(from, to).to_owned())
    }
}

} // verus!
