//! Unicode white space and trimming, over sequences of characters.

use vstd::prelude::*;

verus! {

/// Whether `c` has the Unicode property `White_Space`.
pub open spec fn is_whitespace(c: char) -> bool {
    let n = c as u32;
    ||| 0x09 <= n <= 0x0D
    ||| n == 0x20
    ||| n == 0x85
    ||| n == 0xA0
    ||| n == 0x1680
    ||| 0x2000 <= n <= 0x200A
    ||| n == 0x2028
    ||| n == 0x2029
    ||| n == 0x202F
    ||| n == 0x205F
    ||| n == 0x3000
}

/// `s` without its longest prefix of white space.
pub open spec fn trim_start(s: Seq<char>) -> Seq<char>
    decreases s.len(),
{
    if s.len() > 0 && is_whitespace(s.first()) {
        trim_start(s.drop_first())
    } else {
        s
    }
}

/// `s` without its longest suffix of white space.
pub open spec fn trim_end(s: Seq<char>) -> Seq<char>
    decreases s.len(),
{
    if s.len() > 0 && is_whitespace(s.last()) {
        trim_end(s.drop_last())
    } else {
        s
    }
}

/// `s` without the white space that surrounds it.
pub open spec fn trim(s: Seq<char>) -> Seq<char> {
    trim_end(trim_start(s))
}

/// Whether `s` neither begins nor ends with white space.
pub open spec fn is_trimmed(s: Seq<char>) -> bool {
    s.len() > 0 ==> !is_whitespace(s.first()) && !is_whitespace(s.last())
}

/// Whether `s` holds nothing but white space.
pub open spec fn is_blank(s: Seq<char>) -> bool {
    trim(s).len() == 0
}

/// Decides [`is_whitespace`].
pub fn is_space(c: char) -> (b: bool)
    ensures
        b == is_whitespace(c),
{
    let n: u32 = c as u32;
    (0x09 <= n && n <= 0x0D) || n == 0x20 || n == 0x85 || n == 0xA0 || n == 0x1680 || (0x2000 <= n
        && n <= 0x200A) || n == 0x2028 || n == 0x2029 || n == 0x202F || n == 0x205F || n == 0x3000
}

/// Where the trimmed part of `s` begins and ends: `s[from..to]` is `trim(s)`, and
/// `s[from..]` is `trim_start(s)`.
pub(crate) fn trim_bounds(s: &[char]) -> (bounds: (usize, usize))
    ensures
        bounds.0 <= bounds.1 <= s@.len(),
        s@.subrange(bounds.0 as int, s@.len() as int) == trim_start(s@),
        s@.subrange(bounds.0 as int, bounds.1 as int) == trim(s@),
{
    let n = s.len();
    let mut from: usize = 0;
    while from < n && is_space(s[from])
        invariant
            from <= n == s@.len(),
            forall|j: int| 0 <= j < from ==> is_whitespace(s@[j]),
        decreases n - from,
    {
        from += 1;
    }
    let mut to: usize = n;
    while to > from && is_space(s[to - 1])
        invariant
            from <= to <= n == s@.len(),
            forall|j: int| to <= j < n ==> is_whitespace(s@[j]),
        decreases to,
    {
        to -= 1;
    }
    proof {
        let rest = s@.subrange(from as int, n as int);
        lemma_trim_start_at(s@, from as int);
        lemma_trim_end_at(rest, to - from);
        assert(rest.subrange(0, to - from) =~= s@.subrange(from as int, to as int));
    }
    (from, to)
}

/// If `s` is white space up to `from` and not at `from`, `trim_start` cuts at `from`.
pub proof fn lemma_trim_start_at(s: Seq<char>, from: int)
    requires
        0 <= from <= s.len(),
        forall|j: int| 0 <= j < from ==> is_whitespace(s[j]),
        from < s.len() ==> !is_whitespace(s[from]),
    ensures
        trim_start(s) == s.subrange(from, s.len() as int),
    decreases from,
{
    if from == 0 {
        assert(s.subrange(0, s.len() as int) =~= s);
    } else {
        let tail = s.drop_first();
        assert forall|j: int| 0 <= j < from - 1 implies is_whitespace(tail[j]) by {
            assert(tail[j] == s[j + 1]);
        }
        lemma_trim_start_at(tail, from - 1);
        assert(tail.subrange(from - 1, tail.len() as int) =~= s.subrange(from, s.len() as int));
    }
}

/// If `s` is white space from `to` on and not just before `to`, `trim_end` cuts at `to`.
pub proof fn lemma_trim_end_at(s: Seq<char>, to: int)
    requires
        0 <= to <= s.len(),
        forall|j: int| to <= j < s.len() ==> is_whitespace(s[j]),
        0 < to ==> !is_whitespace(s[to - 1]),
    ensures
        trim_end(s) == s.subrange(0, to),
    decreases s.len() - to,
{
    if to == s.len() {
        assert(s.subrange(0, to) =~= s);
    } else {
        let head = s.drop_last();
        lemma_trim_end_at(head, to);
        assert(head.subrange(0, to) =~= s.subrange(0, to));
    }
}

/// What `trim_start` leaves does not begin with white space.
pub proof fn lemma_trim_start_first(s: Seq<char>)
    ensures
        trim_start(s).len() > 0 ==> !is_whitespace(trim_start(s).first()),
    decreases s.len(),
{
    if s.len() > 0 && is_whitespace(s.first()) {
        lemma_trim_start_first(s.drop_first());
    }
}

/// What `trim_end` leaves does not end with white space, and begins as `s` does.
pub proof fn lemma_trim_end_last(s: Seq<char>)
    ensures
        trim_end(s).len() > 0 ==> !is_whitespace(trim_end(s).last()) && trim_end(s).first()
            == s.first(),
    decreases s.len(),
{
    if s.len() > 0 && is_whitespace(s.last()) {
        lemma_trim_end_last(s.drop_last());
    }
}

/// What `trim` leaves neither begins nor ends with white space, and trimming it again
/// changes nothing.
pub proof fn lemma_trim_is_trimmed(s: Seq<char>)
    ensures
        is_trimmed(trim(s)),
        trim(trim(s)) == trim(s),
{
    lemma_trim_start_first(s);
    lemma_trim_end_last(trim_start(s));
}

/// Trimming changes a sequence exactly when it begins or ends with white space.
pub proof fn lemma_trim_of_trimmed(s: Seq<char>)
    ensures
        is_trimmed(s) <==> trim(s) == s,
{
    if !is_trimmed(s) {
        lemma_trim_is_trimmed(s);
    }
}

/// `trim_end` keeps everything up to a character that is no white space.
pub proof fn lemma_trim_end_keeps(s: Seq<char>, at: int)
    requires
        0 <= at < s.len(),
        !is_whitespace(s[at]),
    ensures
        trim_end(s).len() > at,
    decreases s.len(),
{
    if is_whitespace(s.last()) {
        lemma_trim_end_keeps(s.drop_last(), at);
    }
}

/// A sequence is blank exactly when each of its characters is white space.
pub proof fn lemma_blank_is_all_whitespace(s: Seq<char>)
    ensures
        is_blank(s) <==> forall|j: int| 0 <= j < s.len() ==> is_whitespace(s[j]),
    decreases s.len(),
{
    if s.len() > 0 && is_whitespace(s.first()) {
        let tail = s.drop_first();
        lemma_blank_is_all_whitespace(tail);
        if is_blank(tail) {
            assert forall|j: int| 0 <= j < s.len() implies is_whitespace(s[j]) by {
                if j > 0 {
                    assert(s[j] == tail[j - 1]);
                }
            }
        } else {
            let j = choose|j: int| 0 <= j < tail.len() && !is_whitespace(tail[j]);
            assert(!is_whitespace(s[j + 1]));
        }
    } else if s.len() > 0 {
        lemma_trim_end_keeps(s, 0);
    }
}

} // verus!
