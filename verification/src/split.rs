//! Cutting a sequence of characters at every occurrence of a separator.

use vstd::prelude::*;

verus! {

/// The pieces of `s` between the occurrences of `sep`, in order.
///
/// There is always one piece more than `s` holds separators: the empty sequence has
/// one empty piece, and a separator at either end borders an empty piece.
pub open spec fn split(s: Seq<char>, sep: char) -> Seq<Seq<char>>
    decreases s.len(),
{
    if s.len() == 0 {
        seq![Seq::empty()]
    } else {
        let before = split(s.drop_last(), sep);
        if s.last() == sep {
            before.push(Seq::empty())
        } else {
            before.drop_last().push(before.last().push(s.last()))
        }
    }
}

/// The pieces joined again, with one `sep` between neighbours.
pub open spec fn join(pieces: Seq<Seq<char>>, sep: char) -> Seq<char>
    decreases pieces.len(),
{
    if pieces.len() == 0 {
        Seq::empty()
    } else if pieces.len() == 1 {
        pieces[0]
    } else {
        join(pieces.drop_last(), sep).push(sep) + pieces.last()
    }
}

/// Whether `bounds` marks, piece by piece, where the pieces of `s` lie in `s`: the
/// first piece begins where `s` begins, and each other piece one past the end of the
/// piece before it.
pub open spec fn marks_pieces(bounds: Seq<(usize, usize)>, s: Seq<char>, sep: char) -> bool {
    &&& bounds.len() == split(s, sep).len()
    &&& bounds[0].0 == 0
    &&& forall|k: int| 0 < k < bounds.len() ==> (#[trigger] bounds[k]).0 == bounds[k - 1].1 + 1
    &&& forall|k: int|
        0 <= k < bounds.len() ==> {
            &&& (#[trigger] bounds[k]).0 <= bounds[k].1 <= s.len()
            &&& s.subrange(bounds[k].0 as int, bounds[k].1 as int) == split(s, sep)[k]
        }
}

/// Where each piece of `s` begins and ends.
pub(crate) fn split_bounds(s: &[char], sep: char) -> (bounds: Vec<(usize, usize)>)
    ensures
        marks_pieces(bounds@, s@, sep),
{
    let n = s.len();
    let mut bounds: Vec<(usize, usize)> = Vec::new();
    let mut start: usize = 0;
    let mut i: usize = 0;
    proof {
        assert(s@.take(0) =~= Seq::<char>::empty());
        assert(s@.subrange(0, 0) =~= Seq::<char>::empty());
        assert(split(s@.take(0), sep) =~= Seq::<Seq<char>>::empty().push(s@.subrange(0, 0)));
    }
    while i < n
        invariant
            start <= i <= n == s@.len(),
            split(s@.take(i as int), sep).len() == bounds.len() + 1,
            split(s@.take(i as int), sep).last() == s@.subrange(start as int, i as int),
            bounds.len() == 0 ==> start == 0,
            bounds.len() > 0 ==> bounds[0].0 == 0 && start == bounds[bounds.len() - 1].1 + 1,
            forall|k: int| 0 < k < bounds.len() ==> (#[trigger] bounds[k]).0 == bounds[k - 1].1 + 1,
            forall|k: int|
                0 <= k < bounds.len() ==> {
                    &&& (#[trigger] bounds[k]).0 <= bounds[k].1 <= n
                    &&& s@.subrange(bounds[k].0 as int, bounds[k].1 as int) == split(
                        s@.take(i as int),
                        sep,
                    )[k]
                },
        decreases n - i,
    {
        proof {
            assert(s@.take(i + 1).drop_last() =~= s@.take(i as int));
            assert(s@.subrange(start as int, i + 1) =~= s@.subrange(start as int, i as int).push(
                s@[i as int],
            ));
            assert(s@.subrange(i + 1, i + 1) =~= Seq::<char>::empty());
        }
        if s[i] == sep {
            bounds.push((start, i));
            start = i + 1;
        }
        i += 1;
    }
    bounds.push((start, n));
    proof {
        assert(s@.take(n as int) =~= s@);
    }
    bounds
}

/// A sequence without separators is one piece.
pub proof fn lemma_split_without_sep(s: Seq<char>, sep: char)
    requires
        !s.contains(sep),
    ensures
        split(s, sep) == seq![s],
    decreases s.len(),
{
    if s.len() == 0 {
        assert(s =~= Seq::empty());
    } else {
        let head = s.drop_last();
        assert(s.last() != sep) by {
            assert(s[s.len() - 1] == s.last());
        }
        assert(!head.contains(sep)) by {
            if head.contains(sep) {
                let k = choose|k: int| 0 <= k < head.len() && head[k] == sep;
                assert(s[k] == sep);
            }
        }
        lemma_split_without_sep(head, sep);
        assert(head.push(s.last()) =~= s);
        assert(split(s, sep) =~= seq![s]);
    }
}

/// A separator parts the pieces before it from the pieces after it.
pub proof fn lemma_split_concat(a: Seq<char>, b: Seq<char>, sep: char)
    ensures
        split(a.push(sep) + b, sep) == split(a, sep) + split(b, sep),
    decreases b.len(),
{
    let whole = a.push(sep) + b;
    if b.len() == 0 {
        assert(whole =~= a.push(sep));
        assert(whole.drop_last() =~= a);
        assert(split(whole, sep) =~= split(a, sep) + split(b, sep));
    } else {
        let head = b.drop_last();
        lemma_split_concat(a, head, sep);
        assert(whole.drop_last() =~= a.push(sep) + head);
        assert(whole.last() == b.last());
        let left = split(a, sep);
        let right = split(head, sep);
        if b.last() == sep {
            assert((left + right).push(Seq::empty()) =~= left + right.push(Seq::empty()));
        } else {
            assert((left + right).drop_last() =~= left + right.drop_last());
            assert((left + right).last() == right.last());
            assert((left + right.drop_last()).push(right.last().push(b.last())) =~= left
                + right.drop_last().push(right.last().push(b.last())));
        }
    }
}

/// No piece holds a separator.
pub proof fn lemma_pieces_without_sep(s: Seq<char>, sep: char)
    ensures
        forall|k: int| 0 <= k < split(s, sep).len() ==> !(#[trigger] split(s, sep)[k]).contains(sep),
    decreases s.len(),
{
    if s.len() > 0 {
        let before = split(s.drop_last(), sep);
        lemma_pieces_without_sep(s.drop_last(), sep);
        assert forall|k: int| 0 <= k < split(s, sep).len() implies !(#[trigger] split(
            s,
            sep,
        )[k]).contains(sep) by {
            if k < before.len() - 1 {
                assert(split(s, sep)[k] == before[k]);
            } else if s.last() != sep {
                let piece = before.last().push(s.last());
                assert(split(s, sep)[k] == piece);
                if piece.contains(sep) {
                    let j = choose|j: int| 0 <= j < piece.len() && piece[j] == sep;
                    assert(before.last()[j] == sep);
                }
            } else if k < before.len() {
                assert(split(s, sep)[k] == before[k]);
            }
        }
    }
}

/// Joining the pieces of a sequence gives the sequence back.
pub proof fn lemma_join_split(s: Seq<char>, sep: char)
    ensures
        join(split(s, sep), sep) == s,
    decreases s.len(),
{
    if s.len() == 0 {
        assert(s =~= Seq::empty());
    } else {
        let head = s.drop_last();
        let before = split(head, sep);
        lemma_join_split(head, sep);
        assert(head.push(s.last()) =~= s);
        if s.last() == sep {
            let pieces = before.push(Seq::empty());
            assert(pieces.drop_last() =~= before);
            assert(join(pieces, sep) =~= head.push(sep));
        } else {
            let pieces = before.drop_last().push(before.last().push(s.last()));
            if before.len() == 1 {
                assert(join(pieces, sep) =~= before[0].push(s.last()));
            } else {
                assert(pieces.drop_last() =~= before.drop_last());
                assert(join(pieces, sep) =~= (join(before.drop_last(), sep).push(sep)
                    + before.last()).push(s.last()));
            }
        }
    }
}

/// Splitting what was joined gives the pieces back, if none of them holds a separator.
pub proof fn lemma_split_join(pieces: Seq<Seq<char>>, sep: char)
    requires
        pieces.len() > 0,
        forall|k: int| 0 <= k < pieces.len() ==> !(#[trigger] pieces[k]).contains(sep),
    ensures
        split(join(pieces, sep), sep) == pieces,
    decreases pieces.len(),
{
    if pieces.len() == 1 {
        lemma_split_without_sep(pieces[0], sep);
        assert(seq![pieces[0]] =~= pieces);
    } else {
        let before = pieces.drop_last();
        lemma_split_join(before, sep);
        lemma_split_concat(join(before, sep), pieces.last(), sep);
        lemma_split_without_sep(pieces.last(), sep);
        assert(before + seq![pieces.last()] =~= pieces);
    }
}

} // verus!
