//! Cutting a sequence at a separator.
use vstd::prelude::*;

verus! {

/// The pieces of `s` between the occurrences of `sep`, in order. There is
/// always at least one piece, and a piece may be empty.
pub open spec fn split_on<T>(s: Seq<T>, sep: T) -> Seq<Seq<T>>
    decreases s.len(),
{
    if s.len() == 0 {
        seq![Seq::<T>::empty()]
    } else {
        let before = split_on(s.drop_last(), sep);
        if s.last() == sep {
            before.push(Seq::<T>::empty())
        } else {
            before.drop_last().push(before.last().push(s.last()))
        }
    }
}

/// Splitting never yields zero pieces.
pub proof fn split_has_a_piece<T>(s: Seq<T>, sep: T)
    ensures
        split_on(s, sep).len() >= 1,
    decreases s.len(),
{
    if s.len() > 0 {
        split_has_a_piece(s.drop_last(), sep);
    }
}

/// A sequence that does not hold the separator is its own only piece.
pub proof fn split_without_separator<T>(s: Seq<T>, sep: T)
    requires
        !s.contains(sep),
    ensures
        split_on(s, sep) == seq![s],
    decreases s.len(),
{
    if s.len() > 0 {
        assert(s.last() != sep);
        assert(!s.drop_last().contains(sep)) by {
            assert forall|i: int| 0 <= i < s.len() - 1 implies s.drop_last()[i] != sep by {
                assert(s.contains(s[i]));
            }
        }
        split_without_separator(s.drop_last(), sep);
        assert(s.drop_last().push(s.last()) =~= s);
        assert(split_on(s, sep) =~= seq![s]);
    } else {
        assert(s =~= Seq::<T>::empty());
    }
}

/// Splitting at a separator splits both sides on their own.
pub proof fn split_at_separator<T>(a: Seq<T>, b: Seq<T>, sep: T)
    ensures
        split_on(a.push(sep) + b, sep) == split_on(a, sep) + split_on(b, sep),
    decreases b.len(),
{
    split_has_a_piece(a, sep);
    split_has_a_piece(b, sep);
    let whole = a.push(sep) + b;
    if b.len() == 0 {
        assert(whole =~= a.push(sep));
        assert(whole.drop_last() =~= a);
        assert(split_on(whole, sep) =~= split_on(a, sep) + split_on(b, sep));
    } else {
        split_at_separator(a, b.drop_last(), sep);
        split_has_a_piece(b.drop_last(), sep);
        assert(whole.drop_last() =~= a.push(sep) + b.drop_last());
        assert(split_on(whole, sep) =~= split_on(a, sep) + split_on(b, sep));
    }
}

/// No piece holds the separator.
pub proof fn split_pieces_lack_separator<T>(s: Seq<T>, sep: T, i: int)
    requires
        0 <= i < split_on(s, sep).len(),
    ensures
        !split_on(s, sep)[i].contains(sep),
    decreases s.len(),
{
    if s.len() > 0 {
        let before = split_on(s.drop_last(), sep);
        split_has_a_piece(s.drop_last(), sep);
        if s.last() != sep && i == before.len() - 1 {
            split_pieces_lack_separator(s.drop_last(), sep, i);
            let piece = split_on(s, sep)[i];
            assert(piece == before.last().push(s.last()));
            assert forall|j: int| 0 <= j < piece.len() implies piece[j] != sep by {
                if j < before.last().len() {
                    assert(before.last().contains(before.last()[j]));
                }
            }
        } else if i < before.len() {
            split_pieces_lack_separator(s.drop_last(), sep, i);
        }
    }
}

} // verus!
