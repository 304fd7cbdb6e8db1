//! Facts about sequences.

use vstd::prelude::*;

verus! {

/// The first position of `x` in `s`, or the length of `s` where it does not occur.
pub open spec fn first_index<T>(s: Seq<T>, x: T) -> int
    decreases s.len(),
{
    if s.len() == 0 || s[0] == x {
        0
    } else {
        1 + first_index(s.drop_first(), x)
    }
}

/// What `first_index` finds is the least position of the element.
pub proof fn lemma_first_index<T>(s: Seq<T>, x: T)
    ensures
        0 <= first_index(s, x) <= s.len(),
        first_index(s, x) < s.len() <==> s.contains(x),
        first_index(s, x) < s.len() ==> s[first_index(s, x)] == x,
        forall|j: int| 0 <= j < first_index(s, x) ==> s[j] != x,
    decreases s.len(),
{
    if s.len() == 0 {
    } else if s[0] == x {
        assert(s.contains(x));
    } else {
        let t = s.drop_first();
        lemma_first_index(t, x);
        assert(t.contains(x) ==> s.contains(x)) by {
            if t.contains(x) {
                let k = choose|k: int| 0 <= k < t.len() && t[k] == x;
                assert(s[k + 1] == x);
            }
        }
        assert(s.contains(x) ==> t.contains(x)) by {
            if s.contains(x) {
                let k = choose|k: int| 0 <= k < s.len() && s[k] == x;
                assert(t[k - 1] == x);
            }
        }
        assert forall|j: int| 0 <= j < first_index(s, x) implies s[j] != x by {
            if j > 0 {
                assert(s[j] == t[j - 1]);
            }
        }
    }
}

/// A position that holds the element, with no earlier one, is the first position.
pub proof fn lemma_first_index_is<T>(s: Seq<T>, x: T, i: int)
    requires
        0 <= i <= s.len(),
        i < s.len() ==> s[i] == x,
        forall|j: int| 0 <= j < i ==> s[j] != x,
    ensures
        first_index(s, x) == i,
{
    lemma_first_index(s, x);
    if i < s.len() {
        assert(s.contains(x));
    }
}

/// The number of positions of `s` that hold `x`.
pub open spec fn occurrences<T>(s: Seq<T>, x: T) -> nat
    decreases s.len(),
{
    if s.len() == 0 {
        0
    } else {
        occurrences(s.drop_last(), x) + if s.last() == x {
            1nat
        } else {
            0nat
        }
    }
}

/// The positions that hold an element.
pub open spec fn positions_of<T>(s: Seq<T>, x: T) -> Set<int> {
    Set::new(|i: int| 0 <= i < s.len() && s[i] == x)
}

/// An element occurs as often as there are positions that hold it.
pub proof fn occurrences_are_positions<T>(s: Seq<T>, x: T)
    ensures
        positions_of(s, x).finite(),
        occurrences(s, x) == positions_of(s, x).len(),
    decreases s.len(),
{
    let all = positions_of(s, x);
    if s.len() == 0 {
        assert(all =~= Set::<int>::empty());
    } else {
        let t = s.drop_last();
        let before = positions_of(t, x);
        occurrences_are_positions(t, x);
        if s.last() == x {
            assert(all =~= before.insert(s.len() - 1));
            assert(!before.contains(s.len() - 1));
        } else {
            assert(all =~= before);
        }
    }
}

/// The element at a position occurs less often before that position than in all.
pub proof fn lemma_rank<T>(s: Seq<T>, i: int)
    requires
        0 <= i < s.len(),
    ensures
        occurrences(s.take(i), s[i]) < occurrences(s, s[i]),
    decreases s.len(),
{
    if i == s.len() - 1 {
        assert(s.take(i) =~= s.drop_last());
    } else {
        lemma_rank(s.drop_last(), i);
        assert(s.drop_last().take(i) =~= s.take(i));
    }
}

/// Of two prefixes of a list the longer one holds an element at least as often, and more often
/// where the element stands right behind the shorter one.
pub proof fn lemma_occurrences_grow<T>(s: Seq<T>, x: T, i: int, j: int)
    requires
        0 <= i < j <= s.len(),
    ensures
        occurrences(s.take(i), x) <= occurrences(s.take(j), x),
        s[i] == x ==> occurrences(s.take(i), x) < occurrences(s.take(j), x),
    decreases j,
{
    assert(s.take(j).drop_last() =~= s.take(j - 1));
    if i < j - 1 {
        lemma_occurrences_grow(s, x, i, j - 1);
    }
}

/// What a filter keeps comes from the list and meets the condition.
pub proof fn lemma_filter_elements<T>(s: Seq<T>, pred: spec_fn(T) -> bool)
    ensures
        forall|i: int|
            0 <= i < s.filter(pred).len() ==> s.contains(#[trigger] s.filter(pred)[i]) && pred(
                s.filter(pred)[i],
            ),
    decreases s.len(),
{
    reveal(Seq::filter);
    if s.len() > 0 {
        let t = s.drop_last();
        let kept = s.filter(pred);
        lemma_filter_elements(t, pred);
        assert forall|i: int| 0 <= i < kept.len() implies s.contains(#[trigger] kept[i]) && pred(
            kept[i],
        ) by {
            if i < t.filter(pred).len() {
                assert(kept[i] == t.filter(pred)[i]);
                let k = choose|k: int| 0 <= k < t.len() && t[k] == t.filter(pred)[i];
                assert(s[k] == kept[i]);
            } else {
                assert(s[s.len() - 1] == kept[i]);
            }
        }
    }
}

/// A filter keeps every element that meets the condition.
pub proof fn lemma_filter_keeps<T>(s: Seq<T>, pred: spec_fn(T) -> bool, i: int)
    requires
        0 <= i < s.len(),
        pred(s[i]),
    ensures
        s.filter(pred).contains(s[i]),
    decreases s.len(),
{
    reveal(Seq::filter);
    let t = s.drop_last();
    let kept = s.filter(pred);
    if i < t.len() {
        lemma_filter_keeps(t, pred, i);
        let k = choose|k: int| 0 <= k < t.filter(pred).len() && t.filter(pred)[k] == s[i];
        assert(kept[k] == s[i]);
    } else {
        assert(kept[kept.len() - 1] == s[i]);
    }
}

/// What a filter keeps first is the first element that meets the condition.
pub proof fn lemma_filter_first<T>(s: Seq<T>, pred: spec_fn(T) -> bool, i: int)
    requires
        0 <= i < s.len(),
        pred(s[i]),
        forall|j: int| 0 <= j < i ==> !pred(#[trigger] s[j]),
    ensures
        s.filter(pred).len() > 0,
        s.filter(pred)[0] == s[i],
    decreases s.len(),
{
    reveal(Seq::filter);
    let t = s.drop_last();
    assert forall|j: int| 0 <= j < i implies !pred(#[trigger] t[j]) by {
        assert(t[j] == s[j]);
    }
    if i < t.len() {
        lemma_filter_first(t, pred, i);
    } else {
        lemma_filter_elements(t, pred);
        if t.filter(pred).len() > 0 {
            assert(t.contains(t.filter(pred)[0]));
        }
    }
}

/// A filter keeps the whole list where all of it meets the condition.
pub proof fn lemma_filter_all<T>(s: Seq<T>, pred: spec_fn(T) -> bool)
    requires
        forall|i: int| 0 <= i < s.len() ==> pred(#[trigger] s[i]),
    ensures
        s.filter(pred) == s,
    decreases s.len(),
{
    reveal(Seq::filter);
    if s.len() > 0 {
        let t = s.drop_last();
        assert forall|i: int| 0 <= i < t.len() implies pred(#[trigger] t[i]) by {
            assert(t[i] == s[i]);
        }
        lemma_filter_all(t, pred);
        assert(pred(s[s.len() - 1]));
        assert(t.push(s.last()) =~= s);
    }
}

/// A filter keeps the elements of a list apart.
pub proof fn lemma_filter_distinct<T>(s: Seq<T>, pred: spec_fn(T) -> bool)
    requires
        s.no_duplicates(),
    ensures
        s.filter(pred).no_duplicates(),
    decreases s.len(),
{
    reveal(Seq::filter);
    if s.len() > 0 {
        let t = s.drop_last();
        lemma_filter_distinct(t, pred);
        lemma_filter_elements(t, pred);
        assert forall|j: int| 0 <= j < t.filter(pred).len() implies #[trigger] t.filter(pred)[j]
            != s.last() by {
            assert(t.contains(t.filter(pred)[j]));
        }
    }
}

/// A filter that drops an element which another one keeps, and keeps none that the other one
/// drops, keeps fewer.
pub proof fn lemma_filter_shrinks<T>(
    s: Seq<T>,
    wide: spec_fn(T) -> bool,
    narrow: spec_fn(T) -> bool,
    x: T,
)
    requires
        forall|e: T| #[trigger] narrow(e) ==> wide(e),
        wide(x),
        !narrow(x),
    ensures
        s.filter(narrow).len() <= s.filter(wide).len(),
        s.contains(x) ==> s.filter(narrow).len() < s.filter(wide).len(),
    decreases s.len(),
{
    reveal(Seq::filter);
    if s.len() > 0 {
        let t = s.drop_last();
        lemma_filter_shrinks(t, wide, narrow, x);
        assert(narrow(s.last()) ==> wide(s.last()));
        if s.contains(x) && s.last() != x {
            let k = choose|k: int| 0 <= k < s.len() && s[k] == x;
            assert(t[k] == x);
        }
    }
}

} // verus!
