//! Putting items in order of rank, highest first, with equals in the order in which they came.
use vstd::prelude::*;

verus! {

/// What has a rank.
pub trait HasRank: Sized {
    spec fn rank(&self) -> nat;
}

/// An item whose rank can be computed.
pub trait Ranked: HasRank {
    fn rank_of(&self) -> (r: u64)
        ensures
            r == self.rank(),
    ;
}

/// `s`, in order, with `x` behind the last item of at least its rank.
pub open spec fn placed<T: HasRank>(s: Seq<T>, x: T) -> Seq<T>
    decreases s.len(),
{
    if s.len() > 0 && s.last().rank() < x.rank() {
        placed(s.drop_last(), x).push(s.last())
    } else {
        s.push(x)
    }
}

/// The items of `s` in order of rank.
pub open spec fn ranked<T: HasRank>(s: Seq<T>) -> Seq<T>
    decreases s.len(),
{
    if s.len() == 0 {
        s
    } else {
        placed(ranked(s.drop_last()), s.last())
    }
}

/// Whether ranks never rise.
pub open spec fn in_order<T: HasRank>(s: Seq<T>) -> bool {
    forall|i: int, j: int| 0 <= i <= j < s.len() ==> #[trigger] s[i].rank() >= #[trigger] s[j].rank()
}

proof fn lemma_placed_at<T: HasRank>(s: Seq<T>, x: T, i: int)
    requires
        0 <= i <= s.len(),
        i > 0 ==> s[i - 1].rank() >= x.rank(),
        forall|j: int| i <= j < s.len() ==> #[trigger] s[j].rank() < x.rank(),
    ensures
        placed(s, x) == s.insert(i, x),
    decreases s.len(),
{
    if s.len() > 0 && s.last().rank() < x.rank() {
        let rest = s.drop_last();
        lemma_placed_at(rest, x, i);
        assert(rest.insert(i, x).push(s.last()) =~= s.insert(i, x));
    } else {
        assert(i == s.len());
        assert(s.push(x) =~= s.insert(i, x));
    }
}

/// Puts `x` in its place.
pub fn place<T: Ranked>(v: &mut Vec<T>, x: T)
    ensures
        final(v)@ == placed(old(v)@, x),
{
    let mut i: usize = v.len();
    let r = x.rank_of();
    while i > 0 && v[i - 1].rank_of() < r
        invariant
            i <= v@.len(),
            v@ == old(v)@,
            r == x.rank(),
            forall|j: int| i <= j < v@.len() ==> #[trigger] v@[j].rank() < x.rank(),
        decreases i,
    {
        i = i - 1;
    }
    proof {
        lemma_placed_at(v@, x, i as int);
    }
    v.insert(i, x);
}

/// The views of items.
pub open spec fn views<T: View>(s: Seq<T>) -> Seq<T::V> {
    s.map_values(|x: T| x@)
}

/// Putting an item in its place is the same on views, where a view has the rank of its item.
pub proof fn lemma_placed_views<T: HasRank + View>(s: Seq<T>, x: T)
    where T::V: HasRank
    requires
        forall|t: T| (#[trigger] t@).rank() == t.rank(),
    ensures
        views(placed(s, x)) == placed(views(s), x@),
    decreases s.len(),
{
    if s.len() > 0 {
        assert(s.last()@.rank() == s.last().rank());
        assert(x@.rank() == x.rank());
        assert(views(s).last() == s.last()@);
        if s.last().rank() < x.rank() {
            lemma_placed_views(s.drop_last(), x);
            assert(views(s).drop_last() =~= views(s.drop_last()));
            assert(views(placed(s.drop_last(), x).push(s.last())) =~= views(
                placed(s.drop_last(), x),
            ).push(s.last()@));
        } else {
            assert(views(s.push(x)) =~= views(s).push(x@));
        }
    } else {
        assert(views(s.push(x)) =~= views(s).push(x@));
    }
}

/// The items keep their number and are only moved.
pub proof fn law_ranked_same_items<T: HasRank>(s: Seq<T>)
    ensures
        ranked(s).to_multiset() == s.to_multiset(),
        ranked(s).len() == s.len(),
    decreases s.len(),
{
    broadcast use vstd::seq_lib::group_to_multiset_ensures;

    if s.len() > 0 {
        law_ranked_same_items(s.drop_last());
        lemma_placed_items(ranked(s.drop_last()), s.last());
        assert(s.drop_last().push(s.last()) =~= s);
    }
}

proof fn lemma_placed_items<T: HasRank>(s: Seq<T>, x: T)
    ensures
        placed(s, x).to_multiset() == s.to_multiset().insert(x),
        placed(s, x).len() == s.len() + 1,
    decreases s.len(),
{
    broadcast use vstd::seq_lib::group_to_multiset_ensures;

    if s.len() > 0 && s.last().rank() < x.rank() {
        lemma_placed_items(s.drop_last(), x);
        assert(s.drop_last().push(s.last()) =~= s);
        assert(s.to_multiset().insert(x) =~= s.drop_last().to_multiset().insert(x).insert(s.last()));
    }
}

/// The items come out in order of rank.
pub proof fn law_ranked_in_order<T: HasRank>(s: Seq<T>)
    ensures
        in_order(ranked(s)),
    decreases s.len(),
{
    if s.len() > 0 {
        law_ranked_in_order(s.drop_last());
        lemma_placed_in_order(ranked(s.drop_last()), s.last());
    }
}

proof fn lemma_placed_in_order<T: HasRank>(s: Seq<T>, x: T)
    requires
        in_order(s),
    ensures
        in_order(placed(s, x)),
        forall|i: int|
            0 <= i < placed(s, x).len() ==> (#[trigger] placed(s, x)[i]).rank() >= (if s.len() > 0
                && s.last().rank() < x.rank() {
                s.last().rank()
            } else {
                x.rank()
            }),
    decreases s.len(),
{
    if s.len() > 0 && s.last().rank() < x.rank() {
        let rest = s.drop_last();
        lemma_placed_in_order(rest, x);
        let p = placed(rest, x);
        assert forall|i: int| 0 <= i < p.len() implies (#[trigger] p[i]).rank() >= s.last().rank() by {
            if rest.len() > 0 {
                assert(s[rest.len() - 1].rank() >= s[s.len() - 1].rank());
            }
        }
    } else {
        assert forall|i: int| 0 <= i < s.len() implies (#[trigger] s[i]).rank() >= x.rank() by {
            assert(s[i].rank() >= s[s.len() - 1].rank());
        }
    }
}

proof fn lemma_placed_equals<T: HasRank>(s: Seq<T>, x: T, r: nat)
    ensures
        placed(s, x).filter(|y: T| y.rank() == r) == (if x.rank() == r {
            s.filter(|y: T| y.rank() == r).push(x)
        } else {
            s.filter(|y: T| y.rank() == r)
        }),
    decreases s.len(),
{
    reveal(Seq::filter);
    if s.len() > 0 && s.last().rank() < x.rank() {
        lemma_placed_equals(s.drop_last(), x, r);
        let p = placed(s.drop_last(), x).push(s.last());
        assert(p.drop_last() =~= placed(s.drop_last(), x));
    } else {
        assert(s.push(x).drop_last() =~= s);
    }
}

/// Items of one rank stay in the order in which they came.
pub proof fn law_ranked_keeps_equals<T: HasRank>(s: Seq<T>, r: nat)
    ensures
        ranked(s).filter(|y: T| y.rank() == r) == s.filter(|y: T| y.rank() == r),
    decreases s.len(),
{
    reveal(Seq::filter);
    if s.len() > 0 {
        law_ranked_keeps_equals(s.drop_last(), r);
        lemma_placed_equals(ranked(s.drop_last()), s.last(), r);
    }
}

}
