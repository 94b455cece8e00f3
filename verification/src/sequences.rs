//! Facts about filtering a sequence by a property that, once it fails, fails
//! for the rest of the sequence.

use vstd::prelude::*;

verus! {

/// `keep` holds for a front part of `s` and for nothing behind it.
pub open spec fn front_closed<A>(s: Seq<A>, keep: spec_fn(A) -> bool) -> bool {
    forall|i: int, j: int| 0 <= i <= j < s.len() && keep(#[trigger] s[j]) ==> keep(#[trigger] s[i])
}

/// A filter that every element passes keeps the sequence as it is.
pub proof fn lemma_filter_keeps_all<A>(s: Seq<A>, keep: spec_fn(A) -> bool)
    requires
        forall|i: int| 0 <= i < s.len() ==> keep(#[trigger] s[i]),
    ensures
        s.filter(keep) == s,
    decreases s.len(),
{
    reveal(Seq::filter);
    if s.len() > 0 {
        lemma_filter_keeps_all(s.drop_last(), keep);
        assert(s.drop_last().push(s.last()) =~= s);
    }
}

/// A filter that no element passes leaves nothing.
pub proof fn lemma_filter_keeps_none<A>(s: Seq<A>, keep: spec_fn(A) -> bool)
    requires
        forall|i: int| 0 <= i < s.len() ==> !keep(#[trigger] s[i]),
    ensures
        s.filter(keep) == Seq::<A>::empty(),
    decreases s.len(),
{
    reveal(Seq::filter);
    if s.len() > 0 {
        lemma_filter_keeps_none(s.drop_last(), keep);
    }
}

/// Filtering twice, the second time by the narrower property, is filtering
/// by the narrower property alone.
pub proof fn lemma_filter_narrower<A>(s: Seq<A>, wide: spec_fn(A) -> bool, narrow: spec_fn(A) -> bool)
    requires
        forall|x: A| #[trigger] narrow(x) ==> wide(x),
    ensures
        s.filter(wide).filter(narrow) == s.filter(narrow),
    decreases s.len(),
{
    reveal(Seq::filter);
    if s.len() > 0 {
        let init = s.drop_last();
        lemma_filter_narrower(init, wide, narrow);
        if wide(s.last()) {
            assert(init.filter(wide).push(s.last()).drop_last() =~= init.filter(wide));
        }
    }
}

/// Where `keep` holds exactly for the first `k` elements, the filter by `keep`
/// is that front part and the filter by its opposite `drop` is the rest.
pub proof fn lemma_filter_at_split<A>(
    s: Seq<A>,
    keep: spec_fn(A) -> bool,
    drop: spec_fn(A) -> bool,
    k: int,
)
    requires
        0 <= k <= s.len(),
        forall|x: A| #[trigger] drop(x) == !keep(x),
        forall|i: int| 0 <= i < k ==> keep(#[trigger] s[i]),
        forall|i: int| k <= i < s.len() ==> !keep(#[trigger] s[i]),
    ensures
        s.filter(keep) == s.take(k),
        s.filter(drop) == s.skip(k),
{
    let front = s.take(k);
    let back = s.skip(k);
    assert(s =~= front + back);
    Seq::filter_distributes_over_add(front, back, keep);
    Seq::filter_distributes_over_add(front, back, drop);
    lemma_filter_keeps_all(front, keep);
    lemma_filter_keeps_none(back, keep);
    assert forall|i: int| 0 <= i < front.len() implies !drop(#[trigger] front[i]) by {
        assert(keep(s[i]));
    }
    assert forall|i: int| 0 <= i < back.len() implies drop(#[trigger] back[i]) by {
        assert(!keep(s[k + i]));
    }
    lemma_filter_keeps_none(front, drop);
    lemma_filter_keeps_all(back, drop);
    assert(front + Seq::<A>::empty() =~= front);
    assert(Seq::<A>::empty() + back =~= back);
}

/// In a sequence where `keep` is closed towards the front, the elements that
/// pass are the first ones, as many as pass.
pub proof fn lemma_front_closed_split<A>(s: Seq<A>, keep: spec_fn(A) -> bool)
    requires
        front_closed(s, keep),
    ensures
        s.filter(keep).len() <= s.len(),
        forall|i: int| 0 <= i < s.filter(keep).len() ==> keep(#[trigger] s[i]),
        forall|i: int| s.filter(keep).len() <= i < s.len() ==> !keep(#[trigger] s[i]),
    decreases s.len(),
{
    reveal(Seq::filter);
    if s.len() > 0 {
        let init = s.drop_last();
        let passed = s.filter(keep).len();
        assert forall|i: int, j: int| 0 <= i <= j < init.len() && keep(#[trigger] init[j]) implies keep(
            #[trigger] init[i],
        ) by {
            assert(init[i] == s[i] && init[j] == s[j]);
        }
        lemma_front_closed_split(init, keep);
        if keep(s.last()) {
            assert forall|i: int| 0 <= i < init.len() implies keep(#[trigger] init[i]) by {
                assert(init[i] == s[i] && s.last() == s[s.len() - 1]);
            }
            lemma_filter_keeps_all(init, keep);
            assert(passed == s.len());
            assert forall|i: int| 0 <= i < passed implies keep(#[trigger] s[i]) by {
                if i < init.len() {
                    assert(init[i] == s[i]);
                }
            }
        } else {
            assert(passed == init.filter(keep).len());
            assert forall|i: int| 0 <= i < passed implies keep(#[trigger] s[i]) by {
                assert(init[i] == s[i]);
            }
            assert forall|i: int| passed <= i < s.len() implies !keep(#[trigger] s[i]) by {
                if i < init.len() {
                    assert(init[i] == s[i]);
                }
            }
        }
    }
}

/// In a sequence where `keep` is closed towards the front, the elements that
/// pass, followed by those that do not, are the sequence itself.
pub proof fn lemma_front_closed_joins<A>(
    s: Seq<A>,
    keep: spec_fn(A) -> bool,
    drop: spec_fn(A) -> bool,
)
    requires
        front_closed(s, keep),
        forall|x: A| #[trigger] drop(x) == !keep(x),
    ensures
        s.filter(keep) + s.filter(drop) == s,
{
    lemma_front_closed_split(s, keep);
    let k = s.filter(keep).len() as int;
    lemma_filter_at_split(s, keep, drop, k);
    assert(s.take(k) + s.skip(k) =~= s);
}

} // verus!
