//! What the machine asks of a timestamp type: a comparison that ranks any two
//! timestamps, the same way every time.

use vstd::prelude::*;
use vstd::std_specs::cmp::{PartialOrdIs, PartialOrdSpec};

verus! {

/// `a` is not later than `b`.
pub open spec fn le<T: PartialOrd>(a: T, b: T) -> bool {
    a.is_le(&b)
}

/// The comparison of `T` is a total preorder, and the operators `<`, `<=`,
/// `>` and `>=` follow it.
///
/// Two distinct values may rank equal; nothing here relies on `==`.
#[verifier::opaque]
pub open spec fn total_order<T: PartialOrd>() -> bool {
    &&& T::obeys_partial_cmp_spec()
    &&& forall|a: T, b: T| (#[trigger] a.partial_cmp_spec(&b)) is Some
    &&& forall|a: T, b: T| #![trigger a.partial_cmp_spec(&b)] a.is_gt(&b) <==> b.is_lt(&a)
    &&& forall|a: T, b: T, c: T| #[trigger] le(a, b) && #[trigger] le(b, c) ==> le(a, c)
}

/// Any two timestamps are ranked, one way or the other, and each ranks equal
/// to itself.
pub proof fn lemma_le_total<T: PartialOrd>(a: T, b: T)
    requires
        total_order::<T>(),
    ensures
        le(a, b) || le(b, a),
        le(a, a),
{
    reveal(total_order);
    let _ = a.partial_cmp_spec(&b);
    let _ = b.partial_cmp_spec(&a);
    let _ = a.partial_cmp_spec(&a);
}

/// `le` is transitive.
pub proof fn lemma_le_transitive<T: PartialOrd>(a: T, b: T, c: T)
    requires
        total_order::<T>(),
        le(a, b),
        le(b, c),
    ensures
        le(a, c),
{
    reveal(total_order);
}

/// The four comparison operators return what the order says, and that can be
/// said with `le` alone.
pub proof fn lemma_operators<T: PartialOrd>(a: T, b: T)
    requires
        total_order::<T>(),
    ensures
        T::obeys_partial_cmp_spec(),
        a.is_le(&b) <==> le(a, b),
        a.is_gt(&b) <==> !le(a, b),
        a.is_ge(&b) <==> le(b, a),
        a.is_lt(&b) <==> !le(b, a),
{
    reveal(total_order);
    let _ = a.partial_cmp_spec(&b);
    let _ = b.partial_cmp_spec(&a);
}

} // verus!
