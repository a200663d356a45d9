use vstd::prelude::*;
use crate::context::{FormalContext, full};
use crate::rows::subset_of;

verus! {

/// Every object of `a` has every attribute of `intent_of(a)`, and every object
/// having all of those is in `extent_of(intent_of(a))`: the closure of an extent
/// contains it.
pub proof fn lemma_extent_closure_contains<A, B>(ctx: &FormalContext<A, B>, a: Seq<bool>)
    requires
        a.len() == ctx.n(),
    ensures
        subset_of(a, ctx.extent_of(ctx.intent_of(a))),
{
    let b = ctx.intent_of(a);
    assert forall|i: int| 0 <= i < a.len() && #[trigger] a[i] implies ctx.extent_of(b)[i] by {
        assert forall|j: int| 0 <= j < ctx.m() && b[j] implies #[trigger] ctx.rel(i, j) by {}
    }
}

/// The closure of an intent contains it.
pub proof fn lemma_intent_closure_contains<A, B>(ctx: &FormalContext<A, B>, b: Seq<bool>)
    requires
        b.len() == ctx.m(),
    ensures
        subset_of(b, ctx.intent_of(ctx.extent_of(b))),
{
    let a = ctx.extent_of(b);
    assert forall|j: int| 0 <= j < b.len() && #[trigger] b[j] implies ctx.intent_of(a)[j] by {
        assert forall|i: int| 0 <= i < ctx.n() && a[i] implies #[trigger] ctx.rel(i, j) by {}
    }
}

/// Deriving an extent of the form `extent_of(b)` twice gives it back.
pub proof fn lemma_extent_of_closed<A, B>(ctx: &FormalContext<A, B>, b: Seq<bool>)
    requires
        b.len() == ctx.m(),
    ensures
        ctx.extent_of(ctx.intent_of(ctx.extent_of(b))) == ctx.extent_of(b),
{
    let a = ctx.extent_of(b);
    let b2 = ctx.intent_of(a);
    lemma_intent_closure_contains(ctx, b);
    lemma_extent_closure_contains(ctx, a);
    assert forall|i: int| 0 <= i < ctx.n() implies ctx.extent_of(b2)[i] == a[i] by {
        if ctx.extent_of(b2)[i] {
            assert forall|j: int| 0 <= j < ctx.m() && b[j] implies #[trigger] ctx.rel(i, j) by {
                assert(b2[j]);
            }
        }
    }
    assert(ctx.extent_of(b2) =~= a);
}

/// Deriving an intent of the form `intent_of(a)` twice gives it back.
pub proof fn lemma_intent_of_closed<A, B>(ctx: &FormalContext<A, B>, a: Seq<bool>)
    requires
        a.len() == ctx.n(),
    ensures
        ctx.intent_of(ctx.extent_of(ctx.intent_of(a))) == ctx.intent_of(a),
{
    let b = ctx.intent_of(a);
    let a2 = ctx.extent_of(b);
    lemma_extent_closure_contains(ctx, a);
    lemma_intent_closure_contains(ctx, b);
    assert forall|j: int| 0 <= j < ctx.m() implies ctx.intent_of(a2)[j] == b[j] by {
        if ctx.intent_of(a2)[j] {
            assert forall|i: int| 0 <= i < ctx.n() && a[i] implies #[trigger] ctx.rel(i, j) by {
                assert(a2[i]);
            }
        }
    }
    assert(ctx.intent_of(a2) =~= b);
}

/// The two derivations form a Galois connection: each closure contains its
/// argument, and closing a second time changes nothing.
pub proof fn galois_closure<A, B>(ctx: &FormalContext<A, B>, a: Seq<bool>, b: Seq<bool>)
    requires
        a.len() == ctx.n(),
        b.len() == ctx.m(),
    ensures
        subset_of(a, ctx.extent_of(ctx.intent_of(a))),
        subset_of(b, ctx.intent_of(ctx.extent_of(b))),
        ctx.extent_of(ctx.intent_of(ctx.extent_of(ctx.intent_of(a)))) == ctx.extent_of(ctx.intent_of(a)),
        ctx.intent_of(ctx.extent_of(ctx.intent_of(ctx.extent_of(b)))) == ctx.intent_of(ctx.extent_of(b)),
{
    lemma_extent_closure_contains(ctx, a);
    lemma_intent_closure_contains(ctx, b);
    lemma_extent_of_closed(ctx, ctx.intent_of(a));
    lemma_intent_of_closed(ctx, ctx.extent_of(b));
}

/// All objects, with the attributes they share, form a concept.
pub proof fn lemma_top_is_concept<A, B>(ctx: &FormalContext<A, B>)
    ensures
        ctx.is_concept(full(ctx.n()), ctx.intent_of(full(ctx.n()))),
{
    let a = full(ctx.n());
    let b = ctx.intent_of(a);
    assert forall|i: int| 0 <= i < ctx.n() implies ctx.extent_of(b)[i] by {
        assert forall|j: int| 0 <= j < ctx.m() && b[j] implies #[trigger] ctx.rel(i, j) by {}
    }
    assert(ctx.extent_of(b) =~= a);
}

/// Restricting the extent of a concept to the objects having attribute `j`,
/// and taking the shared attributes, gives a concept again.
pub proof fn lemma_child_is_concept<A, B>(ctx: &FormalContext<A, B>, a: Seq<bool>, b: Seq<bool>, j: int)
    requires
        ctx.is_concept(a, b),
        0 <= j < ctx.m(),
    ensures
        ctx.is_concept(ctx.child_extent(a, j), ctx.intent_of(ctx.child_extent(a, j))),
{
    let a2 = ctx.child_extent(a, j);
    let b2 = ctx.intent_of(a2);
    assert forall|i: int| 0 <= i < ctx.n() implies ctx.extent_of(b2)[i] == a2[i] by {
        if a2[i] {
            assert forall|q: int| 0 <= q < ctx.m() && b2[q] implies #[trigger] ctx.rel(i, q) by {}
        }
        if ctx.extent_of(b2)[i] {
            assert(b2[j]);
            assert(ctx.rel(i, j));
            assert forall|q: int| 0 <= q < ctx.m() && b[q] implies #[trigger] ctx.rel(i, q) by {
                assert(b2[q]);
            }
            assert(ctx.extent_of(b)[i]);
        }
    }
    assert(ctx.extent_of(b2) =~= a2);
}

/// Two contexts with the same dimensions and the same relation have the same concepts.
pub proof fn lemma_same_relation<A, B, C, D>(c1: &FormalContext<A, B>, c2: &FormalContext<C, D>, a: Seq<bool>, b: Seq<bool>)
    requires
        c1.n() == c2.n(),
        c1.m() == c2.m(),
        c1.rows() == c2.rows(),
    ensures
        c1.extent_of(b) == c2.extent_of(b),
        c1.intent_of(a) == c2.intent_of(a),
        c1.is_concept(a, b) == c2.is_concept(a, b),
{
    assert forall|i: int, j: int| #[trigger] c1.rel(i, j) == c2.rel(i, j) by {}
    assert forall|i: int| 0 <= i < c1.n() implies c1.extent_of(b)[i] == c2.extent_of(b)[i] by {
        if c1.extent_of(b)[i] {
            assert forall|j: int| 0 <= j < c2.m() && b[j] implies #[trigger] c2.rel(i, j) by {
                assert(c1.rel(i, j));
            }
        }
        if c2.extent_of(b)[i] {
            assert forall|j: int| 0 <= j < c1.m() && b[j] implies #[trigger] c1.rel(i, j) by {
                assert(c2.rel(i, j));
            }
        }
    }
    assert forall|j: int| 0 <= j < c1.m() implies c1.intent_of(a)[j] == c2.intent_of(a)[j] by {
        if c1.intent_of(a)[j] {
            assert forall|i: int| 0 <= i < c2.n() && a[i] implies #[trigger] c2.rel(i, j) by {
                assert(c1.rel(i, j));
            }
        }
        if c2.intent_of(a)[j] {
            assert forall|i: int| 0 <= i < c1.n() && a[i] implies #[trigger] c1.rel(i, j) by {
                assert(c2.rel(i, j));
            }
        }
    }
    assert(c1.extent_of(b) =~= c2.extent_of(b));
    assert(c1.intent_of(a) =~= c2.intent_of(a));
}

} // verus!
