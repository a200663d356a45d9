use vstd::prelude::*;
use crate::concept::RawFormalConcept;
use crate::context::FormalContext;
use crate::lectic::{bool_seqs, intent_count, intents, concepts_distinct};
use crate::rows::{is_redundant, meet_of_supersets, rows_have_len, subset_of};

verus! {

/// `d` is closed with respect to the rows of `x` (width `w`): every position
/// outside `d` is missing from some row containing `d`.
pub open spec fn closed_in(x: Seq<Seq<bool>>, w: nat, d: Seq<bool>) -> bool {
    &&& d.len() == w
    &&& forall|j: int|
        0 <= j < w && !d[j] ==> exists|i: int| 0 <= i < x.len() && subset_of(d, #[trigger] x[i]) && !x[i][j]
}

impl<A, B> FormalContext<A, B> {
    /// `e` is a closed extent: the set of objects having every attribute that
    /// all of `e` share.
    pub open spec fn closed_extent(&self, e: Seq<bool>) -> bool {
        e.len() == self.n() && self.extent_of(self.intent_of(e)) == e
    }

    /// The closed intents of this context.
    pub open spec fn closed_intents(&self) -> Set<Seq<bool>> {
        Set::new(|d: Seq<bool>| self.closed_intent(d))
    }

    /// The closed extents of this context.
    pub open spec fn closed_extents(&self) -> Set<Seq<bool>> {
        Set::new(|e: Seq<bool>| self.closed_extent(e))
    }
}

/// Deleting a row that is the intersection of the other rows containing it
/// keeps every closed set closed, and makes no other set closed.
proof fn lemma_delete_redundant(x: Seq<Seq<bool>>, w: nat, r: int, d: Seq<bool>)
    requires
        0 <= r < x.len(),
        rows_have_len(x, w),
        is_redundant(x, r),
    ensures
        closed_in(x, w, d) == closed_in(x.remove(r), w, d),
{
    let y = x.remove(r);
    if closed_in(y, w, d) {
        assert forall|j: int| 0 <= j < w && !d[j] implies exists|i: int| 0 <= i < x.len() && subset_of(d, #[trigger] x[i]) && !x[i][j] by {
            let i = choose|i: int| 0 <= i < y.len() && subset_of(d, #[trigger] y[i]) && !y[i][j];
            if i < r {
                assert(y[i] == x[i]);
            } else {
                assert(y[i] == x[i + 1]);
            }
        }
    }
    if closed_in(x, w, d) {
        assert forall|j: int| 0 <= j < w && !d[j] implies exists|i: int| 0 <= i < y.len() && subset_of(d, #[trigger] y[i]) && !y[i][j] by {
            let i = choose|i: int| 0 <= i < x.len() && subset_of(d, #[trigger] x[i]) && !x[i][j];
            let q = if i != r {
                i
            } else {
                assert(x[r] == meet_of_supersets(x, r, x[0].len()));
                assert(!meet_of_supersets(x, r, x[0].len())[j]);
                let q = choose|q: int| 0 <= q < x.len() && q != r && subset_of(x[r], #[trigger] x[q]) && !x[q][j];
                assert(subset_of(d, x[q])) by {
                    assert forall|k: int| 0 <= k < d.len() && #[trigger] d[k] implies x[q][k] by {
                        assert(x[r][k]);
                    }
                }
                q
            };
            if q < r {
                assert(y[q] == x[q]);
            } else {
                assert(y[q - 1] == x[q]);
            }
        }
    }
}

/// The closed intents are the sets closed with respect to the objects' intents.
proof fn lemma_closed_intent_rows<A, B>(ctx: &FormalContext<A, B>, d: Seq<bool>)
    requires
        ctx.wf(),
    ensures
        ctx.closed_intent(d) == closed_in(ctx.rows(), ctx.m(), d),
{
    if d.len() == ctx.m() {
        let e = ctx.extent_of(d);
        assert forall|i: int| 0 <= i < ctx.n() implies e[i] == subset_of(d, #[trigger] ctx.rows()[i]) by {
            if subset_of(d, ctx.rows()[i]) {
                assert forall|j: int| 0 <= j < ctx.m() && d[j] implies #[trigger] ctx.rel(i, j) by {}
            }
            if e[i] {
                assert forall|k: int| 0 <= k < d.len() && #[trigger] d[k] implies ctx.rows()[i][k] by {
                    assert(ctx.rel(i, k));
                }
            }
        }
        if ctx.closed_intent(d) {
            assert forall|j: int| 0 <= j < ctx.m() && !d[j] implies exists|i: int|
                0 <= i < ctx.rows().len() && subset_of(d, #[trigger] ctx.rows()[i]) && !ctx.rows()[i][j] by {
                assert(!ctx.intent_of(e)[j]);
                let i = choose|i: int| 0 <= i < ctx.n() && e[i] && !ctx.rel(i, j);
            }
        }
        if closed_in(ctx.rows(), ctx.m(), d) {
            assert forall|j: int| 0 <= j < ctx.m() implies ctx.intent_of(e)[j] == d[j] by {
                if d[j] {
                    assert forall|i: int| 0 <= i < ctx.n() && e[i] implies #[trigger] ctx.rel(i, j) by {}
                } else {
                    let i = choose|i: int| 0 <= i < ctx.rows().len() && subset_of(d, #[trigger] ctx.rows()[i]) && !ctx.rows()[i][j];
                    assert(e[i]);
                    assert(!ctx.rel(i, j));
                }
            }
            assert(ctx.intent_of(e) =~= d);
        }
    }
}

/// The closed extents are the sets closed with respect to the attributes' extents.
proof fn lemma_closed_extent_cols<A, B>(ctx: &FormalContext<A, B>, e: Seq<bool>)
    requires
        ctx.wf(),
    ensures
        ctx.closed_extent(e) == closed_in(ctx.cols(), ctx.n(), e),
{
    if e.len() == ctx.n() {
        let d = ctx.intent_of(e);
        assert forall|j: int| 0 <= j < ctx.m() implies d[j] == subset_of(e, #[trigger] ctx.cols()[j]) by {
            if subset_of(e, ctx.cols()[j]) {
                assert forall|i: int| 0 <= i < ctx.n() && e[i] implies #[trigger] ctx.rel(i, j) by {
                    assert(ctx.rows()[i][j] == ctx.cols()[j][i]);
                }
            }
            if d[j] {
                assert forall|k: int| 0 <= k < e.len() && #[trigger] e[k] implies ctx.cols()[j][k] by {
                    assert(ctx.rel(k, j));
                    assert(ctx.rows()[k][j] == ctx.cols()[j][k]);
                }
            }
        }
        if ctx.closed_extent(e) {
            assert forall|i: int| 0 <= i < ctx.n() && !e[i] implies exists|j: int|
                0 <= j < ctx.cols().len() && subset_of(e, #[trigger] ctx.cols()[j]) && !ctx.cols()[j][i] by {
                assert(!ctx.extent_of(d)[i]);
                let j = choose|j: int| 0 <= j < ctx.m() && d[j] && !ctx.rel(i, j);
                assert(ctx.rows()[i][j] == ctx.cols()[j][i]);
            }
        }
        if closed_in(ctx.cols(), ctx.n(), e) {
            assert forall|i: int| 0 <= i < ctx.n() implies ctx.extent_of(d)[i] == e[i] by {
                if e[i] {
                    assert forall|j: int| 0 <= j < ctx.m() && d[j] implies #[trigger] ctx.rel(i, j) by {}
                } else {
                    let j = choose|j: int| 0 <= j < ctx.cols().len() && subset_of(e, #[trigger] ctx.cols()[j]) && !ctx.cols()[j][i];
                    assert(d[j]);
                    assert(ctx.rows()[i][j] == ctx.cols()[j][i]);
                    assert(!ctx.rel(i, j));
                }
            }
            assert(ctx.extent_of(d) =~= e);
        }
    }
}

/// Deriving extents is a bijection from the closed intents onto the closed
/// extents, so there are as many of each.
proof fn lemma_closed_sets_match<A, B>(ctx: &FormalContext<A, B>)
    requires
        ctx.wf(),
    ensures
        ctx.closed_intents().finite(),
        ctx.closed_extents().finite(),
        ctx.closed_intents().len() == ctx.closed_extents().len(),
{
    crate::lectic::lemma_bool_seqs(ctx.m());
    crate::lectic::lemma_bool_seqs(ctx.n());
    vstd::set_lib::lemma_len_subset(ctx.closed_intents(), bool_seqs(ctx.m()));
    vstd::set_lib::lemma_len_subset(ctx.closed_extents(), bool_seqs(ctx.n()));
    let f = |d: Seq<bool>| ctx.extent_of(d);
    assert(vstd::relations::injective_on(f, ctx.closed_intents())) by {
        assert forall|d1: Seq<bool>, d2: Seq<bool>|
            ctx.closed_intents().contains(d1) && ctx.closed_intents().contains(d2) && #[trigger] f(d1) == #[trigger] f(d2) implies d1 == d2 by {
            assert(ctx.closed_intent(d1));
            assert(ctx.closed_intent(d2));
        }
    }
    assert(ctx.closed_intents().map(f) =~= ctx.closed_extents()) by {
        assert forall|e: Seq<bool>| ctx.closed_intents().map(f).contains(e) implies ctx.closed_extents().contains(e) by {
            let d = choose|d: Seq<bool>| ctx.closed_intents().contains(d) && f(d) == e;
            crate::galois::lemma_extent_of_closed(ctx, d);
        }
        assert forall|e: Seq<bool>| ctx.closed_extents().contains(e) implies ctx.closed_intents().map(f).contains(e) by {
            let d = ctx.intent_of(e);
            crate::galois::lemma_intent_of_closed(ctx, e);
            assert(ctx.closed_intents().contains(d));
            assert(f(d) == e);
        }
    }
    vstd::set_lib::lemma_map_size(ctx.closed_intents(), ctx.closed_extents(), f);
}

/// A list holding every concept once is as long as there are closed intents.
pub proof fn listing_length<A, B>(ctx: &FormalContext<A, B>, s: Seq<RawFormalConcept>)
    requires
        ctx.lists_all_concepts(s),
    ensures
        ctx.closed_intents().finite(),
        s.len() == ctx.closed_intents().len(),
{
    broadcast use vstd::seq_lib::group_to_multiset_ensures;

    concepts_distinct(ctx, s);
    assert(intents(s).no_duplicates()) by {
        assert forall|p: int, q: int| 0 <= p < intents(s).len() && 0 <= q < intents(s).len() && p != q implies intents(s)[p]
            != intents(s)[q] by {
            if p < q {
                assert(s[p].intent@ != s[q].intent@);
            } else {
                assert(s[q].intent@ != s[p].intent@);
            }
        }
    }
    assert(intents(s).to_set() =~= ctx.closed_intents()) by {
        assert forall|d: Seq<bool>| intents(s).to_set().contains(d) == ctx.closed_intents().contains(d) by {
            assert(intent_count(s, d) == if ctx.closed_intent(d) { 1nat } else { 0nat });
        }
    }
    intents(s).unique_seq_to_set();
}

/// Removing a reducible object keeps the closed intents.
pub proof fn lemma_drop_object<A, B>(old: &FormalContext<A, B>, new: &FormalContext<A, B>, i: int)
    requires
        old.wf(),
        new.wf(),
        0 <= i < old.n(),
        new.m() == old.m(),
        new.rows() == old.rows().remove(i),
        is_redundant(old.rows(), i),
    ensures
        new.closed_intents() == old.closed_intents(),
{
    assert forall|d: Seq<bool>| new.closed_intents().contains(d) == old.closed_intents().contains(d) by {
        lemma_closed_intent_rows(old, d);
        lemma_closed_intent_rows(new, d);
        lemma_delete_redundant(old.rows(), old.m(), i, d);
    }
    assert(new.closed_intents() =~= old.closed_intents());
}

/// Removing a reducible attribute keeps the number of closed intents.
pub proof fn lemma_drop_attribute<A, B>(old: &FormalContext<A, B>, new: &FormalContext<A, B>, j: int)
    requires
        old.wf(),
        new.wf(),
        0 <= j < old.m(),
        new.n() == old.n(),
        new.cols() == old.cols().remove(j),
        is_redundant(old.cols(), j),
    ensures
        new.closed_intents().finite(),
        old.closed_intents().finite(),
        new.closed_intents().len() == old.closed_intents().len(),
{
    assert forall|e: Seq<bool>| new.closed_extents().contains(e) == old.closed_extents().contains(e) by {
        lemma_closed_extent_cols(old, e);
        lemma_closed_extent_cols(new, e);
        lemma_delete_redundant(old.cols(), old.n(), j, e);
    }
    assert(new.closed_extents() =~= old.closed_extents());
    lemma_closed_sets_match(old);
    lemma_closed_sets_match(new);
}

} // verus!
