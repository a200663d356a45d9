use vstd::prelude::*;
use crate::concept::RawFormalConcept;
use crate::context::{FormalContext, full};
use crate::rows::subset_of;

verus! {

/// The intents of the concepts of `s`, in order.
pub open spec fn intents(s: Seq<RawFormalConcept>) -> Seq<Seq<bool>> {
    s.map_values(|c: RawFormalConcept| c.intent@)
}

/// How many concepts of `s` have intent `d`.
pub open spec fn intent_count(s: Seq<RawFormalConcept>, d: Seq<bool>) -> nat {
    intents(s).to_multiset().count(d)
}

/// `d` lies in the subtree of the node with intent `b` and frontier `y`:
/// it contains `b` and agrees with it below `y`.
pub open spec fn in_subtree(b: Seq<bool>, y: int, d: Seq<bool>) -> bool {
    subset_of(b, d) && d.subrange(0, y) == b.subrange(0, y)
}

impl<A, B> FormalContext<A, B> {
    /// `d` is a closed intent: it is the set of attributes shared by the
    /// objects that have all of `d`.
    pub open spec fn closed_intent(&self, d: Seq<bool>) -> bool {
        d.len() == self.m() && self.intent_of(self.extent_of(d)) == d
    }
}

/// Appending a concept adds one to the count of its intent only.
pub proof fn lemma_count_push(s: Seq<RawFormalConcept>, x: RawFormalConcept, d: Seq<bool>)
    ensures
        intent_count(s.push(x), d) == intent_count(s, d) + if x.intent@ == d { 1nat } else { 0nat },
{
    broadcast use vstd::seq_lib::group_to_multiset_ensures;

    assert(intents(s.push(x)) =~= intents(s).push(x.intent@));
}

/// In a sequence of concepts, only closed intents occur.
pub proof fn lemma_count_of_unclosed<A, B>(ctx: &FormalContext<A, B>, s: Seq<RawFormalConcept>, d: Seq<bool>)
    requires
        ctx.all_concepts_in(s),
        !ctx.closed_intent(d),
    ensures
        intent_count(s, d) == 0,
{
    broadcast use vstd::seq_lib::group_to_multiset_ensures;

    if intent_count(s, d) > 0 {
        assert(intents(s).contains(d));
        let k = choose|k: int| 0 <= k < intents(s).len() && intents(s)[k] == d;
        assert(ctx.is_concept(s[k].extent@, s[k].intent@));
    }
}

/// The closure of an extension of a concept contains the concept's intent,
/// and the added attribute.
pub proof fn lemma_child_contains_parent<A, B>(ctx: &FormalContext<A, B>, a: Seq<bool>, b: Seq<bool>, j: int)
    requires
        ctx.is_concept(a, b),
        0 <= j < ctx.m(),
    ensures
        subset_of(b, ctx.intent_of(ctx.child_extent(a, j))),
        ctx.intent_of(ctx.child_extent(a, j))[j],
{
    let c = ctx.child_extent(a, j);
    assert forall|q: int| 0 <= q < b.len() && #[trigger] b[q] implies ctx.intent_of(c)[q] by {
        assert forall|i: int| 0 <= i < ctx.n() && c[i] implies #[trigger] ctx.rel(i, q) by {
            assert(a[i]);
        }
    }
    assert forall|i: int| 0 <= i < ctx.n() && c[i] implies #[trigger] ctx.rel(i, j) by {}
}

/// A closed intent that contains a concept's intent and attribute `j`
/// contains the closure of the extension by `j`.
pub proof fn lemma_closure_below<A, B>(ctx: &FormalContext<A, B>, a: Seq<bool>, b: Seq<bool>, j: int, d: Seq<bool>)
    requires
        ctx.is_concept(a, b),
        0 <= j < ctx.m(),
        ctx.closed_intent(d),
        subset_of(b, d),
        d[j],
    ensures
        subset_of(ctx.intent_of(ctx.child_extent(a, j)), d),
{
    let c = ctx.child_extent(a, j);
    let e = ctx.extent_of(d);
    assert forall|i: int| 0 <= i < ctx.n() && e[i] implies c[i] by {
        assert forall|q: int| 0 <= q < ctx.m() && b[q] implies #[trigger] ctx.rel(i, q) by {
            assert(d[q]);
        }
        assert(ctx.extent_of(b)[i]);
        assert(ctx.rel(i, j));
    }
    assert forall|q: int| 0 <= q < ctx.m() && #[trigger] ctx.intent_of(c)[q] implies d[q] by {
        assert forall|i: int| 0 <= i < ctx.n() && e[i] implies #[trigger] ctx.rel(i, q) by {
            assert(c[i]);
        }
        assert(ctx.intent_of(e)[q]);
    }
}

/// Two sequences of one length that differ have a first position at which they do.
proof fn lemma_first_difference(b: Seq<bool>, d: Seq<bool>, k: int)
    requires
        b.len() == d.len(),
        0 <= k <= b.len(),
        exists|j: int| k <= j < b.len() && b[j] != d[j],
        forall|q: int| 0 <= q < k ==> b[q] == d[q],
    ensures
        exists|j: int| 0 <= j < b.len() && b[j] != d[j] && forall|q: int| 0 <= q < j ==> b[q] == d[q],
    decreases b.len() - k,
{
    if b[k] == d[k] {
        lemma_first_difference(b, d, k + 1);
    }
}

/// The closed intents in the subtree of a node are its own intent and, for each
/// child, those in the child's subtree; the children's subtrees are disjoint.
pub proof fn lemma_subtree_split<A, B>(
    ctx: &FormalContext<A, B>,
    a: Seq<bool>,
    b: Seq<bool>,
    y: int,
    ch: Seq<(RawFormalConcept, usize)>,
    d: Seq<bool>,
)
    requires
        ctx.is_concept(a, b),
        0 <= y <= ctx.m(),
        ctx.children_ok(a, b, y, ch),
        ctx.closed_intent(d),
    ensures
        forall|e: int| 0 <= e < ch.len() && in_subtree((#[trigger] ch[e]).0.intent@, ch[e].1 as int, d) ==> d != b
            && in_subtree(b, y, d),
        in_subtree(b, y, d) && d != b ==> exists|e: int|
            0 <= e < ch.len() && in_subtree((#[trigger] ch[e]).0.intent@, ch[e].1 as int, d),
        forall|e1: int, e2: int|
            0 <= e1 < ch.len() && 0 <= e2 < ch.len() && e1 != e2 && in_subtree((#[trigger] ch[e1]).0.intent@, ch[e1].1 as int, d)
                ==> !in_subtree((#[trigger] ch[e2]).0.intent@, ch[e2].1 as int, d),
{
    assert forall|e: int| 0 <= e < ch.len() && in_subtree((#[trigger] ch[e]).0.intent@, ch[e].1 as int, d) implies d != b
        && in_subtree(b, y, d) by {
        let j = ch[e].1 - 1;
        let b2 = ch[e].0.intent@;
        lemma_child_contains_parent(ctx, a, b, j);
        assert(d[j] == b2[j]) by {
            assert(d.subrange(0, j + 1)[j] == b2.subrange(0, j + 1)[j]);
        }
        assert forall|q: int| 0 <= q < y implies d[q] == b[q] by {
            assert(d.subrange(0, j + 1)[q] == b2.subrange(0, j + 1)[q]);
            assert(b.subrange(0, j)[q] == b2.subrange(0, j)[q]);
        }
        assert(d.subrange(0, y) =~= b.subrange(0, y));
        assert forall|q: int| 0 <= q < b.len() && #[trigger] b[q] implies d[q] by {
            assert(b2[q]);
        }
    }
    if in_subtree(b, y, d) && d != b {
        assert(exists|j: int| 0 <= j < b.len() && b[j] != d[j]) by {
            if forall|j: int| 0 <= j < b.len() ==> b[j] == d[j] {
                assert(b =~= d);
            }
        }
        lemma_first_difference(b, d, 0);
        let j = choose|j: int| 0 <= j < b.len() && b[j] != d[j] && forall|q: int| 0 <= q < j ==> b[q] == d[q];
        assert(j >= y) by {
            if j < y {
                assert(d.subrange(0, y)[j] == b.subrange(0, y)[j]);
            }
        }
        assert(d[j] && !b[j]);
        lemma_child_contains_parent(ctx, a, b, j);
        lemma_closure_below(ctx, a, b, j, d);
        let b2 = ctx.intent_of(ctx.child_extent(a, j));
        assert(b.subrange(0, j) =~= b2.subrange(0, j)) by {
            assert forall|q: int| 0 <= q < j implies b[q] == b2[q] by {
                if b[q] {
                    assert(b2[q]);
                }
                if b2[q] {
                    assert(d[q]);
                }
            }
        }
        assert(ctx.canonical(a, b, j));
        let e = choose|e: int| 0 <= e < ch.len() && ch[e].1 == j + 1;
        assert(ch[e].0.intent@ == b2);
        assert(d.subrange(0, j + 1) =~= b2.subrange(0, j + 1)) by {
            assert forall|q: int| 0 <= q < j + 1 implies d[q] == b2[q] by {
                if q < j {
                    if b[q] {
                        assert(b2[q]);
                    }
                    if b2[q] {
                        assert(d[q]);
                    }
                }
            }
        }
        assert(in_subtree(ch[e].0.intent@, ch[e].1 as int, d));
    }
    assert forall|e1: int, e2: int|
        0 <= e1 < ch.len() && 0 <= e2 < ch.len() && e1 != e2 && in_subtree((#[trigger] ch[e1]).0.intent@, ch[e1].1 as int, d)
            implies !in_subtree((#[trigger] ch[e2]).0.intent@, ch[e2].1 as int, d) by {
        if in_subtree(ch[e2].0.intent@, ch[e2].1 as int, d) {
            let (lo, hi) = if ch[e1].1 < ch[e2].1 { (e1, e2) } else { (e2, e1) };
            if e1 < e2 {
                assert(ch[e1].1 < ch[e2].1);
            } else {
                assert(ch[e2].1 < ch[e1].1);
            }
            let jl = ch[lo].1 - 1;
            let jh = ch[hi].1 - 1;
            lemma_child_contains_parent(ctx, a, b, jl);
            let bl = ch[lo].0.intent@;
            let bh = ch[hi].0.intent@;
            assert(d[jl] == bl[jl]) by {
                assert(d.subrange(0, jl + 1)[jl] == bl.subrange(0, jl + 1)[jl]);
            }
            assert(d[jl] == bh[jl]) by {
                assert(d.subrange(0, jh + 1)[jl] == bh.subrange(0, jh + 1)[jl]);
            }
            assert(bh[jl] == b[jl]) by {
                assert(b.subrange(0, jh)[jl] == bh.subrange(0, jh)[jl]);
            }
        }
    }
}

/// Every closed intent contains the intent of the greatest concept.
pub proof fn lemma_closed_contains_top<A, B>(ctx: &FormalContext<A, B>, d: Seq<bool>)
    requires
        ctx.closed_intent(d),
    ensures
        in_subtree(ctx.intent_of(full(ctx.n())), 0, d),
{
    let t = ctx.intent_of(full(ctx.n()));
    assert forall|q: int| 0 <= q < t.len() && #[trigger] t[q] implies d[q] by {
        assert forall|i: int| 0 <= i < ctx.n() && ctx.extent_of(d)[i] implies #[trigger] ctx.rel(i, q) by {
            assert(full(ctx.n())[i]);
        }
        assert(ctx.intent_of(ctx.extent_of(d))[q]);
    }
    assert(d.subrange(0, 0) =~= t.subrange(0, 0));
}

/// A sequence in which two entries share an intent counts that intent at least twice.
proof fn lemma_repeated_intent(s: Seq<RawFormalConcept>, p: int, q: int)
    requires
        0 <= p < q < s.len(),
        s[p].intent@ == s[q].intent@,
    ensures
        intent_count(s, s[p].intent@) >= 2,
{
    broadcast use vstd::seq_lib::group_to_multiset_ensures;

    let d = s[p].intent@;
    let ds = intents(s);
    assert(ds[q] == d);
    assert(ds.remove(q).to_multiset() =~= ds.to_multiset().remove(d));
    assert(ds.remove(q)[p] == d);
    assert(ds.remove(q).contains(d));
    assert(ds.remove(q).to_multiset().count(d) > 0);
    assert(ds.contains(d));
    assert(ds.to_multiset().count(d) > 0);
    assert(ds.to_multiset().remove(d).count(d) == ds.to_multiset().count(d) - 1);
}

/// No concept is listed twice: in a list holding each concept once, the
/// entries have pairwise distinct extents and pairwise distinct intents.
pub proof fn concepts_distinct<A, B>(ctx: &FormalContext<A, B>, s: Seq<RawFormalConcept>)
    requires
        ctx.lists_all_concepts(s),
    ensures
        forall|p: int, q: int|
            0 <= p < q < s.len() ==> (#[trigger] s[p]).extent@ != (#[trigger] s[q]).extent@ && s[p].intent@
                != s[q].intent@,
{
    assert forall|p: int, q: int| 0 <= p < q < s.len() implies (#[trigger] s[p]).extent@ != (#[trigger] s[q]).extent@
        && s[p].intent@ != s[q].intent@ by {
        assert(ctx.is_concept(s[p].extent@, s[p].intent@));
        assert(ctx.is_concept(s[q].extent@, s[q].intent@));
        if s[p].intent@ == s[q].intent@ {
            lemma_repeated_intent(s, p, q);
            assert(intent_count(s, s[p].intent@) <= 1);
        }
    }
}

/// Every closed intent `d` is listed, together with its extent `extent_of(d)`,
/// exactly once.
pub proof fn closed_intents_listed<A, B>(ctx: &FormalContext<A, B>, s: Seq<RawFormalConcept>, d: Seq<bool>)
    requires
        ctx.lists_all_concepts(s),
        ctx.closed_intent(d),
    ensures
        intent_count(s, d) == 1,
        exists|k: int| 0 <= k < s.len() && (#[trigger] s[k]).intent@ == d && s[k].extent@ == ctx.extent_of(d),
{
    broadcast use vstd::seq_lib::group_to_multiset_ensures;

    assert(intent_count(s, d) == 1);
    assert(intents(s).contains(d));
    let k = choose|k: int| 0 <= k < intents(s).len() && intents(s)[k] == d;
    assert(s[k].intent@ == d);
    assert(ctx.is_concept(s[k].extent@, s[k].intent@));
}

/// The number of concepts does not depend on how they were listed: two lists
/// that each hold every concept once have the same length.
pub proof fn concept_count_determined<A, B>(ctx: &FormalContext<A, B>, s1: Seq<RawFormalConcept>, s2: Seq<RawFormalConcept>)
    requires
        ctx.lists_all_concepts(s1),
        ctx.lists_all_concepts(s2),
    ensures
        s1.len() == s2.len(),
{
    broadcast use vstd::seq_lib::group_to_multiset_ensures;

    assert forall|d: Seq<bool>| intents(s1).to_multiset().count(d) == intents(s2).to_multiset().count(d) by {
        assert(intent_count(s1, d) == intent_count(s2, d));
    }
    assert(intents(s1).to_multiset() =~= intents(s2).to_multiset());
    assert(intents(s1).len() == s1.len());
    assert(intents(s2).len() == s2.len());
    assert(intents(s1).to_multiset().len() == intents(s1).len());
    assert(intents(s2).to_multiset().len() == intents(s2).len());
}

/// Two to the power `k`.
pub open spec fn two_to(k: nat) -> nat
    decreases k,
{
    if k == 0 {
        1
    } else {
        2 * two_to((k - 1) as nat)
    }
}

/// All bit sequences of length `k`.
pub open spec fn bool_seqs(k: nat) -> Set<Seq<bool>> {
    Set::new(|s: Seq<bool>| s.len() == k)
}

/// There are `2^k` bit sequences of length `k`.
pub proof fn lemma_bool_seqs(k: nat)
    ensures
        bool_seqs(k).finite(),
        bool_seqs(k).len() == two_to(k),
    decreases k,
{
    if k == 0 {
        assert forall|s: Seq<bool>| bool_seqs(0).contains(s) implies s == Seq::<bool>::empty() by {
            assert(s =~= Seq::<bool>::empty());
        }
        assert(bool_seqs(0) =~= Set::<Seq<bool>>::empty().insert(Seq::<bool>::empty()));
    } else {
        let p = bool_seqs((k - 1) as nat);
        lemma_bool_seqs((k - 1) as nat);
        let ft = |s: Seq<bool>| s.push(true);
        let ff = |s: Seq<bool>| s.push(false);
        let t = p.map(ft);
        let f = p.map(ff);
        assert(vstd::relations::injective_on(ft, p)) by {
            assert forall|x1: Seq<bool>, x2: Seq<bool>| p.contains(x1) && p.contains(x2) && #[trigger] ft(x1) == #[trigger] ft(x2) implies x1 == x2 by {
                assert(x1 =~= ft(x1).drop_last());
                assert(x2 =~= ft(x2).drop_last());
            }
        }
        assert(vstd::relations::injective_on(ff, p)) by {
            assert forall|x1: Seq<bool>, x2: Seq<bool>| p.contains(x1) && p.contains(x2) && #[trigger] ff(x1) == #[trigger] ff(x2) implies x1 == x2 by {
                assert(x1 =~= ff(x1).drop_last());
                assert(x2 =~= ff(x2).drop_last());
            }
        }
        vstd::set_lib::lemma_map_size(p, t, ft);
        vstd::set_lib::lemma_map_size(p, f, ff);
        assert(t.disjoint(f)) by {
            assert forall|y: Seq<bool>| t.contains(y) implies !f.contains(y) by {
                let x = choose|x: Seq<bool>| p.contains(x) && ft(x) == y;
                if f.contains(y) {
                    let z = choose|z: Seq<bool>| p.contains(z) && ff(z) == y;
                    assert(ft(x).last() != ff(z).last());
                }
            }
        }
        assert(bool_seqs(k) =~= t + f) by {
            assert forall|y: Seq<bool>| bool_seqs(k).contains(y) implies (t + f).contains(y) by {
                let x = y.drop_last();
                assert(p.contains(x));
                if y.last() {
                    assert(ft(x) =~= y);
                } else {
                    assert(ff(x) =~= y);
                }
            }
        }
        vstd::set_lib::lemma_set_disjoint_lens(t, f);
    }
}

/// Distinct bit sequences of length `k` number at most `2^k`.
proof fn lemma_distinct_bool_seqs(s: Seq<Seq<bool>>, k: nat)
    requires
        s.no_duplicates(),
        forall|p: int| 0 <= p < s.len() ==> (#[trigger] s[p]).len() == k,
    ensures
        s.len() <= two_to(k),
{
    lemma_bool_seqs(k);
    s.unique_seq_to_set();
    assert(s.to_set().subset_of(bool_seqs(k)));
    vstd::set_lib::lemma_len_subset(s.to_set(), bool_seqs(k));
}

/// The extents of the concepts of `s`, in order.
pub open spec fn extents(s: Seq<RawFormalConcept>) -> Seq<Seq<bool>> {
    s.map_values(|c: RawFormalConcept| c.extent@)
}

/// A context has at least one concept (the greatest), and at most `2^n` and
/// at most `2^m` of them.
pub proof fn concept_count_bound<A, B>(ctx: &FormalContext<A, B>, s: Seq<RawFormalConcept>)
    requires
        ctx.lists_all_concepts(s),
    ensures
        1 <= s.len(),
        s.len() <= two_to(ctx.n()),
        s.len() <= two_to(ctx.m()),
{
    broadcast use vstd::seq_lib::group_to_multiset_ensures;

    let t = ctx.intent_of(full(ctx.n()));
    crate::galois::lemma_intent_of_closed(ctx, full(ctx.n()));
    assert(ctx.closed_intent(t));
    assert(intent_count(s, t) == 1);
    assert(intents(s).contains(t));
    concepts_distinct(ctx, s);
    assert(intents(s).no_duplicates()) by {
        assert forall|p: int, q: int| 0 <= p < intents(s).len() && 0 <= q < intents(s).len() && p != q implies intents(s)[p]
            != intents(s)[q] by {
            if p < q {
                assert(s[p].intent@ != s[q].intent@);
            } else {
                assert(s[q].intent@ != s[p].intent@);
            }
        }
    }
    assert(extents(s).no_duplicates()) by {
        assert forall|p: int, q: int| 0 <= p < extents(s).len() && 0 <= q < extents(s).len() && p != q implies extents(s)[p]
            != extents(s)[q] by {
            if p < q {
                assert(s[p].extent@ != s[q].extent@);
            } else {
                assert(s[q].extent@ != s[p].extent@);
            }
        }
    }
    assert forall|p: int| 0 <= p < intents(s).len() implies (#[trigger] intents(s)[p]).len() == ctx.m() by {
        assert(ctx.is_concept(s[p].extent@, s[p].intent@));
    }
    assert forall|p: int| 0 <= p < extents(s).len() implies (#[trigger] extents(s)[p]).len() == ctx.n() by {
        assert(ctx.is_concept(s[p].extent@, s[p].intent@));
    }
    lemma_distinct_bool_seqs(intents(s), ctx.m());
    lemma_distinct_bool_seqs(extents(s), ctx.n());
}

} // verus!
