use vstd::prelude::*;
use crate::bits::{Bits, lists_positions};
use crate::concept::RawFormalConcept;
use crate::context::{FormalContext, full};
use crate::galois::{lemma_child_is_concept, lemma_top_is_concept};
use crate::reduction::listing_length;
use crate::lectic::{
    in_subtree, intent_count, intents, lemma_closed_contains_top, lemma_count_of_unclosed, lemma_count_push,
    lemma_subtree_split,
};

verus! {

impl<A, B> FormalContext<A, B> {
    /// The objects of `a` that have attribute `j`.
    pub open spec fn child_extent(&self, a: Seq<bool>, j: int) -> Seq<bool> {
        Seq::new(a.len(), |i: int| a[i] && self.rel(i, j))
    }

    /// Adding attribute `j` to the concept `(a, b)` is canonical: `j` is not in
    /// `b`, and the closure adds no attribute below `j`.
    pub open spec fn canonical(&self, a: Seq<bool>, b: Seq<bool>, j: int) -> bool {
        !b[j] && b.subrange(0, j) == self.intent_of(self.child_extent(a, j)).subrange(0, j)
    }

    /// `r` lists the children of node `((a, b), y)`: for each attribute `j >= y`
    /// at which the extension is canonical, in ascending order of `j`, the
    /// extent restricted to `j`, its closure, and the frontier `j + 1`.
    pub open spec fn children_ok(&self, a: Seq<bool>, b: Seq<bool>, y: int, r: Seq<(RawFormalConcept, usize)>) -> bool {
        &&& forall|p: int, q: int| 0 <= p < q < r.len() ==> r[p].1 < r[q].1
        &&& forall|k: int|
            0 <= k < r.len() ==> {
                let j = r[k].1 - 1;
                &&& y <= j < self.m()
                &&& self.canonical(a, b, j)
                &&& (#[trigger] r[k]).0.extent@ == self.child_extent(a, j)
                &&& r[k].0.intent@ == self.intent_of(self.child_extent(a, j))
            }
        &&& forall|j: int|
            y <= j < self.m() && #[trigger] self.canonical(a, b, j) ==> exists|k: int|
                0 <= k < r.len() && r[k].1 == j + 1
    }

    /// Every entry of `s` is a concept of this context.
    pub open spec fn all_concepts_in(&self, s: Seq<RawFormalConcept>) -> bool {
        forall|k: int| 0 <= k < s.len() ==> self.is_concept((#[trigger] s[k]).extent@, s[k].intent@)
    }

    /// The greatest concept: all objects, with the attributes they share.
    pub fn max_concept_raw(&self) -> (r: RawFormalConcept)
        requires
            self.wf(),
        ensures
            r.extent@ == full(self.n()),
            r.intent@ == self.intent_of(full(self.n())),
            self.is_concept(r.extent@, r.intent@),
    {
        let n = self.num_objects();
        let extent = Bits::repeat(true, n);
        let intent = self.induce_r(&extent);
        proof {
            assert(extent@ =~= full(self.n()));
            lemma_top_is_concept(self);
        }
        RawFormalConcept { extent, intent }
    }

    /// The children of node `(c, y)` of the Close-by-One tree, each with its own
    /// frontier: for each attribute `j >= y` missing from the intent, in
    /// ascending order, the closure of the extent restricted to `j`, kept when
    /// the closure adds no attribute below `j`.
    pub fn cbo_children(&self, c: &RawFormalConcept, y: usize) -> (r: Vec<(RawFormalConcept, usize)>)
        requires
            self.wf(),
            self.is_concept(c.extent@, c.intent@),
            y <= self.m(),
        ensures
            self.children_ok(c.extent@, c.intent@, y as int, r@),
    {
        let m = self.num_attributes();
        let mut result: Vec<(RawFormalConcept, usize)> = Vec::new();
        let zeros = c.intent.zeros();
        let mut k: usize = 0;
        while k < zeros.len()
            invariant
                self.wf(),
                self.is_concept(c.extent@, c.intent@),
                y <= self.m(),
                m == self.m(),
                lists_positions(zeros@, c.intent@, false),
                k <= zeros@.len(),
                forall|e: int| 0 <= e < result@.len() ==> exists|p: int| 0 <= p < k && #[trigger] result@[e].1 == zeros@[p] + 1,
                forall|p: int, q: int| 0 <= p < q < result@.len() ==> result@[p].1 < result@[q].1,
                forall|e: int|
                    0 <= e < result@.len() ==> {
                        let j = result@[e].1 - 1;
                        &&& y <= j < self.m()
                        &&& self.canonical(c.extent@, c.intent@, j)
                        &&& (#[trigger] result@[e]).0.extent@ == self.child_extent(c.extent@, j)
                        &&& result@[e].0.intent@ == self.intent_of(self.child_extent(c.extent@, j))
                    },
                forall|p: int|
                    0 <= p < k && y <= zeros@[p] && #[trigger] self.canonical(c.extent@, c.intent@, zeros@[p] as int)
                        ==> exists|e: int| 0 <= e < result@.len() && result@[e].1 == zeros@[p] + 1,
            decreases zeros@.len() - k,
        {
            let j = zeros[k];
            if j >= y {
                let mut extent = c.extent.duplicate();
                extent.and_assign(self.get_attribute_extent(j));
                proof {
                    assert forall|i: int| 0 <= i < self.n() implies #[trigger] self.rel(i, j as int) == self.cols()[j as int][i] by {
                        assert(self.rows()[i][j as int] == self.cols()[j as int][i]);
                    }
                    assert(extent@ =~= self.child_extent(c.extent@, j as int));
                }
                let intent = self.induce_r(&extent);
                if c.intent.prefix_equals(&intent, j) {
                    let ghost old_result = result@;
                    result.push((RawFormalConcept { extent, intent }, j + 1));
                    proof {
                        assert(result@[old_result.len() as int].1 == zeros@[k as int] + 1);
                        assert forall|e: int| 0 <= e < result@.len() implies exists|p: int| 0 <= p < k + 1 && #[trigger] result@[e].1 == zeros@[p] + 1 by {
                            if e < old_result.len() {
                                assert(result@[e] == old_result[e]);
                            }
                        }
                        assert forall|p: int, q: int| 0 <= p < q < result@.len() implies result@[p].1 < result@[q].1 by {
                            if q == old_result.len() {
                                assert(result@[p] == old_result[p]);
                                let pp = choose|pp: int| 0 <= pp < k && #[trigger] old_result[p].1 == zeros@[pp] + 1;
                            }
                        }
                        assert forall|p: int|
                            0 <= p < k + 1 && y <= zeros@[p] && #[trigger] self.canonical(c.extent@, c.intent@, zeros@[p] as int)
                            implies exists|e: int| 0 <= e < result@.len() && result@[e].1 == zeros@[p] + 1 by {
                            if p < k {
                                let e = choose|e: int| 0 <= e < old_result.len() && old_result[e].1 == zeros@[p] + 1;
                                assert(result@[e] == old_result[e]);
                            } else {
                                assert(result@[old_result.len() as int].1 == zeros@[p] + 1);
                            }
                        }
                    }
                } else {
                    proof {
                        assert(!self.canonical(c.extent@, c.intent@, j as int));
                    }
                }
            }
            k = k + 1;
        }
        proof {
            assert forall|j: int|
                y <= j < self.m() && #[trigger] self.canonical(c.extent@, c.intent@, j) implies exists|e: int|
                    0 <= e < result@.len() && result@[e].1 == j + 1 by {
                let p = choose|p: int| 0 <= p < zeros@.len() && zeros@[p] == j;
                assert(self.canonical(c.extent@, c.intent@, zeros@[p] as int));
            }
        }
        result
    }

    /// Appends node `(c, y)` and then every node of its subtree to `out`.
    fn walk(&self, c: RawFormalConcept, y: usize, out: &mut Vec<RawFormalConcept>)
        requires
            self.wf(),
            self.is_concept(c.extent@, c.intent@),
            y <= self.m(),
            self.all_concepts_in(old(out)@),
        ensures
            final(out)@.len() > old(out)@.len(),
            final(out)@.subrange(0, old(out)@.len() as int) == old(out)@,
            final(out)@[old(out)@.len() as int] == c,
            self.all_concepts_in(final(out)@),
            forall|d: Seq<bool>|
                self.closed_intent(d) ==> #[trigger] intent_count(final(out)@, d) == intent_count(old(out)@, d)
                    + if in_subtree(c.intent@, y as int, d) { 1nat } else { 0nat },
        decreases self.m() - y,
    {
        let mut children = self.cbo_children(&c, y);
        proof {
            assert forall|k: int| 0 <= k < children@.len() implies (#[trigger] children@[k]).1 <= self.m() && y
                < children@[k].1 && self.is_concept(children@[k].0.extent@, children@[k].0.intent@) by {
                lemma_child_is_concept(self, c.extent@, c.intent@, children@[k].1 - 1);
            }
        }
        let ghost start = out@;
        let ghost all = children@;
        let ghost b = c.intent@;
        let ghost a = c.extent@;
        proof {
            assert forall|d: Seq<bool>| true implies #[trigger] intent_count(start.push(c), d) == intent_count(start, d)
                + if c.intent@ == d { 1nat } else { 0nat } by {
                lemma_count_push(start, c, d);
            }
        }
        out.push(c);
        while children.len() > 0
            invariant
                self.is_concept(a, b),
                y <= self.m(),
                self.children_ok(a, b, y as int, all),
                children@.len() <= all.len(),
                children@ == all.subrange(0, children@.len() as int),
                forall|d: Seq<bool>|
                    self.closed_intent(d) ==> #[trigger] intent_count(out@, d) == intent_count(start, d) + (if d == b {
                        1nat
                    } else {
                        0nat
                    }) + if exists|e: int|
                        children@.len() <= e < all.len() && in_subtree((#[trigger] all[e]).0.intent@, all[e].1 as int, d) {
                        1nat
                    } else {
                        0nat
                    },
                self.wf(),
                self.all_concepts_in(out@),
                out@.len() > start.len(),
                out@.subrange(0, start.len() as int) == start,
                out@[start.len() as int] == c,
                forall|k: int|
                    0 <= k < children@.len() ==> (#[trigger] children@[k]).1 <= self.m() && y < children@[k].1
                        && self.is_concept(children@[k].0.extent@, children@[k].0.intent@),
            decreases children@.len(),
        {
            let ghost len = children@.len();
            assert(children@[len - 1] == all[len - 1]);
            let (child, next) = children.pop().unwrap();
            assert(all[len - 1] == (child, next));
            let ghost before = out@;
            self.walk(child, next, out);
            proof {
                assert(children@ =~= all.subrange(0, children@.len() as int));
                assert forall|d: Seq<bool>| self.closed_intent(d) implies #[trigger] intent_count(out@, d) == intent_count(start, d) + (if d == b {
                        1nat
                    } else {
                        0nat
                    }) + if exists|e: int|
                        children@.len() <= e < all.len() && in_subtree((#[trigger] all[e]).0.intent@, all[e].1 as int, d) {
                        1nat
                    } else {
                        0nat
                    } by {
                    lemma_subtree_split(self, a, b, y as int, all, d);
                    if in_subtree(child.intent@, next as int, d) {
                        assert(in_subtree(all[len - 1].0.intent@, all[len - 1].1 as int, d));
                        assert(!exists|e: int| len <= e < all.len() && in_subtree((#[trigger] all[e]).0.intent@, all[e].1 as int, d));
                    } else {
                        if exists|e: int| len <= e < all.len() && in_subtree((#[trigger] all[e]).0.intent@, all[e].1 as int, d) {
                            let e = choose|e: int| len <= e < all.len() && in_subtree((#[trigger] all[e]).0.intent@, all[e].1 as int, d);
                            assert(children@.len() <= e < all.len());
                        }
                        if exists|e: int| children@.len() <= e < all.len() && in_subtree((#[trigger] all[e]).0.intent@, all[e].1 as int, d) {
                            let e = choose|e: int| children@.len() <= e < all.len() && in_subtree((#[trigger] all[e]).0.intent@, all[e].1 as int, d);
                            assert(e != len - 1);
                            assert(len <= e < all.len());
                        }
                    }
                }
                assert(out@.subrange(0, start.len() as int) =~= before.subrange(0, start.len() as int));
                assert(out@[start.len() as int] == before[start.len() as int]);
            }
        }
        proof {
            assert forall|d: Seq<bool>| self.closed_intent(d) implies #[trigger] intent_count(out@, d) == intent_count(start, d)
                + if in_subtree(b, y as int, d) { 1nat } else { 0nat } by {
                lemma_subtree_split(self, a, b, y as int, all, d);
                if d == b {
                    assert(b.subrange(0, y as int) =~= d.subrange(0, y as int));
                    assert(in_subtree(b, y as int, d));
                }
            }
        }
    }

    /// `s` lists each concept of this context exactly once: every entry is a
    /// concept, and every closed intent occurs once.
    pub open spec fn lists_all_concepts(&self, s: Seq<RawFormalConcept>) -> bool {
        &&& self.all_concepts_in(s)
        &&& forall|d: Seq<bool>| #[trigger] intent_count(s, d) == if self.closed_intent(d) { 1nat } else { 0nat }
    }

    /// Every concept of this context, each once, the greatest first.
    pub fn all_concepts_raw(&self) -> (r: Vec<RawFormalConcept>)
        requires
            self.wf(),
        ensures
            r@.len() >= 1,
            r@[0].extent@ == full(self.n()),
            r@[0].intent@ == self.intent_of(full(self.n())),
            self.lists_all_concepts(r@),
    {
        let mut out: Vec<RawFormalConcept> = Vec::new();
        let top = self.max_concept_raw();
        let ghost t = top.intent@;
        self.walk(top, 0, &mut out);
        proof {
            assert forall|d: Seq<bool>| #[trigger] intent_count(out@, d) == if self.closed_intent(d) { 1nat } else { 0nat } by {
                assert(intent_count(Seq::<RawFormalConcept>::empty(), d) == 0) by {
                    broadcast use vstd::seq_lib::group_to_multiset_ensures;

                    assert(intents(Seq::<RawFormalConcept>::empty()) =~= Seq::<Seq<bool>>::empty());
                    assert(!Seq::<Seq<bool>>::empty().contains(d));
                }
                if self.closed_intent(d) {
                    lemma_closed_contains_top(self, d);
                } else {
                    lemma_count_of_unclosed(self, out@, d);
                }
            }
        }
        out
    }

    /// The number of concepts of this context, which is the number of its
    /// closed intents.
    pub fn num_concepts(&self) -> (r: usize)
        requires
            self.wf(),
        ensures
            r >= 1,
            r == self.closed_intents().len(),
    {
        let all = self.all_concepts_raw();
        proof {
            listing_length(self, all@);
        }
        all.len()
    }
}

} // verus!
