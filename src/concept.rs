use vstd::prelude::*;
use vstd::pervasive::cloned;
use std::cmp::Ordering;
use std::sync::Arc;
use vstd::std_specs::cmp::PartialEqSpec;
use crate::rows::{is_subset, subset_of};
use crate::bits::Bits;
use crate::context::{FormalContext, full};
use crate::galois::lemma_same_relation;
use crate::reduction::listing_length;

verus! {

/// An extent and an intent, without the context they belong to.
#[derive(Debug, Clone)]
pub struct RawFormalConcept {
    pub extent: Bits,
    pub intent: Bits,
}

/// A concept together with a shared handle on its context.
#[derive(Debug, Clone)]
pub struct FormalConcept<A = String, B = String> {
    pub context: Arc<FormalContext<A, B>>,
    pub extent: Bits,
    pub intent: Bits,
}

impl<A, B> FormalContext<A, B> {
    /// `(a, b)` is a formal concept of this context: each is the derivation of the other.
    pub open spec fn is_concept(&self, a: Seq<bool>, b: Seq<bool>) -> bool {
        &&& a.len() == self.n()
        &&& b.len() == self.m()
        &&& a == self.extent_of(b)
        &&& b == self.intent_of(a)
    }
}

impl RawFormalConcept {
    /// Binds this pair to `context`.
    pub fn to_formal_concept<A, B>(&self, context: Arc<FormalContext<A, B>>) -> (r: FormalConcept<A, B>)
        requires
            context.wf(),
            context.is_concept(self.extent@, self.intent@),
        ensures
            r.context == context,
            r.extent@ == self.extent@,
            r.intent@ == self.intent@,
    {
        FormalConcept { context, extent: self.extent.duplicate(), intent: self.intent.duplicate() }
    }
}

impl<A, B> FormalConcept<A, B> {
    /// Whether the extent and the intent derive each other in the bound context.
    pub fn validate(&self) -> (r: bool)
        requires
            self.context.wf(),
            self.extent@.len() == self.context.n(),
            self.intent@.len() == self.context.m(),
        ensures
            r == self.context.is_concept(self.extent@, self.intent@),
    {
        let ctx: &FormalContext<A, B> = &self.context;
        let e = ctx.induce_l(&self.intent);
        let i = ctx.induce_r(&self.extent);
        e.equals(&self.extent) && i.equals(&self.intent)
    }
}

/// Relies on `Arc::clone`: another handle on the same shared value.
#[verifier::external_body]
fn share<T>(a: &Arc<T>) -> (r: Arc<T>)
    ensures
        r == *a,
{
    Arc::clone(a)
}

impl<A: Clone, B: Clone> FormalContext<A, B> {
    /// A shared handle on a copy of this context.
    pub fn arc(&self) -> (r: Arc<Self>)
        ensures
            forall|i: int| 0 <= i < self.n() ==> cloned(self.object_labels()[i], #[trigger] r.object_labels()[i]),
            forall|j: int| 0 <= j < self.m() ==> cloned(self.attribute_labels()[j], #[trigger] r.attribute_labels()[j]),
            r.n() == self.n(),
            r.m() == self.m(),
            r.rows() == self.rows(),
            r.cols() == self.cols(),
    {
        Arc::new(self.duplicate())
    }

    /// The greatest concept, bound to a copy of this context.
    pub fn max_concept(&self) -> (r: FormalConcept<A, B>)
        requires
            self.wf(),
        ensures
            r.context.wf(),
            r.context.rows() == self.rows(),
            r.context.cols() == self.cols(),
            r.extent@ == full(self.n()),
            r.intent@ == self.intent_of(full(self.n())),
    {
        let top = self.max_concept_raw();
        let arc = self.arc();
        proof {
            lemma_same_relation(self, &*arc, top.extent@, top.intent@);
        }
        top.to_formal_concept(arc)
    }

    /// Every concept of this context, each bound to one shared copy of it.
    pub fn all_concepts(&self) -> (r: Vec<FormalConcept<A, B>>)
        requires
            self.wf(),
        ensures
            r@.len() >= 1,
            forall|k: int| 0 <= k < r@.len() ==> {
                let c = #[trigger] r@[k];
                &&& c.context.wf()
                &&& c.context.rows() == self.rows()
                &&& c.context.cols() == self.cols()
                &&& self.is_concept(c.extent@, c.intent@)
            },
            r@.len() == self.closed_intents().len(),
            exists|raw: Seq<RawFormalConcept>|
                self.lists_all_concepts(raw) && raw.len() == r@.len() && forall|k: int|
                    0 <= k < raw.len() ==> (#[trigger] r@[k]).extent@ == raw[k].extent@ && r@[k].intent@ == raw[k].intent@,
    {
        let arc = self.arc();
        let raw = self.all_concepts_raw();
        let mut r: Vec<FormalConcept<A, B>> = Vec::new();
        let mut k: usize = 0;
        while k < raw.len()
            invariant
                self.wf(),
                arc.wf(),
                arc.n() == self.n(),
                arc.m() == self.m(),
                arc.rows() == self.rows(),
                arc.cols() == self.cols(),
                self.all_concepts_in(raw@),
                raw@.len() >= 1,
                k <= raw@.len(),
                r@.len() == k,
                forall|p: int| 0 <= p < k ==> {
                    let c = #[trigger] r@[p];
                    &&& c.context == arc
                    &&& self.is_concept(c.extent@, c.intent@)
                    &&& c.extent@ == raw@[p].extent@
                    &&& c.intent@ == raw@[p].intent@
                },
            decreases raw@.len() - k,
        {
            assert(self.is_concept(raw@[k as int].extent@, raw@[k as int].intent@));
            proof {
                lemma_same_relation(self, &*arc, raw@[k as int].extent@, raw@[k as int].intent@);
            }
            r.push(raw[k].to_formal_concept(share(&arc)));
            k = k + 1;
        }
        proof {
            listing_length(self, raw@);
        }
        r
    }
}

/// How two concepts compare: not at all across different contexts, else by
/// inclusion of their extents.
pub open spec fn concept_order<A: PartialEq, B: PartialEq>(c1: &FormalConcept<A, B>, c2: &FormalConcept<A, B>) -> Option<
    Ordering,
> {
    if !c1.context.same_spec(&*c2.context) {
        None
    } else if c1.extent@ == c2.extent@ {
        Some(Ordering::Equal)
    } else if subset_of(c1.extent@, c2.extent@) {
        Some(Ordering::Less)
    } else if subset_of(c2.extent@, c1.extent@) {
        Some(Ordering::Greater)
    } else {
        None
    }
}

impl<A: PartialEq, B: PartialEq> FormalConcept<A, B> {
    /// Whether the two concepts belong to the same context and have the same extent.
    pub fn same_concept(&self, other: &Self) -> (r: bool)
        ensures
            A::obeys_eq_spec() && B::obeys_eq_spec() ==> r == (self.context.same_spec(&*other.context)
                && self.extent@ == other.extent@),
    {
        let c1: &FormalContext<A, B> = &self.context;
        let c2: &FormalContext<A, B> = &other.context;
        c1.same_as(c2) && self.extent.equals(&other.extent)
    }

    /// The order of concepts of one context by inclusion of their extents.
    pub fn compare(&self, other: &Self) -> (r: Option<Ordering>)
        ensures
            A::obeys_eq_spec() && B::obeys_eq_spec() ==> r == concept_order(self, other),
    {
        let c1: &FormalContext<A, B> = &self.context;
        let c2: &FormalContext<A, B> = &other.context;
        if !c1.same_as(c2) {
            return None;
        }
        if self.extent.equals(&other.extent) {
            return Some(Ordering::Equal);
        }
        if is_subset(&self.extent, &other.extent) {
            return Some(Ordering::Less);
        }
        if is_subset(&other.extent, &self.extent) {
            return Some(Ordering::Greater);
        }
        None
    }
}

impl<A: PartialEq, B: PartialEq> PartialEq for FormalConcept<A, B> {
    fn eq(&self, other: &Self) -> (r: bool) {
        self.same_concept(other)
    }
}

impl<A: PartialEq, B: PartialEq> vstd::std_specs::cmp::PartialEqSpecImpl for FormalConcept<A, B> {
    open spec fn obeys_eq_spec() -> bool {
        A::obeys_eq_spec() && B::obeys_eq_spec()
    }

    open spec fn eq_spec(&self, other: &Self) -> bool {
        self.context.same_spec(&*other.context) && self.extent@ == other.extent@
    }
}

impl<A: Eq, B: Eq> Eq for FormalConcept<A, B> {

}

impl<A: PartialEq, B: PartialEq> PartialOrd for FormalConcept<A, B> {
    fn partial_cmp(&self, other: &Self) -> (r: Option<Ordering>) {
        self.compare(other)
    }
}

impl<A: PartialEq, B: PartialEq> vstd::std_specs::cmp::PartialOrdSpecImpl for FormalConcept<A, B> {
    open spec fn obeys_partial_cmp_spec() -> bool {
        A::obeys_eq_spec() && B::obeys_eq_spec()
    }

    open spec fn partial_cmp_spec(&self, other: &Self) -> Option<Ordering> {
        concept_order(self, other)
    }
}

} // verus!
