use vstd::prelude::*;
use vstd::pervasive::cloned;
use crate::bits::{Bits, count_true};
use crate::rows::{is_redundant, matrix_of, redundant_row, rows_have_len};
use vstd::std_specs::cmp::PartialEqSpec;
use crate::concept::RawFormalConcept;
use crate::reduction::{lemma_drop_attribute, lemma_drop_object, listing_length};

verus! {

/// A formal context: objects, attributes, and the incidence between them,
/// stored both row-major (the intent of each object) and column-major (the
/// extent of each attribute).
#[derive(Debug, Clone, PartialEq, Eq, Hash)]
pub struct FormalContext<A = String, B = String> {
    pub objects: Vec<A>,
    pub attributes: Vec<B>,
    relation: Vec<Bits>,
    relation_transposed: Vec<Bits>,
}

/// All-ones of length `len`.
pub open spec fn full(len: nat) -> Seq<bool> {
    Seq::new(len, |_k: int| true)
}

/// All-zeros of length `len`.
pub open spec fn empty_set(len: nat) -> Seq<bool> {
    Seq::new(len, |_k: int| false)
}

/// The number of ones in all the rows of `x`.
pub open spec fn ones_total(x: Seq<Seq<bool>>) -> nat
    decreases x.len(),
{
    if x.len() == 0 {
        0
    } else {
        ones_total(x.drop_last()) + count_true(x.last())
    }
}

/// No row of `x` is the intersection of the other rows containing it.
pub open spec fn no_redundant(x: Seq<Seq<bool>>) -> bool {
    forall|p: int| 0 <= p < x.len() ==> !is_redundant(x, p)
}

impl<A, B> FormalContext<A, B> {
    /// The object labels.
    pub closed spec fn object_labels(&self) -> Seq<A> {
        self.objects@
    }

    /// The attribute labels.
    pub closed spec fn attribute_labels(&self) -> Seq<B> {
        self.attributes@
    }

    /// The number of objects.
    pub open spec fn n(&self) -> nat {
        self.object_labels().len()
    }

    /// The number of attributes.
    pub open spec fn m(&self) -> nat {
        self.attribute_labels().len()
    }

    /// The stored intents of the objects.
    pub closed spec fn rows(&self) -> Seq<Seq<bool>> {
        matrix_of(self.relation@)
    }

    /// The stored extents of the attributes.
    pub closed spec fn cols(&self) -> Seq<Seq<bool>> {
        matrix_of(self.relation_transposed@)
    }

    /// Object `i` has attribute `j`.
    pub open spec fn rel(&self, i: int, j: int) -> bool {
        self.rows()[i][j]
    }

    /// Both copies of the relation have the dimensions of the label vectors.
    pub open spec fn shape_ok(&self) -> bool {
        &&& self.rows().len() == self.n()
        &&& self.cols().len() == self.m()
        &&& rows_have_len(self.rows(), self.m())
        &&& rows_have_len(self.cols(), self.n())
    }

    /// The column-major copy is the transpose of the row-major one.
    pub open spec fn transpose_ok(&self) -> bool {
        forall|i: int, j: int|
            0 <= i < self.n() && 0 <= j < self.m() ==> #[trigger] self.rows()[i][j] == self.cols()[j][i]
    }

    /// The context is well formed.
    pub open spec fn wf(&self) -> bool {
        self.shape_ok() && self.transpose_ok()
    }

    /// The attributes shared by every object of `a`.
    pub open spec fn intent_of(&self, a: Seq<bool>) -> Seq<bool> {
        Seq::new(self.m(), |j: int| forall|i: int| 0 <= i < self.n() && a[i] ==> #[trigger] self.rel(i, j))
    }

    /// The objects that have every attribute of `b`.
    pub open spec fn extent_of(&self, b: Seq<bool>) -> Seq<bool> {
        Seq::new(self.n(), |i: int| forall|j: int| 0 <= j < self.m() && b[j] ==> #[trigger] self.rel(i, j))
    }

    /// This context is `old` with some objects and attributes deleted: object
    /// `p` is object `ks[p]` of `old` and attribute `q` is attribute `ls[q]`,
    /// both index lists increasing, labels and incidences kept.
    pub open spec fn sub_context_of(&self, old: &Self, ks: Seq<int>, ls: Seq<int>) -> bool {
        &&& ks.len() == self.n()
        &&& ls.len() == self.m()
        &&& forall|p: int, q: int| 0 <= p < q < ks.len() ==> ks[p] < ks[q]
        &&& forall|p: int, q: int| 0 <= p < q < ls.len() ==> ls[p] < ls[q]
        &&& forall|p: int| 0 <= p < ks.len() ==> 0 <= #[trigger] ks[p] < old.n()
        &&& forall|q: int| 0 <= q < ls.len() ==> 0 <= #[trigger] ls[q] < old.m()
        &&& forall|p: int| 0 <= p < ks.len() ==> #[trigger] self.object_labels()[p] == old.object_labels()[ks[p]]
        &&& forall|q: int| 0 <= q < ls.len() ==> #[trigger] self.attribute_labels()[q] == old.attribute_labels()[ls[q]]
        &&& forall|p: int, q: int|
            0 <= p < ks.len() && 0 <= q < ls.len() ==> #[trigger] self.rel(p, q) == old.rel(ks[p], ls[q])
    }

    /// No object and no attribute is reducible.
    pub open spec fn reduced(&self) -> bool {
        no_redundant(self.rows()) && no_redundant(self.cols())
    }

    /// The label of object `i`.
    pub fn object_label(&self, i: usize) -> (r: &A)
        requires
            i < self.n(),
        ensures
            *r == self.object_labels()[i as int],
    {
        &self.objects[i]
    }

    /// The label of attribute `j`.
    pub fn attribute_label(&self, j: usize) -> (r: &B)
        requires
            j < self.m(),
        ensures
            *r == self.attribute_labels()[j as int],
    {
        &self.attributes[j]
    }

    /// The number of pairs of an object and an attribute it has.
    pub fn num_incidences(&self) -> (r: usize)
        requires
            self.wf(),
            self.n() * self.m() <= usize::MAX,
        ensures
            r == ones_total(self.rows()),
    {
        let n = self.objects.len();
        let m = self.attributes.len();
        let mut total: usize = 0;
        let mut i: usize = 0;
        while i < n
            invariant
                self.wf(),
                n == self.n(),
                m == self.m(),
                n * m <= usize::MAX,
                i <= n,
                total == ones_total(self.rows().subrange(0, i as int)),
                total <= i * m,
            decreases n - i,
        {
            let row = &self.relation[i];
            assert(self.rows()[i as int] == row@);
            let c = row.count_ones();
            proof {
                row@.lemma_filter_len(|x: bool| x);
                assert(self.rows().subrange(0, i + 1).drop_last() =~= self.rows().subrange(0, i as int));
                assert(i * m + m == (i + 1) * m) by (nonlinear_arith);
                assert((i + 1) * m <= n * m) by (nonlinear_arith)
                    requires
                        i + 1 <= n,
                ;
            }
            total = total + c;
            i = i + 1;
        }
        assert(self.rows().subrange(0, n as int) =~= self.rows());
        total
    }

    /// The number of objects.
    pub fn num_objects(&self) -> (r: usize)
        ensures
            r == self.n(),
    {
        self.objects.len()
    }

    /// The number of attributes.
    pub fn num_attributes(&self) -> (r: usize)
        ensures
            r == self.m(),
    {
        self.attributes.len()
    }

    /// Builds a context from labels and the intent of each object.
    pub fn new(objects: Vec<A>, attributes: Vec<B>, relation: Vec<Bits>) -> (r: Self)
        requires
            relation@.len() == objects@.len(),
            rows_have_len(matrix_of(relation@), attributes@.len()),
        ensures
            r.wf(),
            r.object_labels() == objects@,
            r.attribute_labels() == attributes@,
            r.rows() == matrix_of(relation@),
    {
        let n = objects.len();
        let m = attributes.len();
        let ghost mx = matrix_of(relation@);
        let mut relation_transposed: Vec<Bits> = Vec::new();
        let mut j: usize = 0;
        while j < m
            invariant
                n == relation@.len(),
                m == attributes@.len(),
                mx == matrix_of(relation@),
                rows_have_len(mx, m as nat),
                j <= m,
                relation_transposed@.len() == j,
                forall|q: int| 0 <= q < j ==> (#[trigger] relation_transposed@[q])@ == Seq::new(n as nat, |i: int| mx[i][q]),
            decreases m - j,
        {
            let mut col = Bits::new();
            let mut i: usize = 0;
            while i < n
                invariant
                    n == relation@.len(),
                    mx == matrix_of(relation@),
                    rows_have_len(mx, m as nat),
                    j < m,
                    i <= n,
                    col@ == Seq::new(i as nat, |p: int| mx[p][j as int]),
                decreases n - i,
            {
                assert(mx[i as int] == relation@[i as int]@);
                assert(mx[i as int].len() == m);
                col.push(relation[i].get(j));
                assert(col@ =~= Seq::new((i + 1) as nat, |p: int| mx[p][j as int]));
                i = i + 1;
            }
            relation_transposed.push(col);
            j = j + 1;
        }
        let r = FormalContext { objects, attributes, relation, relation_transposed };
        assert(rows_have_len(r.cols(), r.n()));
        r
    }

    /// Whether the two stored copies of the relation agree.
    pub fn validate(&self) -> (r: bool)
        requires
            self.shape_ok(),
        ensures
            r == self.transpose_ok(),
    {
        let n = self.objects.len();
        let m = self.attributes.len();
        let mut i: usize = 0;
        while i < n
            invariant
                self.shape_ok(),
                n == self.n(),
                m == self.m(),
                i <= n,
                forall|p: int, q: int| 0 <= p < i && 0 <= q < m ==> #[trigger] self.rows()[p][q] == self.cols()[q][p],
            decreases n - i,
        {
            let mut j: usize = 0;
            while j < m
                invariant
                    self.shape_ok(),
                    n == self.n(),
                    m == self.m(),
                    i < n,
                    j <= m,
                    forall|p: int, q: int| 0 <= p < i && 0 <= q < m ==> #[trigger] self.rows()[p][q] == self.cols()[q][p],
                    forall|q: int| 0 <= q < j ==> #[trigger] self.rows()[i as int][q] == self.cols()[q][i as int],
                decreases m - j,
            {
                assert(self.rows()[i as int] == self.relation@[i as int]@);
                assert(self.cols()[j as int] == self.relation_transposed@[j as int]@);
                assert(self.rows()[i as int].len() == m);
                assert(self.cols()[j as int].len() == n);
                if self.relation[i].get(j) != self.relation_transposed[j].get(i) {
                    return false;
                }
                j = j + 1;
            }
            i = i + 1;
        }
        true
    }

    /// A context in which no object has any attribute.
    pub fn zero_context(objects: Vec<A>, attributes: Vec<B>) -> (r: Self)
        ensures
            r.wf(),
            r.object_labels() == objects@,
            r.attribute_labels() == attributes@,
            forall|i: int, j: int| 0 <= i < r.n() && 0 <= j < r.m() ==> !#[trigger] r.rel(i, j),
    {
        let n = objects.len();
        let m = attributes.len();
        let mut relation: Vec<Bits> = Vec::new();
        let mut i: usize = 0;
        while i < n
            invariant
                i <= n,
                relation@.len() == i,
                forall|p: int| 0 <= p < i ==> (#[trigger] relation@[p])@ == empty_set(m as nat),
            decreases n - i,
        {
            relation.push(Bits::repeat(false, m));
            i = i + 1;
        }
        let mut relation_transposed: Vec<Bits> = Vec::new();
        let mut j: usize = 0;
        while j < m
            invariant
                j <= m,
                relation_transposed@.len() == j,
                forall|p: int| 0 <= p < j ==> (#[trigger] relation_transposed@[p])@ == empty_set(n as nat),
            decreases m - j,
        {
            relation_transposed.push(Bits::repeat(false, n));
            j = j + 1;
        }
        let r = FormalContext { objects, attributes, relation, relation_transposed };
        assert forall|p: int| 0 <= p < r.n() implies #[trigger] r.rows()[p] == empty_set(m as nat) by {
            assert(r.rows()[p] == r.relation@[p]@);
        }
        assert forall|q: int| 0 <= q < r.m() implies #[trigger] r.cols()[q] == empty_set(n as nat) by {
            assert(r.cols()[q] == r.relation_transposed@[q]@);
        }
        r
    }

    /// Whether object `obj_idx` has attribute `attr_idx`.
    pub fn get_relation_idx(&self, obj_idx: usize, attr_idx: usize) -> (r: bool)
        requires
            self.wf(),
            obj_idx < self.n(),
            attr_idx < self.m(),
        ensures
            r == self.rel(obj_idx as int, attr_idx as int),
    {
        assert(self.rows()[obj_idx as int] == self.relation@[obj_idx as int]@);
        self.relation[obj_idx].get(attr_idx)
    }

    /// The intent of object `i`.
    pub fn get_object_intent(&self, i: usize) -> (r: &Bits)
        requires
            self.wf(),
            i < self.n(),
        ensures
            r@ == self.rows()[i as int],
    {
        &self.relation[i]
    }

    /// The extent of attribute `j`.
    pub fn get_attribute_extent(&self, j: usize) -> (r: &Bits)
        requires
            self.wf(),
            j < self.m(),
        ensures
            r@ == self.cols()[j as int],
    {
        &self.relation_transposed[j]
    }

    /// Sets whether object `obj_idx` has attribute `attr_idx`, in both copies.
    pub fn modify_relation_idx(&mut self, obj_idx: usize, attr_idx: usize, value: bool)
        requires
            old(self).wf(),
            obj_idx < old(self).n(),
            attr_idx < old(self).m(),
        ensures
            final(self).wf(),
            final(self).object_labels() == old(self).object_labels(),
            final(self).attribute_labels() == old(self).attribute_labels(),
            forall|i: int, j: int|
                0 <= i < final(self).n() && 0 <= j < final(self).m() ==> #[trigger] final(self).rel(i, j) == if i
                    == obj_idx && j == attr_idx {
                    value
                } else {
                    old(self).rel(i, j)
                },
    {
        let ghost old_rows = self.rows();
        let ghost old_cols = self.cols();
        assert(old_rows[obj_idx as int] == self.relation@[obj_idx as int]@);
        assert(old_cols[attr_idx as int] == self.relation_transposed@[attr_idx as int]@);
        self.relation[obj_idx].set(attr_idx, value);
        self.relation_transposed[attr_idx].set(obj_idx, value);
        assert(self.rows() =~= old_rows.update(obj_idx as int, old_rows[obj_idx as int].update(attr_idx as int, value)));
        assert(self.cols() =~= old_cols.update(attr_idx as int, old_cols[attr_idx as int].update(obj_idx as int, value)));
    }

    /// The attributes common to every object of `extent`.
    pub fn induce_r(&self, extent: &Bits) -> (r: Bits)
        requires
            self.wf(),
            extent@.len() == self.n(),
        ensures
            r@ == self.intent_of(extent@),
    {
        let m = self.attributes.len();
        let mut intent = Bits::repeat(true, m);
        let ones = extent.ones();
        let mut k: usize = 0;
        while k < ones.len()
            invariant
                self.wf(),
                extent@.len() == self.n(),
                m == self.m(),
                crate::bits::lists_positions(ones@, extent@, true),
                k <= ones@.len(),
                intent@ == Seq::new(m as nat, |j: int| forall|p: int| 0 <= p < k ==> #[trigger] self.rel(ones@[p] as int, j)),
            decreases ones@.len() - k,
        {
            let ghost before = intent@;
            let obj = ones[k];
            assert(self.rows()[obj as int] == self.relation@[obj as int]@);
            intent.and_assign(&self.relation[obj]);
            assert(intent@ =~= Seq::new(m as nat, |j: int| forall|p: int| 0 <= p < k + 1 ==> #[trigger] self.rel(ones@[p] as int, j))) by {
                assert forall|j: int| 0 <= j < m implies intent@[j] == (forall|p: int| 0 <= p < k + 1 ==> #[trigger] self.rel(ones@[p] as int, j)) by {
                    assert(intent@[j] == (before[j] && self.rel(obj as int, j)));
                }
            }
            k = k + 1;
        }
        assert(intent@ =~= self.intent_of(extent@)) by {
            assert forall|j: int| 0 <= j < m implies intent@[j] == self.intent_of(extent@)[j] by {
                if intent@[j] {
                    assert forall|i: int| 0 <= i < self.n() && extent@[i] implies #[trigger] self.rel(i, j) by {
                        let p = choose|p: int| 0 <= p < ones@.len() && ones@[p] == i;
                    }
                } else {
                    let p = choose|p: int| 0 <= p < ones@.len() && !self.rel(ones@[p] as int, j);
                    assert(extent@[ones@[p] as int]);
                }
            }
        }
        intent
    }

    /// The objects that have every attribute of `intent`.
    pub fn induce_l(&self, intent: &Bits) -> (r: Bits)
        requires
            self.wf(),
            intent@.len() == self.m(),
        ensures
            r@ == self.extent_of(intent@),
    {
        let n = self.objects.len();
        let mut extent = Bits::repeat(true, n);
        let ones = intent.ones();
        let mut k: usize = 0;
        while k < ones.len()
            invariant
                self.wf(),
                intent@.len() == self.m(),
                n == self.n(),
                crate::bits::lists_positions(ones@, intent@, true),
                k <= ones@.len(),
                extent@ == Seq::new(n as nat, |i: int| forall|p: int| 0 <= p < k ==> #[trigger] self.rel(i, ones@[p] as int)),
            decreases ones@.len() - k,
        {
            let ghost before = extent@;
            let attr = ones[k];
            assert(self.cols()[attr as int] == self.relation_transposed@[attr as int]@);
            extent.and_assign(&self.relation_transposed[attr]);
            assert(extent@ =~= Seq::new(n as nat, |i: int| forall|p: int| 0 <= p < k + 1 ==> #[trigger] self.rel(i, ones@[p] as int))) by {
                assert forall|i: int| 0 <= i < n implies extent@[i] == (forall|p: int| 0 <= p < k + 1 ==> #[trigger] self.rel(i, ones@[p] as int)) by {
                    assert(extent@[i] == (before[i] && self.cols()[attr as int][i]));
                    assert(ones@[k as int] == attr);
                    assert(self.rows()[i][attr as int] == self.cols()[attr as int][i]);
                    assert(self.rel(i, attr as int) == self.cols()[attr as int][i]);
                    assert((forall|p: int| 0 <= p < k + 1 ==> #[trigger] self.rel(i, ones@[p] as int)) == ((forall|p: int| 0 <= p < k ==> #[trigger] self.rel(i, ones@[p] as int)) && self.rel(i, attr as int)));
                }
            }
            k = k + 1;
        }
        assert(extent@ =~= self.extent_of(intent@)) by {
            assert forall|i: int| 0 <= i < n implies extent@[i] == self.extent_of(intent@)[i] by {
                if extent@[i] {
                    assert forall|j: int| 0 <= j < self.m() && intent@[j] implies #[trigger] self.rel(i, j) by {
                        let p = choose|p: int| 0 <= p < ones@.len() && ones@[p] == j;
                    }
                } else {
                    let p = choose|p: int| 0 <= p < ones@.len() && !self.rel(i, ones@[p] as int);
                    assert(intent@[ones@[p] as int]);
                }
            }
        }
        extent
    }

    /// Whether no object and no attribute is reducible.
    pub fn is_reduced(&self) -> (r: bool)
        requires
            self.wf(),
        ensures
            r == self.reduced(),
    {
        proof {
            self.lemma_rows_uniform();
        }
        redundant_row(&self.relation).is_none() && redundant_row(&self.relation_transposed).is_none()
    }

    /// Both copies of the relation are matrices, as `redundant_row` asks.
    proof fn lemma_rows_uniform(&self)
        requires
            self.wf(),
        ensures
            self.relation@.len() > 0 ==> rows_have_len(matrix_of(self.relation@), self.relation@[0]@.len()),
            self.relation_transposed@.len() > 0 ==> rows_have_len(
                matrix_of(self.relation_transposed@),
                self.relation_transposed@[0]@.len(),
            ),
    {
        if self.relation@.len() > 0 {
            assert(self.rows()[0] == self.relation@[0]@);
        }
        if self.relation_transposed@.len() > 0 {
            assert(self.cols()[0] == self.relation_transposed@[0]@);
        }
    }

    /// Deletes object `i` from the labels and from both copies of the relation.
    fn remove_object(&mut self, i: usize)
        requires
            old(self).wf(),
            i < old(self).n(),
        ensures
            final(self).wf(),
            final(self).object_labels() == old(self).object_labels().remove(i as int),
            final(self).attribute_labels() == old(self).attribute_labels(),
            final(self).rows() == old(self).rows().remove(i as int),
    {
        let ghost old_rows = self.rows();
        let ghost old_cols = self.cols();
        self.objects.remove(i);
        self.relation.remove(i);
        assert(self.rows() =~= old_rows.remove(i as int));
        let ghost objs = self.object_labels();
        let ghost attrs = self.attribute_labels();
        let m = self.attributes.len();
        let mut k: usize = 0;
        while k < m
            invariant
                m == self.m(),
                self.object_labels() == objs,
                self.attribute_labels() == attrs,
                self.relation_transposed@.len() == m,
                old_cols.len() == m,
                rows_have_len(old_cols, (self.n() + 1) as nat),
                i <= self.n(),
                k <= m,
                self.rows() == old_rows.remove(i as int),
                forall|q: int| 0 <= q < k ==> #[trigger] self.cols()[q] == old_cols[q].remove(i as int),
                forall|q: int| k <= q < m ==> #[trigger] self.cols()[q] == old_cols[q],
            decreases m - k,
        {
            assert(self.cols()[k as int] == self.relation_transposed@[k as int]@);
            let ghost before = self.cols();
            self.relation_transposed[k].remove(i);
            assert forall|q: int| 0 <= q < m && q != k implies #[trigger] self.cols()[q] == before[q] by {
                assert(self.cols()[q] == self.relation_transposed@[q]@);
            }
            k = k + 1;
        }
        assert forall|p: int, q: int| 0 <= p < self.n() && 0 <= q < self.m() implies #[trigger] self.rows()[p][q]
            == self.cols()[q][p] by {
            if p < i {
                assert(old_rows[p][q] == old_cols[q][p]);
            } else {
                assert(old_rows[p + 1][q] == old_cols[q][p + 1]);
            }
        }
    }

    /// Deletes attribute `j` from the labels and from both copies of the relation.
    fn remove_attribute(&mut self, j: usize)
        requires
            old(self).wf(),
            j < old(self).m(),
        ensures
            final(self).wf(),
            final(self).object_labels() == old(self).object_labels(),
            final(self).attribute_labels() == old(self).attribute_labels().remove(j as int),
            final(self).cols() == old(self).cols().remove(j as int),
    {
        let ghost old_rows = self.rows();
        let ghost old_cols = self.cols();
        self.attributes.remove(j);
        self.relation_transposed.remove(j);
        assert(self.cols() =~= old_cols.remove(j as int));
        let ghost objs = self.object_labels();
        let ghost attrs = self.attribute_labels();
        let n = self.objects.len();
        let mut k: usize = 0;
        while k < n
            invariant
                n == self.n(),
                self.object_labels() == objs,
                self.attribute_labels() == attrs,
                self.relation@.len() == n,
                old_rows.len() == n,
                rows_have_len(old_rows, (self.m() + 1) as nat),
                j <= self.m(),
                k <= n,
                self.cols() == old_cols.remove(j as int),
                forall|q: int| 0 <= q < k ==> #[trigger] self.rows()[q] == old_rows[q].remove(j as int),
                forall|q: int| k <= q < n ==> #[trigger] self.rows()[q] == old_rows[q],
            decreases n - k,
        {
            assert(self.rows()[k as int] == self.relation@[k as int]@);
            let ghost before = self.rows();
            self.relation[k].remove(j);
            assert forall|q: int| 0 <= q < n && q != k implies #[trigger] self.rows()[q] == before[q] by {
                assert(self.rows()[q] == self.relation@[q]@);
            }
            k = k + 1;
        }
        assert forall|p: int, q: int| 0 <= p < self.n() && 0 <= q < self.m() implies #[trigger] self.rows()[p][q]
            == self.cols()[q][p] by {
            if q < j {
                assert(old_rows[p][q] == old_cols[q][p]);
            } else {
                assert(old_rows[p][q + 1] == old_cols[q + 1][p]);
            }
        }
    }

    /// Deleting object `i` keeps a sub-context a sub-context.
    proof fn lemma_sub_drop_object(start: &Self, before: &Self, after: &Self, ks: Seq<int>, ls: Seq<int>, i: int)
        requires
            before.wf(),
            after.wf(),
            before.sub_context_of(start, ks, ls),
            0 <= i < before.n(),
            after.object_labels() == before.object_labels().remove(i),
            after.attribute_labels() == before.attribute_labels(),
            after.rows() == before.rows().remove(i),
        ensures
            after.sub_context_of(start, ks.remove(i), ls),
    {
        let k2 = ks.remove(i);
        assert forall|p: int, q: int| 0 <= p < k2.len() && 0 <= q < ls.len() implies #[trigger] after.rel(p, q)
            == start.rel(k2[p], ls[q]) by {
            if p < i {
                assert(after.rows()[p] == before.rows()[p]);
                assert(before.rel(p, q) == start.rel(ks[p], ls[q]));
            } else {
                assert(after.rows()[p] == before.rows()[p + 1]);
                assert(before.rel(p + 1, q) == start.rel(ks[p + 1], ls[q]));
            }
        }
        assert forall|p: int| 0 <= p < k2.len() implies #[trigger] after.object_labels()[p] == start.object_labels()[k2[p]] by {
            if p < i {
                assert(before.object_labels()[p] == start.object_labels()[ks[p]]);
            } else {
                assert(before.object_labels()[p + 1] == start.object_labels()[ks[p + 1]]);
            }
        }
        assert forall|p: int, q: int| 0 <= p < q < k2.len() implies k2[p] < k2[q] by {
            if p < i && q >= i {
                assert(ks[p] < ks[q + 1]);
            }
        }
        assert forall|p: int| 0 <= p < k2.len() implies 0 <= #[trigger] k2[p] < start.n() by {
            if p >= i {
                assert(0 <= ks[p + 1] < start.n());
            }
        }
    }

    /// Deleting attribute `j` keeps a sub-context a sub-context.
    proof fn lemma_sub_drop_attribute(start: &Self, before: &Self, after: &Self, ks: Seq<int>, ls: Seq<int>, j: int)
        requires
            before.wf(),
            after.wf(),
            before.sub_context_of(start, ks, ls),
            0 <= j < before.m(),
            after.object_labels() == before.object_labels(),
            after.attribute_labels() == before.attribute_labels().remove(j),
            after.cols() == before.cols().remove(j),
        ensures
            after.sub_context_of(start, ks, ls.remove(j)),
    {
        let l2 = ls.remove(j);
        assert forall|p: int, q: int| 0 <= p < ks.len() && 0 <= q < l2.len() implies #[trigger] after.rel(p, q)
            == start.rel(ks[p], l2[q]) by {
            assert(after.rows()[p][q] == after.cols()[q][p]);
            if q < j {
                assert(after.cols()[q] == before.cols()[q]);
                assert(before.rows()[p][q] == before.cols()[q][p]);
                assert(before.rel(p, q) == start.rel(ks[p], ls[q]));
            } else {
                assert(after.cols()[q] == before.cols()[q + 1]);
                assert(before.rows()[p][q + 1] == before.cols()[q + 1][p]);
                assert(before.rel(p, q + 1) == start.rel(ks[p], ls[q + 1]));
            }
        }
        assert forall|q: int| 0 <= q < l2.len() implies #[trigger] after.attribute_labels()[q] == start.attribute_labels()[l2[q]] by {
            if q < j {
                assert(before.attribute_labels()[q] == start.attribute_labels()[ls[q]]);
            } else {
                assert(before.attribute_labels()[q + 1] == start.attribute_labels()[ls[q + 1]]);
            }
        }
        assert forall|p: int, q: int| 0 <= p < q < l2.len() implies l2[p] < l2[q] by {
            if p < j && q >= j {
                assert(ls[p] < ls[q + 1]);
            }
        }
        assert forall|q: int| 0 <= q < l2.len() implies 0 <= #[trigger] l2[q] < start.m() by {
            if q >= j {
                assert(0 <= ls[q + 1] < start.m());
            }
        }
    }

    /// Removes reducible objects and attributes, one at a time, until none is
    /// left; objects are tried before attributes. What is left is the old
    /// context on some of its objects and attributes, with their labels and
    /// incidences, and with as many concepts. A context that is already
    /// reduced is left as it is.
    pub fn reduce(&mut self)
        requires
            old(self).wf(),
        ensures
            final(self).wf(),
            final(self).reduced(),
            final(self).n() <= old(self).n(),
            final(self).m() <= old(self).m(),
            final(self).closed_intents().len() == old(self).closed_intents().len(),
            exists|ks: Seq<int>, ls: Seq<int>| final(self).sub_context_of(&*old(self), ks, ls),
            forall|s1: Seq<RawFormalConcept>, s2: Seq<RawFormalConcept>|
                old(self).lists_all_concepts(s1) && #[trigger] final(self).lists_all_concepts(s2) ==> #[trigger] s1.len()
                    == s2.len(),
            old(self).reduced() ==> {
                &&& final(self).object_labels() == old(self).object_labels()
                &&& final(self).attribute_labels() == old(self).attribute_labels()
                &&& final(self).rows() == old(self).rows()
                &&& final(self).cols() == old(self).cols()
            },
    {
        let ghost start = *self;
        let ghost mut ks: Seq<int> = Seq::new(start.n(), |p: int| p);
        let ghost mut ls: Seq<int> = Seq::new(start.m(), |q: int| q);
        let mut done = false;
        while !done
            invariant
                self.wf(),
                self.sub_context_of(&start, ks, ls),
                self.n() <= start.n(),
                self.m() <= start.m(),
                self.closed_intents().len() == start.closed_intents().len(),
                done ==> self.reduced(),
                start.reduced() ==> {
                    &&& self.object_labels() == start.object_labels()
                    &&& self.attribute_labels() == start.attribute_labels()
                    &&& self.rows() == start.rows()
                    &&& self.cols() == start.cols()
                },
            decreases self.n() + self.m() + if done { 0int } else { 1int },
        {
            proof {
                self.lemma_rows_uniform();
            }
            let ghost before = *self;
            match redundant_row(&self.relation) {
                Some(i) => {
                    self.remove_object(i);
                    proof {
                        lemma_drop_object(&before, self, i as int);
                        Self::lemma_sub_drop_object(&start, &before, self, ks, ls, i as int);
                        ks = ks.remove(i as int);
                    }
                },
                None => {
                    match redundant_row(&self.relation_transposed) {
                        Some(j) => {
                            self.remove_attribute(j);
                            proof {
                                lemma_drop_attribute(&before, self, j as int);
                                Self::lemma_sub_drop_attribute(&start, &before, self, ks, ls, j as int);
                                ls = ls.remove(j as int);
                            }
                        },
                        None => {
                            done = true;
                        },
                    }
                },
            }
        }
        proof {
            assert forall|s1: Seq<RawFormalConcept>, s2: Seq<RawFormalConcept>|
                start.lists_all_concepts(s1) && #[trigger] self.lists_all_concepts(s2) implies #[trigger] s1.len() == s2.len() by {
                listing_length(&start, s1);
                listing_length(self, s2);
            }
        }
    }
}


/// `x` occurs in `v` at index `k`, and nowhere before it.
pub open spec fn first_match<T: PartialEq>(v: Seq<T>, x: T, k: int) -> bool {
    &&& 0 <= k < v.len()
    &&& v[k].eq_spec(&x)
    &&& forall|p: int| 0 <= p < k ==> !(#[trigger] v[p]).eq_spec(&x)
}

/// `x` occurs in `v`.
pub open spec fn occurs<T: PartialEq>(v: Seq<T>, x: T) -> bool {
    exists|k: int| 0 <= k < v.len() && (#[trigger] v[k]).eq_spec(&x)
}

/// The index of the first entry of `v` equal to `x`.
fn position<T: PartialEq>(v: &Vec<T>, x: &T) -> (r: Option<usize>)
    requires
        T::obeys_eq_spec(),
    ensures
        match r {
            Some(k) => first_match(v@, *x, k as int),
            None => !occurs(v@, *x),
        },
{
    let mut k: usize = 0;
    while k < v.len()
        invariant
            T::obeys_eq_spec(),
            k <= v@.len(),
            forall|p: int| 0 <= p < k ==> !(#[trigger] v@[p]).eq_spec(x),
        decreases v@.len() - k,
    {
        if v[k].eq(x) {
            return Some(k);
        }
        k = k + 1;
    }
    None
}

impl<A: PartialEq, B: PartialEq> FormalContext<A, B> {
    /// Whether the object labelled `obj` has the attribute labelled `attr`
    /// (the first such labels, where they repeat).
    pub fn get_relation(&self, obj: &A, attr: &B) -> (r: bool)
        requires
            self.wf(),
            A::obeys_eq_spec(),
            B::obeys_eq_spec(),
            occurs(self.object_labels(), *obj),
            occurs(self.attribute_labels(), *attr),
        ensures
            exists|i: int, j: int|
                first_match(self.object_labels(), *obj, i) && first_match(self.attribute_labels(), *attr, j) && r
                    == #[trigger] self.rel(i, j),
    {
        let i = position(&self.objects, obj).unwrap();
        let j = position(&self.attributes, attr).unwrap();
        let r = self.get_relation_idx(i, j);
        assert(first_match(self.object_labels(), *obj, i as int));
        r
    }

    /// Sets whether the object labelled `obj` has the attribute labelled `attr`
    /// (the first such labels, where they repeat), in both copies of the relation.
    pub fn modify_relation(&mut self, obj: &A, attr: &B, value: bool)
        requires
            old(self).wf(),
            A::obeys_eq_spec(),
            B::obeys_eq_spec(),
            occurs(old(self).object_labels(), *obj),
            occurs(old(self).attribute_labels(), *attr),
        ensures
            final(self).wf(),
            final(self).object_labels() == old(self).object_labels(),
            final(self).attribute_labels() == old(self).attribute_labels(),
            exists|oi: int, aj: int|
                first_match(old(self).object_labels(), *obj, oi) && first_match(old(self).attribute_labels(), *attr, aj)
                    && #[trigger] final(self).rel(oi, aj) == value && forall|i: int, j: int|
                    0 <= i < final(self).n() && 0 <= j < final(self).m() && (i != oi || j != aj)
                        ==> #[trigger] final(self).rel(i, j) == old(self).rel(i, j),
    {
        let i = position(&self.objects, obj).unwrap();
        let j = position(&self.attributes, attr).unwrap();
        self.modify_relation_idx(i, j, value);
        assert(first_match(old(self).object_labels(), *obj, i as int));
        assert(final(self).rel(i as int, j as int) == value);
    }
}

/// A copy of each bit-vector of `v`.
fn duplicate_rows(v: &Vec<Bits>) -> (r: Vec<Bits>)
    ensures
        matrix_of(r@) == matrix_of(v@),
{
    let mut r: Vec<Bits> = Vec::new();
    let mut k: usize = 0;
    while k < v.len()
        invariant
            k <= v@.len(),
            r@.len() == k,
            forall|p: int| 0 <= p < k ==> (#[trigger] r@[p])@ == v@[p]@,
        decreases v@.len() - k,
    {
        r.push(v[k].duplicate());
        k = k + 1;
    }
    assert(matrix_of(r@) =~= matrix_of(v@));
    r
}

impl<A: Clone, B: Clone> FormalContext<A, B> {
    /// A copy of this context, with cloned labels and the same relation.
    pub fn duplicate(&self) -> (r: Self)
        ensures
            forall|i: int| 0 <= i < self.n() ==> cloned(self.object_labels()[i], #[trigger] r.object_labels()[i]),
            forall|j: int| 0 <= j < self.m() ==> cloned(self.attribute_labels()[j], #[trigger] r.attribute_labels()[j]),
            r.n() == self.n(),
            r.m() == self.m(),
            r.rows() == self.rows(),
            r.cols() == self.cols(),
    {
        FormalContext {
            objects: self.objects.clone(),
            attributes: self.attributes.clone(),
            relation: duplicate_rows(&self.relation),
            relation_transposed: duplicate_rows(&self.relation_transposed),
        }
    }
}

impl<A: Clone> FormalContext<A, A> {
    /// The contranomial scale on `objects`: each object has, as attributes, all
    /// the objects but itself.
    pub fn contranomial_scale(objects: Vec<A>) -> (r: Self)
        ensures
            r.wf(),
            r.object_labels() == objects@,
            r.m() == objects@.len(),
            forall|j: int| 0 <= j < objects@.len() ==> cloned(objects@[j], #[trigger] r.attribute_labels()[j]),
            forall|i: int, j: int| 0 <= i < r.n() && 0 <= j < r.m() ==> #[trigger] r.rel(i, j) == (i != j),
    {
        let n = objects.len();
        let mut relation: Vec<Bits> = Vec::new();
        let mut i: usize = 0;
        while i < n
            invariant
                i <= n,
                relation@.len() == i,
                forall|p: int| 0 <= p < i ==> (#[trigger] relation@[p])@ == Seq::new(n as nat, |q: int| p != q),
            decreases n - i,
        {
            let mut row = Bits::repeat(true, n);
            row.set(i, false);
            assert(row@ =~= Seq::new(n as nat, |q: int| i != q));
            relation.push(row);
            i = i + 1;
        }
        let relation_transposed = duplicate_rows(&relation);
        let attributes = objects.clone();
        let r = FormalContext { attributes, relation_transposed, relation, objects };
        assert forall|p: int| 0 <= p < n implies #[trigger] r.rows()[p] == Seq::new(n as nat, |q: int| p != q) by {
            assert(r.rows()[p] == r.relation@[p]@);
        }
        r
    }
}

/// `a` and `b` have one length and equal entries, position by position.
pub open spec fn labels_match<T: PartialEq>(a: Seq<T>, b: Seq<T>) -> bool {
    a.len() == b.len() && forall|k: int| 0 <= k < a.len() ==> (#[trigger] a[k]).eq_spec(&b[k])
}

/// Whether two label vectors match position by position.
fn labels_equal<T: PartialEq>(a: &Vec<T>, b: &Vec<T>) -> (r: bool)
    ensures
        T::obeys_eq_spec() ==> r == labels_match(a@, b@),
{
    if a.len() != b.len() {
        return false;
    }
    let mut k: usize = 0;
    while k < a.len()
        invariant
            a@.len() == b@.len(),
            k <= a@.len(),
            T::obeys_eq_spec() ==> forall|p: int| 0 <= p < k ==> (#[trigger] a@[p]).eq_spec(&b@[p]),
        decreases a@.len() - k,
    {
        if !a[k].eq(&b[k]) {
            return false;
        }
        k = k + 1;
    }
    true
}

/// Whether two lists of bit-vectors hold the same bits.
fn rows_equal(a: &Vec<Bits>, b: &Vec<Bits>) -> (r: bool)
    ensures
        r == (matrix_of(a@) == matrix_of(b@)),
{
    if a.len() != b.len() {
        assert(matrix_of(a@).len() != matrix_of(b@).len());
        return false;
    }
    let mut k: usize = 0;
    while k < a.len()
        invariant
            a@.len() == b@.len(),
            k <= a@.len(),
            forall|p: int| 0 <= p < k ==> (#[trigger] a@[p])@ == b@[p]@,
        decreases a@.len() - k,
    {
        if !a[k].equals(&b[k]) {
            assert(matrix_of(a@)[k as int] != matrix_of(b@)[k as int]);
            return false;
        }
        k = k + 1;
    }
    assert(matrix_of(a@) =~= matrix_of(b@));
    true
}

impl<A: PartialEq, B: PartialEq> FormalContext<A, B> {
    /// The two contexts have matching labels and the same relation.
    pub open spec fn same_spec(&self, other: &Self) -> bool {
        &&& labels_match(self.object_labels(), other.object_labels())
        &&& labels_match(self.attribute_labels(), other.attribute_labels())
        &&& self.rows() == other.rows()
        &&& self.cols() == other.cols()
    }

    /// Whether the two contexts have matching labels and the same relation.
    pub fn same_as(&self, other: &Self) -> (r: bool)
        ensures
            A::obeys_eq_spec() && B::obeys_eq_spec() ==> r == self.same_spec(other),
    {
        labels_equal(&self.objects, &other.objects) && labels_equal(&self.attributes, &other.attributes)
            && rows_equal(&self.relation, &other.relation) && rows_equal(
            &self.relation_transposed,
            &other.relation_transposed,
        )
    }
}

} // verus!
