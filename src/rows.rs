use vstd::prelude::*;
use crate::bits::{Bits, and_seq};

verus! {

/// `a` is a subset of `b`: the same length, and every position set in `a` is set in `b`.
pub open spec fn subset_of(a: Seq<bool>, b: Seq<bool>) -> bool {
    a.len() == b.len() && forall|k: int| 0 <= k < a.len() && #[trigger] a[k] ==> b[k]
}

/// The bits of each row of `x`.
pub open spec fn matrix_of(x: Seq<Bits>) -> Seq<Seq<bool>> {
    x.map_values(|b: Bits| b@)
}

/// Every row of `x` has length `w`.
pub open spec fn rows_have_len(x: Seq<Seq<bool>>, w: nat) -> bool {
    forall|i: int| 0 <= i < x.len() ==> (#[trigger] x[i]).len() == w
}

/// The intersection of the rows of `x` other than row `i` that contain row `i`,
/// over width `w`; all-ones where there are none.
pub open spec fn meet_of_supersets(x: Seq<Seq<bool>>, i: int, w: nat) -> Seq<bool> {
    Seq::new(w, |k: int| forall|j: int| 0 <= j < x.len() && j != i && subset_of(x[i], #[trigger] x[j]) ==> x[j][k])
}

/// Row `i` of `x` equals the intersection of the other rows that contain it.
pub open spec fn is_redundant(x: Seq<Seq<bool>>, i: int) -> bool {
    x[i] == meet_of_supersets(x, i, x[0].len())
}

/// Whether every set bit of `a` is set in `b`, for bit-vectors of one length.
pub fn is_subset(a: &Bits, b: &Bits) -> (r: bool)
    ensures
        r == subset_of(a@, b@),
{
    if a.len() != b.len() {
        return false;
    }
    let mut temp = a.duplicate();
    temp.and_assign(b);
    let r = temp.equals(a);
    proof {
        if r {
            assert forall|k: int| 0 <= k < a@.len() && #[trigger] a@[k] implies b@[k] by {
                assert(temp@[k] == (a@[k] && b@[k]));
            }
        } else {
            assert(!subset_of(a@, b@)) by {
                if subset_of(a@, b@) {
                    assert(temp@ =~= a@);
                }
            }
        }
    }
    r
}

/// The index of the first row of `x` that equals the intersection of the other
/// rows containing it, if there is one.
pub fn redundant_row(x: &Vec<Bits>) -> (r: Option<usize>)
    requires
        x@.len() > 0 ==> rows_have_len(matrix_of(x@), x@[0]@.len()),
    ensures
        match r {
            Some(i) => i < x@.len() && is_redundant(matrix_of(x@), i as int)
                && forall|p: int| 0 <= p < i ==> !is_redundant(matrix_of(x@), p),
            None => forall|p: int| 0 <= p < x@.len() ==> !is_redundant(matrix_of(x@), p),
        },
{
    let ghost mx = matrix_of(x@);
    let n = x.len();
    let mut i: usize = 0;
    while i < n
        invariant
            n == x@.len(),
            mx == matrix_of(x@),
            n > 0 ==> rows_have_len(mx, x@[0]@.len()),
            i <= n,
            forall|p: int| 0 <= p < i ==> !is_redundant(mx, p),
        decreases n - i,
    {
        let w = x[0].len();
        let mut best = Bits::repeat(true, w);
        let mut j: usize = 0;
        while j < n
            invariant
                n == x@.len(),
                mx == matrix_of(x@),
                rows_have_len(mx, w as nat),
                w == mx[0].len(),
                i < n,
                j <= n,
                best@ == Seq::new(
                    w as nat,
                    |k: int|
                        forall|q: int|
                            0 <= q < j && q != i && subset_of(mx[i as int], #[trigger] mx[q]) ==> mx[q][k],
                ),
            decreases n - j,
        {
            if i != j && is_subset(&x[i], &x[j]) {
                let ghost before = best@;
                best.and_assign(&x[j]);
                assert(mx[j as int] == x@[j as int]@);
                assert(best@ =~= Seq::new(
                    w as nat,
                    |k: int|
                        forall|q: int|
                            0 <= q < j + 1 && q != i && subset_of(mx[i as int], #[trigger] mx[q]) ==> mx[q][k],
                )) by {
                    assert forall|k: int| 0 <= k < w implies best@[k] == (forall|q: int|
                            0 <= q < j + 1 && q != i && subset_of(mx[i as int], #[trigger] mx[q]) ==> mx[q][k]) by {
                        assert(best@[k] == (before[k] && mx[j as int][k]));
                    }
                }
            } else {
                proof {
                    assert(mx[j as int] == x@[j as int]@);
                    assert(mx[i as int] == x@[i as int]@);
                }
                assert(best@ =~= Seq::new(
                    w as nat,
                    |k: int|
                        forall|q: int|
                            0 <= q < j + 1 && q != i && subset_of(mx[i as int], #[trigger] mx[q]) ==> mx[q][k],
                )) by {
                    assert forall|k: int| 0 <= k < w implies best@[k] == (forall|q: int|
                            0 <= q < j + 1 && q != i && subset_of(mx[i as int], #[trigger] mx[q]) ==> mx[q][k]) by {
                        if !(j != i && subset_of(mx[i as int], mx[j as int])) {
                        }
                    }
                }
            }
            j = j + 1;
        }
        assert(best@ =~= meet_of_supersets(mx, i as int, mx[0].len()));
        assert(mx[i as int] == x@[i as int]@);
        if best.equals(&x[i]) {
            return Some(i);
        }
        i = i + 1;
    }
    None
}

/// Bitwise disjunction of two sequences of one length.
pub open spec fn or_seq(a: Seq<bool>, b: Seq<bool>) -> Seq<bool> {
    Seq::new(a.len(), |k: int| a[k] || b[k])
}

/// For bit-vectors of one length, `a` is a subset of `b` exactly when `a AND b`
/// is `a`, and exactly when `a OR b` is `b`.
pub proof fn subset_by_meet_and_join(a: Seq<bool>, b: Seq<bool>)
    requires
        a.len() == b.len(),
    ensures
        subset_of(a, b) == (and_seq(a, b) == a),
        subset_of(a, b) == (or_seq(a, b) == b),
{
    if subset_of(a, b) {
        assert(and_seq(a, b) =~= a);
        assert(or_seq(a, b) =~= b);
    }
    if and_seq(a, b) == a {
        assert forall|k: int| 0 <= k < a.len() && #[trigger] a[k] implies b[k] by {
            assert(and_seq(a, b)[k] == a[k]);
        }
    }
    if or_seq(a, b) == b {
        assert forall|k: int| 0 <= k < a.len() && #[trigger] a[k] implies b[k] by {
            assert(or_seq(a, b)[k] == b[k]);
        }
    }
}

} // verus!
