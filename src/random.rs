use vstd::prelude::*;
use crate::bits::Bits;
use crate::context::FormalContext;
use crate::rows::{matrix_of, rows_have_len};

verus! {

/// Relies on `rand::random::<bool>`: a fair coin from the thread-local generator.
#[verifier::external_body]
fn coin() -> bool {
    rand::random::<bool>()
}

/// The labels `0, 1, ..., len - 1`.
fn indices(len: usize) -> (r: Vec<usize>)
    ensures
        r@ == Seq::new(len as nat, |k: int| k as usize),
{
    let mut r: Vec<usize> = Vec::new();
    let mut k: usize = 0;
    while k < len
        invariant
            k <= len,
            r@ == Seq::new(k as nat, |p: int| p as usize),
        decreases len - k,
    {
        r.push(k);
        k = k + 1;
        assert(r@ =~= Seq::new(k as nat, |p: int| p as usize));
    }
    r
}

impl FormalContext<usize, usize> {
    /// A context on objects `0..num_objs` and attributes `0..num_attrs` in
    /// which each incidence holds with probability one half.
    pub fn random(num_objs: usize, num_attrs: usize) -> (r: Self)
        ensures
            r.wf(),
            r.object_labels() == Seq::new(num_objs as nat, |k: int| k as usize),
            r.attribute_labels() == Seq::new(num_attrs as nat, |k: int| k as usize),
    {
        let mut relation: Vec<Bits> = Vec::new();
        let mut i: usize = 0;
        while i < num_objs
            invariant
                i <= num_objs,
                relation@.len() == i,
                forall|p: int| 0 <= p < i ==> (#[trigger] relation@[p])@.len() == num_attrs,
            decreases num_objs - i,
        {
            let mut row = Bits::new();
            let mut j: usize = 0;
            while j < num_attrs
                invariant
                    j <= num_attrs,
                    row@.len() == j,
                decreases num_attrs - j,
            {
                row.push(coin());
                j = j + 1;
            }
            relation.push(row);
            i = i + 1;
        }
        assert(rows_have_len(matrix_of(relation@), num_attrs as nat));
        FormalContext::new(indices(num_objs), indices(num_attrs), relation)
    }
}

} // verus!
