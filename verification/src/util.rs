use vstd::prelude::*;
use crate::matrix::Matrix;
use crate::scalar::{Scalar, sum_of};

verus! {

/// The rectifier: the value itself when strictly positive, else zero.
pub open spec fn relu_spec<T: Scalar>(v: T) -> T {
    if v.is_pos_spec() {
        v
    } else {
        T::zero_spec()
    }
}

/// The rectifier's local derivative: one when strictly positive, else zero.
pub open spec fn relu_prime_spec<T: Scalar>(v: T) -> T {
    if v.is_pos_spec() {
        T::one_spec()
    } else {
        T::zero_spec()
    }
}

/// The rectifier applied to every entry of a sequence.
pub open spec fn relu_map<T: Scalar>(s: Seq<T>) -> Seq<T> {
    Seq::new(s.len(), |k: int| relu_spec(s[k]))
}

/// The rectifier's derivative applied to every entry of a sequence.
pub open spec fn relu_prime_map<T: Scalar>(s: Seq<T>) -> Seq<T> {
    Seq::new(s.len(), |k: int| relu_prime_spec(s[k]))
}

/// The exponential applied to every entry of a sequence.
pub open spec fn exp_map<T: Scalar>(s: Seq<T>) -> Seq<T> {
    Seq::new(s.len(), |k: int| s[k].exp_spec())
}

/// The softmax of a sequence taken as one flat vector: each entry's
/// exponential divided by the total of all the exponentials. No
/// maximum-subtraction stabilization is applied.
pub open spec fn softmax_map<T: Scalar>(s: Seq<T>) -> Seq<T> {
    Seq::new(s.len(), |k: int| s[k].exp_spec().div_spec(sum_of(exp_map(s))))
}

/// The hidden-layer activation: the rectifier, entry by entry.
pub fn activation<T: Scalar>(x: &Matrix<T>) -> (r: Matrix<T>)
    requires
        x.wf(),
    ensures
        r.wf(),
        r.rows == x.rows,
        r.cols == x.cols,
        r.data@ == relu_map(x.data@),
{
    let mut data: Vec<T> = Vec::new();
    let mut k: usize = 0;
    let n = x.data.len();
    while k < n
        invariant
            n == x.data@.len(),
            k <= n,
            data@.len() == k,
            forall|q: int| 0 <= q < k ==> #[trigger] data@[q] == relu_spec(x.data@[q]),
        decreases n - k,
    {
        let v = x.data[k];
        if v.is_pos() {
            data.push(v);
        } else {
            data.push(T::zero());
        }
        k = k + 1;
    }
    proof {
        assert(data@ =~= relu_map(x.data@));
    }
    Matrix { rows: x.rows, cols: x.cols, data }
}

/// The derivative of the hidden-layer activation, entry by entry.
pub fn activation_prime<T: Scalar>(x: &Matrix<T>) -> (r: Matrix<T>)
    requires
        x.wf(),
    ensures
        r.wf(),
        r.rows == x.rows,
        r.cols == x.cols,
        r.data@ == relu_prime_map(x.data@),
{
    let mut data: Vec<T> = Vec::new();
    let mut k: usize = 0;
    let n = x.data.len();
    while k < n
        invariant
            n == x.data@.len(),
            k <= n,
            data@.len() == k,
            forall|q: int| 0 <= q < k ==> #[trigger] data@[q] == relu_prime_spec(x.data@[q]),
        decreases n - k,
    {
        let v = x.data[k];
        if v.is_pos() {
            data.push(T::one());
        } else {
            data.push(T::zero());
        }
        k = k + 1;
    }
    proof {
        assert(data@ =~= relu_prime_map(x.data@));
    }
    Matrix { rows: x.rows, cols: x.cols, data }
}

/// The output-layer activation: softmax over the whole buffer taken as one
/// flat vector.
pub fn activation_last<T: Scalar>(x: &Matrix<T>) -> (r: Matrix<T>)
    requires
        x.wf(),
    ensures
        r.wf(),
        r.rows == x.rows,
        r.cols == x.cols,
        r.data@ == softmax_map(x.data@),
{
    let mut exps: Vec<T> = Vec::new();
    let mut k: usize = 0;
    let n = x.data.len();
    while k < n
        invariant
            n == x.data@.len(),
            k <= n,
            exps@.len() == k,
            forall|q: int| 0 <= q < k ==> #[trigger] exps@[q] == x.data@[q].exp_spec(),
        decreases n - k,
    {
        let e = x.data[k].exp();
        exps.push(e);
        k = k + 1;
    }
    proof {
        assert(exps@ =~= exp_map(x.data@));
    }
    let em = Matrix { rows: x.rows, cols: x.cols, data: exps };
    let total = em.sum();
    let mut data: Vec<T> = Vec::new();
    let mut k2: usize = 0;
    while k2 < n
        invariant
            n == x.data@.len(),
            em.data@ == exp_map(x.data@),
            em.data@.len() == n,
            total == sum_of(exp_map(x.data@)),
            k2 <= n,
            data@.len() == k2,
            forall|q: int|
                0 <= q < k2 ==> #[trigger] data@[q] == x.data@[q].exp_spec().div_spec(
                    sum_of(exp_map(x.data@)),
                ),
        decreases n - k2,
    {
        data.push(em.data[k2].div(total));
        k2 = k2 + 1;
    }
    proof {
        assert(data@ =~= softmax_map(x.data@));
    }
    Matrix { rows: x.rows, cols: x.cols, data }
}


/// The entrywise difference of two sequences of one length.
pub open spec fn ew_sub<T: Scalar>(u: Seq<T>, v: Seq<T>) -> Seq<T> {
    Seq::new(u.len(), |k: int| u[k].sub_spec(v[k]))
}

/// The entrywise product of two sequences of one length.
pub open spec fn ew_mul<T: Scalar>(u: Seq<T>, v: Seq<T>) -> Seq<T> {
    Seq::new(u.len(), |k: int| u[k].mul_spec(v[k]))
}

/// Every entry of a sequence multiplied by one scalar.
pub open spec fn ew_scale<T: Scalar>(u: Seq<T>, c: T) -> Seq<T> {
    Seq::new(u.len(), |k: int| u[k].mul_spec(c))
}
} // verus!
