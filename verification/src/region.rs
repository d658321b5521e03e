//! Rectangular N-dimensional subset selection. A [`Region`] is
//! `{ start, shape }` in FITS axis order (fastest-varying axis first). The
//! run planner decomposes it into `shape[1..].product()` contiguous runs of
//! `shape[0]` elements, each satisfiable by one positioned read.

use vstd::prelude::*;
use crate::error::FitsError;
use crate::text::{list_text, push_list, push_str};

verus! {

/// `s[lo] * s[lo + 1] * ... * s[hi - 1]` (1 when the range is empty).
pub open spec fn prod_range(s: Seq<usize>, lo: int, hi: int) -> int
    decreases hi - lo,
{
    if hi <= lo {
        1
    } else {
        prod_range(s, lo, hi - 1) * s[hi - 1]
    }
}

/// Every running product of `s` (as `Iterator::product` forms it) stays
/// within `bound`.
pub open spec fn prod_fits(s: Seq<usize>, bound: int) -> bool {
    forall|k: int| 0 <= k <= s.len() ==> #[trigger] prod_range(s, 0, k) <= bound
}

/// Element count of a region of `shape`: zero for no axes, else the product.
pub open spec fn shape_len(shape: Seq<usize>) -> int {
    if shape.len() == 0 {
        0
    } else {
        prod_range(shape, 0, shape.len() as int)
    }
}

/// The region fits the image: same dimensionality and every axis in bounds.
pub open spec fn region_fits(start: Seq<usize>, shape: Seq<usize>, dims: Seq<usize>) -> bool {
    &&& start.len() == dims.len()
    &&& shape.len() == dims.len()
    &&& forall|a: int| 0 <= a < dims.len() ==> start[a] + shape[a] <= #[trigger] dims[a]
}

/// Offset contributed by axes `axis..` for a run whose slower-axis counter
/// (axis 1 fastest) still holds `q`: each axis takes `q % shape[axis]` as its
/// position within the region and scales by the image stride of that axis.
pub open spec fn tail_offset(start: Seq<usize>, shape: Seq<usize>, dims: Seq<usize>, q: int, axis: int) -> int
    decreases dims.len() - axis,
{
    if axis >= dims.len() || axis < 1 {
        0
    } else {
        (start[axis] + q % (shape[axis] as int)) * prod_range(dims, 0, axis)
            + tail_offset(start, shape, dims, q / (shape[axis] as int), axis + 1)
    }
}

/// The largest offset axes `axis..` can contribute: each at the region's
/// far edge along it, scaled by the image stride of that axis.
pub open spec fn tail_max(start: Seq<usize>, shape: Seq<usize>, dims: Seq<usize>, axis: int) -> int
    decreases dims.len() - axis,
{
    if axis >= dims.len() || axis < 1 {
        0
    } else {
        (start[axis] + shape[axis] - 1) * prod_range(dims, 0, axis) + tail_max(start, shape, dims, axis + 1)
    }
}

/// The plan's arithmetic fits in `u64`: the image strides of all axes
/// but the last, and the first element of the region's last run.
pub open spec fn plan_fits(start: Seq<usize>, shape: Seq<usize>, dims: Seq<usize>) -> bool {
    &&& dims.len() >= 1 ==> prod_range(dims, 0, dims.len() - 1) <= u64::MAX
    &&& dims.len() >= 1 ==> start[0] + tail_max(start, shape, dims, 1) <= u64::MAX
}

/// First element (in the image's data unit) of run `r` of the plan.
pub open spec fn run_src_elem(start: Seq<usize>, shape: Seq<usize>, dims: Seq<usize>, r: int) -> int {
    start[0] + tail_offset(start, shape, dims, r, 1)
}

/// `e` reports a region out of bounds for an image of `dims`.
pub open spec fn oob_for(e: FitsError, dims: Seq<usize>) -> bool {
    match e {
        FitsError::RegionOutOfBounds(_, d) => d@.len() == dims.len() && forall|i: int|
            0 <= i < dims.len() ==> d@[i] == dims[i],
        _ => false,
    }
}

/// The message of an out-of-bounds region: `start=[..] shape=[..]`.
pub open spec fn oob_message(start: Seq<usize>, shape: Seq<usize>) -> Seq<char> {
    seq!['s', 't', 'a', 'r', 't', '='] + list_text(start) + seq![' ', 's', 'h', 'a', 'p', 'e', '='] + list_text(shape)
}

/// One contiguous run of the plan: `len` elements starting at element
/// `src_elem` of the data unit, landing at element `dst_elem` of the
/// region-shaped output.
#[derive(Debug, Clone, Copy, PartialEq, Eq)]
pub struct Run {
    pub src_elem: u64,
    pub dst_elem: usize,
    pub len: usize,
}

/// A rectangular subset of an image's pixel grid. Axis order matches
/// `NAXIS1..NAXISn`: the fastest-varying axis is index 0.
#[derive(Debug, Clone, PartialEq, Eq)]
pub struct Region {
    start: Vec<usize>,
    shape: Vec<usize>,
}

impl Region {
    pub closed spec fn spec_start(&self) -> Seq<usize> {
        self.start@
    }

    pub closed spec fn spec_shape(&self) -> Seq<usize> {
        self.shape@
    }

    /// A region from explicit per-axis `start` and `shape`, both in FITS
    /// axis order.
    pub fn new(start: Vec<usize>, shape: Vec<usize>) -> (r: Region)
        ensures
            r.spec_start() == start@,
            r.spec_shape() == shape@,
    {
        Region { start, shape }
    }

    /// The 2D case: a `w × h` rectangle whose lower corner is at pixel
    /// `(x, y)`, `x` along `NAXIS1` and `y` along `NAXIS2`.
    pub fn rect(x: usize, y: usize, w: usize, h: usize) -> (r: Region)
        ensures
            r.spec_start() == seq![x, y],
            r.spec_shape() == seq![w, h],
    {
        let mut start = Vec::new();
        start.push(x);
        start.push(y);
        let mut shape = Vec::new();
        shape.push(w);
        shape.push(h);
        assert(start@ =~= seq![x, y]);
        assert(shape@ =~= seq![w, h]);
        Region { start, shape }
    }

    pub fn start(&self) -> (s: &[usize])
        ensures
            s@ == self.spec_start(),
    {
        self.start.as_slice()
    }

    pub fn shape(&self) -> (s: &[usize])
        ensures
            s@ == self.spec_shape(),
    {
        self.shape.as_slice()
    }

    pub fn ndim(&self) -> (n: usize)
        ensures
            n == self.spec_shape().len(),
    {
        self.shape.len()
    }

    /// Total element count (product of `shape`); zero when there are no
    /// axes or any axis extent is zero. Without a zero extent the product
    /// must fit in `usize`.
    pub fn len(&self) -> (n: usize)
        requires
            self.spec_shape().contains(0) || prod_fits(self.spec_shape(), usize::MAX as int),
        ensures
            n == shape_len(self.spec_shape()),
    {
        if self.shape.len() == 0 {
            return 0;
        }
        let mut z: usize = 0;
        while z < self.shape.len()
            invariant
                z <= self.shape@.len(),
                forall|k: int| 0 <= k < z ==> self.shape@[k] != 0,
            decreases self.shape@.len() - z,
        {
            if self.shape[z] == 0 {
                proof {
                    lemma_prod_zero(self.shape@, z as int, self.shape@.len() as int);
                }
                return 0;
            }
            z = z + 1;
        }
        assert(!self.shape@.contains(0));
        let mut p: usize = 1;
        let mut i: usize = 0;
        while i < self.shape.len()
            invariant
                i <= self.shape@.len(),
                p == prod_range(self.shape@, 0, i as int),
                prod_fits(self.shape@, usize::MAX as int),
            decreases self.shape@.len() - i,
        {
            assert(prod_range(self.shape@, 0, i + 1) <= usize::MAX);
            p = p * self.shape[i];
            i = i + 1;
        }
        p
    }

    pub fn is_empty(&self) -> (b: bool)
        requires
            self.spec_shape().contains(0) || prod_fits(self.spec_shape(), usize::MAX as int),
        ensures
            b == (shape_len(self.spec_shape()) == 0),
    {
        self.len() == 0
    }

    /// Validates this region against an image `dims` (`NAXIS1..NAXISn`):
    /// the dimensionality must agree and every axis must stay in bounds.
    pub fn validate(&self, dims: &[usize]) -> (r: Result<(), FitsError>)
        ensures
            r is Ok <==> region_fits(self.spec_start(), self.spec_shape(), dims@),
            r matches Err(FitsError::NaxisOverflow) <==> {
                &&& self.spec_start().len() == dims@.len()
                &&& self.spec_shape().len() == dims@.len()
                &&& exists|a: int|
                    0 <= a < dims@.len() && self.spec_start()[a] + self.spec_shape()[a] > usize::MAX
                        && forall|b: int| 0 <= b < a ==> #[trigger] self.spec_start()[b]
                            + self.spec_shape()[b] <= dims@[b]
            },
            r matches Err(e) ==> e is NaxisOverflow || oob_for(e, dims@),
            r matches Err(FitsError::RegionOutOfBounds(m, _)) ==> m@ == oob_message(self.spec_start(), self.spec_shape()),
    {
        if self.start.len() != dims.len() || self.shape.len() != dims.len() {
            return Err(self.out_of_bounds(dims));
        }
        let mut axis: usize = 0;
        while axis < dims.len()
            invariant
                self.start@.len() == dims@.len(),
                self.shape@.len() == dims@.len(),
                axis <= dims@.len(),
                forall|b: int| 0 <= b < axis ==> #[trigger] self.start@[b] + self.shape@[b] <= dims@[b],
            decreases dims@.len() - axis,
        {
            let s = self.start[axis];
            let w = self.shape[axis];
            if s > usize::MAX - w {
                proof {
                    assert(self.start@[axis as int] + self.shape@[axis as int] > usize::MAX);
                    assert(dims@[axis as int] <= usize::MAX);
                    let ax = axis as int;
                    assert(forall|b: int| 0 <= b < ax ==> #[trigger] self.spec_start()[b]
                        + self.spec_shape()[b] <= dims@[b]);
                    assert(self.spec_start()[ax] + self.spec_shape()[ax] > usize::MAX);
                    assert(exists|a: int|
                    0 <= a < dims@.len() && self.spec_start()[a] + self.spec_shape()[a] > usize::MAX
                        && forall|b: int| 0 <= b < a ==> #[trigger] self.spec_start()[b]
                            + self.spec_shape()[b] <= dims@[b]);
                    assert(!region_fits(self.start@, self.shape@, dims@));
                }
                return Err(FitsError::NaxisOverflow);
            }
            if s + w > dims[axis] {
                let e = self.out_of_bounds(dims);
                proof {
                    assert(!region_fits(self.start@, self.shape@, dims@));
                    assert forall|a: int| 0 <= a < dims@.len() && self.start@[a] + self.shape@[a] > usize::MAX
                        implies !(forall|b: int| 0 <= b < a ==> #[trigger] self.spec_start()[b]
                            + self.spec_shape()[b] <= dims@[b]) by {
                        if a < axis {
                            assert(self.start@[a] + self.shape@[a] <= dims@[a]);
                        } else if a > axis {
                            assert(self.spec_start()[axis as int] + self.spec_shape()[axis as int] > dims@[axis as int]);
                        }
                    }
                }
                return Err(e);
            }
            axis = axis + 1;
        }
        proof {
            assert forall|a: int| 0 <= a < dims@.len() implies !(self.start@[a] + self.shape@[a] > usize::MAX) by {
                assert(self.start@[a] + self.shape@[a] <= dims@[a]);
            }
        }
        Ok(())
    }

    fn out_of_bounds(&self, dims: &[usize]) -> (e: FitsError)
        ensures
            oob_for(e, dims@),
            e matches FitsError::RegionOutOfBounds(m, _) && m@ == oob_message(self.start@, self.shape@),
    {
        let mut msg = String::new();
        push_str(&mut msg, "start=");
        push_list(&mut msg, &self.start);
        push_str(&mut msg, " shape=");
        push_list(&mut msg, &self.shape);
        let mut d: Vec<u64> = Vec::new();
        let mut i: usize = 0;
        while i < dims.len()
            invariant
                i <= dims@.len(),
                d@.len() == i,
                forall|j: int| 0 <= j < i ==> d@[j] == dims@[j],
            decreases dims@.len() - i,
        {
            d.push(dims[i] as u64);
            i = i + 1;
        }
        proof {
            reveal_strlit("start=");
            reveal_strlit(" shape=");
            assert(msg@ =~= oob_message(self.start@, self.shape@));
        }
        FitsError::RegionOutOfBounds(msg, d)
    }

    /// Decomposes the region into contiguous element runs against an image of
    /// `dims`. Runs come in output order: run `r` holds `shape[0]` elements,
    /// lands at `r * shape[0]` in the output, and starts at the element whose
    /// slower-axis coordinates are the mixed-radix digits of `r` (axis 1
    /// fastest) offset by `start`.
    pub fn plan_runs(&self, dims: &[usize]) -> (runs: Vec<Run>)
        requires
            region_fits(self.spec_start(), self.spec_shape(), dims@),
            prod_fits(self.spec_shape(), usize::MAX as int),
            plan_fits(self.spec_start(), self.spec_shape(), dims@),
        ensures
            shape_len(self.spec_shape()) == 0 ==> runs@.len() == 0,
            shape_len(self.spec_shape()) != 0 ==> {
                &&& runs@.len() == prod_range(self.spec_shape(), 1, self.spec_shape().len() as int)
                &&& forall|r: int| 0 <= r < runs@.len() ==> {
                    &&& (#[trigger] runs@[r]).len == self.spec_shape()[0]
                    &&& runs@[r].dst_elem == r * self.spec_shape()[0]
                    &&& runs@[r].src_elem == run_src_elem(self.spec_start(), self.spec_shape(), dims@, r)
                }
            },
    {
        let n = dims.len();
        if self.is_empty() {
            return Vec::new();
        }
        let ghost start = self.start@;
        let ghost shape = self.shape@;
        let ghost d = dims@;
        proof {
            lemma_nonempty_positive(shape);
            lemma_dims_positive(start, shape, d);
            assert(n >= 1);
        }
        let run_len = self.shape[0];
        // number of runs: product of the slower axes
        let mut num_runs: usize = 1;
        let mut k: usize = 1;
        proof {
            lemma_prod_split(shape, 0, 1, n as int);
        }
        while k < n
            invariant
                1 <= k <= n == shape.len() == start.len() == d.len(),
                shape == self.shape@,
                num_runs == prod_range(shape, 1, k as int),
                forall|a: int| 0 <= a < n ==> #[trigger] shape[a] >= 1,
                prod_fits(shape, usize::MAX as int),
            decreases n - k,
        {
            proof {
                lemma_prod_split(shape, 0, 1, k + 1);
                lemma_prod_ge(shape, 1, k + 1);
                assert(prod_range(shape, 0, k + 1) <= usize::MAX);
                lemma_prod_one(shape);
                assert(prod_range(shape, 1, k + 1) <= prod_range(shape, 0, k + 1)) by (nonlinear_arith)
                    requires prod_range(shape, 0, k + 1) == prod_range(shape, 0, 1) * prod_range(shape, 1, k + 1),
                        prod_range(shape, 0, 1) >= 1, prod_range(shape, 1, k + 1) >= 1;
            }
            num_runs = num_runs * self.shape[k];
            k = k + 1;
        }
        let mut runs: Vec<Run> = Vec::new();
        let mut r: usize = 0;
        while r < num_runs
            invariant
                n == shape.len() == start.len() == d.len(),
                n >= 1,
                shape == self.shape@,
                start == self.start@,
                d == dims@,
                run_len == shape[0],
                num_runs == prod_range(shape, 1, n as int),
                region_fits(start, shape, d),
                forall|a: int| 0 <= a < n ==> #[trigger] shape[a] >= 1,
                prod_fits(shape, usize::MAX as int),
                plan_fits(start, shape, d),
                r <= num_runs,
                runs@.len() == r,
                forall|j: int| 0 <= j < r ==> {
                    &&& (#[trigger] runs@[j]).len == shape[0]
                    &&& runs@[j].dst_elem == j * shape[0]
                    &&& runs@[j].src_elem == run_src_elem(start, shape, d, j)
                },
            decreases num_runs - r,
        {
            let src_elem = self.run_start(dims, r);
            proof {
                lemma_prod_split(shape, 0, 1, n as int);
                lemma_prod_one(shape);
                assert(prod_range(shape, 0, n as int) <= usize::MAX);
                assert(r * shape[0] < num_runs * shape[0]) by (nonlinear_arith)
                    requires r < num_runs, shape[0] >= 1;
                assert(num_runs * shape[0] == prod_range(shape, 0, n as int)) by (nonlinear_arith)
                    requires prod_range(shape, 0, n as int) == prod_range(shape, 0, 1) * prod_range(shape, 1, n as int),
                        prod_range(shape, 0, 1) == shape[0], num_runs == prod_range(shape, 1, n as int);
            }
            let dst = r * run_len;
            runs.push(Run { src_elem, dst_elem: dst, len: run_len });
            r = r + 1;
        }
        runs
    }

    /// The first data-unit element of run `r`.
    fn run_start(&self, dims: &[usize], r: usize) -> (e: u64)
        requires
            region_fits(self.spec_start(), self.spec_shape(), dims@),
            dims@.len() >= 1,
            forall|a: int| 0 <= a < dims@.len() ==> #[trigger] self.spec_shape()[a] >= 1,
            plan_fits(self.spec_start(), self.spec_shape(), dims@),
        ensures
            e == run_src_elem(self.spec_start(), self.spec_shape(), dims@, r as int),
    {
        let ghost start = self.start@;
        let ghost shape = self.shape@;
        let ghost d = dims@;
        let n = dims.len();
        proof {
            lemma_dims_positive(start, shape, d);
            lemma_tail_nonneg(start, shape, d, r as int, 1);
            lemma_tail_max(start, shape, d, 1);
            lemma_prod_one(d);
            if n > 1 {
                lemma_prod_mono(d, 1, n - 1);
            }
        }
        let mut acc: u64 = self.start[0] as u64;
        let mut q: usize = r;
        let mut stride: u64 = dims[0] as u64;
        let mut axis: usize = 1;
        while axis < n
            invariant
                n == d.len() == start.len() == shape.len(),
                start == self.start@,
                shape == self.shape@,
                d == dims@,
                1 <= axis <= n,
                region_fits(start, shape, d),
                forall|a: int| 0 <= a < n ==> #[trigger] shape[a] >= 1,
                forall|a: int| 0 <= a < n ==> #[trigger] d[a] >= 1,
                plan_fits(start, shape, d),
                axis < n ==> stride == prod_range(d, 0, axis as int),
                acc + tail_offset(start, shape, d, q as int, axis as int) == run_src_elem(start, shape, d, r as int),
                acc + tail_max(start, shape, d, axis as int) <= start[0] + tail_max(start, shape, d, 1),
                acc >= 0,
                tail_offset(start, shape, d, q as int, axis as int) >= 0,
            decreases n - axis,
        {
            let w = self.shape[axis];
            let digit = q % w;
            proof {
                assert(digit < w);
                assert(start[axis as int] + shape[axis as int] <= d[axis as int]);
                lemma_tail_nonneg(start, shape, d, (q / w) as int, axis + 1);
                assert(tail_offset(start, shape, d, q as int, axis as int)
                    == (start[axis as int] + (q as int) % (shape[axis as int] as int)) * prod_range(d, 0, axis as int)
                        + tail_offset(start, shape, d, (q as int) / (shape[axis as int] as int), axis + 1));
                lemma_prod_ge(d, 0, axis + 1);
                lemma_prod_ge(d, 0, axis as int);
                lemma_tail_max(start, shape, d, axis + 1);
                assert(prod_range(d, 0, axis + 1) == prod_range(d, 0, axis as int) * d[axis as int]);
                let p = prod_range(d, 0, axis as int);
                let x = start[axis as int] + digit;
                let m = start[axis as int] + shape[axis as int] - 1;
                assert(x * p <= m * p) by (nonlinear_arith)
                    requires x <= m, p >= 1;
                assert(x * p >= 0) by (nonlinear_arith)
                    requires x >= 0, p >= 1;
                assert(tail_max(start, shape, d, axis as int) == m * p + tail_max(start, shape, d, axis + 1));
                if axis + 1 < n {
                    lemma_prod_mono(d, axis + 1, n - 1);
                }
            }
            let pos = self.start[axis] + digit;
            acc = acc + (pos as u64) * stride;
            q = q / w;
            if axis + 1 < n {
                stride = stride * (dims[axis] as u64);
            }
            axis = axis + 1;
        }
        acc
    }
}

/// The most an axis range can contribute is never negative.
proof fn lemma_tail_max(start: Seq<usize>, shape: Seq<usize>, dims: Seq<usize>, axis: int)
    requires
        shape.len() == dims.len(),
        start.len() == dims.len(),
        forall|a: int| 0 <= a < shape.len() ==> #[trigger] shape[a] >= 1,
        forall|a: int| 0 <= a < dims.len() ==> #[trigger] dims[a] >= 1,
    ensures
        tail_max(start, shape, dims, axis) >= 0,
    decreases dims.len() - axis,
{
    if axis < dims.len() && axis >= 1 {
        lemma_tail_max(start, shape, dims, axis + 1);
        lemma_prod_ge(dims, 0, axis);
        let p = prod_range(dims, 0, axis);
        let m = start[axis] + shape[axis] - 1;
        assert(m * p >= 0) by (nonlinear_arith) requires m >= 0, p >= 1;
    }
}

pub proof fn lemma_prod_one(s: Seq<usize>)
    requires
        s.len() >= 1,
    ensures
        prod_range(s, 0, 1) == s[0],
{
    assert(prod_range(s, 0, 0) == 1);
}

pub proof fn lemma_prod_ge(s: Seq<usize>, lo: int, hi: int)
    requires
        0 <= lo,
        hi <= s.len(),
        forall|a: int| lo <= a < hi ==> #[trigger] s[a] >= 1,
    ensures
        prod_range(s, lo, hi) >= 1,
    decreases hi - lo,
{
    if hi > lo {
        lemma_prod_ge(s, lo, hi - 1);
        let p = prod_range(s, lo, hi - 1);
        assert(p * s[hi - 1] >= 1) by (nonlinear_arith) requires p >= 1, s[hi - 1] >= 1;
    }
}

/// `prod(lo, hi) == prod(lo, mid) * prod(mid, hi)`.
pub proof fn lemma_prod_split(s: Seq<usize>, lo: int, mid: int, hi: int)
    requires
        lo <= mid <= hi,
    ensures
        prod_range(s, lo, hi) == prod_range(s, lo, mid) * prod_range(s, mid, hi),
    decreases hi - mid,
{
    if hi > mid {
        lemma_prod_split(s, lo, mid, hi - 1);
        let a = prod_range(s, lo, mid);
        let b = prod_range(s, mid, hi - 1);
        assert(a * b * s[hi - 1] == a * (b * s[hi - 1])) by (nonlinear_arith);
    }
}

/// With every factor at least one, a longer prefix product is no smaller.
pub proof fn lemma_prod_mono(s: Seq<usize>, k: int, n: int)
    requires
        0 <= k <= n <= s.len(),
        forall|a: int| 0 <= a < n ==> #[trigger] s[a] >= 1,
    ensures
        prod_range(s, 0, k) <= prod_range(s, 0, n),
{
    lemma_prod_split(s, 0, k, n);
    lemma_prod_ge(s, k, n);
    lemma_prod_ge(s, 0, k);
    let a = prod_range(s, 0, k);
    let b = prod_range(s, k, n);
    assert(a <= a * b) by (nonlinear_arith) requires a >= 1, b >= 1;
}

proof fn lemma_nonempty_positive(shape: Seq<usize>)
    requires
        shape_len(shape) != 0,
    ensures
        shape.len() >= 1,
        forall|a: int| 0 <= a < shape.len() ==> #[trigger] shape[a] >= 1,
{
    assert forall|a: int| 0 <= a < shape.len() implies #[trigger] shape[a] >= 1 by {
        if shape[a] == 0 {
            lemma_prod_zero(shape, a, shape.len() as int);
        }
    }
}

proof fn lemma_prod_zero(s: Seq<usize>, z: int, hi: int)
    requires
        0 <= z < hi <= s.len(),
        s[z] == 0,
    ensures
        prod_range(s, 0, hi) == 0,
    decreases hi,
{
    if hi - 1 > z {
        lemma_prod_zero(s, z, hi - 1);
    }
}

proof fn lemma_dims_positive(start: Seq<usize>, shape: Seq<usize>, dims: Seq<usize>)
    requires
        region_fits(start, shape, dims),
        forall|a: int| 0 <= a < shape.len() ==> #[trigger] shape[a] >= 1,
    ensures
        forall|a: int| 0 <= a < dims.len() ==> #[trigger] dims[a] >= 1,
{
    assert forall|a: int| 0 <= a < dims.len() implies #[trigger] dims[a] >= 1 by {
        assert(start[a] + shape[a] <= dims[a]);
        assert(shape[a] >= 1);
    }
}

proof fn lemma_tail_nonneg(start: Seq<usize>, shape: Seq<usize>, dims: Seq<usize>, q: int, axis: int)
    requires
        q >= 0,
        shape.len() == dims.len(),
        forall|a: int| 0 <= a < shape.len() ==> #[trigger] shape[a] >= 1,
        forall|a: int| 0 <= a < dims.len() ==> #[trigger] dims[a] >= 1,
    ensures
        tail_offset(start, shape, dims, q, axis) >= 0,
    decreases dims.len() - axis,
{
    if axis < dims.len() && axis >= 1 {
        let w = shape[axis] as int;
        assert(q / w >= 0) by (nonlinear_arith) requires q >= 0, w >= 1;
        lemma_tail_nonneg(start, shape, dims, q / w, axis + 1);
        lemma_prod_ge(dims, 0, axis);
        let p = prod_range(dims, 0, axis);
        let x = start[axis] + q % w;
        assert(x * p >= 0) by (nonlinear_arith) requires x >= 0, p >= 1;
    }
}

} // verus!
