//! Named index ranges and the points of their Cartesian product.
use vstd::prelude::*;

verus! {

/// The affine index expressions that maps between axes are written in.
pub type AffineExpr = crate::arch::index::AffineExpression;

/// One named, zero-based architecture axis of `extent` positions.
#[derive(Debug, PartialEq, Eq, Hash)]
pub struct Axis {
    pub name: String,
    pub extent: u64,
}

impl Clone for Axis {
    fn clone(&self) -> (r: Self)
        ensures
            r == *self,
    {
        Axis { name: self.name.clone(), extent: self.extent }
    }
}

impl Axis {
    pub fn new(name: &str, extent: u64) -> (r: Axis)
        ensures
            r.name@ == name@,
            r.extent == extent,
    {
        Axis { name: crate::text::owned(name), extent }
    }

    pub fn name(&self) -> (r: &str)
        ensures
            r@ == self.name@,
    {
        self.name.as_str()
    }

    pub fn extent(&self) -> (r: u64)
        ensures
            r == self.extent,
    {
        self.extent
    }
}

/// Copies of the axes, in order.
pub fn clone_axes(v: &[Axis]) -> (r: Vec<Axis>)
    ensures
        r@ == v@,
{
    let mut out: Vec<Axis> = Vec::new();
    let mut i: usize = 0;
    while i < v.len()
        invariant
            i <= v.len(),
            out@ == v@.take(i as int),
        decreases v.len() - i,
    {
        out.push(v[i].clone());
        proof { assert(v@.take(i + 1) =~= v@.take(i as int).push(v@[i as int])); }
        i += 1;
    }
    proof { assert(v@.take(v.len() as int) =~= v@); }
    out
}

/// The extents of a list of axes.
pub open spec fn extents(axes: Seq<Axis>) -> Seq<u64> {
    axes.map_values(|a: Axis| a.extent)
}

/// Each point of `pts` extended by every value `0..n` of one more axis.
pub open spec fn expand(pts: Seq<Seq<u64>>, n: u64) -> Seq<Seq<u64>>
    decreases pts.len(),
{
    if pts.len() == 0 {
        Seq::empty()
    } else {
        expand(pts.drop_last(), n) + Seq::new(n as nat, |v: int| pts.last().push(v as u64))
    }
}

/// All points of the product of ranges `0..ext[k]`, the last coordinate varying fastest.
pub open spec fn grid(ext: Seq<u64>) -> Seq<Seq<u64>>
    decreases ext.len(),
{
    if ext.len() == 0 {
        seq![Seq::empty()]
    } else {
        expand(grid(ext.drop_last()), ext.last())
    }
}

/// Instance coordinates of an axis list, the last axis varying fastest; rank 0 yields one empty point.
pub fn axis_points(axes: &[Axis]) -> (r: Vec<Vec<u64>>)
    ensures
        r@.len() == grid(extents(axes@)).len(),
        forall|i: int| 0 <= i < r@.len() ==> #[trigger] r@[i]@ == grid(extents(axes@))[i],
{
    let mut pts: Vec<Vec<u64>> = Vec::new();
    pts.push(Vec::new());
    let mut a: usize = 0;
    proof {
        assert(extents(axes@).take(0) =~= Seq::<u64>::empty());
        assert(pts@[0]@ =~= Seq::<u64>::empty());
    }
    while a < axes.len()
        invariant
            a <= axes@.len(),
            pts@.len() == grid(extents(axes@).take(a as int)).len(),
            forall|i: int| 0 <= i < pts@.len() ==> #[trigger] pts@[i]@ == grid(extents(axes@).take(a as int))[i],
        decreases axes.len() - a,
    {
        let n = axes[a].extent;
        let ghost old_pts = grid(extents(axes@).take(a as int));
        let mut next: Vec<Vec<u64>> = Vec::new();
        let mut i: usize = 0;
        while i < pts.len()
            invariant
                i <= pts@.len(),
                old_pts == grid(extents(axes@).take(a as int)),
                pts@.len() == old_pts.len(),
                forall|k: int| 0 <= k < pts@.len() ==> #[trigger] pts@[k]@ == old_pts[k],
                next@.len() == expand(old_pts.take(i as int), n).len(),
                forall|k: int| 0 <= k < next@.len() ==> #[trigger] next@[k]@ == expand(old_pts.take(i as int), n)[k],
            decreases pts.len() - i,
        {
            let mut v: u64 = 0;
            let ghost base = expand(old_pts.take(i as int), n);
            let ghost row = Seq::new(n as nat, |w: int| old_pts[i as int].push(w as u64));
            while v < n
                invariant
                    v <= n,
                    i < pts@.len(),
                    pts@.len() == old_pts.len(),
                    forall|k: int| 0 <= k < pts@.len() ==> #[trigger] pts@[k]@ == old_pts[k],
                    row == Seq::new(n as nat, |w: int| old_pts[i as int].push(w as u64)),
                    next@.len() == base.len() + v,
                    forall|k: int| 0 <= k < next@.len() ==> #[trigger] next@[k]@ == (base + row.take(v as int))[k],
                decreases n - v,
            {
                let mut p = pts[i].clone();
                p.push(v);
                proof {
                    assert(p@ == row[v as int]);
                    assert(base + row.take(v + 1) =~= (base + row.take(v as int)).push(row[v as int]));
                }
                next.push(p);
                v += 1;
            }
            proof {
                assert(row.take(n as int) =~= row);
                assert(old_pts.take(i + 1).drop_last() =~= old_pts.take(i as int));
                assert(old_pts.take(i + 1).last() == old_pts[i as int]);
            }
            i += 1;
        }
        proof {
            assert(old_pts.take(pts@.len() as int) =~= old_pts);
            assert(extents(axes@).take(a + 1).drop_last() =~= extents(axes@).take(a as int));
            assert(extents(axes@).take(a + 1).last() == n);
        }
        pts = next;
        a += 1;
    }
    proof { assert(extents(axes@).take(axes@.len() as int) =~= extents(axes@)); }
    pts
}

/// Product of the extents, saturating at `u64::MAX`.
pub fn instance_count(axes: &[Axis]) -> (r: u64)
    ensures
        r == sat_product(extents(axes@)),
{
    let mut count: u64 = 1;
    let mut i: usize = 0;
    while i < axes.len()
        invariant
            i <= axes@.len(),
            count == sat_product(extents(axes@).take(i as int)),
        decreases axes.len() - i,
    {
        proof {
            assert(extents(axes@).take(i + 1).drop_last() =~= extents(axes@).take(i as int));
        }
        count = match count.checked_mul(axes[i].extent) {
            Some(c) => c,
            None => u64::MAX,
        };
        i += 1;
    }
    proof { assert(extents(axes@).take(axes@.len() as int) =~= extents(axes@)); }
    count
}

/// Product of a sequence, saturating at `u64::MAX` after each factor.
pub open spec fn sat_product(s: Seq<u64>) -> u64
    decreases s.len(),
{
    if s.len() == 0 {
        1
    } else {
        let p = sat_product(s.drop_last()) as int * s.last() as int;
        if p > u64::MAX { u64::MAX } else { p as u64 }
    }
}

} // verus!
