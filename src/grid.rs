//! The cell index of the collision grid: each recorded rectangle of cells is
//! listed under every cell it covers.
use vstd::prelude::*;

use std::collections::HashMap;

verus! {

broadcast use vstd::std_specs::hash::group_hash_axioms;

/// An inclusive rectangle of grid cells, `[x0, x1] x [y0, y1]`.
#[derive(Debug, Clone, Copy, PartialEq, Eq, Structural)]
pub struct CellRect {
    pub x0: u32,
    pub x1: u32,
    pub y0: u32,
    pub y1: u32,
}

pub const CELL_ROW: u64 = 0x1_0000_0000;

/// The key of cell `(x, y)`.
pub open spec fn cell_key(x: int, y: int) -> int {
    x * 0x1_0000_0000 + y
}

/// The rectangle covers the cell with key `k`.
pub open spec fn covers(r: CellRect, k: u64) -> bool {
    &&& r.x0 <= k / CELL_ROW <= r.x1
    &&& r.y0 <= k % CELL_ROW <= r.y1
}

/// The two rectangles share a cell.
pub open spec fn rects_overlap(a: CellRect, b: CellRect) -> bool {
    &&& a.x0 <= b.x1 && b.x0 <= a.x1
    &&& a.y0 <= b.y1 && b.y0 <= a.y1
}

/// The recorded rectangles and, for each cell, the rectangles covering it.
pub struct CellGrid {
    pub indices: HashMap<u64, Vec<usize>>,
    pub rects: Vec<CellRect>,
}

impl CellGrid {
    /// The identifiers listed under cell `k`.
    pub open spec fn bucket(&self, k: u64) -> Seq<usize> {
        if self.indices@.contains_key(k) {
            self.indices@[k]@
        } else {
            Seq::empty()
        }
    }

    /// Each cell lists exactly the rectangles that cover it.
    pub open spec fn wf(&self) -> bool {
        &&& forall|i: int| 0 <= i < self.rects@.len() ==> (#[trigger] self.rects@[i]).x0 <= self.rects@[i].x1 && self.rects@[i].y0 <= self.rects@[i].y1
        &&& forall|k: u64, i: usize| #[trigger] self.bucket(k).contains(i) <==> (i < self.rects@.len() && covers(self.rects@[i as int], k))
    }

    pub fn new() -> (r: CellGrid)
        ensures
            r.wf(),
            r.rects@.len() == 0,
    {
        CellGrid { indices: HashMap::new(), rects: Vec::new() }
    }

    /// The rectangles that cover cell `(x, y)`.
    pub fn ids_at(&self, x: u32, y: u32) -> (r: Vec<usize>)
        requires
            self.wf(),
        ensures
            forall|i: usize| r@.contains(i) <==> (i < self.rects@.len() && covers(self.rects@[i as int], (x as u64 * CELL_ROW + y as u64) as u64)),
    {
        let key: u64 = x as u64 * CELL_ROW + y as u64;
        let mut out: Vec<usize> = Vec::new();
        if let Some(v) = self.indices.get(&key) {
            let mut q: usize = 0;
            while q < v.len()
                invariant
                    q <= v@.len(),
                    out@ == v@.subrange(0, q as int),
                decreases v@.len() - q,
            {
                out.push(v[q]);
                q = q + 1;
                assert(out@ =~= v@.subrange(0, q as int));
            }
            assert(out@ =~= v@);
        }
        assert(out@ == self.bucket(key));
        assert forall|i: usize| out@.contains(i) <==> (i < self.rects@.len() && covers(self.rects@[i as int], key)) by {
            assert(self.bucket(key).contains(i) <==> (i < self.rects@.len() && covers(self.rects@[i as int], key)));
        }
        out
    }

    /// Records a rectangle under every cell it covers, and returns its identifier.
    pub fn add(&mut self, r: CellRect) -> (id: usize)
        requires
            old(self).wf(),
            r.x0 <= r.x1,
            r.y0 <= r.y1,
            old(self).rects@.len() < usize::MAX,
        ensures
            final(self).wf(),
            id == old(self).rects@.len(),
            final(self).rects@ == old(self).rects@.push(r),
            forall|k: u64| #[trigger] final(self).bucket(k) == if covers(r, k) {
                old(self).bucket(k).push(id)
            } else {
                old(self).bucket(k)
            },
    {
        let id = self.rects.len();
        let ghost g0 = *self;
        let mut x: u64 = r.x0 as u64;
        while x <= r.x1 as u64
            invariant
                r.x0 <= x <= r.x1 as int + 1,
                r.x0 <= r.x1,
                r.y0 <= r.y1,
                self.rects@ == g0.rects@,
                id == g0.rects@.len(),
                forall|k: u64| #[trigger] self.bucket(k) == if covers(r, k) && k / CELL_ROW < x {
                    g0.bucket(k).push(id)
                } else {
                    g0.bucket(k)
                },
            decreases r.x1 as int + 1 - x,
        {
            let mut y: u64 = r.y0 as u64;
            while y <= r.y1 as u64
                invariant
                    r.x0 <= x <= r.x1,
                    r.y0 <= y <= r.y1 as int + 1,
                    r.y0 <= r.y1,
                    self.rects@ == g0.rects@,
                    id == g0.rects@.len(),
                    forall|k: u64| #[trigger] self.bucket(k) == if covers(r, k) && (k / CELL_ROW < x || (k / CELL_ROW == x && k % CELL_ROW < y)) {
                        g0.bucket(k).push(id)
                    } else {
                        g0.bucket(k)
                    },
                decreases r.y1 as int + 1 - y,
            {
                let key: u64 = x * CELL_ROW + y;
                proof {
                    assert(key / CELL_ROW == x && key % CELL_ROW == y) by (nonlinear_arith)
                        requires
                            key == x * 0x1_0000_0000 + y,
                            y < 0x1_0000_0000,
                    ;
                }
                let ghost before = *self;
                let mut bucket: Vec<usize> = match self.indices.remove(&key) {
                    Some(v) => v,
                    None => Vec::new(),
                };
                assert(bucket@ == before.bucket(key));
                bucket.push(id);
                self.indices.insert(key, bucket);
                proof {
                    assert forall|k: u64| #[trigger] self.bucket(k) == if covers(r, k) && (k / CELL_ROW < x || (k / CELL_ROW == x && k % CELL_ROW < y + 1)) {
                        g0.bucket(k).push(id)
                    } else {
                        g0.bucket(k)
                    } by {
                        if k != key {
                            assert(self.bucket(k) == before.bucket(k));
                            if k / CELL_ROW == x {
                                assert(k % CELL_ROW != y) by {
                                    assert(k == (k / CELL_ROW) * CELL_ROW + k % CELL_ROW) by (nonlinear_arith);
                                }
                            }
                        }
                    }
                }
                y = y + 1;
            }
            proof {
                assert forall|k: u64| #[trigger] self.bucket(k) == if covers(r, k) && k / CELL_ROW < x + 1 {
                    g0.bucket(k).push(id)
                } else {
                    g0.bucket(k)
                } by {
                    assert(self.bucket(k) == if covers(r, k) && (k / CELL_ROW < x || (k / CELL_ROW == x && k % CELL_ROW < y)) {
                        g0.bucket(k).push(id)
                    } else {
                        g0.bucket(k)
                    });
                }
            }
            x = x + 1;
        }
        let ghost g1 = *self;
        self.rects.push(r);
        proof {
            assert(self.indices == g1.indices);
            assert forall|k: u64| #[trigger] self.bucket(k) == if covers(r, k) {
                g0.bucket(k).push(id)
            } else {
                g0.bucket(k)
            } by {
                assert(g1.bucket(k) == if covers(r, k) && k / CELL_ROW < x { g0.bucket(k).push(id) } else { g0.bucket(k) });
                assert(self.bucket(k) == g1.bucket(k));
            }
            assert forall|i: int| 0 <= i < self.rects@.len() implies (#[trigger] self.rects@[i]).x0 <= self.rects@[i].x1 && self.rects@[i].y0 <= self.rects@[i].y1 by {
                if i < g0.rects@.len() {
                    assert(self.rects@[i] == g0.rects@[i]);
                }
            }
            assert forall|k: u64, i: usize| #[trigger] self.bucket(k).contains(i) <==> (i < self.rects@.len() && covers(self.rects@[i as int], k)) by {
                assert(g1.bucket(k) == if covers(r, k) && k / CELL_ROW < x { g0.bucket(k).push(id) } else { g0.bucket(k) });
                assert(self.bucket(k) == g1.bucket(k));
                assert(g0.bucket(k).contains(i) <==> (i < g0.rects@.len() && covers(g0.rects@[i as int], k)));
                if i < g0.rects@.len() {
                    assert(self.rects@[i as int] == g0.rects@[i as int]);
                }
                if covers(r, k) {
                    assert(k / CELL_ROW < x);
                    assert(self.bucket(k).contains(i) <==> (g0.bucket(k).contains(i) || i == id)) by {
                        let b = g0.bucket(k);
                        if b.push(id).contains(i) {
                            let q = choose|q: int| 0 <= q < b.push(id).len() && b.push(id)[q] == i;
                            if q < b.len() {
                                assert(b[q] == i);
                            }
                        }
                        if b.contains(i) {
                            let q = choose|q: int| 0 <= q < b.len() && b[q] == i;
                            assert(b.push(id)[q] == i);
                        }
                        assert(b.push(id)[b.len() as int] == id);
                    }
                }
            }
        }
        id
    }
}

/// Two recorded rectangles that overlap are listed together under some cell.
pub proof fn lemma_grid_sound(g: &CellGrid, i: usize, j: usize)
    requires
        g.wf(),
        i < g.rects@.len(),
        j < g.rects@.len(),
        rects_overlap(g.rects@[i as int], g.rects@[j as int]),
    ensures
        exists|k: u64| #[trigger] g.bucket(k).contains(i) && g.bucket(k).contains(j),
{
    let a = g.rects@[i as int];
    let b = g.rects@[j as int];
    let x: int = if a.x0 >= b.x0 { a.x0 as int } else { b.x0 as int };
    let y: int = if a.y0 >= b.y0 { a.y0 as int } else { b.y0 as int };
    assert(a.x0 <= a.x1 && b.x0 <= b.x1 && a.y0 <= a.y1 && b.y0 <= b.y1);
    assert(a.x0 <= x <= a.x1 && b.x0 <= x <= b.x1);
    assert(a.y0 <= y <= a.y1 && b.y0 <= y <= b.y1);
    let k = (x * CELL_ROW + y) as u64;
    assert(k / CELL_ROW == x && k % CELL_ROW == y) by (nonlinear_arith)
        requires
            k == x * 0x1_0000_0000 + y,
            0 <= x < 0x1_0000_0000,
            0 <= y < 0x1_0000_0000,
    ;
    assert(covers(a, k));
    assert(covers(b, k));
    assert(g.bucket(k).contains(i));
    assert(g.bucket(k).contains(j));
}

} // verus!
