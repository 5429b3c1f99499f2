use vstd::prelude::*;

verus! {

/// Disjoint sets over polygon ids, kept flat: every id points straight at the
/// id of the surviving polygon it has been merged into.
#[derive(Clone, Debug)]
pub struct UnionFind {
    parent: Vec<i32>,
}

impl View for UnionFind {
    type V = Seq<i32>;

    closed spec fn view(&self) -> Seq<i32> {
        self.parent@
    }
}

impl UnionFind {
    /// Every entry is an id of the table, and every entry is its own root.
    pub open spec fn wf(&self) -> bool {
        &&& self@.len() <= i32::MAX
        &&& forall|k: int| 0 <= k < self@.len() ==> 0 <= #[trigger] self@[k] < self@.len()
        &&& forall|k: int| 0 <= k < self@.len() ==> self@[self@[k] as int] == self@[k]
    }

    /// The id that `x` resolves to; -1 stands for no polygon.
    pub open spec fn root(&self, x: int) -> int {
        if x == -1 {
            -1
        } else {
            self@[x] as int
        }
    }

    /// The identity over `polygon_count` ids.
    pub fn new(polygon_count: i32) -> (r: Self)
        requires
            polygon_count >= 0,
        ensures
            r.wf(),
            r@ == Seq::new(polygon_count as nat, |k: int| k as i32),
    {
        let mut parent: Vec<i32> = Vec::new();
        let mut i: i32 = 0;
        while i < polygon_count
            invariant
                0 <= i <= polygon_count,
                parent@ == Seq::new(i as nat, |k: int| k as i32),
            decreases polygon_count - i,
        {
            parent.push(i);
            i = i + 1;
        }
        let r = UnionFind { parent };
        assert(r@ == parent@);
        r
    }

    pub fn len(&self) -> (r: usize)
        ensures
            r == self@.len(),
    {
        self.parent.len()
    }

    /// The surviving id for `x`; -1 passes through.
    pub fn find(&self, x: i32) -> (r: i32)
        requires
            x == -1 || 0 <= x < self@.len(),
        ensures
            r == self.root(x as int),
    {
        if x == -1 {
            return -1;
        }
        self.parent[x as usize]
    }

    /// Joins the set of `from` to the set of `to`: every id that resolves
    /// to `from`'s root now resolves to `to`'s root. Joining a set with
    /// itself changes nothing.
    pub fn merge(&mut self, to: i32, from: i32)
        requires
            old(self).wf(),
            0 <= to < old(self)@.len(),
            0 <= from < old(self)@.len(),
        ensures
            final(self).wf(),
            final(self)@ == old(self)@.map_values(
                |p: i32|
                    if p == old(self)@[from as int] {
                        old(self)@[to as int]
                    } else {
                        p
                    },
            ),
    {
        let keep = self.parent[to as usize];
        let dead = self.parent[from as usize];
        let n = self.parent.len();
        let ghost start = self@;
        let mut i: usize = 0;
        while i < n
            invariant
                0 <= i <= n,
                n == start.len(),
                self@.len() == n,
                forall|k: int| 0 <= k < i ==> self@[k] == (if start[k] == dead { keep } else { start[k] }),
                forall|k: int| i <= k < n ==> self@[k] == start[k],
            decreases n - i,
        {
            if self.parent[i] == dead {
                self.parent.set(i, keep);
            }
            i = i + 1;
        }
        assert(self@ =~= start.map_values(|p: i32| if p == dead { keep } else { p }));
    }
}

} // verus!
