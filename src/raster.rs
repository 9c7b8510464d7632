use vstd::prelude::*;

verus! {

/// The iteration counts of one row of the image, tagged with the row's index.
#[derive(Clone, Debug)]
pub struct RowResult {
    pub row_index: u32,
    pub values: Vec<u32>,
}

/// Why the rows that arrived do not make up a whole raster.
#[derive(Clone, Copy, Debug, PartialEq, Eq, Structural)]
pub enum AggregationError {
    /// A row index at or past the raster's height.
    RowOutOfRange { row: u32 },
    /// A second result for a row that was already filled.
    DuplicateRow { row: u32 },
    /// A row whose length is not the raster's width.
    WrongRowLength { row: u32, len: usize },
    /// A row for which no result arrived.
    MissingRow { row: u32 },
}

/// A `height × width` grid of values, stored row by row.
#[derive(Debug)]
pub struct Raster {
    width: u32,
    height: u32,
    cells: Vec<Vec<u32>>,
}

impl Raster {
    pub closed spec fn width_spec(&self) -> nat {
        self.width as nat
    }

    pub closed spec fn height_spec(&self) -> nat {
        self.height as nat
    }

    /// The rows of the raster.
    pub closed spec fn view(&self) -> Seq<Seq<u32>> {
        self.cells@.map_values(|row: Vec<u32>| row@)
    }

    /// Exactly `height` rows of exactly `width` values each.
    pub open spec fn wf(&self) -> bool {
        &&& self@.len() == self.height_spec()
        &&& forall|y: int| 0 <= y < self@.len() ==> (#[trigger] self@[y]).len() == self.width_spec()
    }

    /// The raster with no rows.
    pub fn empty() -> (r: Raster)
        ensures
            r.wf(),
            r.width_spec() == 0,
            r.height_spec() == 0,
    {
        let r = Raster { width: 0, height: 0, cells: Vec::new() };
        assert(r@ =~= Seq::<Seq<u32>>::empty());
        r
    }

    /// Number of values in each row.
    pub fn width(&self) -> (w: u32)
        ensures
            w == self.width_spec(),
    {
        self.width
    }

    /// Number of rows.
    pub fn height(&self) -> (h: u32)
        ensures
            h == self.height_spec(),
    {
        self.height
    }

    /// The value at column `x` of row `y`.
    pub fn get(&self, x: u32, y: u32) -> (v: u32)
        requires
            self.wf(),
            x < self.width_spec(),
            y < self.height_spec(),
        ensures
            v == self@[y as int][x as int],
    {
        assert(self@[y as int] == self.cells@[y as int]@);
        self.cells[y as usize][x as usize]
    }

    /// A copy of row `y`.
    pub fn row(&self, y: u32) -> (r: Vec<u32>)
        requires
            self.wf(),
            y < self.height_spec(),
        ensures
            r@ == self@[y as int],
    {
        self.cells[y as usize].clone()
    }
}

/// Collects row results, in whatever order they arrive, into a raster.
pub struct Assembler {
    width: u32,
    height: u32,
    rows: Vec<Vec<u32>>,
    filled: Vec<bool>,
}

impl Assembler {
    pub closed spec fn width_spec(&self) -> nat {
        self.width as nat
    }

    pub closed spec fn height_spec(&self) -> nat {
        self.height as nat
    }

    /// One slot per row: the row's values once they have arrived.
    pub closed spec fn view(&self) -> Seq<Option<Seq<u32>>> {
        Seq::new(
            self.height as nat,
            |y: int|
                if self.filled@[y] {
                    Some(self.rows@[y]@)
                } else {
                    None
                },
        )
    }

    pub closed spec fn wf(&self) -> bool {
        &&& self.rows@.len() == self.height
        &&& self.filled@.len() == self.height
        &&& forall|y: int|
            0 <= y < self.height && #[trigger] self.filled@[y] ==> self.rows@[y]@.len()
                == self.width
    }

    /// Every slot holds a row of `width` values.
    proof fn lemma_wf_rows(&self)
        requires
            self.wf(),
        ensures
            self@.len() == self.height_spec(),
            forall|y: int|
                0 <= y < self@.len() && (#[trigger] self@[y]) is Some ==> self@[y]->0.len()
                    == self.width_spec(),
    {
    }

    /// An assembler for a `height × width` raster with no row filled yet.
    pub fn new(width: u32, height: u32) -> (a: Assembler)
        ensures
            a.wf(),
            a.width_spec() == width,
            a.height_spec() == height,
            a@ == Seq::new(height as nat, |y: int| None::<Seq<u32>>),
    {
        let mut rows: Vec<Vec<u32>> = Vec::new();
        let mut filled: Vec<bool> = Vec::new();
        let mut y: u32 = 0;
        while y < height
            invariant
                y <= height,
                rows@.len() == y,
                filled@.len() == y,
                forall|i: int| 0 <= i < y ==> !(#[trigger] filled@[i]),
            decreases height - y,
        {
            rows.push(Vec::new());
            filled.push(false);
            y = y + 1;
        }
        let a = Assembler { width, height, rows, filled };
        assert(a@ =~= Seq::new(height as nat, |y: int| None::<Seq<u32>>));
        a
    }

    /// Takes in one row result. A row index out of range, a row that was
    /// already filled, or a row of the wrong length is refused, in that order
    /// of checking, and leaves the assembler as it was.
    pub fn accept(&mut self, result: RowResult) -> (r: Result<(), AggregationError>)
        requires
            old(self).wf(),
        ensures
            final(self).wf(),
            final(self).width_spec() == old(self).width_spec(),
            final(self).height_spec() == old(self).height_spec(),
            r is Ok ==> final(self)@ == old(self)@.update(
                result.row_index as int,
                Some(result.values@),
            ),
            r is Err ==> final(self)@ == old(self)@,
            r == accept_outcome(old(self)@, old(self).width_spec(), result.row_index, result.values@),
    {
        let y = result.row_index;
        if y >= self.height {
            return Err(AggregationError::RowOutOfRange { row: y });
        }
        if self.filled[y as usize] {
            return Err(AggregationError::DuplicateRow { row: y });
        }
        if result.values.len() != self.width as usize {
            return Err(AggregationError::WrongRowLength { row: y, len: result.values.len() });
        }
        let ghost before = self@;
        self.rows.set(y as usize, result.values);
        self.filled.set(y as usize, true);
        assert(self@ =~= before.update(y as int, Some(result.values@)));
        Ok(())
    }

    /// Hands over the raster once every row has arrived; otherwise names the
    /// first row that is still missing.
    pub fn finish(self) -> (r: Result<Raster, AggregationError>)
        requires
            self.wf(),
        ensures
            r is Ok <==> (forall|y: int| 0 <= y < self@.len() ==> (#[trigger] self@[y]) is Some),
            r matches Ok(raster) ==> raster.wf() && raster.width_spec() == self.width_spec()
                && raster.height_spec() == self.height_spec() && raster@ == Seq::new(
                self@.len(),
                |y: int| self@[y]->0,
            ),
            r matches Err(e) ==> e matches AggregationError::MissingRow { row } && row
                < self@.len() && self@[row as int] is None && forall|y: int|
                0 <= y < row ==> (#[trigger] self@[y]) is Some,
    {
        let mut y: u32 = 0;
        while y < self.height
            invariant
                self.wf(),
                y <= self.height,
                forall|i: int| 0 <= i < y ==> #[trigger] self.filled@[i],
            decreases self.height - y,
        {
            if !self.filled[y as usize] {
                assert(self@[y as int] is None);
                return Err(AggregationError::MissingRow { row: y });
            }
            y = y + 1;
        }
        let raster = Raster { width: self.width, height: self.height, cells: self.rows };
        assert(raster@ =~= Seq::new(self@.len(), |y: int| self@[y]->0));
        Ok(raster)
    }
}

/// What `accept` returns for a row `y` with values `v`, given the slots so far.
pub open spec fn accept_outcome(
    slots: Seq<Option<Seq<u32>>>,
    width: nat,
    y: u32,
    v: Seq<u32>,
) -> Result<(), AggregationError> {
    if y >= slots.len() {
        Err(AggregationError::RowOutOfRange { row: y })
    } else if slots[y as int] is Some {
        Err(AggregationError::DuplicateRow { row: y })
    } else if v.len() != width {
        Err(AggregationError::WrongRowLength { row: y, len: v.len() as usize })
    } else {
        Ok(())
    }
}

/// The results make up a whole `height × width` raster: each names a row in
/// range and holds `width` values, no two name the same row, and every row is
/// named.
pub open spec fn rows_complete(width: nat, height: nat, s: Seq<RowResult>) -> bool {
    &&& forall|i: int|
        0 <= i < s.len() ==> (#[trigger] s[i]).row_index < height && s[i].values@.len() == width
    &&& forall|i: int, j: int|
        0 <= i < j < s.len() ==> (#[trigger] s[i]).row_index != (#[trigger] s[j]).row_index
    &&& forall|y: int| 0 <= y < height ==> #[trigger] names_row(s, y)
}

/// Some result names row `y`.
pub open spec fn names_row(s: Seq<RowResult>, y: int) -> bool {
    exists|i: int| 0 <= i < s.len() && s[i].row_index == y
}

/// The values of the result that names row `y`.
pub open spec fn row_values(s: Seq<RowResult>, y: int) -> Seq<u32> {
    s[choose|i: int| 0 <= i < s.len() && s[i].row_index == y].values@
}

/// The raster that results make up: row `y` holds the values of the result
/// that names `y`, wherever that result stands among the others.
pub open spec fn grid_of(height: nat, s: Seq<RowResult>) -> Seq<Seq<u32>> {
    Seq::new(height, |y: int| row_values(s, y))
}

/// What the assembler holds after taking in the results from index `lo` on
/// without error.
spec fn holds_suffix(slots: Seq<Option<Seq<u32>>>, width: nat, s: Seq<RowResult>, lo: int) -> bool {
    &&& forall|i: int|
        lo <= i < s.len() ==> (#[trigger] s[i]).row_index < slots.len() && s[i].values@.len()
            == width && slots[s[i].row_index as int] == Some(s[i].values@)
    &&& forall|i: int, j: int|
        lo <= i < j < s.len() ==> (#[trigger] s[i]).row_index != (#[trigger] s[j]).row_index
    &&& forall|y: int|
        0 <= y < slots.len() && (#[trigger] slots[y]) is Some ==> exists|i: int|
            lo <= i < s.len() && s[i].row_index == y
}

/// Assembles a raster from row results given in any order. Succeeds exactly
/// when the results make up a whole raster; otherwise the error names a row
/// that is out of range, named twice, of the wrong length, or missing.
pub fn assemble(width: u32, height: u32, results: &Vec<RowResult>) -> (r: Result<
    Raster,
    AggregationError,
>)
    ensures
        r is Ok <==> rows_complete(width as nat, height as nat, results@),
        r matches Ok(raster) ==> raster.wf() && raster.width_spec() == width
            && raster.height_spec() == height && raster@ == grid_of(height as nat, results@),
        r matches Err(e) ==> match e {
            AggregationError::RowOutOfRange { row } => row >= height && exists|i: int|
                0 <= i < results@.len() && results@[i].row_index == row,
            AggregationError::DuplicateRow { row } => exists|i: int, j: int|
                0 <= i < j < results@.len() && results@[i].row_index == row
                    && results@[j].row_index == row,
            AggregationError::WrongRowLength { row, len } => len != width && exists|i: int|
                0 <= i < results@.len() && results@[i].row_index == row
                    && results@[i].values@.len() == len,
            AggregationError::MissingRow { row } => row < height && !names_row(
                results@,
                row as int,
            ),
        },
{
    let ghost s = results@;
    let mut a = Assembler::new(width, height);
    let mut k: usize = results.len();
    while k > 0
        invariant
            s == results@,
            k <= s.len(),
            a.wf(),
            a.width_spec() == width,
            a.height_spec() == height,
            holds_suffix(a@, width as nat, s, k as int),
        decreases k,
    {
        k = k - 1;
        let result = RowResult { row_index: results[k].row_index, values: results[k].values.clone() };
        assert(result.row_index == s[k as int].row_index && result.values@ == s[k as int].values@);
        let ghost before = a@;
        proof {
            a.lemma_wf_rows();
        }
        let outcome = a.accept(result);
        if let Err(e) = outcome {
            proof {
                let y = s[k as int].row_index;
                assert(0 <= k < s.len());
                if y >= height {
                    assert(outcome == Err::<(), AggregationError>(AggregationError::RowOutOfRange { row: y }));
                    assert(!rows_complete(width as nat, height as nat, s)) by {
                        assert(s[k as int].row_index >= height);
                    }
                } else if before[y as int] is Some {
                    assert(outcome == Err::<(), AggregationError>(AggregationError::DuplicateRow { row: y }));
                    let i = choose|i: int| k + 1 <= i < s.len() && s[i].row_index == y;
                    assert(s[k as int].row_index == y && s[i].row_index == y);
                    assert(!rows_complete(width as nat, height as nat, s)) by {
                        assert(s[k as int].row_index == s[i].row_index);
                    }
                } else {
                    assert(s[k as int].values@.len() != width);
                    assert(!rows_complete(width as nat, height as nat, s)) by {
                        assert(s[k as int].values@.len() != width);
                    }
                }
            }
            return Err(e);
        }
        proof {
            let y = s[k as int].row_index as int;
            assert forall|i: int, j: int| k <= i < j < s.len() implies (#[trigger] s[i]).row_index
                != (#[trigger] s[j]).row_index by {
                if i == k {
                    assert(before[s[j].row_index as int] is Some);
                }
            }
            assert forall|z: int| 0 <= z < a@.len() && (#[trigger] a@[z]) is Some implies exists|
                i: int,
            | k <= i < s.len() && s[i].row_index == z by {
                if z == y {
                    assert(s[k as int].row_index == z);
                } else {
                    assert(before[z] is Some);
                }
            }
            assert forall|i: int| k <= i < s.len() implies (#[trigger] s[i]).row_index < a@.len()
                && s[i].values@.len() == width && a@[s[i].row_index as int] == Some(
                s[i].values@,
            ) by {
                if i > k {
                    assert(s[i].row_index != s[k as int].row_index);
                }
            }
        }
    }
    let ghost slots = a@;
    let r = a.finish();
    proof {
        if r is Ok {
            assert forall|y: int| 0 <= y < height implies #[trigger] names_row(s, y) by {
                assert(slots[y] is Some);
            }
            assert(rows_complete(width as nat, height as nat, s));
        } else {
            let row = choose|row: u32| r == Err::<Raster, AggregationError>(AggregationError::MissingRow { row });
            assert(!names_row(s, row as int)) by {
                if names_row(s, row as int) {
                    let i = choose|i: int| 0 <= i < s.len() && s[i].row_index == row;
                    assert(slots[s[i].row_index as int] is Some);
                }
            }
        }
    }
    match r {
        Ok(raster) => {
            proof {
                assert forall|y: int| 0 <= y < height implies raster@[y] == #[trigger] row_values(s, y) by {
                    assert(names_row(s, y));
                    let i = choose|i: int| 0 <= i < s.len() && s[i].row_index == y;
                    assert(slots[y] == Some(s[i].values@));
                }
                assert(raster@ =~= grid_of(height as nat, s));
            }
            Ok(raster)
        },
        Err(e) => Err(e),
    }
}

/// `p` lists each index in `0..n` exactly once.
pub open spec fn is_permutation(p: Seq<int>, n: int) -> bool {
    &&& p.len() == n
    &&& forall|i: int| 0 <= i < n ==> 0 <= #[trigger] p[i] < n
    &&& forall|i: int, j: int| 0 <= i < j < n ==> #[trigger] p[i] != #[trigger] p[j]
    &&& forall|k: int| 0 <= k < n ==> #[trigger] hits(p, k)
}

/// Some entry of `p` is `k`.
pub open spec fn hits(p: Seq<int>, k: int) -> bool {
    exists|i: int| 0 <= i < p.len() && p[i] == k
}

/// The results in the order that `p` gives: entry `i` is `s[p[i]]`.
pub open spec fn reordered(s: Seq<RowResult>, p: Seq<int>) -> Seq<RowResult> {
    Seq::new(p.len(), |i: int| s[p[i]])
}

/// `t` is `s` taken in the order of `p`, a one-to-one map from `t`'s indices
/// onto `s`'s.
spec fn relabels(s: Seq<RowResult>, t: Seq<RowResult>, p: Seq<int>) -> bool {
    &&& p.len() == t.len()
    &&& forall|i: int| 0 <= i < t.len() ==> 0 <= #[trigger] p[i] < s.len() && t[i] == s[p[i]]
    &&& forall|i: int, j: int| 0 <= i < t.len() && 0 <= j < t.len() && i != j ==> #[trigger] p[i] != #[trigger] p[j]
    &&& forall|k: int| 0 <= k < s.len() ==> #[trigger] hits(p, k)
}

proof fn lemma_complete_relabel(width: nat, height: nat, s: Seq<RowResult>, t: Seq<RowResult>, p: Seq<int>)
    requires
        relabels(s, t, p),
        rows_complete(width, height, s),
    ensures
        rows_complete(width, height, t),
        forall|y: int| 0 <= y < height ==> #[trigger] row_values(t, y) == row_values(s, y),
{
    assert forall|i: int| 0 <= i < t.len() implies (#[trigger] t[i]).row_index < height
        && t[i].values@.len() == width by {
        assert(t[i] == s[p[i]]);
    }
    assert forall|i: int, j: int| 0 <= i < j < t.len() implies (#[trigger] t[i]).row_index
        != (#[trigger] t[j]).row_index by {
        let (a, b) = (p[i], p[j]);
        assert(a != b);
        if a < b {
            assert(s[a].row_index != s[b].row_index);
        } else {
            assert(s[b].row_index != s[a].row_index);
        }
    }
    assert forall|y: int| 0 <= y < height implies #[trigger] names_row(t, y) && row_values(t, y)
        == row_values(s, y) by {
        assert(names_row(s, y));
        let a = choose|a: int| 0 <= a < s.len() && s[a].row_index == y;
        assert(hits(p, a));
        let i = choose|i: int| 0 <= i < p.len() && p[i] == a;
        assert(t[i] == s[a]);
        assert(names_row(t, y));
        let i2 = choose|i: int| 0 <= i < t.len() && t[i].row_index == y;
        let a2 = p[i2];
        assert(t[i2] == s[a2]);
        if a2 != a {
            if a < a2 {
                assert(s[a].row_index != s[a2].row_index);
            } else {
                assert(s[a2].row_index != s[a].row_index);
            }
        }
    }
    assert forall|y: int| 0 <= y < height implies #[trigger] row_values(t, y) == row_values(s, y) by {
        assert(names_row(t, y));
    }
}

proof fn lemma_inverse_relabel(s: Seq<RowResult>, t: Seq<RowResult>, p: Seq<int>) -> (q: Seq<int>)
    requires
        relabels(s, t, p),
    ensures
        relabels(t, s, q),
{
    let q = Seq::new(s.len(), |k: int| choose|i: int| 0 <= i < p.len() && p[i] == k);
    assert forall|k: int| 0 <= k < s.len() implies 0 <= #[trigger] q[k] < t.len() && s[k] == t[q[k]]
        && p[q[k]] == k by {
        assert(hits(p, k));
    }
    assert forall|k: int, l: int| 0 <= k < s.len() && 0 <= l < s.len() && k != l implies #[trigger] q[k]
        != #[trigger] q[l] by {
        assert(p[q[k]] == k && p[q[l]] == l);
    }
    assert forall|i: int| 0 <= i < t.len() implies #[trigger] hits(q, i) by {
        let k = p[i];
        assert(p[q[k]] == k);
        if q[k] != i {
            assert(p[q[k]] != p[i]);
        }
        assert(q[k] == i);
    }
    q
}

/// The order in which row results arrive does not matter: taken in any
/// other order, the same results make up a whole raster exactly when they did
/// before, and then the same raster.
pub proof fn lemma_assembly_order_independent(
    width: nat,
    height: nat,
    s: Seq<RowResult>,
    p: Seq<int>,
)
    requires
        is_permutation(p, s.len() as int),
    ensures
        rows_complete(width, height, reordered(s, p)) == rows_complete(width, height, s),
        rows_complete(width, height, s) ==> grid_of(height, reordered(s, p)) == grid_of(height, s),
{
    let t = reordered(s, p);
    assert forall|i: int, j: int| 0 <= i < t.len() && 0 <= j < t.len() && i != j implies #[trigger] p[i]
        != #[trigger] p[j] by {
        if i < j {
            assert(p[i] != p[j]);
        } else {
            assert(p[j] != p[i]);
        }
    }
    assert(relabels(s, t, p));
    if rows_complete(width, height, s) {
        lemma_complete_relabel(width, height, s, t, p);
        assert(grid_of(height, t) =~= grid_of(height, s));
    }
    if rows_complete(width, height, t) {
        let q = lemma_inverse_relabel(s, t, p);
        lemma_complete_relabel(width, height, t, s, q);
    }
}

} // verus!
