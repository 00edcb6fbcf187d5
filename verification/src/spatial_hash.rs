use vstd::prelude::*;
use std::collections::HashMap;
use vstd::multiset::Multiset;

verus! {

broadcast use vstd::std_specs::hash::group_hash_axioms;

/// The cells of the grid, by column and row.
pub type Cells = Map<(int, int), Seq<u64>>;

/// Whether `(x, y)` names a cell of the grid: both coordinates fit in `i32`.
pub open spec fn is_cell(x: int, y: int) -> bool {
    i32::MIN <= x <= i32::MAX && i32::MIN <= y <= i32::MAX
}

/// The key under which cell `(x, y)` is stored: the column in the high 32
/// bits, the row shifted to be non-negative in the low 32 bits.
pub open spec fn cell_key(x: int, y: int) -> int {
    x * 0x1_0000_0000 + (y - i32::MIN)
}

/// Distinct cells have distinct keys, and every key fits in `i64`.
pub proof fn lemma_cell_key_injective(x1: int, y1: int, x2: int, y2: int)
    requires
        is_cell(x1, y1),
        is_cell(x2, y2),
    ensures
        cell_key(x1, y1) == cell_key(x2, y2) <==> (x1 == x2 && y1 == y2),
        i64::MIN <= cell_key(x1, y1) <= i64::MAX,
{
    if x1 < x2 {
        assert(x1 * 0x1_0000_0000 + 0x1_0000_0000 <= x2 * 0x1_0000_0000);
    } else if x2 < x1 {
        assert(x2 * 0x1_0000_0000 + 0x1_0000_0000 <= x1 * 0x1_0000_0000);
    }
}

/// The entities in cell `(x, y)`; none where the cell was never filled.
pub open spec fn entities_at(m: Cells, x: int, y: int) -> Seq<u64> {
    if m.contains_key((x, y)) {
        m[(x, y)]
    } else {
        Seq::empty()
    }
}

/// The entities of the first `n` cells of column `x` from row `y - 1` down.
pub open spec fn column_prefix(m: Cells, x: int, y: int, n: nat) -> Seq<u64>
    decreases n,
{
    if n == 0 {
        Seq::empty()
    } else {
        column_prefix(m, x, y, (n - 1) as nat) + entities_at(m, x, y - 1 + (n - 1))
    }
}

/// The entities of the first `n` columns of the 3 by 3 block around `(x, y)`,
/// from column `x - 1` on, each column from row `y - 1` to row `y + 1`.
pub open spec fn block_prefix(m: Cells, x: int, y: int, n: nat) -> Seq<u64>
    decreases n,
{
    if n == 0 {
        Seq::empty()
    } else {
        block_prefix(m, x, y, (n - 1) as nat) + column_prefix(m, x - 1 + (n - 1), y, 3)
    }
}

/// The entities of cell `(x, y)` and its eight neighbours, column by column
/// from `x - 1` to `x + 1`, each column from `y - 1` to `y + 1`, each cell in
/// the order its entities were inserted.
pub open spec fn neighborhood(m: Cells, x: int, y: int) -> Seq<u64> {
    block_prefix(m, x, y, 3)
}

/// Cell `(x - 1 + i, y - 1 + j)` of the block around `(x, y)` holds `e`.
pub open spec fn block_cell_has(m: Cells, x: int, y: int, i: int, j: int, e: u64) -> bool {
    entities_at(m, x - 1 + i, y - 1 + j).contains(e)
}

proof fn lemma_concat_contains(a: Seq<u64>, b: Seq<u64>, e: u64)
    ensures
        (a + b).contains(e) <==> (a.contains(e) || b.contains(e)),
{
    if (a + b).contains(e) {
        let k = choose|k: int| 0 <= k < (a + b).len() && (a + b)[k] == e;
        if k >= a.len() {
            assert(b[k - a.len()] == e);
        }
    }
    if a.contains(e) {
        let k = choose|k: int| 0 <= k < a.len() && a[k] == e;
        assert((a + b)[k] == e);
    }
    if b.contains(e) {
        let k = choose|k: int| 0 <= k < b.len() && b[k] == e;
        assert((a + b)[a.len() + k] == e);
    }
}

proof fn lemma_column_contains(m: Cells, x: int, y: int, i: int, n: nat, e: u64)
    requires
        n <= 3,
    ensures
        column_prefix(m, x - 1 + i, y, n).contains(e) <==> exists|j: int|
            0 <= j < n && #[trigger] block_cell_has(m, x, y, i, j, e),
    decreases n,
{
    if n > 0 {
        lemma_column_contains(m, x, y, i, (n - 1) as nat, e);
        lemma_concat_contains(
            column_prefix(m, x - 1 + i, y, (n - 1) as nat),
            entities_at(m, x - 1 + i, y - 1 + (n - 1)),
            e,
        );
        if block_cell_has(m, x, y, i, n - 1, e) {
            assert(exists|j: int| 0 <= j < n && #[trigger] block_cell_has(m, x, y, i, j, e));
        }
    }
}

proof fn lemma_block_contains(m: Cells, x: int, y: int, n: nat, e: u64)
    requires
        n <= 3,
    ensures
        block_prefix(m, x, y, n).contains(e) <==> exists|i: int, j: int|
            0 <= i < n && 0 <= j < 3 && #[trigger] block_cell_has(m, x, y, i, j, e),
    decreases n,
{
    if n > 0 {
        lemma_block_contains(m, x, y, (n - 1) as nat, e);
        lemma_column_contains(m, x, y, n - 1, 3, e);
        lemma_concat_contains(
            block_prefix(m, x, y, (n - 1) as nat),
            column_prefix(m, x - 1 + (n - 1), y, 3),
            e,
        );
        if column_prefix(m, x - 1 + (n - 1), y, 3).contains(e) {
            let j = choose|j: int| 0 <= j < 3 && #[trigger] block_cell_has(m, x, y, n - 1, j, e);
            assert(exists|i: int, j: int|
                0 <= i < n && 0 <= j < 3 && #[trigger] block_cell_has(m, x, y, i, j, e));
        }
        if exists|i: int, j: int| 0 <= i < n && 0 <= j < 3 && #[trigger] block_cell_has(m, x, y, i, j, e) {
            let (i, j) = choose|i: int, j: int|
                0 <= i < n && 0 <= j < 3 && #[trigger] block_cell_has(m, x, y, i, j, e);
            if i == n - 1 {
                assert(exists|j: int| 0 <= j < 3 && #[trigger] block_cell_has(m, x, y, n - 1, j, e));
            }
        }
    }
}

/// Every entity of a cell is among the neighbours of that cell and of each
/// of its eight neighbouring cells.
pub proof fn lemma_neighborhood_complete(m: Cells, cx: int, cy: int, x: int, y: int, e: u64)
    requires
        cx - 1 <= x <= cx + 1,
        cy - 1 <= y <= cy + 1,
        entities_at(m, x, y).contains(e),
    ensures
        neighborhood(m, cx, cy).contains(e),
{
    lemma_block_contains(m, cx, cy, 3, e);
    assert(block_cell_has(m, cx, cy, x - cx + 1, y - cy + 1, e));
}

/// Every neighbour that a cell's neighbourhood lists lies in that cell or in
/// one of its eight neighbouring cells.
pub proof fn lemma_neighborhood_sound(m: Cells, cx: int, cy: int, e: u64)
    requires
        neighborhood(m, cx, cy).contains(e),
    ensures
        exists|x: int, y: int|
            cx - 1 <= x <= cx + 1 && cy - 1 <= y <= cy + 1 && #[trigger] entities_at(m, x, y).contains(e),
{
    lemma_block_contains(m, cx, cy, 3, e);
    let (i, j) = choose|i: int, j: int|
        0 <= i < 3 && 0 <= j < 3 && #[trigger] block_cell_has(m, cx, cy, i, j, e);
    assert(entities_at(m, cx - 1 + i, cy - 1 + j).contains(e));
}

/// An entity just inserted into a cell is found by a neighbour query on that
/// cell and on each of its eight neighbouring cells.
pub proof fn lemma_inserted_entity_is_found(m: Cells, e: u64, x: int, y: int, cx: int, cy: int)
    requires
        cx - 1 <= x <= cx + 1,
        cy - 1 <= y <= cy + 1,
    ensures
        neighborhood(m.insert((x, y), entities_at(m, x, y).push(e)), cx, cy).contains(e),
{
    let m2 = m.insert((x, y), entities_at(m, x, y).push(e));
    let s = entities_at(m, x, y).push(e);
    assert(entities_at(m2, x, y) == s);
    assert(s[s.len() - 1] == e);
    lemma_neighborhood_complete(m2, cx, cy, x, y, e);
}

/// Cell `(x, y)` lies in the 3 by 3 block around `(cx, cy)`.
pub open spec fn adjacent(x: int, y: int, cx: int, cy: int) -> bool {
    cx - 1 <= x <= cx + 1 && cy - 1 <= y <= cy + 1
}

/// The grid after inserting `e` at the end of cell `(x, y)`.
pub open spec fn insert_into(m: Cells, e: u64, x: int, y: int) -> Cells {
    m.insert((x, y), entities_at(m, x, y).push(e))
}

/// `e` once if `cond`, nothing otherwise.
pub open spec fn one_if(cond: bool, e: u64) -> Multiset<u64> {
    if cond {
        Multiset::singleton(e)
    } else {
        Multiset::empty()
    }
}

proof fn lemma_column_insert(m: Cells, e: u64, x: int, y: int, a: int, cy: int, n: nat)
    requires
        n <= 3,
    ensures
        column_prefix(insert_into(m, e, x, y), a, cy, n).to_multiset() =~= column_prefix(
            m,
            a,
            cy,
            n,
        ).to_multiset().add(one_if(a == x && cy - 1 <= y < cy - 1 + n, e)),
    decreases n,
{
    broadcast use vstd::multiset::group_multiset_axioms;
    broadcast use vstd::seq_lib::group_to_multiset_ensures;

    let m2 = insert_into(m, e, x, y);
    if n == 0 {
        assert(column_prefix(m2, a, cy, n).to_multiset() =~= Multiset::empty());
        assert(column_prefix(m, a, cy, n).to_multiset() =~= Multiset::empty());
    } else {
        let b = cy - 1 + (n - 1);
        lemma_column_insert(m, e, x, y, a, cy, (n - 1) as nat);
        vstd::seq_lib::lemma_multiset_commutative(
            column_prefix(m2, a, cy, (n - 1) as nat),
            entities_at(m2, a, b),
        );
        vstd::seq_lib::lemma_multiset_commutative(
            column_prefix(m, a, cy, (n - 1) as nat),
            entities_at(m, a, b),
        );
        if a == x && b == y {
            assert(entities_at(m2, a, b) == entities_at(m, a, b).push(e));
        } else {
            assert(entities_at(m2, a, b) == entities_at(m, a, b));
        }
    }
}

proof fn lemma_block_insert(m: Cells, e: u64, x: int, y: int, cx: int, cy: int, n: nat)
    requires
        n <= 3,
    ensures
        block_prefix(insert_into(m, e, x, y), cx, cy, n).to_multiset() =~= block_prefix(
            m,
            cx,
            cy,
            n,
        ).to_multiset().add(one_if(cx - 1 <= x < cx - 1 + n && cy - 1 <= y <= cy + 1, e)),
    decreases n,
{
    broadcast use vstd::multiset::group_multiset_axioms;
    broadcast use vstd::seq_lib::group_to_multiset_ensures;

    let m2 = insert_into(m, e, x, y);
    if n == 0 {
        assert(block_prefix(m2, cx, cy, n).to_multiset() =~= Multiset::empty());
        assert(block_prefix(m, cx, cy, n).to_multiset() =~= Multiset::empty());
    } else {
        let a = cx - 1 + (n - 1);
        lemma_block_insert(m, e, x, y, cx, cy, (n - 1) as nat);
        lemma_column_insert(m, e, x, y, a, cy, 3);
        vstd::seq_lib::lemma_multiset_commutative(
            block_prefix(m2, cx, cy, (n - 1) as nat),
            column_prefix(m2, a, cy, 3),
        );
        vstd::seq_lib::lemma_multiset_commutative(
            block_prefix(m, cx, cy, (n - 1) as nat),
            column_prefix(m, a, cy, 3),
        );
    }
}

/// Inserting an entity adds exactly one occurrence of it to the neighbours
/// of every cell whose 3 by 3 block holds the cell it went into, and leaves
/// the neighbours of every other cell as they were.
pub proof fn lemma_insert_adds_one_neighbor(m: Cells, e: u64, x: int, y: int, cx: int, cy: int)
    ensures
        adjacent(x, y, cx, cy) ==> neighborhood(insert_into(m, e, x, y), cx, cy).to_multiset()
            =~= neighborhood(m, cx, cy).to_multiset().insert(e),
        !adjacent(x, y, cx, cy) ==> neighborhood(insert_into(m, e, x, y), cx, cy).to_multiset()
            =~= neighborhood(m, cx, cy).to_multiset(),
{
    broadcast use vstd::multiset::group_multiset_axioms;

    lemma_block_insert(m, e, x, y, cx, cy, 3);
}

/// The grid after inserting, into an empty grid, each entity of `inserts`
/// into its cell, in order.
pub open spec fn fill(inserts: Seq<(u64, (int, int))>) -> Cells
    decreases inserts.len(),
{
    if inserts.len() == 0 {
        Map::empty()
    } else {
        let (e, c) = inserts.last();
        insert_into(fill(inserts.drop_last()), e, c.0, c.1)
    }
}

/// The entities of `inserts` that went into the 3 by 3 block around
/// `(cx, cy)`, each as often as it was inserted there.
pub open spec fn inserted_near(inserts: Seq<(u64, (int, int))>, cx: int, cy: int) -> Multiset<u64>
    decreases inserts.len(),
{
    if inserts.len() == 0 {
        Multiset::empty()
    } else {
        let (e, c) = inserts.last();
        inserted_near(inserts.drop_last(), cx, cy).add(one_if(adjacent(c.0, c.1, cx, cy), e))
    }
}

/// After any sequence of inserts into an empty grid, the neighbours of a
/// cell are, counted with multiplicity, exactly the entities inserted into
/// its 3 by 3 block: one occurrence per insert there, nothing else.
pub proof fn lemma_neighbors_are_inserted_near(inserts: Seq<(u64, (int, int))>, cx: int, cy: int)
    ensures
        neighborhood(fill(inserts), cx, cy).to_multiset() =~= inserted_near(inserts, cx, cy),
    decreases inserts.len(),
{
    broadcast use vstd::multiset::group_multiset_axioms;
    broadcast use vstd::seq_lib::group_to_multiset_ensures;

    if inserts.len() == 0 {
        lemma_empty_neighborhood(cx, cy);
        assert(neighborhood(fill(inserts), cx, cy) =~= Seq::<u64>::empty());
    } else {
        let (e, c) = inserts.last();
        lemma_neighbors_are_inserted_near(inserts.drop_last(), cx, cy);
        lemma_insert_adds_one_neighbor(fill(inserts.drop_last()), e, c.0, c.1, cx, cy);
    }
}

/// An empty grid has no neighbours anywhere.
pub proof fn lemma_empty_neighborhood(cx: int, cy: int)
    ensures
        neighborhood(Map::<(int, int), Seq<u64>>::empty(), cx, cy) == Seq::<u64>::empty(),
{
    let m = Map::<(int, int), Seq<u64>>::empty();
    reveal_with_fuel(column_prefix, 4);
    reveal_with_fuel(block_prefix, 4);
    assert(column_prefix(m, cx - 1, cy, 3) =~= Seq::<u64>::empty());
    assert(column_prefix(m, cx, cy, 3) =~= Seq::<u64>::empty());
    assert(column_prefix(m, cx + 1, cy, 3) =~= Seq::<u64>::empty());
    assert(block_prefix(m, cx, cy, 3) =~= Seq::<u64>::empty());
}

/// A uniform grid of cells, each holding the entities inserted there, used to
/// find the entities near a position without looking at all of them. The
/// caller maps positions to cells.
pub struct SpatialHash {
    grid: HashMap<i64, Vec<u64>>,
}

impl View for SpatialHash {
    type V = Cells;

    closed spec fn view(&self) -> Cells {
        Map::new(
            |c: (int, int)| is_cell(c.0, c.1) && self.grid@.contains_key(cell_key(c.0, c.1) as i64),
            |c: (int, int)| self.grid@[cell_key(c.0, c.1) as i64]@,
        )
    }
}

/// The key of cell `(x, y)`.
fn key_of(x: i32, y: i32) -> (k: i64)
    ensures
        k as int == cell_key(x as int, y as int),
{
    proof {
        lemma_cell_key_injective(x as int, y as int, x as int, y as int);
    }
    (x as i64) * 0x1_0000_0000i64 + ((y as i64) + 0x8000_0000i64)
}

/// Appends all of `src` to `dst`.
fn append_all(dst: &mut Vec<u64>, src: &Vec<u64>)
    ensures
        final(dst)@ == old(dst)@ + src@,
{
    let mut k: usize = 0;
    while k < src.len()
        invariant
            k <= src@.len(),
            dst@ == old(dst)@ + src@.take(k as int),
        decreases src.len() - k,
    {
        dst.push(src[k]);
        k = k + 1;
        assert(dst@ =~= old(dst)@ + src@.take(k as int));
    }
    assert(src@.take(src.len() as int) =~= src@);
}

impl SpatialHash {
    /// An empty grid.
    pub fn new() -> (h: SpatialHash)
        ensures
            h@ == Map::<(int, int), Seq<u64>>::empty(),
    {
        let h = SpatialHash { grid: HashMap::new() };
        assert(h@ =~= Map::<(int, int), Seq<u64>>::empty());
        h
    }

    /// Empties every cell.
    pub fn clear(&mut self)
        ensures
            final(self)@ == Map::<(int, int), Seq<u64>>::empty(),
    {
        self.grid.clear();
        assert(self@ =~= Map::<(int, int), Seq<u64>>::empty());
    }

    /// Adds `entity` at the end of cell `cell`.
    pub fn insert(&mut self, entity: u64, cell: (i32, i32))
        ensures
            final(self)@ == insert_into(old(self)@, entity, cell.0 as int, cell.1 as int),
    {
        let key = key_of(cell.0, cell.1);
        let ghost old_grid = self.grid@;
        let ghost old_view = self@;
        let mut entities = match self.grid.remove(&key) {
            Some(v) => v,
            None => Vec::new(),
        };
        assert(entities@ == entities_at(old_view, cell.0 as int, cell.1 as int));
        entities.push(entity);
        self.grid.insert(key, entities);
        let ghost c = (cell.0 as int, cell.1 as int);
        let ghost expected = old_view.insert(c, entities_at(old_view, cell.0 as int, cell.1 as int).push(entity));
        assert forall|d: (int, int)| #[trigger] self@.contains_key(d) == expected.contains_key(d) && (
        self@.contains_key(d) ==> self@[d] == expected[d]) by {
            if is_cell(d.0, d.1) {
                lemma_cell_key_injective(d.0, d.1, c.0, c.1);
            }
        }
        assert(self@ =~= expected);
    }

    /// The entities of cell `cell` and its eight neighbouring cells: column by
    /// column from `cell.0 - 1` to `cell.0 + 1`, each column from
    /// `cell.1 - 1` to `cell.1 + 1`, each cell in insertion order.
    pub fn get_neighbors(&self, cell: (i32, i32)) -> (neighbors: Vec<u64>)
        requires
            i32::MIN < cell.0 < i32::MAX,
            i32::MIN < cell.1 < i32::MAX,
        ensures
            neighbors@ == neighborhood(self@, cell.0 as int, cell.1 as int),
    {
        let ghost m = self@;
        let ghost cx = cell.0 as int;
        let ghost cy = cell.1 as int;
        let mut neighbors: Vec<u64> = Vec::new();
        let mut dx: i32 = -1;
        while dx <= 1
            invariant
                -1 <= dx <= 2,
                m == self@,
                cx == cell.0,
                cy == cell.1,
                i32::MIN < cell.0 < i32::MAX,
                i32::MIN < cell.1 < i32::MAX,
                neighbors@ == block_prefix(m, cx, cy, (dx + 1) as nat),
            decreases 2 - dx,
        {
            let ghost before = neighbors@;
            let mut dy: i32 = -1;
            while dy <= 1
                invariant
                    -1 <= dx <= 1,
                    -1 <= dy <= 2,
                    m == self@,
                    cx == cell.0,
                    cy == cell.1,
                    i32::MIN < cell.0 < i32::MAX,
                    i32::MIN < cell.1 < i32::MAX,
                    before == block_prefix(m, cx, cy, (dx + 1) as nat),
                    neighbors@ == before + column_prefix(m, cx + dx, cy, (dy + 1) as nat),
                decreases 2 - dy,
            {
                let x = cell.0 + dx;
                let y = cell.1 + dy;
                let key = key_of(x, y);
                let ghost prev = neighbors@;
                match self.grid.get(&key) {
                    Some(entities) => {
                        assert(m.contains_key((x as int, y as int)));
                        append_all(&mut neighbors, entities);
                    },
                    None => {
                        assert(!m.contains_key((x as int, y as int)));
                    },
                }
                assert(entities_at(m, x as int, y as int) == entities_at(
                    m,
                    cx + dx,
                    cy - 1 + ((dy + 1) as nat),
                ));
                assert(neighbors@ =~= before + column_prefix(m, cx + dx, cy, (dy + 2) as nat));
                dy = dy + 1;
            }
            assert(neighbors@ =~= block_prefix(m, cx, cy, (dx + 2) as nat));
            dx = dx + 1;
        }
        neighbors
    }
}

} // verus!
