//! Cells of the grid, and lists of cells in which no cell occurs twice.

use std::collections::HashSet;
use vstd::prelude::*;

verus! {

/// The number under which a cell is kept in an index of cells: x and y, each
/// moved up to start at 0, side by side in one number.
pub open spec fn cell_key(cell: (i32, i32)) -> u64 {
    ((cell.0 + 0x8000_0000) * 0x1_0000_0000 + (cell.1 + 0x8000_0000)) as u64
}

/// Two cells with one key are one cell.
pub proof fn lemma_cell_key_injective(a: (i32, i32), b: (i32, i32))
    requires
        cell_key(a) == cell_key(b),
    ensures
        a == b,
{
}

/// Computes the key of a cell.
fn key_of(cell: (i32, i32)) -> (key: u64)
    ensures
        key == cell_key(cell),
{
    let high: u64 = (cell.0 as i64 + 0x8000_0000) as u64;
    let low: u64 = (cell.1 as i64 + 0x8000_0000) as u64;
    high * 0x1_0000_0000 + low
}

/// The cells of `s` in the order of their first occurrence, each once.
pub open spec fn distinct(s: Seq<(i32, i32)>) -> Seq<(i32, i32)>
    decreases s.len(),
{
    if s.len() == 0 {
        Seq::empty()
    } else {
        let before = distinct(s.drop_last());
        if before.contains(s.last()) {
            before
        } else {
            before.push(s.last())
        }
    }
}

/// `distinct` lists what the sequence holds, and nothing twice.
pub proof fn lemma_distinct(s: Seq<(i32, i32)>)
    ensures
        distinct(s).no_duplicates(),
        forall|c: (i32, i32)| #[trigger] distinct(s).contains(c) <==> s.contains(c),
        distinct(s).len() <= s.len(),
    decreases s.len(),
{
    if s.len() > 0 {
        let before = distinct(s.drop_last());
        lemma_distinct(s.drop_last());
        lemma_push_contains(s.drop_last(), s.last());
        assert(s.drop_last().push(s.last()) == s);
        if !before.contains(s.last()) {
            lemma_push_fresh(before, s.last());
        }
    }
}

/// A set of cells that remembers the order in which the cells came.
pub struct CellSet {
    cells: Vec<(i32, i32)>,
    index: HashSet<u64>,
}

impl View for CellSet {
    type V = Seq<(i32, i32)>;

    /// The cells of the set, in the order in which they were added.
    closed spec fn view(&self) -> Seq<(i32, i32)> {
        self.cells@
    }
}

impl CellSet {
    /// Whether the set is in order: no cell occurs twice in it, and its index
    /// holds the keys of its cells and no others.
    pub closed spec fn wf(&self) -> bool {
        &&& self.cells@.no_duplicates()
        &&& forall|c: (i32, i32)| #[trigger] self.cells@.contains(c) <==> self.index@.contains(cell_key(c))
    }

    /// No cell occurs twice in a set that is in order.
    pub proof fn lemma_no_duplicates(&self)
        requires
            self.wf(),
        ensures
            self@.no_duplicates(),
    {
    }

    /// The empty set.
    pub fn new() -> (set: CellSet)
        ensures
            set.wf(),
            set@ == Seq::<(i32, i32)>::empty(),
    {
        CellSet { cells: Vec::new(), index: HashSet::new() }
    }

    /// The number of cells in the set.
    pub fn len(&self) -> (count: usize)
        ensures
            count == self@.len(),
    {
        self.cells.len()
    }

    /// Whether the set holds `cell`.
    pub fn contains(&self, cell: (i32, i32)) -> (found: bool)
        requires
            self.wf(),
        ensures
            found == self@.contains(cell),
    {
        let key = key_of(cell);
        self.index.contains(&key)
    }

    /// Adds `cell` unless the set holds it, and says whether it was added.
    pub fn insert(&mut self, cell: (i32, i32)) -> (added: bool)
        requires
            old(self).wf(),
        ensures
            final(self).wf(),
            added == !old(self)@.contains(cell),
            final(self)@ == if added {
                old(self)@.push(cell)
            } else {
                old(self)@
            },
    {
        let key = key_of(cell);
        let added = self.index.insert(key);
        if added {
            proof {
                lemma_push_fresh(self.cells@, cell);
                assert forall|c: (i32, i32)| cell_key(c) == key implies c == cell by {
                    lemma_cell_key_injective(c, cell);
                }
            }
            self.cells.push(cell);
        }
        added
    }

    /// The cells of the set, in the order in which they were added.
    pub fn into_cells(self) -> (cells: Vec<(i32, i32)>)
        requires
            self.wf(),
        ensures
            cells@ == self@,
            cells@.no_duplicates(),
    {
        self.cells
    }
}

/// Appending a cell that a duplicate-free list lacks keeps it duplicate-free,
/// and the longer list holds that cell and what the list held.
pub proof fn lemma_push_fresh<A>(s: Seq<A>, x: A)
    requires
        s.no_duplicates(),
        !s.contains(x),
    ensures
        s.push(x).no_duplicates(),
        forall|y: A| #[trigger] s.push(x).contains(y) <==> s.contains(y) || y == x,
{
    lemma_push_contains(s, x);
    assert forall|i: int, j: int|
        0 <= i < s.push(x).len() && 0 <= j < s.push(x).len() && i != j implies s.push(x)[i]
        != s.push(x)[j] by {
        if i < s.len() {
            assert(s.contains(s[i]));
        }
        if j < s.len() {
            assert(s.contains(s[j]));
        }
    }
}

/// A list with one more cell holds that cell and what the list held.
pub proof fn lemma_push_contains<A>(s: Seq<A>, x: A)
    ensures
        forall|y: A| #[trigger] s.push(x).contains(y) <==> s.contains(y) || y == x,
{
    assert forall|y: A| #[trigger] s.push(x).contains(y) <==> s.contains(y) || y == x by {
        if s.push(x).contains(y) {
            let i = choose|i: int| 0 <= i < s.push(x).len() && s.push(x)[i] == y;
            if i < s.len() {
                assert(s[i] == y);
            }
        }
        if s.contains(y) {
            let i = choose|i: int| 0 <= i < s.len() && s[i] == y;
            assert(s.push(x)[i] == y);
        }
        if y == x {
            assert(s.push(x)[s.len() as int] == y);
        }
    }
}

} // verus!
