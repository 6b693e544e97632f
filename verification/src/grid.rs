//! The tile grid: a map from coordinate to tile classification, with Empty as
//! the implicit state of every unwritten cell, and the rectangular footprints
//! that walls and buildings occupy on it.

use vstd::prelude::*;
use crate::coord::Coord;

verus! {

/// Classification of a grid cell.
#[derive(Clone, Copy, PartialEq, Eq, Structural, Debug)]
pub enum TileState {
    Empty,
    Wall,
    Building,
    Robot,
    InteractionPoint,
}

/// The search may enter exactly these classifications.
pub open spec fn spec_walkable_state(t: TileState) -> bool {
    t == TileState::Empty || t == TileState::InteractionPoint || t == TileState::Robot
}

/// Runtime form of `spec_walkable_state`.
pub fn is_walkable_state(t: TileState) -> (r: bool)
    ensures
        r == spec_walkable_state(t),
{
    matches!(t, TileState::Empty | TileState::InteractionPoint | TileState::Robot)
}

/// The map written by a sequence of (coordinate, state) entries, later
/// entries shadowing earlier ones.
pub open spec fn map_of(entries: Seq<(Coord, TileState)>) -> Map<Coord, TileState>
    decreases entries.len(),
{
    if entries.len() == 0 {
        Map::empty()
    } else {
        map_of(entries.drop_last()).insert(entries.last().0, entries.last().1)
    }
}

proof fn lemma_map_of_no_key(entries: Seq<(Coord, TileState)>, c: Coord)
    requires
        forall|p: int| 0 <= p < entries.len() ==> (#[trigger] entries[p]).0 != c,
    ensures
        !map_of(entries).contains_key(c),
    decreases entries.len(),
{
    if entries.len() > 0 {
        lemma_map_of_no_key(entries.drop_last(), c);
    }
}

proof fn lemma_map_of_last_key(entries: Seq<(Coord, TileState)>, j: int, c: Coord)
    requires
        0 <= j < entries.len(),
        entries[j].0 == c,
        forall|p: int| j < p < entries.len() ==> (#[trigger] entries[p]).0 != c,
    ensures
        map_of(entries).contains_key(c),
        map_of(entries)[c] == entries[j].1,
    decreases entries.len(),
{
    if j == entries.len() - 1 {
    } else {
        lemma_map_of_last_key(entries.drop_last(), j, c);
    }
}

/// A grid of tiles. Conceptually infinite: a coordinate never written reads
/// as `Empty`.
pub struct Grid {
    tiles: Vec<(Coord, TileState)>,
}

impl Grid {
    /// The written cells, as a map.
    pub closed spec fn as_map(self) -> Map<Coord, TileState> {
        map_of(self.tiles@)
    }

    /// The state of a cell: what was last written there, or `Empty`.
    pub open spec fn spec_tile(self, c: Coord) -> TileState {
        if self.as_map().contains_key(c) {
            self.as_map()[c]
        } else {
            TileState::Empty
        }
    }

    /// An empty grid: every cell reads as `Empty`.
    pub fn new() -> (g: Grid)
        ensures
            g.as_map() == Map::<Coord, TileState>::empty(),
    {
        Grid { tiles: Vec::new() }
    }

    /// Writes `s` at `c`.
    pub fn set_tile(&mut self, c: Coord, s: TileState)
        ensures
            final(self).as_map() == old(self).as_map().insert(c, s),
    {
        self.tiles.push((c, s));
        proof {
            assert(self.tiles@.drop_last() =~= old(self).tiles@);
        }
    }

    /// Reads the state of cell `c`.
    pub fn tile(&self, c: Coord) -> (t: TileState)
        ensures
            t == self.spec_tile(c),
    {
        let mut j: usize = self.tiles.len();
        while j > 0
            invariant
                j <= self.tiles@.len(),
                forall|p: int| j <= p < self.tiles@.len() ==> (#[trigger] self.tiles@[p]).0 != c,
            decreases j,
        {
            j = j - 1;
            let entry = self.tiles[j];
            if entry.0 == c {
                proof {
                    lemma_map_of_last_key(self.tiles@, j as int, c);
                }
                return entry.1;
            }
        }
        proof {
            lemma_map_of_no_key(self.tiles@, c);
        }
        TileState::Empty
    }
}

/// Resets every cell of `entity`'s footprint to `Empty`: the grid half of
/// deleting a placed entity.
pub fn clear_entity_cells(grid: &mut Grid, entity: &GridEntity)
    ensures
        forall|c: Coord|
            final(grid).spec_tile(c) == if entity.cells@.contains(c) {
                TileState::Empty
            } else {
                old(grid).spec_tile(c)
            },
{
    let mut k: usize = 0;
    while k < entity.cells.len()
        invariant
            k <= entity.cells@.len(),
            forall|c: Coord|
                grid.spec_tile(c) == if exists|p: int|
                    0 <= p < k && entity.cells@[p] == c {
                    TileState::Empty
                } else {
                    old(grid).spec_tile(c)
                },
        decreases entity.cells@.len() - k,
    {
        let cell = entity.cells[k];
        let ghost pre = *grid;
        grid.set_tile(cell, TileState::Empty);
        proof {
            assert(grid.as_map() == pre.as_map().insert(cell, TileState::Empty));
            assert forall|c: Coord|
                grid.spec_tile(c) == if exists|p: int|
                    0 <= p < k + 1 && entity.cells@[p] == c {
                    TileState::Empty
                } else {
                    old(grid).spec_tile(c)
                } by {
                if c == cell {
                    assert(grid.spec_tile(c) == TileState::Empty);
                    assert(entity.cells@[k as int] == c);
                    assert(exists|p: int| 0 <= p < k + 1 && entity.cells@[p] == c);
                } else {
                    assert(grid.spec_tile(c) == pre.spec_tile(c));
                    if exists|p: int| 0 <= p < k + 1 && entity.cells@[p] == c {
                        let p = choose|p: int| 0 <= p < k + 1 && entity.cells@[p] == c;
                        assert(entity.cells@[p] != cell);
                        assert(0 <= p < k && entity.cells@[p] == c);
                        assert(exists|p2: int| 0 <= p2 < k && entity.cells@[p2] == c);
                    } else {
                        assert(!(exists|p2: int| 0 <= p2 < k && entity.cells@[p2] == c));
                    }
                }
            }
        }
        k = k + 1;
    }
    proof {
        assert forall|c: Coord|
            grid.spec_tile(c) == if entity.cells@.contains(c) {
                TileState::Empty
            } else {
                old(grid).spec_tile(c)
            } by {
            if entity.cells@.contains(c) {
                let p = choose|p: int| 0 <= p < entity.cells@.len() && entity.cells@[p] == c;
                assert(exists|q: int| 0 <= q < entity.cells@.len() && entity.cells@[q] == c);
            } else {
                if exists|p: int| 0 <= p < entity.cells@.len() && entity.cells@[p] == c {
                    assert(entity.cells@.contains(c));
                }
            }
        }
    }
}

/// A cell is walkable when its state is one the search may enter.
pub open spec fn spec_walkable(g: Grid, c: Coord) -> bool {
    spec_walkable_state(g.spec_tile(c))
}

/// `c` lies inside the inclusive rectangle spanned by `min` and `max`.
pub open spec fn in_rect(min: Coord, max: Coord, c: Coord) -> bool {
    min.x <= c.x <= max.x && min.y <= c.y <= max.y
}

/// The cells of the inclusive rectangle from `min` to `max`, listed x-major
/// with y varying fastest; empty when the rectangle is empty.
pub open spec fn rect_cells(min: Coord, max: Coord) -> Seq<Coord> {
    if min.x <= max.x && min.y <= max.y {
        Seq::new((((max.x - min.x + 1) * (max.y - min.y + 1))) as nat, |i: int| Coord {
            x: (min.x + i / (max.y - min.y + 1)) as i32,
            y: (min.y + i % (max.y - min.y + 1)) as i32,
        })
    } else {
        Seq::<Coord>::empty()
    }
}

/// The rectangular footprint an entity occupies on the grid, with the list
/// of every cell it covers.
pub struct GridEntity {
    pub min: Coord,
    pub max: Coord,
    pub cells: Vec<Coord>,
}

impl GridEntity {
    /// Whether `cell` lies inside this entity's footprint.
    pub fn contains_cell(&self, cell: Coord) -> (r: bool)
        ensures
            r == in_rect(self.min, self.max, cell),
    {
        cell.x >= self.min.x && cell.y >= self.min.y && cell.x <= self.max.x && cell.y
            <= self.max.y
    }

    /// Builds the footprint from `min` to `max` inclusive, or the single cell
    /// `min` when no far corner is given. `cells` lists each covered cell
    /// exactly once, x-major with y varying fastest.
    pub fn new(min: Coord, max: Option<Coord>) -> (e: GridEntity)
        ensures
            match max {
                Some(mx) => e.min == min && e.max == mx && e.cells@ == rect_cells(min, mx) && (
                forall|c: Coord|
                    e.cells@.contains(c) <==> in_rect(min, mx, c)) && e.cells@.no_duplicates() && (
                (min.x <= mx.x && min.y <= mx.y) ==> e.cells@.len() == (mx.x - min.x + 1) * (mx.y
                    - min.y + 1)) && ((mx.x < min.x || mx.y < min.y) ==> e.cells@.len() == 0),
                None => e.min == min && e.max == min && e.cells@ == seq![min],
            },
    {
        match max {
            Some(max_point) => {
                let mut cells: Vec<Coord> = Vec::new();
                if min.x <= max_point.x && min.y <= max_point.y {
                    let mut x: i32 = min.x;
                    loop
                        invariant_except_break
                            forall|c: Coord|
                                cells@.contains(c) <==> (in_rect(min, max_point, c) && c.x < x),
                            cells@.len() == (x - min.x) * (max_point.y - min.y + 1),
                        invariant
                            min.x <= x <= max_point.x,
                            min.y <= max_point.y,
                            cells@.no_duplicates(),
                            forall|i: int|
                                0 <= i < cells@.len() ==> #[trigger] cells@[i] == (Coord {
                                    x: (min.x + i / (max_point.y - min.y + 1)) as i32,
                                    y: (min.y + i % (max_point.y - min.y + 1)) as i32,
                                }),
                        ensures
                            forall|c: Coord| cells@.contains(c) <==> in_rect(min, max_point, c),
                            cells@.no_duplicates(),
                            cells@.len() == (max_point.x - min.x + 1) * (max_point.y - min.y + 1),
                            forall|i: int|
                                0 <= i < cells@.len() ==> #[trigger] cells@[i] == (Coord {
                                    x: (min.x + i / (max_point.y - min.y + 1)) as i32,
                                    y: (min.y + i % (max_point.y - min.y + 1)) as i32,
                                }),
                        decreases max_point.x - x,
                    {
                        let mut y: i32 = min.y;
                        loop
                            invariant_except_break
                                forall|c: Coord|
                                    cells@.contains(c) <==> (in_rect(min, max_point, c) && (c.x
                                        < x || (c.x == x && c.y < y))),
                                cells@.len() == (x - min.x) * (max_point.y - min.y + 1) + (y
                                    - min.y),
                            invariant
                                min.x <= x <= max_point.x,
                                min.y <= y <= max_point.y,
                                cells@.no_duplicates(),
                                forall|i: int|
                                    0 <= i < cells@.len() ==> #[trigger] cells@[i] == (Coord {
                                        x: (min.x + i / (max_point.y - min.y + 1)) as i32,
                                        y: (min.y + i % (max_point.y - min.y + 1)) as i32,
                                    }),
                            ensures
                                forall|c: Coord|
                                    cells@.contains(c) <==> (in_rect(min, max_point, c) && c.x
                                        <= x),
                                cells@.no_duplicates(),
                                cells@.len() == (x - min.x + 1) * (max_point.y - min.y + 1),
                            decreases max_point.y - y,
                        {
                            let cell = Coord { x, y };
                            let ghost prev = cells@;
                            proof {
                                assert(!prev.contains(cell));
                            }
                            cells.push(cell);
                            proof {
                                assert(cells@ == prev.push(cell));
                                let h = max_point.y - min.y + 1;
                                vstd::arithmetic::div_mod::lemma_fundamental_div_mod_converse(
                                    (x - min.x) * h + (y - min.y),
                                    h,
                                    x - min.x,
                                    y - min.y,
                                );
                                assert(cells@[prev.len() as int] == (Coord {
                                    x: (min.x + prev.len() as int / h) as i32,
                                    y: (min.y + prev.len() as int % h) as i32,
                                }));
                                assert forall|c: Coord|
                                    cells@.contains(c) <==> (in_rect(min, max_point, c) && (c.x
                                        < x || (c.x == x && c.y <= y))) by {
                                    if cells@.contains(c) {
                                        let w = choose|w: int|
                                            0 <= w < cells@.len() && cells@[w] == c;
                                        if w < prev.len() {
                                            assert(prev[w] == c);
                                            assert(prev.contains(c));
                                        } else {
                                            assert(c == cell);
                                        }
                                    }
                                    if in_rect(min, max_point, c) && (c.x < x || (c.x == x && c.y
                                        <= y)) {
                                        if c.x < x || (c.x == x && c.y < y) {
                                            assert(prev.contains(c));
                                            let w = choose|w: int|
                                                0 <= w < prev.len() && prev[w] == c;
                                            assert(cells@[w] == c);
                                            assert(cells@.contains(c));
                                        } else {
                                            assert(cells@[prev.len() as int] == c);
                                            assert(cells@.contains(c));
                                        }
                                    }
                                }
                                assert forall|i: int, j: int|
                                    0 <= i < cells@.len() && 0 <= j < cells@.len() && i
                                        != j implies cells@[i] != cells@[j] by {
                                    if i < prev.len() && j < prev.len() {
                                    } else if j == prev.len() {
                                        if cells@[i] == cell {
                                            assert(prev[i] == cell);
                                            assert(prev.contains(cell));
                                        }
                                    } else {
                                        if cells@[j] == cell {
                                            assert(prev[j] == cell);
                                            assert(prev.contains(cell));
                                        }
                                    }
                                }
                                assert(cells@.no_duplicates());
                            }
                            if y == max_point.y {
                                proof {
                                    let h = max_point.y - min.y + 1;
                                    assert((x - min.x + 1) * h == (x - min.x) * h + h)
                                        by (nonlinear_arith);
                                }
                                break ;
                            }
                            y = y + 1;
                        }
                        if x == max_point.x {
                            break ;
                        }
                        x = x + 1;
                    }
                }
                proof {
                    if min.x <= max_point.x && min.y <= max_point.y {
                        let w = max_point.x - min.x + 1;
                        let h = max_point.y - min.y + 1;
                        assert(w * h >= 1) by (nonlinear_arith)
                            requires
                                w >= 1 && h >= 1,
                        ;
                        assert(cells@ =~= rect_cells(min, max_point));
                    } else {
                        assert(cells@ =~= rect_cells(min, max_point));
                    }
                }
                GridEntity { min, max: max_point, cells }
            },
            None => {
                let mut cells: Vec<Coord> = Vec::new();
                cells.push(min);
                proof {
                    assert(cells@ =~= seq![min]);
                }
                GridEntity { min, max: min, cells }
            },
        }
    }
}

} // verus!
