//! The spatial index: a fixed grid of cells ("chunks"), each holding the set
//! of entities whose box overlaps it, maintained incrementally from the
//! registry's change streams; and the camera-driven active region whose
//! overlap decides which entities take part in physics at all.

use vstd::prelude::*;
use vstd::arithmetic::div_mod::{lemma_div_is_ordered, lemma_fundamental_div_mod, lemma_fundamental_div_mod_converse, lemma_mod_bound};
use vstd::arithmetic::mul::lemma_mul_inequality;
use crate::grid::{grid_cell, grid_cell_set, grid_cells, grid_dims, grid_new, CellGrid};
use crate::world::{World, WorldView};
use crate::math::Rect;
use crate::{CHUNK_SIZE, COORD_LIMIT};

verus! {

broadcast use vstd::seq_lib::lemma_seq_contains_after_push, vstd::seq_lib::group_filter_ensures, vstd::prelude::Seq::lemma_filter_contains_rev, vstd::prelude::Seq::lemma_filter_push;

/// The camera-driven rectangle: entities overlapping it are Active. The
/// `dirty` flag is edge-triggered: set when the rectangle actually changes,
/// consumed by the index when it recomputes the active set.
pub struct ActiveChunksRect {
    pub rect: Rect,
    pub dirty: bool,
}

impl ActiveChunksRect {
    pub fn new(rect: Rect) -> (a: ActiveChunksRect)
        ensures
            a.rect == rect,
            a.dirty,
    {
        ActiveChunksRect { rect, dirty: true }
    }

    pub fn get_rect(&self) -> (r: &Rect)
        ensures
            r == self.rect,
    {
        &self.rect
    }

    /// Shifts the rectangle, raising `dirty` only if the shift actually
    /// moves it.
    pub fn move_by(&mut self, dx: i64, dy: i64)
        requires
            -COORD_LIMIT <= old(self).rect.x + dx <= COORD_LIMIT,
            -COORD_LIMIT <= old(self).rect.y + dy <= COORD_LIMIT,
        ensures
            final(self).rect == old(self).rect.spec_shift(dx as int, dy as int),
            final(self).dirty == (old(self).dirty || dx != 0 || dy != 0),
    {
        if dx != 0 || dy != 0 {
            self.rect.move_by(dx, dy);
            self.dirty = true;
        }
    }

    /// Moves the rectangle, raising `dirty` only if the position actually
    /// changed.
    pub fn move_to(&mut self, x: i64, y: i64)
        ensures
            final(self).rect == (Rect { x, y, ..old(self).rect }),
            final(self).dirty == (old(self).dirty || x != old(self).rect.x || y != old(
                self,
            ).rect.y),
    {
        if x != self.rect.x || y != self.rect.y {
            self.rect.move_to(x, y);
            self.dirty = true;
        }
    }

    pub fn resize_to(&mut self, w: i64, h: i64)
        ensures
            final(self).rect == (Rect { w, h, ..old(self).rect }),
            final(self).dirty == old(self).dirty,
    {
        self.rect.resize_to(w, h);
    }

    /// Follows the camera: the region takes the camera's view corner and
    /// size, raising `dirty` only if the corner actually moved.
    pub fn update_camera(&mut self, corner: (i64, i64), view_size: (i64, i64))
        ensures
            final(self).rect == (Rect { x: corner.0, y: corner.1, w: view_size.0, h: view_size.1 }),
            final(self).dirty == (old(self).dirty || corner.0 != old(self).rect.x || corner.1
                != old(self).rect.y),
    {
        self.move_to(corner.0, corner.1);
        self.resize_to(view_size.0, view_size.1);
    }

    /// Reads and consumes the dirty flag.
    pub fn update_dirty(&mut self) -> (was_dirty: bool)
        ensures
            was_dirty == old(self).dirty,
            final(self).rect == old(self).rect,
            !final(self).dirty,
    {
        let was_dirty = self.dirty;
        self.dirty = false;
        was_dirty
    }
}

/// Per-entity record of the cells the entity is currently registered in,
/// kept so removal never has to rescan the whole grid.
#[derive(Clone, Debug)]
pub struct ChunkComponent {
    pub chunks: Vec<(usize, usize)>,
}

impl View for ChunkComponent {
    type V = Seq<(usize, usize)>;

    open spec fn view(&self) -> Seq<(usize, usize)> {
        self.chunks@
    }
}

impl Default for ChunkComponent {
    fn default() -> (c: ChunkComponent)
        ensures
            c@ == Seq::<(usize, usize)>::empty(),
    {
        ChunkComponent { chunks: Vec::new() }
    }
}

/// The fixed rectangle of the cell at column `c`, row `r`.
pub open spec fn spec_chunk_rect(c: int, r: int) -> Rect {
    Rect {
        x: (CHUNK_SIZE * c) as i64,
        y: (CHUNK_SIZE * r) as i64,
        w: CHUNK_SIZE,
        h: CHUNK_SIZE,
    }
}

/// Row-major order on cells: earlier row first, then earlier column.
pub open spec fn row_major_lt(a: (usize, usize), b: (usize, usize)) -> bool {
    a.1 < b.1 || (a.1 == b.1 && a.0 < b.0)
}

/// The first column whose cell can reach `left` (cells end at multiples of
/// `CHUNK_SIZE`; edges touching count as overlap).
pub open spec fn spec_first_cell(left: int) -> int {
    if left <= 0 {
        0
    } else {
        (left - 1) / (CHUNK_SIZE as int)
    }
}

/// The spatial index. `cells` buckets entity ids per cell; the three cursors
/// remember how far the registry's change streams have been consumed, so
/// every event is processed exactly once.
pub struct ChunkSystem {
    pub cells: CellGrid,
    pub chunks_rect: Rect,
    pub num_cells: (usize, usize),
    pub insert_cursor: usize,
    pub modify_cursor: usize,
    pub remove_cursor: usize,
}

impl ChunkSystem {
    /// The bucket map of the grid.
    pub open spec fn cell_map(self) -> Map<(usize, usize), Seq<usize>> {
        grid_cells(self.cells)
    }

    pub open spec fn in_grid(self, p: (usize, usize)) -> bool {
        p.0 < self.num_cells.0 && p.1 < self.num_cells.1
    }

    /// Does the cell `p` exist and its fixed rectangle overlap `rect`? This
    /// is the "exhaustive test" a cell lookup must agree with.
    pub open spec fn cell_overlaps(self, p: (usize, usize), rect: Rect) -> bool {
        self.in_grid(p) && spec_chunk_rect(p.0 as int, p.1 as int).spec_overlaps(rect)
    }

    /// Is `e` recorded in some cell that overlaps `area`? The active-set
    /// recomputation tags exactly the live boxed entities found this way.
    pub open spec fn found_in_region(self, area: Rect, e: usize) -> bool {
        exists|p: (usize, usize)|
            self.cell_overlaps(p, area) && #[trigger] self.cell_map()[p].contains(e)
    }

    pub open spec fn wf(self) -> bool {
        &&& grid_dims(self.cells) == self.num_cells
        &&& self.cell_map().dom() == Set::new(
            |p: (usize, usize)| p.0 < self.num_cells.0 && p.1 < self.num_cells.1,
        )
        &&& CHUNK_SIZE * self.num_cells.0 <= COORD_LIMIT
        &&& CHUNK_SIZE * self.num_cells.1 <= COORD_LIMIT
        &&& self.chunks_rect == (Rect {
            x: 0,
            y: 0,
            w: (CHUNK_SIZE * self.num_cells.0) as i64,
            h: (CHUNK_SIZE * self.num_cells.1) as i64,
        })
    }

    /// A fresh index of `width x height` empty cells.
    pub fn new(dims: (usize, usize)) -> (sys: ChunkSystem)
        requires
            CHUNK_SIZE * dims.0 <= COORD_LIMIT,
            CHUNK_SIZE * dims.1 <= COORD_LIMIT,
            dims.0 * dims.1 <= 0x7fff_ffff_ffff_ffff,
        ensures
            sys.wf(),
            sys.num_cells == dims,
            forall|p: (usize, usize)|
                sys.in_grid(p) ==> #[trigger] sys.cell_map()[p] == Seq::<usize>::empty(),
            sys.insert_cursor == 0,
            sys.modify_cursor == 0,
            sys.remove_cursor == 0,
    {
        let (width, height) = dims;
        let cells = grid_new(width, height);
        let chunks_rect = Rect::new(
            0,
            0,
            CHUNK_SIZE * (width as i64),
            CHUNK_SIZE * (height as i64),
        );
        ChunkSystem {
            cells,
            chunks_rect,
            num_cells: dims,
            insert_cursor: 0,
            modify_cursor: 0,
            remove_cursor: 0,
        }
    }

    /// The whole area the grid covers.
    pub fn get_bounds_chunks(&self) -> (r: &Rect)
        ensures
            r == self.chunks_rect,
    {
        &self.chunks_rect
    }

    /// The entity ids currently bucketed in one cell, in insertion order.
    pub fn cell_entities(&self, chunk: (usize, usize)) -> (v: Vec<usize>)
        requires
            self.wf(),
            self.in_grid(chunk),
        ensures
            v@ == self.cell_map()[chunk],
    {
        grid_cell(&self.cells, chunk.0, chunk.1)
    }

    /// The fixed rectangle of one cell.
    pub fn get_chunk_rect(&self, chunk: (usize, usize)) -> (r: Rect)
        requires
            self.wf(),
            self.in_grid(chunk),
        ensures
            r == spec_chunk_rect(chunk.0 as int, chunk.1 as int),
            r.wf(),
    {
        proof {
            lemma_mul_inequality(chunk.0 + 1, self.num_cells.0 as int, CHUNK_SIZE as int);
            lemma_mul_inequality(chunk.1 + 1, self.num_cells.1 as int, CHUNK_SIZE as int);
        }
        Rect::new(
            CHUNK_SIZE * (chunk.0 as i64),
            CHUNK_SIZE * (chunk.1 as i64),
            CHUNK_SIZE,
            CHUNK_SIZE,
        )
    }

    /// Every cell's rectangle, column by column: cell `(cx, cy)`'s
    /// rectangle sits at position `cx * rows + cy`, which pins the whole
    /// vector.
    pub fn get_chunks_rects(&self) -> (v: Vec<Rect>)
        requires
            self.wf(),
        ensures
            v@.len() == self.num_cells.0 * self.num_cells.1,
            forall|cx: int, cy: int|
                0 <= cx < self.num_cells.0 && 0 <= cy < self.num_cells.1 ==> v@[cx
                    * self.num_cells.1 + cy] == spec_chunk_rect(cx, cy),
            forall|cx: int, cy: int|
                0 <= cx < self.num_cells.0 && 0 <= cy < self.num_cells.1 ==> v@.contains(
                    #[trigger] spec_chunk_rect(cx, cy),
                ),
    {
        let mut v: Vec<Rect> = Vec::new();
        let mut x: usize = 0;
        proof {
            vstd::arithmetic::mul::lemma_mul_basics(self.num_cells.1 as int);
        }
        while x < self.num_cells.0
            invariant
                self.wf(),
                0 <= x <= self.num_cells.0,
                v@.len() == x * self.num_cells.1,
                forall|cx: int, cy: int|
                    0 <= cx < x && 0 <= cy < self.num_cells.1 ==> v@[cx * self.num_cells.1 + cy]
                        == spec_chunk_rect(cx, cy),
                forall|cx: int, cy: int|
                    0 <= cx < x && 0 <= cy < self.num_cells.1 ==> v@.contains(
                        #[trigger] spec_chunk_rect(cx, cy),
                    ),
            decreases self.num_cells.0 - x,
        {
            let mut y: usize = 0;
            while y < self.num_cells.1
                invariant
                    self.wf(),
                    0 <= x < self.num_cells.0,
                    0 <= y <= self.num_cells.1,
                    v@.len() == x * self.num_cells.1 + y,
                    forall|cx: int, cy: int|
                        0 <= cx < x && 0 <= cy < self.num_cells.1 ==> v@[cx * self.num_cells.1
                            + cy] == spec_chunk_rect(cx, cy),
                    forall|cx: int, cy: int|
                        0 <= cx < x && 0 <= cy < self.num_cells.1 ==> v@.contains(
                            #[trigger] spec_chunk_rect(cx, cy),
                        ),
                    forall|cy: int|
                        0 <= cy < y ==> v@[x as int * self.num_cells.1 + cy] == spec_chunk_rect(
                            x as int,
                            cy,
                        ),
                decreases self.num_cells.1 - y,
            {
                let r = self.get_chunk_rect((x, y));
                v.push(r);
                y += 1;
                proof {
                    lemma_mul_inequality(x as int + 1, self.num_cells.0 as int, self.num_cells.1 as int);
                    assert forall|cx: int, cy: int|
                        0 <= cx < x && 0 <= cy < self.num_cells.1 implies v@[cx
                        * self.num_cells.1 + cy] == spec_chunk_rect(cx, cy) by {
                        lemma_mul_inequality(cx + 1, x as int, self.num_cells.1 as int);
                        vstd::arithmetic::mul::lemma_mul_is_distributive_add_other_way(
                            self.num_cells.1 as int,
                            cx,
                            1,
                        );
                    }
                }
            }
            x += 1;
            proof {
                vstd::arithmetic::mul::lemma_mul_is_distributive_add_other_way(
                    self.num_cells.1 as int,
                    x as int - 1,
                    1,
                );
            }
        }
        v
    }
}

impl ChunkSystem {
    /// Every cell whose fixed rectangle overlaps `rect`, without duplicates:
    /// exactly the cells an exhaustive test of the whole grid against `rect`
    /// would select. A rectangle that misses the grid bounds selects nothing.
    pub fn get_chunks_overlap_rect(&self, rect: &Rect) -> (v: Vec<(usize, usize)>)
        requires
            self.wf(),
            rect.wf(),
        ensures
            forall|p: (usize, usize)| #[trigger] v@.contains(p) <==> self.cell_overlaps(p, *rect),
            forall|i: int, j: int| 0 <= i < j < v@.len() ==> row_major_lt(v@[i], v@[j]),
            forall|i: int, j: int| 0 <= i < j < v@.len() ==> v@[i] != v@[j],
    {
        let v: Vec<(usize, usize)> = Vec::new();
        let w = self.num_cells.0;
        let h = self.num_cells.1;
        if w == 0 || h == 0 {
            return v;
        }
        if !self.chunks_rect.overlaps(rect) {
            proof {
                assert forall|p: (usize, usize)| !self.cell_overlaps(p, *rect) by {
                    if self.in_grid(p) {
                        lemma_mul_inequality(p.0 + 1, self.num_cells.0 as int, CHUNK_SIZE as int);
                        lemma_mul_inequality(0, p.0 as int, CHUNK_SIZE as int);
                        lemma_mul_inequality(p.1 + 1, self.num_cells.1 as int, CHUNK_SIZE as int);
                        lemma_mul_inequality(0, p.1 as int, CHUNK_SIZE as int);
                    }
                }
            }
            return v;
        }
        // The grid bounds overlap `rect`, so all four edges below are usable:
        // `rect` ends at or right of 0 and starts at or left of the far edge.
        let right: i64 = rect.x + rect.w;
        let bottom: i64 = rect.y + rect.h;
        let c0: usize = if rect.x <= 0 {
            0
        } else {
            (((rect.x - 1) as u64) / (CHUNK_SIZE as u64)) as usize
        };
        let r0: usize = if rect.y <= 0 {
            0
        } else {
            (((rect.y - 1) as u64) / (CHUNK_SIZE as u64)) as usize
        };
        let cm: u64 = (right as u64) / (CHUNK_SIZE as u64);
        let rm: u64 = (bottom as u64) / (CHUNK_SIZE as u64);
        let c1: usize = if cm >= (w - 1) as u64 {
            w - 1
        } else {
            cm as usize
        };
        let r1: usize = if rm >= (h - 1) as u64 {
            h - 1
        } else {
            rm as usize
        };
        proof {
            lemma_div_is_ordered(rect.x - 1, right as int, CHUNK_SIZE as int);
            lemma_div_is_ordered(rect.y - 1, bottom as int, CHUNK_SIZE as int);
            lemma_div_is_ordered(
                rect.x - 1,
                CHUNK_SIZE * self.num_cells.0 - 1,
                CHUNK_SIZE as int,
            );
            lemma_div_is_ordered(
                rect.y - 1,
                CHUNK_SIZE * self.num_cells.1 - 1,
                CHUNK_SIZE as int,
            );
            assert((CHUNK_SIZE * self.num_cells.0 - 1) / (CHUNK_SIZE as int)
                == self.num_cells.0 - 1) by {
                lemma_fundamental_div_mod(CHUNK_SIZE * self.num_cells.0 - 1, CHUNK_SIZE as int);
                lemma_mod_bound(CHUNK_SIZE * self.num_cells.0 - 1, CHUNK_SIZE as int);
                lemma_fundamental_div_mod_converse(
                    CHUNK_SIZE * self.num_cells.0 - 1,
                    CHUNK_SIZE as int,
                    self.num_cells.0 - 1,
                    CHUNK_SIZE - 1,
                );
            }
            assert((CHUNK_SIZE * self.num_cells.1 - 1) / (CHUNK_SIZE as int)
                == self.num_cells.1 - 1) by {
                lemma_fundamental_div_mod(CHUNK_SIZE * self.num_cells.1 - 1, CHUNK_SIZE as int);
                lemma_mod_bound(CHUNK_SIZE * self.num_cells.1 - 1, CHUNK_SIZE as int);
                lemma_fundamental_div_mod_converse(
                    CHUNK_SIZE * self.num_cells.1 - 1,
                    CHUNK_SIZE as int,
                    self.num_cells.1 - 1,
                    CHUNK_SIZE - 1,
                );
            }
            assert(c0 <= c1 && r0 <= r1);
            assert forall|p: (usize, usize)|
                self.cell_overlaps(p, *rect) <==> (c0 <= p.0 <= c1 && r0 <= p.1 <= r1) by {
                if self.in_grid(p) {
                    lemma_mul_inequality(p.0 + 1, self.num_cells.0 as int, CHUNK_SIZE as int);
                    lemma_mul_inequality(0, p.0 as int, CHUNK_SIZE as int);
                    lemma_mul_inequality(p.1 + 1, self.num_cells.1 as int, CHUNK_SIZE as int);
                    lemma_mul_inequality(0, p.1 as int, CHUNK_SIZE as int);
                    lemma_cell_lower(p.0 as int, rect.x as int);
                    lemma_cell_upper(p.0 as int, right as int);
                    lemma_cell_lower(p.1 as int, rect.y as int);
                    lemma_cell_upper(p.1 as int, bottom as int);
                }
            }
        }
        let mut v = v;
        let mut cy: usize = r0;
        while cy <= r1
            invariant
                r0 <= cy <= r1 + 1,
                c0 <= c1,
                c1 < w,
                r1 < h,
                w == self.num_cells.0,
                h == self.num_cells.1,
                forall|p: (usize, usize)| #[trigger]
                    v@.contains(p) <==> (c0 <= p.0 <= c1 && r0 <= p.1 < cy),
                forall|i: int, j: int| 0 <= i < j < v@.len() ==> row_major_lt(v@[i], v@[j]),
                forall|i: int, j: int| 0 <= i < j < v@.len() ==> v@[i] != v@[j],
            decreases r1 + 1 - cy,
        {
            let mut cx: usize = c0;
            while cx <= c1
                invariant
                    c0 <= cx <= c1 + 1,
                    r0 <= cy <= r1,
                    c0 <= c1,
                    c1 < w,
                    r1 < h,
                    forall|p: (usize, usize)| #[trigger]
                        v@.contains(p) <==> ((c0 <= p.0 <= c1 && r0 <= p.1 < cy) || (p.1 == cy
                            && c0 <= p.0 < cx)),
                    forall|i: int, j: int| 0 <= i < j < v@.len() ==> row_major_lt(v@[i], v@[j]),
                    forall|i: int, j: int| 0 <= i < j < v@.len() ==> v@[i] != v@[j],
                decreases c1 + 1 - cx,
            {
                proof {
                    assert forall|i: int| 0 <= i < v@.len() implies row_major_lt(
                        v@[i],
                        (cx, cy),
                    ) && v@[i] != ((cx, cy)) by {
                        assert(v@.contains(v@[i]));
                    }
                }
                v.push((cx, cy));
                cx += 1;
            }
            cy += 1;
        }
        v
    }
}

/// Column `c`'s cell reaches back to `left` exactly when `c` is at or past
/// the first cell of `left`.
proof fn lemma_cell_lower(c: int, left: int)
    requires
        0 <= c,
    ensures
        (CHUNK_SIZE * c + CHUNK_SIZE >= left) <==> (c >= spec_first_cell(left)),
{
    let cs = CHUNK_SIZE as int;
    if left <= 0 {
        lemma_mul_inequality(0, c, cs);
    } else {
        let q = (left - 1) / cs;
        lemma_fundamental_div_mod(left - 1, cs);
        lemma_mod_bound(left - 1, cs);
        if c >= q {
            lemma_mul_inequality(q, c, cs);
        }
        if c < q {
            lemma_mul_inequality(c + 1, q, cs);
        }
    }
}

/// Column `c`'s cell starts at or before `right` exactly when `c` is at or
/// under `right`'s own column.
proof fn lemma_cell_upper(c: int, right: int)
    requires
        0 <= c,
        0 <= right,
    ensures
        (CHUNK_SIZE * c <= right) <==> (c <= right / (CHUNK_SIZE as int)),
{
    let cs = CHUNK_SIZE as int;
    let q = right / cs;
    lemma_fundamental_div_mod(right, cs);
    lemma_mod_bound(right, cs);
    if c <= q {
        lemma_mul_inequality(c, q, cs);
    }
    if c > q {
        lemma_mul_inequality(q + 1, c, cs);
    }
}

/// The entries of `s` other than `ent`, in order.
pub open spec fn others(s: Seq<usize>, ent: usize) -> Seq<usize> {
    s.filter(|x: usize| x != ent)
}

/// `others` drops exactly the occurrences of `ent`.
proof fn lemma_others_contains(s: Seq<usize>, ent: usize, x: usize)
    ensures
        x != ent ==> (others(s, ent).contains(x) <==> s.contains(x)),
        !others(s, ent).contains(ent),
{
    if x != ent && s.contains(x) {
        let i = choose|i: int| 0 <= i < s.len() && s[i] == x;
        s.lemma_filter_contains(|y: usize| y != ent, i);
    }
    if others(s, ent).contains(ent) {
        let i = choose|i: int| 0 <= i < others(s, ent).len() && others(s, ent)[i] == ent;
        assert(ent != ent);
    }
}

/// Removes every occurrence of `ent` from a bucket, keeping the order of
/// the rest.
fn vec_without(cell: Vec<usize>, ent: usize) -> (out: Vec<usize>)
    ensures
        out@ == others(cell@, ent),
{
    let mut out: Vec<usize> = Vec::new();
    let mut i: usize = 0;
    while i < cell.len()
        invariant
            0 <= i <= cell@.len(),
            out@ == others(cell@.take(i as int), ent),
        decreases cell@.len() - i,
    {
        let x = cell[i];
        if x != ent {
            out.push(x);
        }
        i += 1;
        proof {
            assert(cell@.take(i as int) =~= cell@.take(i - 1).push(cell@[i - 1]));
        }
    }
    proof {
        assert(cell@.take(cell@.len() as int) =~= cell@);
    }
    out
}

impl ChunkSystem {
    /// Entity `e` is registered exactly where its box overlaps: its
    /// membership list names those cells in strict row-major order — which
    /// pins the list completely, once each — and each existing cell's
    /// bucket holds `e` exactly when the cell overlaps the box.
    pub open spec fn entity_indexed(self, wv: WorldView, e: usize) -> bool
        recommends
            wv.sized_ok(),
            e < wv.n(),
            wv.rects[e as int] is Some,
    {
        wv.chunks[e as int] matches Some(m) && {
            let rect = wv.rects[e as int]->0.rect;
            &&& (forall|p: (usize, usize)|
                #[trigger] m.contains(p) <==> self.cell_overlaps(p, rect))
            &&& (forall|i: int, j: int| 0 <= i < j < m.len() ==> row_major_lt(m[i], m[j]))
            &&& (forall|i: int, j: int| 0 <= i < j < m.len() ==> m[i] != m[j])
            &&& (forall|p: (usize, usize)|
                self.in_grid(p) ==> (#[trigger] self.cell_map()[p].contains(e)
                    <==> self.cell_overlaps(p, rect)))
        }
    }

    /// Entity `e` sits in no bucket at all.
    pub open spec fn not_in_cells(self, e: usize) -> bool {
        forall|p: (usize, usize)|
            self.in_grid(p) ==> !(#[trigger] self.cell_map()[p].contains(e))
    }

    /// Book-keeping between buckets and membership lists: buckets name only
    /// allocated entities; a live entity in a bucket has that cell on its
    /// membership list; membership lists name existing cells, once each.
    pub open spec fn links_ok(self, wv: WorldView) -> bool {
        &&& (forall|p: (usize, usize), e: usize|
            self.in_grid(p) && #[trigger] self.cell_map()[p].contains(e) ==> e < wv.n())
        &&& (forall|p: (usize, usize), e: usize|
            self.in_grid(p) && #[trigger] self.cell_map()[p].contains(e) && wv.live(e as int)
                ==> (wv.chunks[e as int] matches Some(m) && m.contains(p)))
        &&& (forall|e: int|
            0 <= e < wv.n() && #[trigger] wv.chunks[e] is Some ==> {
                let m = wv.chunks[e]->0;
                &&& (forall|p: (usize, usize)| #[trigger] m.contains(p) ==> self.in_grid(p))
                &&& (forall|i: int, j: int| 0 <= i < j < m.len() ==> m[i] != m[j])
            })
    }

    pub open spec fn cursors_ok(self, wv: WorldView) -> bool {
        &&& self.insert_cursor <= wv.inserted.len()
        &&& self.modify_cursor <= wv.modified.len()
        &&& self.remove_cursor <= wv.removed.len()
    }

    pub open spec fn pending_inserted(self, wv: WorldView, e: usize) -> bool {
        wv.inserted.skip(self.insert_cursor as int).contains(e)
    }

    pub open spec fn pending_modified(self, wv: WorldView, e: usize) -> bool {
        wv.modified.skip(self.modify_cursor as int).contains(e)
    }

    pub open spec fn pending_removed(self, wv: WorldView, e: usize) -> bool {
        wv.removed.skip(self.remove_cursor as int).contains(e)
    }

    /// Does an unconsumed change event name `e`?
    pub open spec fn pending(self, wv: WorldView, e: usize) -> bool {
        ||| self.pending_inserted(wv, e)
        ||| self.pending_modified(wv, e)
        ||| self.pending_removed(wv, e)
    }

    /// Between ticks: every live boxed entity with no pending events is
    /// exactly registered.
    pub open spec fn index_synced(self, wv: WorldView) -> bool {
        forall|e: usize|
            e < wv.n() && wv.live(e as int) && wv.rects[e as int] is Some && !self.pending(
                wv,
                e,
            ) ==> #[trigger] self.entity_indexed(wv, e)
    }

    /// Registers an unregistered boxed entity: adds it to every cell its box
    /// overlaps, records that list as its membership, and tags it Active
    /// when its box overlaps the active region.
    pub fn insert_entity_chunks(
        &mut self,
        ent: usize,
        world: &mut World,
        active_rect: &ActiveChunksRect,
    )
        requires
            old(self).wf(),
            old(world)@.sized_ok(),
            ent < old(world)@.n(),
            old(world)@.rects[ent as int] is Some,
            old(world)@.rects[ent as int]->0.rect.wf(),
            old(world)@.chunks[ent as int] is None,
            old(self).not_in_cells(ent),
            active_rect.rect.wf(),
        ensures
            final(self).wf(),
            final(self).num_cells == old(self).num_cells,
            final(self).chunks_rect == old(self).chunks_rect,
            final(self).insert_cursor == old(self).insert_cursor,
            final(self).modify_cursor == old(self).modify_cursor,
            final(self).remove_cursor == old(self).remove_cursor,
            forall|p: (usize, usize)|
                old(self).in_grid(p) ==> #[trigger] final(self).cell_map()[p] == (if old(
                    self,
                ).cell_overlaps(p, old(world)@.rects[ent as int]->0.rect) {
                    old(self).cell_map()[p].push(ent)
                } else {
                    old(self).cell_map()[p]
                }),
            final(world)@.chunks.len() == old(world)@.chunks.len(),
            final(world)@.chunks[ent as int] is Some,
            forall|e: int|
                0 <= e < old(world)@.n() && e != ent ==> final(world)@.chunks[e] == old(
                    world,
                )@.chunks[e],
            final(world)@.active == old(world)@.active.update(
                ent as int,
                old(world)@.rects[ent as int]->0.rect.spec_overlaps(active_rect.rect),
            ),
            final(world)@.alive == old(world)@.alive,
            final(world)@.rects == old(world)@.rects,
            final(world)@.physics == old(world)@.physics,
            final(world)@.actions == old(world)@.actions,
            final(world)@.inserted == old(world)@.inserted,
            final(world)@.modified == old(world)@.modified,
            final(world)@.removed == old(world)@.removed,
            final(self).entity_indexed(final(world)@, ent),
    {
        let rc = world.rect_of(ent);
        let rect = rc.get_rect();
        let list = self.get_chunks_overlap_rect(&rect);
        let ghost cells0 = self.cell_map();
        let mut i: usize = 0;
        while i < list.len()
            invariant
                old(self).wf(),
                self.wf(),
                self.num_cells == old(self).num_cells,
                self.chunks_rect == old(self).chunks_rect,
                self.insert_cursor == old(self).insert_cursor,
                self.modify_cursor == old(self).modify_cursor,
                self.remove_cursor == old(self).remove_cursor,
                cells0 == old(self).cell_map(),
                0 <= i <= list@.len(),
                rect == old(world)@.rects[ent as int]->0.rect,
                forall|p: (usize, usize)| #[trigger]
                    list@.contains(p) <==> old(self).cell_overlaps(p, rect),
                forall|a: int, b: int| 0 <= a < b < list@.len() ==> list@[a] != list@[b],
                forall|p: (usize, usize)|
                    old(self).in_grid(p) ==> #[trigger] self.cell_map()[p] == (if list@.take(
                        i as int,
                    ).contains(p) {
                        cells0[p].push(ent)
                    } else {
                        cells0[p]
                    }),
            decreases list@.len() - i,
        {
            let p = list[i];
            proof {
                assert(list@.contains(list@[i as int]));
            }
            let mut cell = grid_cell(&self.cells, p.0, p.1);
            cell.push(ent);
            grid_cell_set(&mut self.cells, p.0, p.1, cell);
            i += 1;
            proof {
                assert(self.cell_map().dom() =~= cells0.dom());
                assert(list@.take(i as int) =~= list@.take(i - 1).push(list@[i - 1]));
                assert forall|p2: (usize, usize)| old(self).in_grid(p2) implies #[trigger] self.cell_map()[p2]
                    == (if list@.take(i as int).contains(p2) {
                        cells0[p2].push(ent)
                    } else {
                        cells0[p2]
                    }) by {
                    if p2 != list@[i - 1] && list@.take(i as int).contains(p2) {
                        assert(list@.take(i - 1).contains(p2));
                    }
                }
            }
        }
        proof {
            assert(list@.take(list@.len() as int) =~= list@);
        }
        let overlaps_active = rect.overlaps(active_rect.get_rect());
        world.chunks[ent] = Some(ChunkComponent { chunks: list });
        world.active[ent] = overlaps_active;
        proof {
            assert(world@.chunks =~= old(world)@.chunks.update(
                ent as int,
                Some(world@.chunks[ent as int]->0),
            ));
            assert(world@.active =~= old(world)@.active.update(ent as int, overlaps_active));
        }
    }

    /// Unregisters an entity: every cell on its membership list drops it,
    /// the membership record is cleared, and so is its Active tag.
    pub fn remove_entity_chunks(&mut self, ent: usize, world: &mut World)
        requires
            old(self).wf(),
            old(world)@.sized_ok(),
            ent < old(world)@.n(),
            forall|p: (usize, usize)|
                old(self).in_grid(p) && #[trigger] old(self).cell_map()[p].contains(ent) ==> (old(
                    world,
                )@.chunks[ent as int] matches Some(m) && m.contains(p)),
            old(world)@.chunks[ent as int] matches Some(m) ==> {
                &&& (forall|p: (usize, usize)| #[trigger] m.contains(p) ==> old(self).in_grid(p))
                &&& (forall|i: int, j: int| 0 <= i < j < m.len() ==> m[i] != m[j])
            },
        ensures
            final(self).wf(),
            final(self).num_cells == old(self).num_cells,
            final(self).chunks_rect == old(self).chunks_rect,
            final(self).insert_cursor == old(self).insert_cursor,
            final(self).modify_cursor == old(self).modify_cursor,
            final(self).remove_cursor == old(self).remove_cursor,
            forall|p: (usize, usize)|
                old(self).in_grid(p) ==> #[trigger] final(self).cell_map()[p] == (if old(
                    world,
                )@.chunks[ent as int] matches Some(m) && m.contains(p) {
                    others(old(self).cell_map()[p], ent)
                } else {
                    old(self).cell_map()[p]
                }),
            final(self).not_in_cells(ent),
            forall|p: (usize, usize), x: usize|
                old(self).in_grid(p) && x != ent ==> (final(self).cell_map()[p].contains(x)
                    <==> old(self).cell_map()[p].contains(x)),
            final(world)@ == (WorldView {
                chunks: old(world)@.chunks.update(ent as int, None),
                active: old(world)@.active.update(ent as int, false),
                ..old(world)@
            }),
    {
        let comp = world.take_chunk_record(ent);
        let ghost cells0 = self.cell_map();
        match comp {
            Some(comp) => {
                let m = comp.chunks;
                proof {
                    assert(old(world)@.chunks[ent as int] is Some);
                    assert(old(world)@.chunks[ent as int]->0 == m@);
                    assert(forall|p: (usize, usize)| #[trigger] m@.contains(p) ==> old(self).in_grid(p));
                    assert(forall|a: int, b: int| 0 <= a < b < m@.len() ==> m@[a] != m@[b]);
                }
                let mut i: usize = 0;
                while i < m.len()
                    invariant
                        old(self).wf(),
                        self.wf(),
                        self.num_cells == old(self).num_cells,
                        self.chunks_rect == old(self).chunks_rect,
                        self.insert_cursor == old(self).insert_cursor,
                        self.modify_cursor == old(self).modify_cursor,
                        self.remove_cursor == old(self).remove_cursor,
                        cells0 == old(self).cell_map(),
                        0 <= i <= m@.len(),
                        forall|p: (usize, usize)| #[trigger] m@.contains(p) ==> old(self).in_grid(p),
                        forall|a: int, b: int| 0 <= a < b < m@.len() ==> m@[a] != m@[b],
                        forall|p: (usize, usize)|
                            old(self).in_grid(p) ==> #[trigger] self.cell_map()[p] == (if m@.take(
                                i as int,
                            ).contains(p) {
                                others(cells0[p], ent)
                            } else {
                                cells0[p]
                            }),
                    decreases m@.len() - i,
                {
                    let p = m[i];
                    proof {
                        assert(m@.contains(m@[i as int]));
                    }
                    let cell = grid_cell(&self.cells, p.0, p.1);
                    let kept = vec_without(cell, ent);
                    grid_cell_set(&mut self.cells, p.0, p.1, kept);
                    i += 1;
                    proof {
                        assert(self.cell_map().dom() =~= cells0.dom());
                        assert(m@.take(i as int) =~= m@.take(i - 1).push(m@[i - 1]));
                        assert forall|p2: (usize, usize)| old(self).in_grid(p2) implies #[trigger] self.cell_map()[p2]
                            == (if m@.take(i as int).contains(p2) {
                                others(cells0[p2], ent)
                            } else {
                                cells0[p2]
                            }) by {
                            if p2 != m@[i - 1] && m@.take(i as int).contains(p2) {
                                assert(m@.take(i - 1).contains(p2));
                            }
                        }
                    }
                }
                proof {
                    assert(m@.take(m@.len() as int) =~= m@);
                }
            },
            None => {},
        }
        world.active[ent] = false;
        proof {
            assert(world@.active =~= old(world)@.active.update(ent as int, false));
            assert forall|p: (usize, usize)| old(self).in_grid(p) implies !(#[trigger] self.cell_map()[p].contains(
                ent,
            )) by {
                lemma_others_contains(cells0[p], ent, ent);
            }
            assert forall|p: (usize, usize), x: usize|
                old(self).in_grid(p) && x != ent implies (self.cell_map()[p].contains(x)
                    <==> old(self).cell_map()[p].contains(x)) by {
                lemma_others_contains(cells0[p], ent, x);
            }
        }
    }

    /// Re-registers an entity whose box changed: removal from its recorded
    /// cells followed by a fresh insertion with the current box.
    pub fn update_entity_chunks(
        &mut self,
        ent: usize,
        world: &mut World,
        active_rect: &ActiveChunksRect,
    )
        requires
            old(self).wf(),
            old(world)@.sized_ok(),
            ent < old(world)@.n(),
            old(world)@.rects[ent as int] is Some,
            old(world)@.rects[ent as int]->0.rect.wf(),
            forall|p: (usize, usize)|
                old(self).in_grid(p) && #[trigger] old(self).cell_map()[p].contains(ent) ==> (old(
                    world,
                )@.chunks[ent as int] matches Some(m) && m.contains(p)),
            old(world)@.chunks[ent as int] matches Some(m) ==> {
                &&& (forall|p: (usize, usize)| #[trigger] m.contains(p) ==> old(self).in_grid(p))
                &&& (forall|i: int, j: int| 0 <= i < j < m.len() ==> m[i] != m[j])
            },
            active_rect.rect.wf(),
        ensures
            final(self).wf(),
            final(self).num_cells == old(self).num_cells,
            final(self).chunks_rect == old(self).chunks_rect,
            final(self).insert_cursor == old(self).insert_cursor,
            final(self).modify_cursor == old(self).modify_cursor,
            final(self).remove_cursor == old(self).remove_cursor,
            forall|p: (usize, usize), x: usize|
                old(self).in_grid(p) && x != ent ==> (final(self).cell_map()[p].contains(x)
                    <==> old(self).cell_map()[p].contains(x)),
            final(world)@.chunks.len() == old(world)@.chunks.len(),
            final(world)@.chunks[ent as int] is Some,
            forall|e: int|
                0 <= e < old(world)@.n() && e != ent ==> final(world)@.chunks[e] == old(
                    world,
                )@.chunks[e],
            final(world)@.active == old(world)@.active.update(
                ent as int,
                old(world)@.rects[ent as int]->0.rect.spec_overlaps(active_rect.rect),
            ),
            final(world)@.alive == old(world)@.alive,
            final(world)@.rects == old(world)@.rects,
            final(world)@.physics == old(world)@.physics,
            final(world)@.actions == old(world)@.actions,
            final(world)@.inserted == old(world)@.inserted,
            final(world)@.modified == old(world)@.modified,
            final(world)@.removed == old(world)@.removed,
            final(self).entity_indexed(final(world)@, ent),
    {
        self.remove_entity_chunks(ent, world);
        self.insert_entity_chunks(ent, world, active_rect);
        proof {
            assert(world@.active =~= old(world)@.active.update(
                ent as int,
                old(world)@.rects[ent as int]->0.rect.spec_overlaps(active_rect.rect),
            ));
        }
    }
}

impl ChunkSystem {
    /// Frame facts shared by every index operation: the grid geometry and
    /// the cursors stay put.
    pub open spec fn same_shape(self, other: ChunkSystem) -> bool {
        &&& self.num_cells == other.num_cells
        &&& self.chunks_rect == other.chunks_rect
        &&& self.insert_cursor == other.insert_cursor
        &&& self.modify_cursor == other.modify_cursor
        &&& self.remove_cursor == other.remove_cursor
    }

    /// (Re)registers a live boxed entity against its current box, replacing
    /// whatever registration it had, and retags it Active exactly when its
    /// box overlaps the active region. Every other entity's registration and
    /// the global book-keeping survive untouched.
    fn reindex_entity(&mut self, ent: usize, world: &mut World, active_rect: &ActiveChunksRect)
        requires
            old(self).wf(),
            old(world)@.wf(),
            old(self).links_ok(old(world)@),
            old(world)@.live(ent as int),
            old(world)@.rects[ent as int] is Some,
            active_rect.rect.wf(),
        ensures
            final(self).wf(),
            old(self).same_shape(*final(self)),
            final(world)@.wf(),
            final(self).links_ok(final(world)@),
            final(self).entity_indexed(final(world)@, ent),
            forall|x: usize|
                x < old(world)@.n() && x != ent && old(world)@.rects[x as int] is Some && old(
                    self,
                ).entity_indexed(old(world)@, x) ==> final(self).entity_indexed(final(world)@, x),
            forall|p: (usize, usize), x: usize|
                old(self).in_grid(p) && x != ent ==> (final(self).cell_map()[p].contains(x)
                    <==> old(self).cell_map()[p].contains(x)),
            forall|e: int|
                0 <= e < old(world)@.n() && e != ent ==> final(world)@.chunks[e] == old(
                    world,
                )@.chunks[e],
            final(world)@.chunks.len() == old(world)@.chunks.len(),
            final(world)@.chunks[ent as int] is Some,
            final(world)@.active == old(world)@.active.update(
                ent as int,
                old(world)@.rects[ent as int]->0.rect.spec_overlaps(active_rect.rect),
            ),
            final(world)@.alive == old(world)@.alive,
            final(world)@.rects == old(world)@.rects,
            final(world)@.physics == old(world)@.physics,
            final(world)@.actions == old(world)@.actions,
            final(world)@.inserted == old(world)@.inserted,
            final(world)@.modified == old(world)@.modified,
            final(world)@.removed == old(world)@.removed,
    {
        if self.chunk_record_exists(ent, world) {
            self.update_entity_chunks(ent, world, active_rect);
        } else {
            proof {
                assert forall|p: (usize, usize)|
                    old(self).in_grid(p) implies !(#[trigger] old(self).cell_map()[p].contains(
                    ent,
                )) by {
                    if old(self).cell_map()[p].contains(ent) {
                        assert(old(world)@.chunks[ent as int] is Some);
                    }
                }
            }
            self.insert_entity_chunks(ent, world, active_rect);
        }
        proof {
            self.lemma_after_reindex(ent, *old(self), old(world)@, world@);
        }
    }

    /// Whether the registry holds a membership record for the entity.
    fn chunk_record_exists(&self, ent: usize, world: &World) -> (r: bool)
        requires
            world@.sized_ok(),
            ent < world@.n(),
        ensures
            r == (world@.chunks[ent as int] is Some),
    {
        world.chunks[ent].is_some()
    }

    /// After a reindex of `ent` the book-keeping and every other entity's
    /// exact registration still hold.
    proof fn lemma_after_reindex(
        self,
        ent: usize,
        s0: ChunkSystem,
        w0: WorldView,
        w1: WorldView,
    )
        requires
            s0.wf(),
            self.wf(),
            s0.same_shape(self),
            w0.wf(),
            s0.links_ok(w0),
            ent < w0.n(),
            w0.rects[ent as int] is Some,
            self.entity_indexed(w1, ent),
            forall|p: (usize, usize), x: usize|
                s0.in_grid(p) && x != ent ==> (self.cell_map()[p].contains(x)
                    <==> s0.cell_map()[p].contains(x)),
            forall|e: int| 0 <= e < w0.n() && e != ent ==> w1.chunks[e] == w0.chunks[e],
            w1.chunks.len() == w0.chunks.len(),
            w1.chunks[ent as int] is Some,
            w1.alive == w0.alive,
            w1.rects == w0.rects,
            exists|b: bool| w1.active == w0.active.update(ent as int, b),
        ensures
            self.links_ok(w1),
            forall|x: usize|
                x < w0.n() && x != ent && w0.rects[x as int] is Some && s0.entity_indexed(w0, x)
                    ==> self.entity_indexed(w1, x),
    {
        assert forall|x: usize|
            x < w0.n() && x != ent && w0.rects[x as int] is Some && s0.entity_indexed(w0, x)
                implies self.entity_indexed(w1, x) by {
            assert(w1.chunks[x as int] == w0.chunks[x as int]);
        }
        assert forall|p: (usize, usize), e: usize|
            self.in_grid(p) && #[trigger] self.cell_map()[p].contains(e) implies e < w1.n() by {
            if e != ent {
                assert(s0.cell_map()[p].contains(e));
            } else {
                assert(self.entity_indexed(w1, ent));
            }
        }
        assert forall|p: (usize, usize), e: usize|
            self.in_grid(p) && #[trigger] self.cell_map()[p].contains(e) && w1.live(e as int)
                implies (w1.chunks[e as int] matches Some(m) && m.contains(p)) by {
            if e == ent {
                assert(self.entity_indexed(w1, ent));
                assert(self.cell_overlaps(p, w1.rects[ent as int]->0.rect));
            } else {
                assert(s0.cell_map()[p].contains(e));
            }
        }
        assert forall|e: int|
            0 <= e < w1.n() && #[trigger] w1.chunks[e] is Some implies {
                let m = w1.chunks[e]->0;
                &&& (forall|p: (usize, usize)| #[trigger] m.contains(p) ==> self.in_grid(p))
                &&& (forall|i: int, j: int| 0 <= i < j < m.len() ==> m[i] != m[j])
            } by {
            if e == ent {
                assert(self.entity_indexed(w1, ent));
                let m = w1.chunks[e]->0;
                assert forall|p: (usize, usize)| #[trigger] m.contains(p) implies self.in_grid(
                    p,
                ) by {
                    assert(self.cell_overlaps(p, w1.rects[ent as int]->0.rect));
                }
            } else {
                assert(w1.chunks[e] == w0.chunks[e]);
            }
        }
    }

    /// Unregisters an entity that no longer has a box (or never had one):
    /// its buckets drop it, its membership record and Active tag are
    /// cleared; everything else survives untouched.
    fn deregister_entity(&mut self, ent: usize, world: &mut World)
        requires
            old(self).wf(),
            old(world)@.wf(),
            old(self).links_ok(old(world)@),
            old(world)@.live(ent as int),
        ensures
            final(self).wf(),
            old(self).same_shape(*final(self)),
            final(world)@.wf(),
            final(self).links_ok(final(world)@),
            final(self).not_in_cells(ent),
            forall|x: usize|
                x < old(world)@.n() && x != ent && old(world)@.rects[x as int] is Some && old(
                    self,
                ).entity_indexed(old(world)@, x) ==> final(self).entity_indexed(final(world)@, x),
            forall|p: (usize, usize), x: usize|
                old(self).in_grid(p) && x != ent ==> (final(self).cell_map()[p].contains(x)
                    <==> old(self).cell_map()[p].contains(x)),
            final(world)@ == (WorldView {
                chunks: old(world)@.chunks.update(ent as int, None),
                active: old(world)@.active.update(ent as int, false),
                ..old(world)@
            }),
    {
        if self.chunk_record_exists(ent, world) {
            self.remove_entity_chunks(ent, world);
        } else {
            proof {
                assert forall|p: (usize, usize)|
                    old(self).in_grid(p) implies !(#[trigger] old(self).cell_map()[p].contains(
                    ent,
                )) by {
                    if old(self).cell_map()[p].contains(ent) {
                        assert(old(world)@.chunks[ent as int] is Some);
                    }
                }
            }
            self.remove_entity_chunks(ent, world);
        }
        proof {
            assert forall|x: usize|
                x < old(world)@.n() && x != ent && old(world)@.rects[x as int] is Some && old(
                    self,
                ).entity_indexed(old(world)@, x) implies self.entity_indexed(world@, x) by {
                assert(world@.chunks[x as int] == old(world)@.chunks[x as int]);
            }
            assert forall|p: (usize, usize), e: usize|
                self.in_grid(p) && #[trigger] self.cell_map()[p].contains(e) implies e
                < world@.n() by {
                assert(old(self).cell_map()[p].contains(e));
            }
            assert forall|p: (usize, usize), e: usize|
                self.in_grid(p) && #[trigger] self.cell_map()[p].contains(e) && world@.live(
                e as int) implies (world@.chunks[e as int] matches Some(m) && m.contains(p)) by {
                assert(e != ent);
                assert(old(self).cell_map()[p].contains(e));
            }
            assert forall|e: int|
                0 <= e < world@.n() && #[trigger] world@.chunks[e] is Some implies {
                    let m = world@.chunks[e]->0;
                    &&& (forall|p: (usize, usize)| #[trigger] m.contains(p) ==> self.in_grid(p))
                    &&& (forall|i: int, j: int| 0 <= i < j < m.len() ==> m[i] != m[j])
                } by {
                assert(world@.chunks[e] == old(world)@.chunks[e]);
            }
        }
    }
}

/// The live entries of a bucket, in order.
pub open spec fn live_only(s: Seq<usize>, wv: WorldView) -> Seq<usize> {
    s.filter(|x: usize| wv.live(x as int))
}

impl ChunkSystem {
    /// Recomputes the Active set wholesale: clears every tag, then walks the
    /// cells overlapping the active region and retags every live boxed
    /// entity found there; dead entries discovered on the way are purged
    /// from those cells (the index may learn of destroyed entities late).
    pub fn update_active_entities(&mut self, world: &mut World, active_rect: &ActiveChunksRect)
        requires
            old(self).wf(),
            old(world)@.wf(),
            old(self).links_ok(old(world)@),
            active_rect.rect.wf(),
        ensures
            final(self).wf(),
            old(self).same_shape(*final(self)),
            final(world)@.wf(),
            final(self).links_ok(final(world)@),
            forall|e: usize|
                e < old(world)@.n() ==> final(world)@.active[e as int] == (old(world)@.live(
                    e as int,
                ) && old(world)@.rects[e as int] is Some && old(self).found_in_region(
                    active_rect.rect,
                    e,
                )),
            forall|p: (usize, usize)|
                old(self).in_grid(p) ==> #[trigger] final(self).cell_map()[p] == (if old(
                    self,
                ).cell_overlaps(p, active_rect.rect) {
                    live_only(old(self).cell_map()[p], old(world)@)
                } else {
                    old(self).cell_map()[p]
                }),
            forall|p: (usize, usize), x: usize|
                old(self).in_grid(p) && old(world)@.live(x as int) ==> (final(self).cell_map()[p].contains(x)
                    <==> old(self).cell_map()[p].contains(x)),
            forall|x: usize|
                old(world)@.live(x as int) && old(world)@.rects[x as int] is Some && old(
                    self,
                ).entity_indexed(old(world)@, x) ==> final(self).entity_indexed(final(world)@, x),
            final(world)@.alive == old(world)@.alive,
            final(world)@.rects == old(world)@.rects,
            final(world)@.physics == old(world)@.physics,
            final(world)@.actions == old(world)@.actions,
            final(world)@.chunks == old(world)@.chunks,
            final(world)@.inserted == old(world)@.inserted,
            final(world)@.modified == old(world)@.modified,
            final(world)@.removed == old(world)@.removed,
    {
        let list = self.get_chunks_overlap_rect(active_rect.get_rect());
        let n = world.active.len();
        let mut fresh: Vec<bool> = Vec::new();
        let mut k: usize = 0;
        while k < n
            invariant
                0 <= k <= n,
                fresh@.len() == k,
                forall|j: int| 0 <= j < k ==> !(#[trigger] fresh@[j]),
            decreases n - k,
        {
            fresh.push(false);
            k += 1;
        }
        let ghost cells0 = self.cell_map();
        let ghost w0 = world@;
        let mut i: usize = 0;
        while i < list.len()
            invariant
                old(self).wf(),
                self.wf(),
                old(self).same_shape(*self),
                cells0 == old(self).cell_map(),
                w0 == world@,
                w0.wf(),
                n == w0.n(),
                0 <= i <= list@.len(),
                forall|p: (usize, usize)| #[trigger]
                    list@.contains(p) <==> old(self).cell_overlaps(p, active_rect.rect),
                forall|a: int, b: int| 0 <= a < b < list@.len() ==> list@[a] != list@[b],
                fresh@.len() == n,
                forall|e: usize|
                    e < n ==> #[trigger] fresh@[e as int] == (w0.live(e as int)
                        && w0.rects[e as int] is Some && (exists|p: (usize, usize)|
                        list@.take(i as int).contains(p) && #[trigger] cells0[p].contains(e))),
                forall|p: (usize, usize)|
                    old(self).in_grid(p) ==> #[trigger] self.cell_map()[p] == (if list@.take(
                        i as int,
                    ).contains(p) {
                        live_only(cells0[p], w0)
                    } else {
                        cells0[p]
                    }),
            decreases list@.len() - i,
        {
            let p = list[i];
            proof {
                assert(list@.contains(list@[i as int]));
            }
            let cell = grid_cell(&self.cells, p.0, p.1);
            let mut kept: Vec<usize> = Vec::new();
            let mut j: usize = 0;
            while j < cell.len()
                invariant
                    w0 == world@,
                    w0.wf(),
                    n == w0.n(),
                    0 <= j <= cell@.len(),
                    fresh@.len() == n,
                    kept@ == live_only(cell@.take(j as int), w0),
                    forall|x: usize| #[trigger]
                        cell@.contains(x) && w0.live(x as int) ==> x < n,
                    forall|e: usize|
                        e < n ==> #[trigger] fresh@[e as int] == ((w0.live(e as int)
                            && w0.rects[e as int] is Some && (exists|p2: (usize, usize)|
                            list@.take(i as int).contains(p2) && #[trigger] cells0[p2].contains(
                                e,
                            ))) || (w0.live(e as int) && w0.rects[e as int] is Some
                            && cell@.take(j as int).contains(e))),
                decreases cell@.len() - j,
            {
                let x = cell[j];
                proof {
                    assert(cell@.contains(cell@[j as int]));
                }
                if world.is_alive(x) {
                    kept.push(x);
                    if world.has_rect(x) {
                        fresh[x] = true;
                    }
                }
                j += 1;
                proof {
                    assert(cell@.take(j as int) =~= cell@.take(j - 1).push(cell@[j - 1]));
                }
            }
            proof {
                assert(cell@.take(cell@.len() as int) =~= cell@);
            }
            grid_cell_set(&mut self.cells, p.0, p.1, kept);
            i += 1;
            proof {
                assert(self.cell_map().dom() =~= cells0.dom());
                assert(list@.take(i as int) =~= list@.take(i - 1).push(list@[i - 1]));
                assert forall|p2: (usize, usize)| old(self).in_grid(p2) implies #[trigger] self.cell_map()[p2]
                    == (if list@.take(i as int).contains(p2) {
                        live_only(cells0[p2], w0)
                    } else {
                        cells0[p2]
                    }) by {
                    if p2 != list@[i - 1] && list@.take(i as int).contains(p2) {
                        assert(list@.take(i - 1).contains(p2));
                    }
                }
            }
        }
        proof {
            assert(list@.take(list@.len() as int) =~= list@);
        }
        world.active = fresh;
        proof {
            let wv = world@;
            assert forall|p: (usize, usize), x: usize|
                old(self).in_grid(p) && w0.live(x as int) implies (self.cell_map()[p].contains(x)
                    <==> old(self).cell_map()[p].contains(x)) by {
                if old(self).cell_overlaps(p, active_rect.rect) {
                    lemma_live_only_contains(cells0[p], w0, x);
                }
            }
            assert forall|x: usize|
                w0.live(x as int) && w0.rects[x as int] is Some && old(self).entity_indexed(
                w0, x) implies self.entity_indexed(wv, x) by {
                assert(wv.chunks[x as int] == w0.chunks[x as int]);
                assert forall|p: (usize, usize)| self.in_grid(p) implies (
                    #[trigger] self.cell_map()[p].contains(x) <==> self.cell_overlaps(
                    p, w0.rects[x as int]->0.rect)) by {
                    if old(self).cell_overlaps(p, active_rect.rect) {
                        lemma_live_only_contains(cells0[p], w0, x);
                    }
                }
            }
            assert(wv.inserted == w0.inserted && wv.modified == w0.modified && wv.removed
                == w0.removed && wv.alive == w0.alive && wv.rects == w0.rects);
            assert(wv.n() == w0.n());
            assert(w0.wf());
            assert(wv.sized_ok());
            assert forall|e: int|
                0 <= e < wv.n() && #[trigger] wv.active[e] implies wv.rects[e] is Some by {
                let eu = e as usize;
                assert(wv.active[eu as int] == (w0.live(eu as int) && w0.rects[eu as int]
                    is Some && (exists|p: (usize, usize)|
                    list@.contains(p) && #[trigger] cells0[p].contains(eu))));
            }
            assert(forall|e: int|
                0 <= e < wv.n() && #[trigger] wv.rects[e] is Some ==> wv.rects[e]->0.rect.wf());
            assert(forall|i2: int| 0 <= i2 < wv.inserted.len() ==> #[trigger] wv.inserted[i2] < wv.n());
            assert(forall|i2: int| 0 <= i2 < wv.modified.len() ==> #[trigger] wv.modified[i2] < wv.n());
            assert(forall|i2: int| 0 <= i2 < wv.removed.len() ==> #[trigger] wv.removed[i2] < wv.n());
            assert(wv.wf());
            assert forall|e: usize| e < w0.n() implies wv.active[e as int] == (w0.live(e as int)
                && w0.rects[e as int] is Some && old(self).found_in_region(
                active_rect.rect,
                e,
            )) by {
                if wv.active[e as int] {
                    let p0 = choose|p2: (usize, usize)|
                        list@.contains(p2) && #[trigger] cells0[p2].contains(e);
                    assert(old(self).cell_overlaps(p0, active_rect.rect));
                    assert(old(self).cell_map()[p0].contains(e));
                    assert(old(self).found_in_region(active_rect.rect, e));
                } else {
                    if w0.live(e as int) && w0.rects[e as int] is Some && old(
                        self,
                    ).found_in_region(active_rect.rect, e) {
                        let p1 = choose|p2: (usize, usize)|
                            old(self).cell_overlaps(p2, active_rect.rect) && #[trigger] old(
                                self,
                            ).cell_map()[p2].contains(e);
                        assert(list@.contains(p1));
                        assert(cells0[p1].contains(e));
                        assert(wv.active[e as int]);
                    }
                }
            }
            assert forall|p: (usize, usize), e: usize|
                self.in_grid(p) && #[trigger] self.cell_map()[p].contains(e) implies e < wv.n()
                    && (wv.live(e as int) ==> (wv.chunks[e as int] matches Some(m) && m.contains(
                    p,
                ))) by {
                if old(self).cell_overlaps(p, active_rect.rect) {
                    lemma_live_only_contains(cells0[p], w0, e);
                    assert(w0.live(e as int));
                }
                assert(old(self).cell_map()[p].contains(e));
            }
            assert forall|e: int|
                0 <= e < wv.n() && #[trigger] wv.chunks[e] is Some implies {
                    let m = wv.chunks[e]->0;
                    &&& (forall|p: (usize, usize)| #[trigger] m.contains(p) ==> self.in_grid(p))
                    &&& (forall|i2: int, j2: int| 0 <= i2 < j2 < m.len() ==> m[i2] != m[j2])
                } by {
                assert(wv.chunks[e] == w0.chunks[e]);
            }
        }
    }
}

/// `live_only` keeps exactly the live entries.
proof fn lemma_live_only_contains(s: Seq<usize>, wv: WorldView, x: usize)
    ensures
        live_only(s, wv).contains(x) <==> (s.contains(x) && wv.live(x as int)),
{
    if s.contains(x) && wv.live(x as int) {
        let i = choose|i: int| 0 <= i < s.len() && s[i] == x;
        s.lemma_filter_contains(|y: usize| wv.live(y as int), i);
    }
    if live_only(s, wv).contains(x) {
        let i = choose|i: int| 0 <= i < live_only(s, wv).len() && live_only(s, wv)[i] == x;
    }
}

impl ChunkSystem {
    /// What an entity's Active tag is after the batch up to the given
    /// positions in the three streams has been consumed (with the active
    /// region unchanged): a reindexed entity is tagged exactly by overlap
    /// with `area`; an entity whose box removal was consumed is untagged;
    /// everything else keeps its tag.
    pub open spec fn run_active_value(
        self,
        w0: WorldView,
        area: Rect,
        i1: int,
        i2: int,
        i3: int,
        e: usize,
    ) -> bool {
        let in_batch = w0.inserted.subrange(self.insert_cursor as int, i1).contains(e)
            || w0.modified.subrange(self.modify_cursor as int, i2).contains(e)
            || w0.removed.subrange(self.remove_cursor as int, i3).contains(e);
        let in_rem = w0.removed.subrange(self.remove_cursor as int, i3).contains(e);
        if w0.live(e as int) && w0.rects[e as int] is Some && in_batch {
            w0.rects[e as int]->0.rect.spec_overlaps(area)
        } else if w0.live(e as int) && !(w0.rects[e as int] is Some) && in_rem {
            false
        } else {
            w0.active[e as int]
        }
    }

    /// Which live boxed entities must be exactly registered once the batch
    /// up to the given positions has been consumed.
    pub open spec fn run_due(self, w0: WorldView, i1: int, i2: int, i3: int, e: usize) -> bool {
        &&& w0.live(e as int)
        &&& w0.rects[e as int] is Some
        &&& {
            ||| !self.pending(w0, e)
            ||| w0.inserted.subrange(self.insert_cursor as int, i1).contains(e)
            ||| w0.modified.subrange(self.modify_cursor as int, i2).contains(e)
            ||| w0.removed.subrange(self.remove_cursor as int, i3).contains(e)
        }
    }

    /// Everything one tick of the index promises, relating the state before
    /// the tick (`s0`, `w0`, active region `area`, its dirty flag) to the
    /// state after (`s1`, `w1`): every live boxed entity ends exactly
    /// registered; entities no event touched keep their membership record;
    /// a consumed box removal leaves the entity in no cell; and the Active
    /// tags follow the batch (or, when the region changed, the wholesale
    /// recomputation).
    pub open spec fn run_post(
        s0: ChunkSystem,
        w0: WorldView,
        area: Rect,
        was_dirty: bool,
        s1: ChunkSystem,
        w1: WorldView,
    ) -> bool {
        &&& (forall|e: usize|
            w0.live(e as int) && w0.rects[e as int] is Some ==> s1.entity_indexed(w1, e))
        &&& (forall|e: usize| #![trigger w0.chunks[e as int]]
            e < w0.n() && !(w0.live(e as int) && s0.pending(w0, e)) ==> w1.chunks[e as int]
                == w0.chunks[e as int])
        &&& (forall|e: usize|
            w0.live(e as int) && !(w0.rects[e as int] is Some) && s0.pending_removed(w0, e)
                ==> s1.not_in_cells(e) && w1.chunks[e as int] is None)
        &&& (!was_dirty ==> forall|e: usize|
            e < w0.n() ==> w1.active[e as int] == s0.run_active_value(
                w0,
                area,
                w0.inserted.len() as int,
                w0.modified.len() as int,
                w0.removed.len() as int,
                e,
            ))
        &&& (was_dirty ==> forall|e: usize| #![trigger w0.alive[e as int]]
            e < w0.n() ==> w1.active[e as int] == (w0.live(e as int) && w0.rects[e as int]
                is Some && s1.found_in_region(area, e)))
    }

    /// Consumes the three change streams from the cursors onward (inserted,
    /// then modified, then removed), reindexing every live boxed entity an
    /// event names and unregistering entities whose box is gone; then, if
    /// the active region changed, recomputes the whole Active set.
    #[verifier::rlimit(100)]
    #[verifier::spinoff_prover]
    pub fn run(&mut self, world: &mut World, active_rect: &mut ActiveChunksRect)
        requires
            old(self).wf(),
            old(world)@.wf(),
            old(active_rect).rect.wf(),
            old(self).cursors_ok(old(world)@),
            old(self).links_ok(old(world)@),
            old(self).index_synced(old(world)@),
        ensures
            final(self).wf(),
            final(self).num_cells == old(self).num_cells,
            final(self).chunks_rect == old(self).chunks_rect,
            final(self).insert_cursor == old(world)@.inserted.len(),
            final(self).modify_cursor == old(world)@.modified.len(),
            final(self).remove_cursor == old(world)@.removed.len(),
            final(world)@.alive == old(world)@.alive,
            final(world)@.rects == old(world)@.rects,
            final(world)@.physics == old(world)@.physics,
            final(world)@.actions == old(world)@.actions,
            final(world)@.inserted == old(world)@.inserted,
            final(world)@.modified == old(world)@.modified,
            final(world)@.removed == old(world)@.removed,
            final(world)@.chunks.len() == old(world)@.chunks.len(),
            final(world)@.wf(),
            final(self).links_ok(final(world)@),
            final(self).cursors_ok(final(world)@),
            final(self).index_synced(final(world)@),
            final(active_rect).rect == old(active_rect).rect,
            !final(active_rect).dirty,
            ChunkSystem::run_post(
                *old(self),
                old(world)@,
                old(active_rect).rect,
                old(active_rect).dirty,
                *final(self),
                final(world)@,
            ),
    {
        let ghost w0 = world@;
        let ghost area = active_rect.rect;
        let n1 = world.inserted.len();
        let n2 = world.modified.len();
        let n3 = world.removed.len();
        let ic = self.insert_cursor;
        let mc = self.modify_cursor;
        let rc = self.remove_cursor;
        self.insert_cursor = n1;
        self.modify_cursor = n2;
        self.remove_cursor = n3;
        proof {
            assert forall|e: usize|
                old(self).run_due(w0, ic as int, mc as int, rc as int, e)
                    implies self.entity_indexed(world@, e) by {
                assert(w0.inserted.subrange(ic as int, ic as int) =~= Seq::<usize>::empty());
                assert(w0.modified.subrange(mc as int, mc as int) =~= Seq::<usize>::empty());
                assert(w0.removed.subrange(rc as int, rc as int) =~= Seq::<usize>::empty());
                assert(!old(self).pending(w0, e));
                assert(old(self).entity_indexed(w0, e));
                assert(self.cell_map() == old(self).cell_map());
            }
        }

        let mut i: usize = ic;
        while i < n1
            invariant
                old(self).wf(),
                self.wf(),
                self.num_cells == old(self).num_cells,
                self.chunks_rect == old(self).chunks_rect,
                self.insert_cursor == n1,
                self.modify_cursor == n2,
                self.remove_cursor == n3,
                *active_rect == *old(active_rect),
                area == active_rect.rect,
                area.wf(),
                w0 == old(world)@,
                w0.wf(),
                old(self).cursors_ok(w0),
                old(self).index_synced(w0),
                ic == old(self).insert_cursor,
                mc == old(self).modify_cursor,
                rc == old(self).remove_cursor,
                n1 == w0.inserted.len(),
                n2 == w0.modified.len(),
                n3 == w0.removed.len(),
                ic <= i <= n1,
                world@.alive == w0.alive,
                world@.rects == w0.rects,
                world@.physics == w0.physics,
                world@.actions == w0.actions,
                world@.inserted == w0.inserted,
                world@.modified == w0.modified,
                world@.removed == w0.removed,
                world@.chunks.len() == w0.chunks.len(),
                world@.wf(),
                self.links_ok(world@),
                forall|e: usize|
                    e < w0.n() && !(w0.live(e as int) && old(self).pending(w0, e))
                        ==> world@.chunks[e as int] == w0.chunks[e as int],
                forall|e: usize|
                    old(self).run_due(w0, i as int, mc as int, rc as int, e)
                        ==> #[trigger] self.entity_indexed(world@, e),
                forall|e: usize|
                    e < w0.n() ==> world@.active[e as int] == old(self).run_active_value(
                        w0,
                        area,
                        i as int,
                        mc as int,
                        rc as int,
                        e,
                    ),
            decreases n1 - i,
        {
            let e = world.inserted[i];
            proof {
                assert(w0.inserted[i as int] < w0.n());
                assert(w0.inserted.skip(ic as int)[i - ic] == e);
                assert(old(self).pending_inserted(w0, e));
            }
            if world.is_alive(e) && world.has_rect(e) {
                self.reindex_entity(e, world, active_rect);
            }
            i += 1;
            proof {
                assert(w0.inserted.subrange(ic as int, i as int) =~= w0.inserted.subrange(
                    ic as int,
                    i - 1,
                ).push(w0.inserted[i - 1]));
            }
        }

        let mut j: usize = mc;
        while j < n2
            invariant
                old(self).wf(),
                self.wf(),
                self.num_cells == old(self).num_cells,
                self.chunks_rect == old(self).chunks_rect,
                self.insert_cursor == n1,
                self.modify_cursor == n2,
                self.remove_cursor == n3,
                *active_rect == *old(active_rect),
                area == active_rect.rect,
                area.wf(),
                w0 == old(world)@,
                w0.wf(),
                old(self).cursors_ok(w0),
                old(self).index_synced(w0),
                ic == old(self).insert_cursor,
                mc == old(self).modify_cursor,
                rc == old(self).remove_cursor,
                n1 == w0.inserted.len(),
                n2 == w0.modified.len(),
                n3 == w0.removed.len(),
                mc <= j <= n2,
                world@.alive == w0.alive,
                world@.rects == w0.rects,
                world@.physics == w0.physics,
                world@.actions == w0.actions,
                world@.inserted == w0.inserted,
                world@.modified == w0.modified,
                world@.removed == w0.removed,
                world@.chunks.len() == w0.chunks.len(),
                world@.wf(),
                self.links_ok(world@),
                forall|e: usize|
                    e < w0.n() && !(w0.live(e as int) && old(self).pending(w0, e))
                        ==> world@.chunks[e as int] == w0.chunks[e as int],
                forall|e: usize|
                    old(self).run_due(w0, n1 as int, j as int, rc as int, e)
                        ==> #[trigger] self.entity_indexed(world@, e),
                forall|e: usize|
                    e < w0.n() ==> world@.active[e as int] == old(self).run_active_value(
                        w0,
                        area,
                        n1 as int,
                        j as int,
                        rc as int,
                        e,
                    ),
            decreases n2 - j,
        {
            let e = world.modified[j];
            proof {
                assert(w0.modified[j as int] < w0.n());
                assert(w0.modified.skip(mc as int)[j - mc] == e);
                assert(old(self).pending_modified(w0, e));
            }
            if world.is_alive(e) && world.has_rect(e) {
                self.reindex_entity(e, world, active_rect);
            }
            j += 1;
            proof {
                assert(w0.modified.subrange(mc as int, j as int) =~= w0.modified.subrange(
                    mc as int,
                    j - 1,
                ).push(w0.modified[j - 1]));
            }
        }

        let mut k: usize = rc;
        while k < n3
            invariant
                old(self).wf(),
                self.wf(),
                self.num_cells == old(self).num_cells,
                self.chunks_rect == old(self).chunks_rect,
                self.insert_cursor == n1,
                self.modify_cursor == n2,
                self.remove_cursor == n3,
                *active_rect == *old(active_rect),
                area == active_rect.rect,
                area.wf(),
                w0 == old(world)@,
                w0.wf(),
                old(self).cursors_ok(w0),
                old(self).index_synced(w0),
                ic == old(self).insert_cursor,
                mc == old(self).modify_cursor,
                rc == old(self).remove_cursor,
                n1 == w0.inserted.len(),
                n2 == w0.modified.len(),
                n3 == w0.removed.len(),
                rc <= k <= n3,
                world@.alive == w0.alive,
                world@.rects == w0.rects,
                world@.physics == w0.physics,
                world@.actions == w0.actions,
                world@.inserted == w0.inserted,
                world@.modified == w0.modified,
                world@.removed == w0.removed,
                world@.chunks.len() == w0.chunks.len(),
                world@.wf(),
                self.links_ok(world@),
                forall|e: usize|
                    e < w0.n() && !(w0.live(e as int) && old(self).pending(w0, e))
                        ==> world@.chunks[e as int] == w0.chunks[e as int],
                forall|e: usize|
                    old(self).run_due(w0, n1 as int, n2 as int, k as int, e)
                        ==> #[trigger] self.entity_indexed(world@, e),
                forall|e: usize|
                    w0.live(e as int) && !(w0.rects[e as int] is Some) && w0.removed.subrange(
                        rc as int,
                        k as int,
                    ).contains(e) ==> self.not_in_cells(e) && world@.chunks[e as int] is None,
                forall|e: usize|
                    e < w0.n() ==> world@.active[e as int] == old(self).run_active_value(
                        w0,
                        area,
                        n1 as int,
                        n2 as int,
                        k as int,
                        e,
                    ),
            decreases n3 - k,
        {
            let e = world.removed[k];
            let ghost wpre = world@;
            proof {
                assert(w0.removed[k as int] < w0.n());
                assert(w0.removed.skip(rc as int)[k - rc] == e);
                assert(old(self).pending_removed(w0, e));
            }
            if world.is_alive(e) {
                if world.has_rect(e) {
                    self.reindex_entity(e, world, active_rect);
                } else {
                    self.deregister_entity(e, world);
                }
            }
            k += 1;
            proof {
                assert(w0.removed.subrange(rc as int, k as int) =~= w0.removed.subrange(
                    rc as int,
                    k - 1,
                ).push(w0.removed[k - 1]));
                assert forall|e2: usize|
                    w0.live(e2 as int) && !(w0.rects[e2 as int] is Some) && w0.removed.subrange(
                        rc as int,
                        k as int,
                    ).contains(e2) implies self.not_in_cells(e2) && world@.chunks[e2 as int]
                    is None by {
                    if e2 != w0.removed[k - 1] {
                        assert(w0.removed.subrange(rc as int, k - 1).contains(e2));
                    }
                }
                assert forall|e2: usize|
                    e2 < w0.n() && !(w0.live(e2 as int) && old(self).pending(w0, e2))
                        implies world@.chunks[e2 as int] == w0.chunks[e2 as int] by {
                    if e2 == w0.removed[k - 1] {
                        assert(old(self).pending_removed(w0, e2));
                    } else {
                        assert(wpre.chunks[e2 as int] == w0.chunks[e2 as int]);
                        assert(world@.chunks[e2 as int] == wpre.chunks[e2 as int]);
                    }
                }
            }
        }

        proof {
            assert(w0.inserted.subrange(ic as int, n1 as int) =~= w0.inserted.skip(ic as int));
            assert(w0.modified.subrange(mc as int, n2 as int) =~= w0.modified.skip(mc as int));
            assert(w0.removed.subrange(rc as int, n3 as int) =~= w0.removed.skip(rc as int));
            assert forall|e: usize|
                w0.live(e as int) && w0.rects[e as int] is Some implies self.entity_indexed(
                world@, e) by {
                assert(old(self).run_due(w0, n1 as int, n2 as int, n3 as int, e));
            }
        }

        let ghost wafter = world@;
        let ghost safter = *self;
        if active_rect.update_dirty() {
            let ghost wmid = world@;
            let ghost smid = *self;
            self.update_active_entities(world, active_rect);
            proof {
                assert forall|e: usize|
                    w0.live(e as int) && !(w0.rects[e as int] is Some) && old(
                        self,
                    ).pending_removed(w0, e) implies self.not_in_cells(e) && world@.chunks[e as int]
                    is None by {
                    assert(w0.removed.subrange(rc as int, n3 as int).contains(e));
                    assert(smid.not_in_cells(e) && wmid.chunks[e as int] is None);
                    assert forall|p: (usize, usize)| self.in_grid(p) implies !(
                    #[trigger] self.cell_map()[p].contains(e)) by {
                        assert(!(smid.cell_map()[p].contains(e)));
                    }
                }
                assert forall|e: usize|
                    w0.live(e as int) && w0.rects[e as int] is Some implies self.entity_indexed(
                    world@, e) by {
                    assert(smid.entity_indexed(wmid, e));
                }
                assert forall|e: usize| e < w0.n() implies world@.active[e as int] == (w0.live(
                    e as int,
                ) && w0.rects[e as int] is Some && self.found_in_region(
                    old(active_rect).rect,
                    e,
                )) by {
                    assert(world@.active[e as int] == (wmid.live(e as int) && wmid.rects[e as int]
                        is Some && smid.found_in_region(active_rect.rect, e)));
                    if w0.live(e as int) && w0.rects[e as int] is Some {
                        if smid.found_in_region(active_rect.rect, e) {
                            let p0 = choose|p: (usize, usize)|
                                smid.cell_overlaps(p, active_rect.rect)
                                    && #[trigger] smid.cell_map()[p].contains(e);
                            assert(self.cell_map()[p0].contains(e));
                            assert(self.cell_overlaps(p0, old(active_rect).rect));
                            assert(self.found_in_region(old(active_rect).rect, e));
                        }
                        if self.found_in_region(old(active_rect).rect, e) {
                            let p1 = choose|p: (usize, usize)|
                                self.cell_overlaps(p, old(active_rect).rect)
                                    && #[trigger] self.cell_map()[p].contains(e);
                            assert(smid.cell_map()[p1].contains(e));
                            assert(smid.cell_overlaps(p1, active_rect.rect));
                            assert(smid.found_in_region(active_rect.rect, e));
                        }
                    }
                }
            }
        }
        proof {
            assert forall|e: usize| #![trigger old(world)@.chunks[e as int]]
                e < old(world)@.n() && !(old(world)@.live(e as int) && old(self).pending(
                    old(world)@,
                    e,
                )) implies world@.chunks[e as int] == old(world)@.chunks[e as int] by {
                assert(wafter.chunks[e as int] == w0.chunks[e as int]);
                assert(world@.chunks[e as int] == wafter.chunks[e as int]);
            }
            assert forall|e: usize|
                w0.live(e as int) && !(w0.rects[e as int] is Some) && old(self).pending_removed(
                w0, e) implies self.not_in_cells(e) && world@.chunks[e as int] is None by {
                assert(w0.removed.subrange(rc as int, n3 as int).contains(e));
                assert(safter.not_in_cells(e) && wafter.chunks[e as int] is None);
                assert forall|p: (usize, usize)| self.in_grid(p) implies !(
                #[trigger] self.cell_map()[p].contains(e)) by {
                    assert(!safter.cell_map()[p].contains(e));
                }
                assert(world@.chunks[e as int] == wafter.chunks[e as int]);
            }
            assert forall|e: usize|
                e < world@.n() && world@.live(e as int) && world@.rects[e as int] is Some
                    && !self.pending(world@, e) implies self.entity_indexed(world@, e) by {
                assert(w0.live(e as int) && w0.rects[e as int] is Some);
            }
            assert(self.index_synced(world@));
            assert forall|e: usize| #![trigger w0.chunks[e as int]]
                e < w0.n() && !(w0.live(e as int) && old(self).pending(w0, e))
                    implies world@.chunks[e as int] == w0.chunks[e as int] by {
                assert(wafter.chunks[e as int] == w0.chunks[e as int]);
                assert(world@.chunks[e as int] == wafter.chunks[e as int]);
            }
            if old(active_rect).dirty {
                assert forall|e: usize| #![trigger w0.alive[e as int]]
                    e < w0.n() implies world@.active[e as int] == (w0.live(e as int)
                    && w0.rects[e as int] is Some && self.found_in_region(area, e)) by {
                    assert(world@.active[e as int] == (w0.live(e as int) && w0.rects[e as int]
                        is Some && self.found_in_region(old(active_rect).rect, e)));
                }
            }
            assert(ChunkSystem::run_post(
                *old(self),
                w0,
                area,
                old(active_rect).dirty,
                *self,
                world@,
            ));
        }
    }
}

/// The cell lookup is deterministic as a sequence, not only as a set: a
/// strictly row-major-ascending vector is determined by its membership
/// alone, and `get_chunks_overlap_rect` ensures both, so two queries with
/// equal grid dimensions and an equal rectangle return equal vectors.
pub proof fn lemma_row_major_sorted_unique(s1: Seq<(usize, usize)>, s2: Seq<(usize, usize)>)
    requires
        forall|i: int, j: int| 0 <= i < j < s1.len() ==> row_major_lt(s1[i], s1[j]),
        forall|i: int, j: int| 0 <= i < j < s2.len() ==> row_major_lt(s2[i], s2[j]),
        forall|p: (usize, usize)| s1.contains(p) <==> s2.contains(p),
    ensures
        s1 == s2,
    decreases s1.len(),
{
    if s1.len() == 0 {
        if s2.len() > 0 {
            assert(s2.contains(s2[0]));
            assert(s1.contains(s2[0]));
        }
        assert(s1 =~= s2);
    } else {
        assert(s1.contains(s1[0]));
        assert(s2.contains(s1[0]));
        assert(s2.len() > 0);
        assert(s2.contains(s2[0]));
        assert(s1.contains(s2[0]));
        let k = choose|k: int| 0 <= k < s2.len() && s2[k] == s1[0];
        let m = choose|m: int| 0 <= m < s1.len() && s1[m] == s2[0];
        if k > 0 && m > 0 {
            assert(row_major_lt(s2[0], s2[k]));
            assert(row_major_lt(s1[0], s1[m]));
            assert(false);
        }
        assert(s1[0] == s2[0]);
        let t1 = s1.drop_first();
        let t2 = s2.drop_first();
        assert forall|p: (usize, usize)| t1.contains(p) implies t2.contains(p) by {
            let i = choose|i: int| 0 <= i < t1.len() && t1[i] == p;
            assert(s1[i + 1] == p);
            assert(s1.contains(p));
            assert(row_major_lt(s1[0], p));
            let k2 = choose|k2: int| 0 <= k2 < s2.len() && s2[k2] == p;
            assert(k2 > 0);
            assert(t2[k2 - 1] == p);
        }
        assert forall|p: (usize, usize)| t2.contains(p) implies t1.contains(p) by {
            let i = choose|i: int| 0 <= i < t2.len() && t2[i] == p;
            assert(s2[i + 1] == p);
            assert(s2.contains(p));
            assert(row_major_lt(s2[0], p));
            let k2 = choose|k2: int| 0 <= k2 < s1.len() && s1[k2] == p;
            assert(k2 > 0);
            assert(t1[k2 - 1] == p);
        }
        lemma_row_major_sorted_unique(t1, t2);
        assert forall|i: int| 1 <= i < s1.len() implies s1[i] == s2[i] by {
            assert(t1[i - 1] == s1[i]);
            assert(t2[i - 1] == s2[i]);
        }
        assert(s1 =~= s2);
    }
}

/// Filtering an entity out of a bucket it never was in changes nothing.
proof fn lemma_others_noop(s: Seq<usize>, ent: usize)
    requires
        !s.contains(ent),
    ensures
        others(s, ent) == s,
    decreases s.len(),
{
    if s.len() > 0 {
        let rest = s.drop_last();
        assert(!rest.contains(ent)) by {
            if rest.contains(ent) {
                let i = choose|i: int| 0 <= i < rest.len() && rest[i] == ent;
                assert(s[i] == ent);
            }
        }
        assert(s.last() != ent) by {
            assert(s[s.len() - 1] == s.last());
        }
        lemma_others_noop(rest, ent);
        assert(s =~= rest.push(s.last()));
        assert(others(rest.push(s.last()), ent) == others(rest, ent).push(s.last()));
    } else {
        assert(s =~= Seq::<usize>::empty());
        assert(others(s, ent) =~= Seq::<usize>::empty()) by {
            Seq::<usize>::empty().lemma_filter_len(|x: usize| x != ent);
        }
    }
}

/// Registering an entity and then unregistering it through its recorded
/// membership restores every bucket: `insert` followed by `remove` is the
/// identity on the grid, provided the entity was not registered to begin
/// with. `s0` is the grid before, `s1` after the insertion of `ent` with
/// box `rect` and membership record `m`, `s2` after the removal driven by
/// `m`.
pub proof fn lemma_insert_remove_inverse(
    s0: ChunkSystem,
    s1: ChunkSystem,
    s2: ChunkSystem,
    m: Seq<(usize, usize)>,
    ent: usize,
    rect: Rect,
)
    requires
        s0.not_in_cells(ent),
        s1.num_cells == s0.num_cells,
        forall|p: (usize, usize)|
            s0.in_grid(p) ==> #[trigger] s1.cell_map()[p] == (if s0.cell_overlaps(p, rect) {
                s0.cell_map()[p].push(ent)
            } else {
                s0.cell_map()[p]
            }),
        forall|p: (usize, usize)| #[trigger] m.contains(p) <==> s0.cell_overlaps(p, rect),
        s2.num_cells == s1.num_cells,
        forall|p: (usize, usize)|
            s1.in_grid(p) ==> #[trigger] s2.cell_map()[p] == (if m.contains(p) {
                others(s1.cell_map()[p], ent)
            } else {
                s1.cell_map()[p]
            }),
    ensures
        forall|p: (usize, usize)|
            s0.in_grid(p) ==> #[trigger] s2.cell_map()[p] == s0.cell_map()[p],
{
    assert forall|p: (usize, usize)| s0.in_grid(p) implies #[trigger] s2.cell_map()[p]
        == s0.cell_map()[p] by {
        if m.contains(p) {
            assert(others(s0.cell_map()[p].push(ent), ent) == others(s0.cell_map()[p], ent));
            lemma_others_noop(s0.cell_map()[p], ent);
        }
    }
}

/// The column of a coordinate that lies within the grid's horizontal span.
proof fn col_of_point(q: int, w: int) -> (c: int)
    requires
        1 <= w,
        0 <= q <= CHUNK_SIZE * w,
    ensures
        0 <= c < w,
        CHUNK_SIZE * c <= q <= CHUNK_SIZE * c + CHUNK_SIZE,
{
    let cs = CHUNK_SIZE as int;
    if q == cs * w {
        w - 1
    } else {
        let c = q / cs;
        lemma_fundamental_div_mod(q, cs);
        lemma_mod_bound(q, cs);
        if c >= w {
            lemma_mul_inequality(w, c, cs);
            assert(false);
        }
        if c < 0 {
            assert(cs * c <= -cs);
            assert(false);
        }
        c
    }
}

impl ChunkSystem {
    /// Completeness of the active-region scan: a correctly registered live
    /// entity whose box lies within the grid bounds and overlaps the region
    /// is always found in some scanned cell (so the recomputation tags it).
    /// The converse does not hold in general: the scan works at cell
    /// granularity, so an entity merely sharing a cell with the region is
    /// tagged too.
    pub proof fn lemma_overlap_is_found(self, wv: WorldView, area: Rect, e: usize)
        requires
            self.wf(),
            self.num_cells.0 >= 1,
            self.num_cells.1 >= 1,
            wv.sized_ok(),
            e < wv.n(),
            wv.rects[e as int] is Some,
            wv.rects[e as int]->0.rect.wf(),
            self.entity_indexed(wv, e),
            self.chunks_rect.spec_contains_rect(wv.rects[e as int]->0.rect),
            area.wf(),
            wv.rects[e as int]->0.rect.spec_overlaps(area),
        ensures
            self.found_in_region(area, e),
    {
        let b = wv.rects[e as int]->0.rect;
        let w = self.num_cells.0 as int;
        let h = self.num_cells.1 as int;
        let qx = if b.x >= area.x {
            b.x as int
        } else {
            area.x as int
        };
        let qy = if b.y >= area.y {
            b.y as int
        } else {
            area.y as int
        };
        let c = col_of_point(qx, w);
        let r = col_of_point(qy, h);
        let p = (c as usize, r as usize);
        assert(self.in_grid(p));
        lemma_mul_inequality(c + 1, w, CHUNK_SIZE as int);
        lemma_mul_inequality(0, c, CHUNK_SIZE as int);
        lemma_mul_inequality(r + 1, h, CHUNK_SIZE as int);
        lemma_mul_inequality(0, r, CHUNK_SIZE as int);
        assert(spec_chunk_rect(c, r).spec_overlaps(b));
        assert(spec_chunk_rect(c, r).spec_overlaps(area));
        assert(self.cell_overlaps(p, b));
        assert(self.cell_map()[p].contains(e));
        assert(self.cell_overlaps(p, area));
    }

    /// Corollary for a whole tick: when the active region changed, a live
    /// entity whose in-bounds box overlaps the region always comes out of
    /// `run` tagged Active. (The tag can also cover entities that merely
    /// share a cell with the region: the scan works at cell granularity.)
    pub proof fn lemma_recompute_tags_overlappers(
        s0: ChunkSystem,
        w0: WorldView,
        area: Rect,
        s1: ChunkSystem,
        w1: WorldView,
        e: usize,
    )
        requires
            ChunkSystem::run_post(s0, w0, area, true, s1, w1),
            s1.wf(),
            s1.num_cells.0 >= 1,
            s1.num_cells.1 >= 1,
            w1.sized_ok(),
            w1.alive == w0.alive,
            w1.rects == w0.rects,
            w0.live(e as int),
            w0.rects[e as int] is Some,
            w0.rects[e as int]->0.rect.wf(),
            s1.chunks_rect.spec_contains_rect(w0.rects[e as int]->0.rect),
            area.wf(),
            w0.rects[e as int]->0.rect.spec_overlaps(area),
        ensures
            w1.active[e as int],
    {
        assert(s1.entity_indexed(w1, e));
        s1.lemma_overlap_is_found(w1, area, e);
        assert(w1.rects[e as int] == w0.rects[e as int]);
        assert(s1.found_in_region(area, e));
        assert(w0.alive[e as int]);
    }
}

} // verus!
