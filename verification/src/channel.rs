//! A single-plane 2D numeric buffer guarded by the lock state machine.
//!
//! A [`Channel`] owns `width * height` cells, row-major and zero-initialized,
//! together with a signed lock word (see [`crate::lock`]).  Acquisition hands
//! out guards: any number of [`ReadGuard`]s may be outstanding at once, each
//! with a snapshot of the cells, or exactly one [`WritePermit`], which owns a
//! working copy of the cells and publishes it back to the channel on release.
//! Release is the only operation that moves the lock word back towards the
//! unlocked state.

use crate::chunk::{
    cell_at, chunk_count, chunk_count_exec, chunk_height, chunk_rect, chunk_rect_of, chunk_wf,
    chunk_width, lemma_chunk_count_bounds, lemma_chunk_rect_in_bounds,
    lemma_chunk_rect_is_partition, lemma_chunk_row_col, lemma_div_up_quotient,
    lemma_row_major_index, lemma_row_major_injective, partition_chunk, rect_contains,
    valid_dims as partition_dims, Chunk, CHUNK_SIZE,
};
use crate::error::AllocError;
use crate::lock::{can_read, can_write, lock_apply, readers_held, valid_state, writer_held, LockOp};
use vstd::arithmetic::mul::lemma_mul_is_distributive_add_other_way;
use vstd::prelude::*;

verus! {

/// Both dimensions are positive and their product fits the machine.
pub open spec fn dims_valid(w: int, h: int) -> bool {
    1 <= w && 1 <= h && w * h <= usize::MAX as int
}

/// View of a [`Channel`]: dimensions, cell contents and lock state.
pub ghost struct ChannelView {
    pub width: int,
    pub height: int,
    pub cells: Seq<u32>,
    pub state: int,
}

/// The channel's invariant: valid dimensions, one cell per position, and a
/// lock state the machine of [`crate::lock`] can reach.
pub open spec fn channel_inv(c: ChannelView) -> bool {
    &&& dims_valid(c.width, c.height)
    &&& c.cells.len() == c.width * c.height
    &&& valid_state(c.state)
}

/// A single-plane 2D buffer of `width * height` cells with a lock word.
pub struct Channel {
    width: usize,
    height: usize,
    cells: Vec<u32>,
    state: i64,
}

impl View for Channel {
    type V = ChannelView;

    closed spec fn view(&self) -> ChannelView {
        ChannelView {
            width: self.width as int,
            height: self.height as int,
            cells: self.cells@,
            state: self.state as int,
        }
    }
}

/// View of a [`ReadGuard`]: the dimensions and the snapshot it carries.
pub ghost struct ReadGuardView {
    pub width: int,
    pub height: int,
    pub cells: Seq<u32>,
}

/// The guard carries one cell per position of its dimensions.
pub open spec fn guard_wf(g: ReadGuardView) -> bool {
    dims_valid(g.width, g.height) && g.cells.len() == g.width * g.height
}

/// Shared, immutable access to a channel's cells: a snapshot taken while the
/// read side of the lock was held.  Dropping it without
/// [`Channel::release_read`] would leave the lock word raised forever, so the
/// guard is handed back explicitly.
pub struct ReadGuard {
    width: usize,
    height: usize,
    cells: Vec<u32>,
}

impl View for ReadGuard {
    type V = ReadGuardView;

    closed spec fn view(&self) -> ReadGuardView {
        ReadGuardView {
            width: self.width as int,
            height: self.height as int,
            cells: self.cells@,
        }
    }
}

/// View of a [`WritePermit`]: the dimensions and cells it owns.
pub ghost struct WritePermitView {
    pub width: int,
    pub height: int,
    pub cells: Seq<u32>,
}

/// The permit carries one cell per position of its dimensions.
pub open spec fn permit_wf(p: WritePermitView) -> bool {
    dims_valid(p.width, p.height) && p.cells.len() == p.width * p.height
}

/// Exclusive, mutable access to a channel: the working copy of the cells
/// owned while the write side of the lock is held.  Its contents (and, after
/// [`WritePermit::copy_from`], possibly new dimensions) become the channel's
/// on [`Channel::release_write`].
pub struct WritePermit {
    width: usize,
    height: usize,
    cells: Vec<u32>,
}

impl View for WritePermit {
    type V = WritePermitView;

    closed spec fn view(&self) -> WritePermitView {
        WritePermitView {
            width: self.width as int,
            height: self.height as int,
            cells: self.cells@,
        }
    }
}

/// A channel fresh from [`Channel::new`] hands any reader `width * height`
/// cells, all zero: the snapshot a read guard takes equals the channel's
/// cells, which `new` filled with zeros.
pub proof fn lemma_new_then_read_zero(c: ChannelView, g: ReadGuardView)
    requires
        c.width >= 1,
        c.height >= 1,
        c.cells == Seq::new((c.width * c.height) as nat, |i: int| 0u32),
        g.cells == c.cells,
        g.width == c.width,
        g.height == c.height,
    ensures
        g.cells.len() == g.width * g.height,
        forall|i: int| 0 <= i < g.cells.len() ==> g.cells[i] == 0u32,
{
}

/// Write-then-read round trip, exact after release and reacquisition: a cell
/// written on the permit is what a later read guard sees there, and every
/// other cell is what the permit carried.  The hypotheses are the `ensures`
/// of `WritePermit::set`, `Channel::release_write` and `Channel::read` in
/// turn.
pub proof fn lemma_write_read_round_trip(
    p0: WritePermitView,
    p1: WritePermitView,
    c1: ChannelView,
    g: ReadGuardView,
    x: int,
    y: int,
    v: u32,
)
    requires
        permit_wf(p0),
        0 <= x < p0.width,
        0 <= y < p0.height,
        p1.cells == p0.cells.update(y * p0.width + x, v),
        p1.width == p0.width,
        p1.height == p0.height,
        c1.cells == p1.cells,
        g.cells == c1.cells,
    ensures
        cell_at(g.cells, p0.width, x, y) == v,
        forall|qx: int, qy: int|
            0 <= qx < p0.width && 0 <= qy < p0.height && !(qx == x && qy == y)
                ==> #[trigger] cell_at(g.cells, p0.width, qx, qy) == cell_at(
                p0.cells,
                p0.width,
                qx,
                qy,
            ),
{
    lemma_row_major_index(p0.width, p0.height, x, y);
    assert forall|qx: int, qy: int|
        0 <= qx < p0.width && 0 <= qy < p0.height && !(qx == x && qy
            == y) implies #[trigger] cell_at(g.cells, p0.width, qx, qy) == cell_at(
        p0.cells,
        p0.width,
        qx,
        qy,
    ) by {
        lemma_row_major_injective(p0.width, qx, qy, x, y);
        lemma_row_major_index(p0.width, p0.height, qx, qy);
    }
}

/// An element-for-element copy of a cell buffer.
fn copy_cells(src: &Vec<u32>) -> (dst: Vec<u32>)
    ensures
        dst@ == src@,
{
    let mut dst: Vec<u32> = Vec::new();
    let mut i: usize = 0;
    while i < src.len()
        invariant
            i <= src.len(),
            dst@.len() == i as int,
            forall|j: int| 0 <= j < i ==> dst@[j] == src@[j],
        decreases src.len() - i,
    {
        dst.push(src[i]);
        i = i + 1;
    }
    proof {
        assert(dst@ =~= src@);
    }
    dst
}

impl Channel {
    /// Allocates a zero-filled `width x height` channel in the unlocked
    /// state.  Fails with [`AllocError::Layout`] exactly when a dimension is
    /// zero or the product `width * height` does not fit in `usize`.
    pub fn new(width: usize, height: usize) -> (r: Result<Channel, AllocError>)
        ensures
            r is Ok <==> dims_valid(width as int, height as int),
            match r {
                Ok(c) => {
                    &&& channel_inv(c@)
                    &&& c@.width == width as int
                    &&& c@.height == height as int
                    &&& c@.state == 0
                    &&& c@.cells == Seq::new((width * height) as nat, |i: int| 0u32)
                },
                Err(e) => e == AllocError::Layout,
            },
    {
        if width == 0 || height == 0 {
            return Err(AllocError::Layout);
        }
        match width.checked_mul(height) {
            None => Err(AllocError::Layout),
            Some(n) => {
                let mut cells: Vec<u32> = Vec::new();
                let mut i: usize = 0;
                while i < n
                    invariant
                        i <= n,
                        cells@.len() == i as int,
                        forall|j: int| 0 <= j < i ==> cells@[j] == 0u32,
                    decreases n - i,
                {
                    cells.push(0u32);
                    i = i + 1;
                }
                proof {
                    assert(cells@ =~= Seq::new((width * height) as nat, |i: int| 0u32));
                }
                Ok(Channel { width, height, cells, state: 0 })
            },
        }
    }

    /// Non-blocking observer of the raw lock state: `0` unlocked, `k > 0`
    /// for `k` outstanding read guards, `-1` while a write permit is out.
    pub fn locked(&self) -> (s: i64)
        ensures
            s as int == self@.state,
    {
        self.state
    }

    /// Tries to acquire shared read access: succeeds, with a snapshot guard,
    /// exactly when no writer holds the lock.
    pub fn try_read(&mut self) -> (r: Option<ReadGuard>)
        requires
            channel_inv(old(self)@),
            old(self)@.state < i64::MAX as int,
        ensures
            channel_inv(final(self)@),
            final(self)@.width == old(self)@.width,
            final(self)@.height == old(self)@.height,
            final(self)@.cells == old(self)@.cells,
            match r {
                Some(g) => {
                    &&& Some(final(self)@.state) == lock_apply(
                        old(self)@.state,
                        LockOp::AcquireRead,
                    )
                    &&& g@.width == old(self)@.width
                    &&& g@.height == old(self)@.height
                    &&& g@.cells == old(self)@.cells
                    &&& guard_wf(g@)
                },
                None => {
                    &&& lock_apply(old(self)@.state, LockOp::AcquireRead) is None
                    &&& final(self)@ == old(self)@
                },
            },
    {
        if self.state < 0 {
            return None;
        }
        self.state = self.state + 1;
        Some(
            ReadGuard {
                width: self.width,
                height: self.height,
                cells: copy_cells(&self.cells),
            },
        )
    }

    /// Acquires shared read access.  This is the blocking variant: a caller
    /// that holds no write permit is served at once; the precondition rules
    /// out the state in which the sole owner would wait forever on itself.
    pub fn read(&mut self) -> (g: ReadGuard)
        requires
            channel_inv(old(self)@),
            can_read(old(self)@.state),
            old(self)@.state < i64::MAX as int,
        ensures
            channel_inv(final(self)@),
            final(self)@.width == old(self)@.width,
            final(self)@.height == old(self)@.height,
            final(self)@.cells == old(self)@.cells,
            Some(final(self)@.state) == lock_apply(old(self)@.state, LockOp::AcquireRead),
            g@.width == old(self)@.width,
            g@.height == old(self)@.height,
            g@.cells == old(self)@.cells,
            guard_wf(g@),
    {
        self.state = self.state + 1;
        ReadGuard { width: self.width, height: self.height, cells: copy_cells(&self.cells) }
    }

    /// Tries to acquire exclusive write access: succeeds, with a permit
    /// owning a working copy of the cells, exactly when the lock is free.
    pub fn try_write(&mut self) -> (r: Option<WritePermit>)
        requires
            channel_inv(old(self)@),
        ensures
            channel_inv(final(self)@),
            final(self)@.width == old(self)@.width,
            final(self)@.height == old(self)@.height,
            final(self)@.cells == old(self)@.cells,
            match r {
                Some(p) => {
                    &&& Some(final(self)@.state) == lock_apply(
                        old(self)@.state,
                        LockOp::AcquireWrite,
                    )
                    &&& p@.width == old(self)@.width
                    &&& p@.height == old(self)@.height
                    &&& p@.cells == old(self)@.cells
                    &&& permit_wf(p@)
                },
                None => {
                    &&& lock_apply(old(self)@.state, LockOp::AcquireWrite) is None
                    &&& final(self)@ == old(self)@
                },
            },
    {
        if self.state != 0 {
            return None;
        }
        self.state = -1;
        Some(
            WritePermit {
                width: self.width,
                height: self.height,
                cells: copy_cells(&self.cells),
            },
        )
    }

    /// Acquires exclusive write access.  This is the blocking variant: the
    /// precondition rules out the states in which the sole owner would wait
    /// forever on its own guards.
    pub fn write(&mut self) -> (p: WritePermit)
        requires
            channel_inv(old(self)@),
            can_write(old(self)@.state),
        ensures
            channel_inv(final(self)@),
            final(self)@.width == old(self)@.width,
            final(self)@.height == old(self)@.height,
            final(self)@.cells == old(self)@.cells,
            Some(final(self)@.state) == lock_apply(old(self)@.state, LockOp::AcquireWrite),
            writer_held(final(self)@.state),
            p@.width == old(self)@.width,
            p@.height == old(self)@.height,
            p@.cells == old(self)@.cells,
            permit_wf(p@),
    {
        self.state = -1;
        WritePermit { width: self.width, height: self.height, cells: copy_cells(&self.cells) }
    }

    /// Releases one read guard: decrements the lock word and discards the
    /// snapshot.  The cells are untouched.
    pub fn release_read(&mut self, guard: ReadGuard)
        requires
            channel_inv(old(self)@),
            readers_held(old(self)@.state),
        ensures
            channel_inv(final(self)@),
            final(self)@.width == old(self)@.width,
            final(self)@.height == old(self)@.height,
            final(self)@.cells == old(self)@.cells,
            Some(final(self)@.state) == lock_apply(old(self)@.state, LockOp::ReleaseRead),
    {
        let _ = guard;
        self.state = self.state - 1;
    }

    /// Releases the write permit: publishes its cells (and dimensions, which
    /// a bulk copy-in may have changed) as the channel's contents and stores
    /// the unlocked state.
    pub fn release_write(&mut self, permit: WritePermit)
        requires
            channel_inv(old(self)@),
            writer_held(old(self)@.state),
            permit_wf(permit@),
        ensures
            channel_inv(final(self)@),
            Some(final(self)@.state) == lock_apply(old(self)@.state, LockOp::ReleaseWrite),
            final(self)@.state == 0,
            final(self)@.width == permit@.width,
            final(self)@.height == permit@.height,
            final(self)@.cells == permit@.cells,
    {
        let WritePermit { width, height, cells } = permit;
        self.width = width;
        self.height = height;
        self.cells = cells;
        self.state = 0;
    }
}

impl ReadGuard {
    /// The dimensions of the guarded buffer.
    pub fn size(&self) -> (r: (usize, usize))
        ensures
            r.0 as int == self@.width,
            r.1 as int == self@.height,
    {
        (self.width, self.height)
    }

    /// Read-only view of all `width * height` cells, row-major.
    pub fn raw(&self) -> (r: &Vec<u32>)
        ensures
            r@ == self@.cells,
    {
        &self.cells
    }

    /// Bounds-checked read of the cell at `(x, y)`.
    pub fn get(&self, x: usize, y: usize) -> (v: u32)
        requires
            guard_wf(self@),
            x < self@.width,
            y < self@.height,
        ensures
            v == cell_at(self@.cells, self@.width, x as int, y as int),
    {
        proof {
            lemma_row_major_index(self@.width, self@.height, x as int, y as int);
            vstd::std_specs::vec::axiom_spec_len(&self.cells);
        }
        self.cells[y * self.width + x]
    }
}

impl WritePermit {
    /// The dimensions of the guarded buffer.
    pub fn size(&self) -> (r: (usize, usize))
        ensures
            r.0 as int == self@.width,
            r.1 as int == self@.height,
    {
        (self.width, self.height)
    }

    /// Read-only view of all `width * height` cells, row-major.
    pub fn raw(&self) -> (r: &Vec<u32>)
        ensures
            r@ == self@.cells,
    {
        &self.cells
    }

    /// Mutable view of the working copy, row-major.  The permit stays
    /// releasable as long as the caller leaves the length alone.
    pub fn raw_mut(&mut self) -> (r: &mut Vec<u32>)
        ensures
            r@ == old(self)@.cells,
            final(self)@.cells == final(r)@,
            final(self)@.width == old(self)@.width,
            final(self)@.height == old(self)@.height,
    {
        &mut self.cells
    }

    /// Bounds-checked read of the cell at `(x, y)`.
    pub fn get(&self, x: usize, y: usize) -> (v: u32)
        requires
            permit_wf(self@),
            x < self@.width,
            y < self@.height,
        ensures
            v == cell_at(self@.cells, self@.width, x as int, y as int),
    {
        proof {
            lemma_row_major_index(self@.width, self@.height, x as int, y as int);
            vstd::std_specs::vec::axiom_spec_len(&self.cells);
        }
        self.cells[y * self.width + x]
    }

    /// Bounds-checked write of the cell at `(x, y)`.
    pub fn set(&mut self, x: usize, y: usize, v: u32)
        requires
            permit_wf(old(self)@),
            x < old(self)@.width,
            y < old(self)@.height,
        ensures
            final(self)@.width == old(self)@.width,
            final(self)@.height == old(self)@.height,
            final(self)@.cells == old(self)@.cells.update(
                y * old(self)@.width + x,
                v,
            ),
            permit_wf(final(self)@),
    {
        proof {
            lemma_row_major_index(old(self)@.width, old(self)@.height, x as int, y as int);
            vstd::std_specs::vec::axiom_spec_len(&self.cells);
        }
        let w = self.width;
        self.cells[y * w + x] = v;
    }

    /// Bulk copy-in: replaces the working copy with `data`, taking over its
    /// dimensions — the released channel is then reallocated to them.
    pub fn copy_from(&mut self, data: &Vec<u32>, width: usize, height: usize)
        requires
            dims_valid(width as int, height as int),
            data@.len() == width * height,
        ensures
            final(self)@.width == width as int,
            final(self)@.height == height as int,
            final(self)@.cells == data@,
            permit_wf(final(self)@),
    {
        self.width = width;
        self.height = height;
        self.cells = copy_cells(data);
    }

    /// Splits the permit into the chunk partition iterator at the default
    /// edge of [`CHUNK_SIZE`] cells.  The permit is consumed; it comes back
    /// from [`WriteIter::finish`] once every yielded chunk was absorbed.
    pub fn iter_mut(self) -> (it: WriteIter)
        requires
            permit_wf(self@),
        ensures
            iter_inv(it@),
            it@.width == self@.width,
            it@.height == self@.height,
            it@.edge == CHUNK_SIZE as int,
            it@.cells == self@.cells,
            it@.cursor == 0,
            it@.outstanding == 0,
    {
        self.iter_mut_sized(CHUNK_SIZE)
    }

    /// As [`WritePermit::iter_mut`], with an explicit chunk edge.
    pub fn iter_mut_sized(self, edge: usize) -> (it: WriteIter)
        requires
            permit_wf(self@),
            edge >= 1,
        ensures
            iter_inv(it@),
            it@.width == self@.width,
            it@.height == self@.height,
            it@.edge == edge as int,
            it@.cells == self@.cells,
            it@.cursor == 0,
            it@.outstanding == 0,
    {
        proof {
            lemma_chunk_count_bounds(self@.width, self@.height, edge as int);
        }
        WriteIter {
            width: self.width,
            height: self.height,
            edge,
            cells: self.cells,
            cursor: 0,
            outstanding: 0,
        }
    }
}

/// View of a [`WriteIter`]: the partition parameters, the parent buffer, the
/// next chunk index, and how many yielded chunks are still out.
pub ghost struct WriteIterView {
    pub width: int,
    pub height: int,
    pub edge: int,
    pub cells: Seq<u32>,
    pub cursor: int,
    pub outstanding: int,
}

/// The iterator's invariant.
pub open spec fn iter_inv(it: WriteIterView) -> bool {
    &&& dims_valid(it.width, it.height)
    &&& partition_dims(it.width, it.height, it.edge)
    &&& it.cells.len() == it.width * it.height
    &&& 0 <= it.cursor <= chunk_count(it.width, it.height, it.edge)
    &&& 0 <= it.outstanding <= it.cursor
}

/// The chunk partition iterator over a consumed [`WritePermit`].  It yields
/// one [`Chunk`] per rectangle of the partition, in row-major order, and is
/// not restartable.  Chunks may be mutated independently — concurrently, if
/// moved to other workers — and hand their cells back through
/// [`WriteIter::absorb`]; the permit, and with it the channel's lock, is only
/// recovered by [`WriteIter::finish`] once no chunk is still out.
pub struct WriteIter {
    width: usize,
    height: usize,
    edge: usize,
    cells: Vec<u32>,
    cursor: usize,
    outstanding: usize,
}

impl View for WriteIter {
    type V = WriteIterView;

    closed spec fn view(&self) -> WriteIterView {
        WriteIterView {
            width: self.width as int,
            height: self.height as int,
            edge: self.edge as int,
            cells: self.cells@,
            cursor: self.cursor as int,
            outstanding: self.outstanding as int,
        }
    }
}

impl WriteIter {
    /// Yields the next chunk of the partition: its bounds are
    /// `chunk_rect(width, height, edge, cursor)` and its cells are a copy of
    /// the covered region, row-major.  Returns `None` exactly when every
    /// chunk was yielded.
    pub fn next(&mut self) -> (r: Option<Chunk>)
        requires
            iter_inv(old(self)@),
        ensures
            iter_inv(final(self)@),
            final(self)@.width == old(self)@.width,
            final(self)@.height == old(self)@.height,
            final(self)@.edge == old(self)@.edge,
            final(self)@.cells == old(self)@.cells,
            match r {
                Some(c) => {
                    &&& old(self)@.cursor < chunk_count(
                        old(self)@.width,
                        old(self)@.height,
                        old(self)@.edge,
                    )
                    &&& final(self)@.cursor == old(self)@.cursor + 1
                    &&& final(self)@.outstanding == old(self)@.outstanding + 1
                    &&& chunk_wf(c@)
                    &&& chunk_rect_of(c@) == chunk_rect(
                        old(self)@.width,
                        old(self)@.height,
                        old(self)@.edge,
                        old(self)@.cursor,
                    )
                    &&& partition_chunk(old(self)@.width, old(self)@.height, old(self)@.edge, c@)
                    &&& forall|lx: int, ly: int|
                        0 <= lx < chunk_width(c@) && 0 <= ly < chunk_height(c@)
                            ==> cell_at(c@.cells, chunk_width(c@), lx, ly) == cell_at(
                            old(self)@.cells,
                            old(self)@.width,
                            c@.x0 + lx,
                            c@.y0 + ly,
                        )
                },
                None => {
                    &&& old(self)@.cursor == chunk_count(
                        old(self)@.width,
                        old(self)@.height,
                        old(self)@.edge,
                    )
                    &&& final(self)@ == old(self)@
                },
            },
    {
        let w = self.width;
        let h = self.height;
        let s = self.edge;
        let count = chunk_count_exec(w, h, s);
        if self.cursor >= count {
            return None;
        }
        let k = self.cursor;
        let cols: usize = (w - 1) / s + 1;
        proof {
            lemma_div_up_quotient(w as int, s as int);
            lemma_chunk_row_col(w as int, h as int, s as int, k as int);
            lemma_chunk_rect_in_bounds(w as int, h as int, s as int, k as int);
            lemma_chunk_rect_is_partition(w as int, h as int, s as int, k as int);
        }
        let row = k / cols;
        let col = k % cols;
        proof {
            lemma_mul_is_distributive_add_other_way(s as int, col as int, 1);
            lemma_mul_is_distributive_add_other_way(s as int, row as int, 1);
        }
        let x0 = col * s;
        let y0 = row * s;
        let x1 = if s < w - x0 {
            x0 + s
        } else {
            w
        };
        let y1 = if s < h - y0 {
            y0 + s
        } else {
            h
        };
        let ghost target = chunk_rect(w as int, h as int, s as int, k as int);
        proof {
            assert(x0 as int == target.x0);
            assert(y0 as int == target.y0);
            assert(x1 as int == target.x1);
            assert(y1 as int == target.y1);
        }
        let cw = x1 - x0;
        let ch = y1 - y0;
        let mut buf: Vec<u32> = Vec::new();
        let mut ly: usize = 0;
        while ly < ch
            invariant
                iter_inv(self@),
                ly <= ch,
                cw == x1 - x0,
                ch == y1 - y0,
                0 < cw,
                x0 + cw <= w,
                y0 + ch <= h,
                w == self@.width,
                h == self@.height,
                self@.cells.len() == w * h,
                buf@.len() == ly * cw,
                forall|qx: int, qy: int|
                    0 <= qx < cw && 0 <= qy < ly ==> cell_at(buf@, cw as int, qx, qy) == cell_at(
                        self@.cells,
                        w as int,
                        x0 + qx,
                        y0 + qy,
                    ),
            decreases ch - ly,
        {
            let mut lx: usize = 0;
            while lx < cw
                invariant
                    iter_inv(self@),
                    lx <= cw,
                    ly < ch,
                    cw == x1 - x0,
                    ch == y1 - y0,
                    x0 + cw <= w,
                    y0 + ch <= h,
                    w == self@.width,
                    h == self@.height,
                    self@.cells.len() == w * h,
                    buf@.len() == ly * cw + lx,
                    forall|qx: int, qy: int|
                        0 <= qx < cw && 0 <= qy < ly ==> cell_at(buf@, cw as int, qx, qy)
                            == cell_at(self@.cells, w as int, x0 + qx, y0 + qy),
                    forall|qx: int|
                        0 <= qx < lx ==> cell_at(buf@, cw as int, qx, ly as int) == cell_at(
                            self@.cells,
                            w as int,
                            x0 + qx,
                            y0 + ly,
                        ),
                decreases cw - lx,
            {
                let gx = x0 + lx;
                let gy = y0 + ly;
                proof {
                    lemma_row_major_index(w as int, h as int, gx as int, gy as int);
                    vstd::std_specs::vec::axiom_spec_len(&self.cells);
                    lemma_row_major_index(cw as int, ly as int + 1, lx as int, ly as int);
                }
                let v = self.cells[gy * w + gx];
                let ghost prev = buf@;
                buf.push(v);
                proof {
                    assert(buf@ == prev.push(v));
                    assert forall|qx: int, qy: int| 0 <= qx < cw && 0 <= qy < ly implies cell_at(
                        buf@,
                        cw as int,
                        qx,
                        qy,
                    ) == cell_at(self@.cells, w as int, x0 + qx, y0 + qy) by {
                        lemma_row_major_index(cw as int, ly as int, qx, qy);
                        assert(qy * (cw as int) + qx < prev.len());
                        assert(cell_at(buf@, cw as int, qx, qy) == cell_at(prev, cw as int, qx, qy));
                        assert(cell_at(prev, cw as int, qx, qy) == cell_at(
                            self@.cells,
                            w as int,
                            x0 + qx,
                            y0 + qy,
                        ));
                    }
                    assert forall|qx: int| 0 <= qx < lx + 1 implies cell_at(
                        buf@,
                        cw as int,
                        qx,
                        ly as int,
                    ) == cell_at(self@.cells, w as int, x0 + qx, y0 + ly) by {
                        if qx < lx {
                            assert((ly as int) * (cw as int) + qx < prev.len());
                            assert(cell_at(buf@, cw as int, qx, ly as int) == cell_at(
                                prev,
                                cw as int,
                                qx,
                                ly as int,
                            ));
                            assert(cell_at(prev, cw as int, qx, ly as int) == cell_at(
                                self@.cells,
                                w as int,
                                x0 + qx,
                                y0 + ly,
                            ));
                        } else {
                            assert(qx == lx as int);
                            assert((ly as int) * (cw as int) + (lx as int) == prev.len());
                            assert(buf@[prev.len() as int] == v);
                            assert(cell_at(buf@, cw as int, lx as int, ly as int) == v);
                            assert(v == cell_at(
                                self@.cells,
                                w as int,
                                x0 + lx as int,
                                y0 + ly as int,
                            ));
                        }
                    }
                }
                lx = lx + 1;
            }
            proof {
                lemma_mul_is_distributive_add_other_way(cw as int, ly as int, 1);
            }
            ly = ly + 1;
        }
        proof {
            assert(ch as int * cw as int == cw as int * ch as int) by (nonlinear_arith);
        }
        let c = Chunk::from_parts(x0, y0, x1, y1, buf);
        self.cursor = k + 1;
        self.outstanding = self.outstanding + 1;
        Some(c)
    }

    /// How many chunks are still to be yielded: exact, so both entries of
    /// the hint agree.
    pub fn size_hint(&self) -> (r: (usize, Option<usize>))
        requires
            iter_inv(self@),
        ensures
            r.0 == chunk_count(self@.width, self@.height, self@.edge) - self@.cursor,
            r.1 == Some(r.0),
    {
        let count = chunk_count_exec(self.width, self.height, self.edge);
        let remaining = count - self.cursor;
        (remaining, Some(remaining))
    }

    /// Consumes the iterator, reporting how many chunks it would still have
    /// yielded.
    pub fn count(self) -> (n: usize)
        requires
            iter_inv(self@),
        ensures
            n == chunk_count(self@.width, self@.height, self@.edge) - self@.cursor,
    {
        let (lo, _) = self.size_hint();
        lo
    }

    /// Takes a chunk of this partition back: its cells land on the covered
    /// rectangle of the parent buffer, every other cell is untouched.
    pub fn absorb(&mut self, c: Chunk)
        requires
            iter_inv(old(self)@),
            old(self)@.outstanding >= 1,
            partition_chunk(old(self)@.width, old(self)@.height, old(self)@.edge, c@),
        ensures
            iter_inv(final(self)@),
            final(self)@.width == old(self)@.width,
            final(self)@.height == old(self)@.height,
            final(self)@.edge == old(self)@.edge,
            final(self)@.cursor == old(self)@.cursor,
            final(self)@.outstanding == old(self)@.outstanding - 1,
            final(self)@.cells.len() == old(self)@.cells.len(),
            forall|gx: int, gy: int|
                rect_contains(chunk_rect_of(c@), gx, gy) ==> #[trigger] cell_at(
                    final(self)@.cells,
                    old(self)@.width,
                    gx,
                    gy,
                ) == cell_at(c@.cells, chunk_width(c@), gx - c@.x0, gy - c@.y0),
            forall|gx: int, gy: int|
                0 <= gx < old(self)@.width && 0 <= gy < old(self)@.height && !rect_contains(
                    chunk_rect_of(c@),
                    gx,
                    gy,
                ) ==> #[trigger] cell_at(final(self)@.cells, old(self)@.width, gx, gy) == cell_at(
                    old(self)@.cells,
                    old(self)@.width,
                    gx,
                    gy,
                ),
    {
        let w = self.width;
        let h = self.height;
        let ((x0, y0), (x1, y1)) = c.bounds();
        let cw = c.width();
        let ch = c.height();
        let data = c.raw();
        let mut ly: usize = 0;
        while ly < ch
            invariant
                ly <= ch,
                cw == chunk_width(c@),
                ch == chunk_height(c@),
                x0 == c@.x0,
                y0 == c@.y0,
                x1 == c@.x1,
                y1 == c@.y1,
                chunk_wf(c@),
                x0 + cw <= w,
                y0 + ch <= h,
                w == self@.width,
                h == self@.height,
                w == old(self)@.width,
                h == old(self)@.height,
                self@.edge == old(self)@.edge,
                self@.cursor == old(self)@.cursor,
                self@.outstanding == old(self)@.outstanding,
                iter_inv(self@),
                self@.cells.len() == old(self)@.cells.len(),
                data@ == c@.cells,
                forall|gx: int, gy: int|
                    c@.x0 <= gx < c@.x1 && c@.y0 <= gy < c@.y0 + ly ==> cell_at(
                        self@.cells,
                        w as int,
                        gx,
                        gy,
                    ) == cell_at(c@.cells, cw as int, gx - c@.x0, gy - c@.y0),
                forall|gx: int, gy: int|
                    0 <= gx < w && 0 <= gy < h && !(c@.x0 <= gx < c@.x1 && c@.y0 <= gy < c@.y0
                        + ly) ==> cell_at(self@.cells, w as int, gx, gy) == cell_at(
                        old(self)@.cells,
                        w as int,
                        gx,
                        gy,
                    ),
            decreases ch - ly,
        {
            let mut lx: usize = 0;
            while lx < cw
                invariant
                    lx <= cw,
                    ly < ch,
                    cw == chunk_width(c@),
                    ch == chunk_height(c@),
                    x0 == c@.x0,
                    y0 == c@.y0,
                    x1 == c@.x1,
                    y1 == c@.y1,
                    chunk_wf(c@),
                    x0 + cw <= w,
                    y0 + ch <= h,
                    w == self@.width,
                    h == self@.height,
                    w == old(self)@.width,
                    h == old(self)@.height,
                    self@.edge == old(self)@.edge,
                    self@.cursor == old(self)@.cursor,
                    self@.outstanding == old(self)@.outstanding,
                    iter_inv(self@),
                    self@.cells.len() == old(self)@.cells.len(),
                    data@ == c@.cells,
                    forall|gx: int, gy: int|
                        c@.x0 <= gx < c@.x1 && c@.y0 <= gy < c@.y0 + ly ==> cell_at(
                            self@.cells,
                            w as int,
                            gx,
                            gy,
                        ) == cell_at(c@.cells, cw as int, gx - c@.x0, gy - c@.y0),
                    forall|gx: int|
                        c@.x0 <= gx < c@.x0 + lx ==> #[trigger] cell_at(
                            self@.cells,
                            w as int,
                            gx,
                            c@.y0 + ly,
                        ) == cell_at(c@.cells, cw as int, gx - c@.x0, ly as int),
                    forall|gx: int, gy: int|
                        0 <= gx < w && 0 <= gy < h && !(c@.x0 <= gx < c@.x1 && c@.y0 <= gy < c@.y0
                            + ly) && !(c@.x0 <= gx < c@.x0 + lx && gy == c@.y0 + ly) ==> cell_at(
                            self@.cells,
                            w as int,
                            gx,
                            gy,
                        ) == cell_at(old(self)@.cells, w as int, gx, gy),
                decreases cw - lx,
            {
                let gx = x0 + lx;
                let gy = y0 + ly;
                proof {
                    lemma_row_major_index(w as int, h as int, gx as int, gy as int);
                    lemma_row_major_index(cw as int, ch as int, lx as int, ly as int);
                    vstd::std_specs::vec::axiom_spec_len(&self.cells);
                    vstd::std_specs::vec::axiom_spec_len(data);
                }
                let v = data[ly * cw + lx];
                let idx = gy * w + gx;
                let ghost prev = self@.cells;
                self.cells[idx] = v;
                proof {
                    assert(self@.cells == prev.update(idx as int, v));
                    assert(cell_at(self@.cells, w as int, gx as int, gy as int) == v);
                    assert(v == cell_at(c@.cells, cw as int, lx as int, ly as int));
                    assert forall|qx: int, qy: int|
                        0 <= qx < w && 0 <= qy < h && !(qx == gx as int && qy
                            == gy as int) implies cell_at(self@.cells, w as int, qx, qy) == cell_at(
                        prev,
                        w as int,
                        qx,
                        qy,
                    ) by {
                        lemma_row_major_injective(w as int, qx, qy, gx as int, gy as int);
                        lemma_row_major_index(w as int, h as int, qx, qy);
                    }
                    assert forall|gx2: int, gy2: int|
                        c@.x0 <= gx2 < c@.x1 && c@.y0 <= gy2 < c@.y0 + ly implies cell_at(
                        self@.cells,
                        w as int,
                        gx2,
                        gy2,
                    ) == cell_at(c@.cells, cw as int, gx2 - c@.x0, gy2 - c@.y0) by {
                        assert(cell_at(prev, w as int, gx2, gy2) == cell_at(
                            c@.cells,
                            cw as int,
                            gx2 - c@.x0,
                            gy2 - c@.y0,
                        ));
                        assert(!(gx2 == gx as int && gy2 == gy as int));
                        assert(cell_at(self@.cells, w as int, gx2, gy2) == cell_at(
                            prev,
                            w as int,
                            gx2,
                            gy2,
                        ));
                    }
                    assert forall|gx2: int| c@.x0 <= gx2 < c@.x0 + (lx + 1) implies #[trigger] cell_at(
                        self@.cells,
                        w as int,
                        gx2,
                        c@.y0 + ly,
                    ) == cell_at(c@.cells, cw as int, gx2 - c@.x0, ly as int) by {
                        if gx2 < c@.x0 + lx {
                            assert(cell_at(prev, w as int, gx2, c@.y0 + ly) == cell_at(
                                c@.cells,
                                cw as int,
                                gx2 - c@.x0,
                                ly as int,
                            ));
                            assert(!(gx2 == gx as int && c@.y0 + ly == gy as int));
                            assert(cell_at(self@.cells, w as int, gx2, c@.y0 + ly) == cell_at(
                                prev,
                                w as int,
                                gx2,
                                c@.y0 + ly,
                            ));
                        } else {
                            assert(gx2 == gx as int && c@.y0 + ly == gy as int);
                        }
                    }
                    assert forall|gx2: int, gy2: int|
                        0 <= gx2 < w && 0 <= gy2 < h && !(c@.x0 <= gx2 < c@.x1 && c@.y0 <= gy2
                            < c@.y0 + ly) && !(c@.x0 <= gx2 < c@.x0 + (lx + 1) && gy2 == c@.y0
                            + ly) implies cell_at(self@.cells, w as int, gx2, gy2) == cell_at(
                        old(self)@.cells,
                        w as int,
                        gx2,
                        gy2,
                    ) by {
                        assert(!(gx2 == gx as int && gy2 == gy as int));
                        assert(cell_at(self@.cells, w as int, gx2, gy2) == cell_at(
                            prev,
                            w as int,
                            gx2,
                            gy2,
                        ));
                        assert(cell_at(prev, w as int, gx2, gy2) == cell_at(
                            old(self)@.cells,
                            w as int,
                            gx2,
                            gy2,
                        ));
                    }
                }
                lx = lx + 1;
            }
            ly = ly + 1;
        }
        self.outstanding = self.outstanding - 1;
    }

    /// Ends the iteration, recovering the write permit.  Only callable once
    /// every yielded chunk was absorbed: the parent lock stays write-held
    /// while any chunk is outstanding.
    pub fn finish(self) -> (p: WritePermit)
        requires
            iter_inv(self@),
            self@.outstanding == 0,
        ensures
            permit_wf(p@),
            p@.width == self@.width,
            p@.height == self@.height,
            p@.cells == self@.cells,
    {
        WritePermit { width: self.width, height: self.height, cells: self.cells }
    }
}

} // verus!
