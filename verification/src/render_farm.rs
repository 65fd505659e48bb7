//! Jobs that wait to be rendered, and those who wait for them.

use crate::gpu_renderer::TileRenderResult;
use crate::resample::{ResamplingMode, StretchConfig};
use vstd::prelude::*;

verus! {

/// A tile that waits to be rendered. `F` is the type of the numbers of its stretch.
#[derive(Debug, Clone)]
pub struct TileJob<F> {
    pub path: String,
    pub z: u32,
    pub x: u32,
    pub y: u32,
    pub bands: Vec<u32>,
    pub stretch: Option<StretchConfig<F>>,
    pub resampling: ResamplingMode,
    pub priority: u64,
}

/// The place of a tile in the queue: a lesser one comes first.
pub open spec fn priority_of(z: u32, x: u32, y: u32) -> u64 {
    (z as u64) << 40u64 | (x as u64) << 20u64 | (y as u64)
}

/// The place of a tile in the queue.
pub fn job_priority(z: u32, x: u32, y: u32) -> (p: u64)
    ensures
        p == priority_of(z, x, y),
{
    (z as u64) << 40u64 | (x as u64) << 20u64 | (y as u64)
}

/// Tiles are rendered by zoom level first, then by column, then by row, where columns and
/// rows have no more than twenty bits, and zoom levels no more than twenty-four.
pub proof fn law_priority_order(z1: u32, x1: u32, y1: u32, z2: u32, x2: u32, y2: u32)
    requires
        z1 < 0x100_0000 && z2 < 0x100_0000,
        x1 < 0x10_0000 && x2 < 0x10_0000,
        y1 < 0x10_0000 && y2 < 0x10_0000,
    ensures
        priority_of(z1, x1, y1) < priority_of(z2, x2, y2) <==> z1 < z2 || (z1 == z2 && (x1 < x2
            || (x1 == x2 && y1 < y2))),
{
    assert((z1 as u64) << 40u64 | (x1 as u64) << 20u64 | (y1 as u64) == z1 as u64
        * 0x100_0000_0000u64 + x1 as u64 * 0x10_0000u64 + y1 as u64) by (bit_vector)
        requires
            z1 < 0x100_0000,
            x1 < 0x10_0000,
            y1 < 0x10_0000,
    ;
    assert((z2 as u64) << 40u64 | (x2 as u64) << 20u64 | (y2 as u64) == z2 as u64
        * 0x100_0000_0000u64 + x2 as u64 * 0x10_0000u64 + y2 as u64) by (bit_vector)
        requires
            z2 < 0x100_0000,
            x2 < 0x10_0000,
            y2 < 0x10_0000,
    ;
}

/// Who waits for the tile at a place.
#[derive(Debug, Clone, Copy, PartialEq, Eq, Structural)]
pub struct Waiting {
    pub z: u32,
    pub x: u32,
    pub y: u32,
    /// The number of the one who waits.
    pub ticket: u64,
}

/// The queue of jobs, and those who wait for tiles: no more than one at each place.
pub struct RenderFarm<F> {
    pub queue: Vec<TileJob<F>>,
    pub pending: Vec<Waiting>,
}

/// One waits for the tile at a place.
pub open spec fn waits(pending: Seq<Waiting>, z: u32, x: u32, y: u32) -> bool {
    exists|i: int|
        0 <= i < pending.len() && (#[trigger] pending[i]).z == z && pending[i].x == x
            && pending[i].y == y
}

/// The one who waits for the tile at a place.
pub open spec fn ticket_at(pending: Seq<Waiting>, z: u32, x: u32, y: u32) -> Option<u64> {
    if waits(pending, z, x, y) {
        Some(
            pending[choose|i: int|
                0 <= i < pending.len() && (#[trigger] pending[i]).z == z && pending[i].x == x
                    && pending[i].y == y].ticket,
        )
    } else {
        None
    }
}

impl<F> RenderFarm<F> {
    /// No two wait at the same place.
    pub open spec fn wf(self) -> bool {
        forall|i: int, j: int|
            0 <= i < self.pending@.len() && 0 <= j < self.pending@.len() && i != j
                ==> !((#[trigger] self.pending@[i]).z == (#[trigger] self.pending@[j]).z
                && self.pending@[i].x == self.pending@[j].x && self.pending@[i].y
                == self.pending@[j].y)
    }

    /// No jobs, and none who waits.
    pub fn new() -> (farm: Self)
        ensures
            farm.wf(),
            farm.queue@.len() == 0,
            farm.pending@.len() == 0,
    {
        RenderFarm { queue: Vec::new(), pending: Vec::new() }
    }

    fn find(&self, z: u32, x: u32, y: u32) -> (place: Option<usize>)
        requires
            self.wf(),
        ensures
            place is Some <==> waits(self.pending@, z, x, y),
            place is Some ==> {
                &&& place->Some_0 < self.pending@.len()
                &&& self.pending@[place->Some_0 as int].z == z
                &&& self.pending@[place->Some_0 as int].x == x
                &&& self.pending@[place->Some_0 as int].y == y
                &&& ticket_at(self.pending@, z, x, y) == Some(
                    self.pending@[place->Some_0 as int].ticket,
                )
            },
    {
        for i in 0..self.pending.len()
            invariant
                self.wf(),
                forall|j: int|
                    0 <= j < i ==> !((#[trigger] self.pending@[j]).z == z && self.pending@[j].x
                        == x && self.pending@[j].y == y),
        {
            let w: Waiting = self.pending[i];
            if w.z == z && w.x == x && w.y == y {
                return Some(i);
            }
        }
        None
    }

    /// Takes in a job and the one who waits for it. Gives back the one who waited for the
    /// same tile before: that one waits no longer.
    pub fn submit(&mut self, job: TileJob<F>, ticket: u64) -> (dropped: Option<u64>)
        requires
            old(self).wf(),
        ensures
            final(self).wf(),
            final(self).queue@ == old(self).queue@.push(job),
            dropped == ticket_at(old(self).pending@, job.z, job.x, job.y),
            ticket_at(final(self).pending@, job.z, job.x, job.y) == Some(ticket),
            forall|z: u32, x: u32, y: u32|
                !(z == job.z && x == job.x && y == job.y) ==> #[trigger] ticket_at(
                    final(self).pending@,
                    z,
                    x,
                    y,
                ) == ticket_at(old(self).pending@, z, x, y),
    {
        let (z, x, y): (u32, u32, u32) = (job.z, job.x, job.y);
        let ghost before = self.pending@;
        let dropped: Option<u64> = match self.find(z, x, y) {
            Some(i) => {
                let w: Waiting = self.pending.remove(i);
                proof {
                    lemma_removed(before, i as int);
                }
                Some(w.ticket)
            },
            None => None,
        };
        let ghost middle = self.pending@;
        let w: Waiting = Waiting { z, x, y, ticket };
        self.pending.push(w);
        self.queue.push(job);
        proof {
            assert forall|i: int| 0 <= i < middle.len() implies !((#[trigger] middle[i]).z == z
                && middle[i].x == x && middle[i].y == y) by {
                if middle != before {
                    assert(!waits(middle, z, x, y));
                }
            }
            lemma_added(middle, w);
            assert forall|a: u32, b: u32, c: u32|
                !(a == z && b == x && c == y) implies #[trigger] ticket_at(
                self.pending@,
                a,
                b,
                c,
            ) == ticket_at(before, a, b, c) by {
                assert(ticket_at(self.pending@, a, b, c) == ticket_at(middle, a, b, c));
            }
        }
        dropped
    }

    /// The next job: one of the least priority, or none.
    pub fn next_job(&mut self) -> (job: Option<TileJob<F>>)
        ensures
            final(self).pending@ == old(self).pending@,
            old(self).queue@.len() == 0 ==> job is None && final(self).queue@
                == old(self).queue@,
            old(self).queue@.len() > 0 ==> job is Some && exists|i: int|
                0 <= i < old(self).queue@.len() && job->Some_0 == #[trigger] old(self).queue@[i]
                    && final(self).queue@ == old(self).queue@.remove(i) && forall|j: int|
                    0 <= j < old(self).queue@.len() ==> old(self).queue@[i].priority <= (
                    #[trigger] old(self).queue@[j]).priority,
    {
        if self.queue.len() == 0 {
            return None;
        }
        let mut best: usize = 0;
        for i in 0..self.queue.len()
            invariant
                self.queue@ == old(self).queue@,
                self.pending@ == old(self).pending@,
                best < self.queue@.len(),
                forall|j: int|
                    0 <= j < i ==> self.queue@[best as int].priority <= (
                    #[trigger] self.queue@[j]).priority,
        {
            if self.queue[i].priority < self.queue[best].priority {
                best = i;
            }
        }
        let job: TileJob<F> = self.queue.remove(best);
        assert(job == old(self).queue@[best as int]);
        Some(job)
    }

    /// Takes out the one who waits for a tile that was rendered.
    pub fn finish(&mut self, z: u32, x: u32, y: u32) -> (ticket: Option<u64>)
        requires
            old(self).wf(),
        ensures
            final(self).wf(),
            final(self).queue@ == old(self).queue@,
            ticket == ticket_at(old(self).pending@, z, x, y),
            ticket_at(final(self).pending@, z, x, y) is None,
            forall|a: u32, b: u32, c: u32|
                !(a == z && b == x && c == y) ==> #[trigger] ticket_at(
                    final(self).pending@,
                    a,
                    b,
                    c,
                ) == ticket_at(old(self).pending@, a, b, c),
    {
        let ghost before = self.pending@;
        match self.find(z, x, y) {
            Some(i) => {
                let w: Waiting = self.pending.remove(i);
                proof {
                    lemma_removed(before, i as int);
                }
                Some(w.ticket)
            },
            None => None,
        }
    }
}

/// No two wait at the same place.
spec fn places_distinct(pending: Seq<Waiting>) -> bool {
    forall|i: int, j: int|
        0 <= i < pending.len() && 0 <= j < pending.len() && i != j ==> !((#[trigger] pending[i]).z
            == (#[trigger] pending[j]).z && pending[i].x == pending[j].x && pending[i].y
            == pending[j].y)
}

proof fn lemma_ticket(pending: Seq<Waiting>, i: int)
    requires
        places_distinct(pending),
        0 <= i < pending.len(),
    ensures
        ticket_at(pending, pending[i].z, pending[i].x, pending[i].y) == Some(pending[i].ticket),
{
    let k = choose|k: int|
        0 <= k < pending.len() && (#[trigger] pending[k]).z == pending[i].z && pending[k].x
            == pending[i].x && pending[k].y == pending[i].y;
    assert(k == i);
}

proof fn lemma_removed(before: Seq<Waiting>, i: int)
    requires
        places_distinct(before),
        0 <= i < before.len(),
    ensures
        places_distinct(before.remove(i)),
        !waits(before.remove(i), before[i].z, before[i].x, before[i].y),
        forall|a: u32, b: u32, c: u32|
            !(a == before[i].z && b == before[i].x && c == before[i].y) ==> #[trigger] ticket_at(
                before.remove(i),
                a,
                b,
                c,
            ) == ticket_at(before, a, b, c),
{
    let after = before.remove(i);
    assert forall|k: int| 0 <= k < after.len() implies #[trigger] after[k] == before[if k < i {
        k
    } else {
        k + 1
    }] by {}
    assert(places_distinct(after)) by {
        assert forall|j: int, k: int|
            0 <= j < after.len() && 0 <= k < after.len() && j != k implies !((
        #[trigger] after[j]).z == (#[trigger] after[k]).z && after[j].x == after[k].x
            && after[j].y == after[k].y) by {
            let bj = if j < i {
                j
            } else {
                j + 1
            };
            let bk = if k < i {
                k
            } else {
                k + 1
            };
            assert(after[j] == before[bj] && after[k] == before[bk]);
        }
    }
    assert forall|a: u32, b: u32, c: u32|
        !(a == before[i].z && b == before[i].x && c == before[i].y) implies #[trigger] ticket_at(
        after,
        a,
        b,
        c,
    ) == ticket_at(before, a, b, c) by {
        if waits(before, a, b, c) {
            let k = choose|k: int|
                0 <= k < before.len() && (#[trigger] before[k]).z == a && before[k].x == b
                    && before[k].y == c;
            let m = if k < i {
                k
            } else {
                k - 1
            };
            assert(after[m] == before[k]);
            lemma_ticket(after, m);
            lemma_ticket(before, k);
        } else {
            assert(!waits(after, a, b, c)) by {
                if waits(after, a, b, c) {
                    let m = choose|m: int|
                        0 <= m < after.len() && (#[trigger] after[m]).z == a && after[m].x == b
                            && after[m].y == c;
                    let k = if m < i {
                        m
                    } else {
                        m + 1
                    };
                    assert(before[k] == after[m]);
                }
            }
        }
    }
}

proof fn lemma_added(before: Seq<Waiting>, w: Waiting)
    requires
        places_distinct(before),
        forall|i: int|
            0 <= i < before.len() ==> !((#[trigger] before[i]).z == w.z && before[i].x == w.x
                && before[i].y == w.y),
    ensures
        places_distinct(before.push(w)),
        ticket_at(before.push(w), w.z, w.x, w.y) == Some(w.ticket),
        forall|a: u32, b: u32, c: u32|
            !(a == w.z && b == w.x && c == w.y) ==> #[trigger] ticket_at(before.push(w), a, b, c)
                == ticket_at(before, a, b, c),
{
    let after = before.push(w);
    let last = before.len() as int;
    assert(after[last] == w);
    lemma_ticket(after, last);
    assert forall|a: u32, b: u32, c: u32|
        !(a == w.z && b == w.x && c == w.y) implies #[trigger] ticket_at(after, a, b, c)
        == ticket_at(before, a, b, c) by {
        if waits(before, a, b, c) {
            let k = choose|k: int|
                0 <= k < before.len() && (#[trigger] before[k]).z == a && before[k].x == b
                    && before[k].y == c;
            assert(after[k] == before[k]);
            lemma_ticket(after, k);
            lemma_ticket(before, k);
        } else {
            assert(!waits(after, a, b, c)) by {
                if waits(after, a, b, c) {
                    let m = choose|m: int|
                        0 <= m < after.len() && (#[trigger] after[m]).z == a && after[m].x == b
                            && after[m].y == c;
                    assert(before[m] == after[m]);
                }
            }
        }
    }
}

/// Tiles are rendered with the graphics processor where there is one, and what is read
/// for the tile is no wider and no higher than this.
pub const MAX_GPU_READ: u32 = 1024;

/// Tells whether a tile is to be rendered with the graphics processor: there is one, and
/// what was read for the tile is not too large and not empty.
pub fn use_gpu(available: bool, read_w: u32, read_h: u32, samples: usize) -> (r: bool)
    ensures
        r == (available && read_w <= MAX_GPU_READ && read_h <= MAX_GPU_READ && samples > 0),
{
    available && read_w <= MAX_GPU_READ && read_h <= MAX_GPU_READ && samples > 0
}

/// The pixels of a tile that the graphics processor rendered. Where it failed or drew
/// nothing, there are none, and the tile is to be rendered without it.
pub fn gpu_pixels(result: Result<TileRenderResult, String>) -> (rgba: Option<Vec<u8>>)
    ensures
        rgba is Some <==> result is Ok && result->Ok_0.rendered_pixels > 0,
        rgba is Some ==> rgba->Some_0@ == result->Ok_0.rgba@,
{
    match result {
        Ok(tile) => if tile.rendered_pixels > 0 {
            Some(tile.rgba)
        } else {
            None
        },
        Err(_) => None,
    }
}

/// What is told to one who waited for a tile and is forgotten.
pub fn channel_closed() -> (text: String)
    ensures
        text@ == "Render farm: response channel closed"@,
{
    "Render farm: response channel closed".to_owned()
}

/// The place of a tile in the queue has the zoom level before the column and the column before
/// the row.
pub proof fn law_places_in_the_queue(z: u32, x: u32, y: u32, p: u64)
    requires
        call_ensures(job_priority, (z, x, y), p),
        z < 0x100_0000,
        x < 0x10_0000,
        y < 0x10_0000,
    ensures
        p == z * 0x100_0000_0000 + x * 0x10_0000 + y,
{
    assert((z as u64) << 40u64 | (x as u64) << 20u64 | (y as u64) == z as u64
        * 0x100_0000_0000u64 + x as u64 * 0x10_0000u64 + y as u64) by (bit_vector)
        requires
            z < 0x100_0000,
            x < 0x10_0000,
            y < 0x10_0000,
    ;
}

/// The one who waits for a tile is the one who is listed with its zoom level, column and row;
/// where nobody is listed with them, nobody waits.
pub proof fn law_who_waits_for_a_tile<F>(farm: RenderFarm<F>, i: int, z: u32, x: u32, y: u32)
    requires
        farm.wf(),
    ensures
        0 <= i < farm.pending@.len() ==> ticket_at(
            farm.pending@,
            farm.pending@[i].z,
            farm.pending@[i].x,
            farm.pending@[i].y,
        ) == Some(farm.pending@[i].ticket),
        ticket_at(farm.pending@, z, x, y) is Some <==> exists|k: int|
            0 <= k < farm.pending@.len() && (#[trigger] farm.pending@[k]).z == z
                && farm.pending@[k].x == x && farm.pending@[k].y == y,
        0 <= i < farm.pending@.len() ==> forall|k: int|
            0 <= k < farm.pending@.len() && k != i ==> !((#[trigger] farm.pending@[k]).z
                == farm.pending@[i].z && farm.pending@[k].x == farm.pending@[i].x
                && farm.pending@[k].y == farm.pending@[i].y),
{
    if 0 <= i < farm.pending@.len() {
        lemma_ticket(farm.pending@, i);
    }
}

/// The graphics processor draws what is read for a tile only up to 1024 samples in width and
/// in height.
pub proof fn law_tiles_for_the_processor(available: bool, w: u32, h: u32, samples: usize, r: bool)
    requires
        call_ensures(use_gpu, (available, w, h, samples), r),
    ensures
        r <==> available && w <= 1024 && h <= 1024 && samples >= 1,
{
}

} // verus!
