//! The view-diff streaming controller: which regions an observer can see,
//! which ones just became visible, and the priorities their generation
//! requests get.

use vstd::prelude::*;

use crate::scheduler::PendingState;
use crate::scheduler::TerrainGenerator;
use crate::scheduler::spec_enqueue;
use crate::world::ChunkPos;
use crate::world::WorldStore;

verus! {

/// An observer's visible-region set: every region within `dist` of the
/// center, in both axes.
#[derive(Clone, Copy, PartialEq, Eq, Structural, Debug)]
pub struct ChunkView {
    pub pos: ChunkPos,
    pub dist: u8,
}

impl ChunkView {
    /// Whether `p` lies in this view.
    pub open spec fn spec_contains(&self, p: ChunkPos) -> bool {
        -(self.dist as int) <= p.x as int - self.pos.x as int <= self.dist as int && -(
        self.dist as int) <= p.z as int - self.pos.z as int <= self.dist as int
    }

    /// Whether `p` lies in this view.
    pub fn contains(&self, p: ChunkPos) -> (r: bool)
        ensures
            r == self.spec_contains(p),
    {
        let dx = p.x as i64 - self.pos.x as i64;
        let dz = p.z as i64 - self.pos.z as i64;
        let d = self.dist as i64;
        -d <= dx && dx <= d && -d <= dz && dz <= d
    }

    /// The same view with another radius.
    pub fn with_dist(self, dist: u8) -> (r: Self)
        ensures
            r.pos == self.pos,
            r.dist == dist,
    {
        ChunkView { pos: self.pos, dist }
    }
}

/// The squared Euclidean distance between two region coordinates, saturated
/// to the priority range: the metric that orders generation requests.
pub open spec fn spec_dist_sq(a: ChunkPos, b: ChunkPos) -> u64 {
    let dx = a.x as int - b.x as int;
    let dz = a.z as int - b.z as int;
    let d = dx * dx + dz * dz;
    if d > u64::MAX {
        u64::MAX
    } else {
        d as u64
    }
}

/// The squared distance between two region coordinates, saturated to the
/// priority range.
pub fn distance_squared(a: ChunkPos, b: ChunkPos) -> (r: u64)
    ensures
        r == spec_dist_sq(a, b),
{
    let dx = a.x as i64 - b.x as i64;
    let dz = a.z as i64 - b.z as i64;
    proof {
        assert((dx as i128) * (dx as i128) == (dx as int) * (dx as int) && (dz as i128) * (
        dz as i128) == (dz as int) * (dz as int) && 0 <= (dx as int) * (dx as int) <= 0x1_0000_0000_0000_0000_0000_0000
            && 0 <= (dz as int) * (dz as int) <= 0x1_0000_0000_0000_0000_0000_0000) by (nonlinear_arith)
            requires
                -0x1_0000_0000 <= dx as int <= 0x1_0000_0000,
                -0x1_0000_0000 <= dz as int <= 0x1_0000_0000,
        ;
    }
    let dx2: i128 = dx as i128 * dx as i128;
    let dz2: i128 = dz as i128 * dz as i128;
    let sum: i128 = dx2 + dz2;
    if sum > u64::MAX as i128 {
        u64::MAX
    } else {
        sum as u64
    }
}

/// The view as capped by the generator's render-distance override.
pub open spec fn spec_effective(view: ChunkView, rd: u8) -> ChunkView {
    if rd == 0 {
        view
    } else {
        ChunkView {
            pos: view.pos,
            dist: if view.dist <= rd {
                view.dist
            } else {
                rd
            },
        }
    }
}

/// Whether `p` is enqueued this cycle: it is visible now, and either a full
/// requeue is on or it was not visible before.
pub open spec fn wants(cv: ChunkView, ov: ChunkView, full: bool, p: ChunkPos) -> bool {
    cv.spec_contains(p) && (full || !ov.spec_contains(p))
}

/// The table's record for `p`, if any.
pub open spec fn table_get(m: Map<ChunkPos, PendingState>, p: ChunkPos) -> Option<PendingState> {
    if m.contains_key(p) {
        Some(m[p])
    } else {
        None
    }
}

/// What one observer's update leaves at `p`: enqueued where wanted, and
/// untouched everywhere else.
pub open spec fn spec_updated_entry(
    m: Map<ChunkPos, PendingState>,
    w: Map<ChunkPos, crate::world::WorldEntry>,
    cv: ChunkView,
    ov: ChunkView,
    full: bool,
    p: ChunkPos,
) -> Option<PendingState> {
    if wants(cv, ov, full, p) {
        table_get(spec_enqueue(m, p, spec_dist_sq(cv.pos, p), w.contains_key(p)), p)
    } else {
        table_get(m, p)
    }
}


/// The table after the row `px` has been processed up to (excluding) `zlim`.
pub open spec fn row_partial(
    m: Map<ChunkPos, PendingState>,
    w: Map<ChunkPos, crate::world::WorldEntry>,
    cv: ChunkView,
    ov: ChunkView,
    full: bool,
    px: i32,
    zlim: int,
    p: ChunkPos,
) -> Option<PendingState> {
    if p.x == px && wants(cv, ov, full, p) && (p.z as int) < zlim {
        spec_updated_entry(m, w, cv, ov, full, p)
    } else {
        table_get(m, p)
    }
}

/// The table after all rows up to (excluding) `xlim` have been processed.
pub open spec fn square_partial(
    m: Map<ChunkPos, PendingState>,
    w: Map<ChunkPos, crate::world::WorldEntry>,
    cv: ChunkView,
    ov: ChunkView,
    full: bool,
    xlim: int,
    p: ChunkPos,
) -> Option<PendingState> {
    if wants(cv, ov, full, p) && (p.x as int) < xlim {
        spec_updated_entry(m, w, cv, ov, full, p)
    } else {
        table_get(m, p)
    }
}

/// Enqueuing one coordinate touches no other coordinate.
proof fn lemma_enqueue_local(
    m: Map<ChunkPos, PendingState>,
    pos: ChunkPos,
    priority: u64,
    resident: bool,
    q: ChunkPos,
)
    requires
        q != pos,
    ensures
        table_get(spec_enqueue(m, pos, priority, resident), q) == table_get(m, q),
{
}

/// Enqueue every wanted region in one column of the view square.
fn enqueue_row(
    gen: &mut TerrainGenerator,
    world: &WorldStore,
    cv: ChunkView,
    ov: ChunkView,
    full: bool,
    px: i32,
)
    requires
        old(gen).wf(),
        world.wf(),
        i32::MIN + 512 <= cv.pos.z as int <= i32::MAX - 512,
        cv.pos.x as int - cv.dist as int <= px as int <= cv.pos.x as int + cv.dist as int,
    ensures
        final(gen).wf(),
        final(gen).spec_render_dist() == old(gen).spec_render_dist(),
        final(gen).spec_needs_reload() == old(gen).spec_needs_reload(),
        forall|p: ChunkPos|
            #[trigger] table_get(final(gen).pending_map(), p) == row_partial(
                old(gen).pending_map(),
                world@,
                cv,
                ov,
                full,
                px,
                cv.pos.z as int + cv.dist as int + 1,
                p,
            ),
{
    let zlo: i32 = cv.pos.z - cv.dist as i32;
    let mut off: u32 = 0;
    let span: u32 = 2 * (cv.dist as u32) + 1;
    while off < span
        invariant
            gen.wf(),
            world.wf(),
            span == 2 * (cv.dist as u32) + 1,
            off <= span,
            zlo == cv.pos.z as int - cv.dist as int,
            i32::MIN + 512 <= cv.pos.z as int <= i32::MAX - 512,
            cv.pos.x as int - cv.dist as int <= px as int <= cv.pos.x as int + cv.dist as int,
            gen.spec_render_dist() == old(gen).spec_render_dist(),
            gen.spec_needs_reload() == old(gen).spec_needs_reload(),
            forall|p: ChunkPos|
                #[trigger] table_get(gen.pending_map(), p) == row_partial(
                    old(gen).pending_map(),
                    world@,
                    cv,
                    ov,
                    full,
                    px,
                    zlo as int + off as int,
                    p,
                ),
        decreases span - off,
    {
        let pz: i32 = zlo + off as i32;
        let p = ChunkPos { x: px, z: pz };
        let ghost mpre = gen.pending_map();
        if full || !ov.contains(p) {
            let prio = distance_squared(cv.pos, p);
            let resident = world.contains(p);
            gen.enqueue(p, prio, resident);
            proof {
                assert(cv.spec_contains(p));
                assert(wants(cv, ov, full, p));
                assert forall|q: ChunkPos|
                    #[trigger] table_get(gen.pending_map(), q) == row_partial(
                        old(gen).pending_map(),
                        world@,
                        cv,
                        ov,
                        full,
                        px,
                        zlo as int + off as int + 1,
                        q,
                    ) by {
                    if q == p {
                        assert(table_get(mpre, p) == table_get(old(gen).pending_map(), p));
                        lemma_enqueue_entry_eq(mpre, old(gen).pending_map(), p, prio, resident);
                    } else {
                        lemma_enqueue_local(mpre, p, prio, resident, q);
                    }
                }
            }
        } else {
            proof {
                assert(!wants(cv, ov, full, p));
                assert forall|q: ChunkPos|
                    #[trigger] table_get(gen.pending_map(), q) == row_partial(
                        old(gen).pending_map(),
                        world@,
                        cv,
                        ov,
                        full,
                        px,
                        zlo as int + off as int + 1,
                        q,
                    ) by {}
            }
        }
        off = off + 1;
    }
    proof {
        assert forall|p: ChunkPos|
            #[trigger] table_get(gen.pending_map(), p) == row_partial(
                old(gen).pending_map(),
                world@,
                cv,
                ov,
                full,
                px,
                cv.pos.z as int + cv.dist as int + 1,
                p,
            ) by {
            assert(table_get(gen.pending_map(), p) == row_partial(
                old(gen).pending_map(),
                world@,
                cv,
                ov,
                full,
                px,
                zlo as int + span as int,
                p,
            ));
        }
    }
}

/// Two tables agreeing at a coordinate are enqueued to the same entry there.
proof fn lemma_enqueue_entry_eq(
    m1: Map<ChunkPos, PendingState>,
    m2: Map<ChunkPos, PendingState>,
    pos: ChunkPos,
    priority: u64,
    resident: bool,
)
    requires
        table_get(m1, pos) == table_get(m2, pos),
    ensures
        table_get(spec_enqueue(m1, pos, priority, resident), pos) == table_get(
            spec_enqueue(m2, pos, priority, resident),
            pos,
        ),
{
}

/// One observer's per-cycle update: cap the view to the render-distance
/// override, then enqueue the whole visible set (for a new observer, or
/// after a reload) or only the newly visible regions (the incremental
/// diff). Regions leaving visibility are not dequeued here; the retention
/// sweep evicts them once unviewed.
pub fn update_client_view(
    gen: &mut TerrainGenerator,
    world: &WorldStore,
    view: ChunkView,
    old_view: ChunkView,
    just_added: bool,
)
    requires
        old(gen).wf(),
        world.wf(),
        i32::MIN + 512 <= view.pos.x as int <= i32::MAX - 512,
        i32::MIN + 512 <= view.pos.z as int <= i32::MAX - 512,
    ensures
        final(gen).wf(),
        final(gen).spec_render_dist() == old(gen).spec_render_dist(),
        final(gen).spec_needs_reload() == old(gen).spec_needs_reload(),
        forall|p: ChunkPos|
            #[trigger] table_get(final(gen).pending_map(), p) == spec_updated_entry(
                old(gen).pending_map(),
                world@,
                spec_effective(view, old(gen).spec_render_dist()),
                ChunkView {
                    pos: old_view.pos,
                    dist: spec_effective(view, old(gen).spec_render_dist()).dist,
                },
                just_added || old(gen).spec_needs_reload(),
                p,
            ),
{
    let rd = gen.render_dist();
    let cv = if rd == 0 {
        view
    } else {
        view.with_dist(
            if view.dist <= rd {
                view.dist
            } else {
                rd
            },
        )
    };
    let ov = ChunkView { pos: old_view.pos, dist: cv.dist };
    let full = just_added || gen.needs_reload();
    proof {
        assert(cv == spec_effective(view, old(gen).spec_render_dist()));
    }
    if !full && cv == ov {
        proof {
            assert forall|p: ChunkPos|
                #[trigger] table_get(gen.pending_map(), p) == spec_updated_entry(
                    old(gen).pending_map(),
                    world@,
                    cv,
                    ov,
                    full,
                    p,
                ) by {
                assert(!wants(cv, ov, full, p));
            }
        }
        return ;
    }
    let xlo: i32 = cv.pos.x - cv.dist as i32;
    let mut off: u32 = 0;
    let span: u32 = 2 * (cv.dist as u32) + 1;
    while off < span
        invariant
            gen.wf(),
            world.wf(),
            span == 2 * (cv.dist as u32) + 1,
            off <= span,
            xlo == cv.pos.x as int - cv.dist as int,
            cv == spec_effective(view, old(gen).spec_render_dist()),
            ov == (ChunkView { pos: old_view.pos, dist: cv.dist }),
            full == (just_added || old(gen).spec_needs_reload()),
            i32::MIN + 512 <= cv.pos.x as int <= i32::MAX - 512,
            i32::MIN + 512 <= cv.pos.z as int <= i32::MAX - 512,
            gen.spec_render_dist() == old(gen).spec_render_dist(),
            gen.spec_needs_reload() == old(gen).spec_needs_reload(),
            forall|p: ChunkPos|
                #[trigger] table_get(gen.pending_map(), p) == square_partial(
                    old(gen).pending_map(),
                    world@,
                    cv,
                    ov,
                    full,
                    xlo as int + off as int,
                    p,
                ),
        decreases span - off,
    {
        let px: i32 = xlo + off as i32;
        let ghost mpre = gen.pending_map();
        enqueue_row(gen, world, cv, ov, full, px);
        proof {
            assert forall|p: ChunkPos|
                #[trigger] table_get(gen.pending_map(), p) == square_partial(
                    old(gen).pending_map(),
                    world@,
                    cv,
                    ov,
                    full,
                    xlo as int + off as int + 1,
                    p,
                ) by {
                assert(table_get(gen.pending_map(), p) == row_partial(
                    mpre,
                    world@,
                    cv,
                    ov,
                    full,
                    px,
                    cv.pos.z as int + cv.dist as int + 1,
                    p,
                ));
                if p.x == px && wants(cv, ov, full, p) {
                    assert(table_get(mpre, p) == table_get(old(gen).pending_map(), p));
                    lemma_enqueue_entry_eq(
                        mpre,
                        old(gen).pending_map(),
                        p,
                        spec_dist_sq(cv.pos, p),
                        world@.contains_key(p),
                    );
                }
            }
        }
        off = off + 1;
    }
    proof {
        assert forall|p: ChunkPos|
            #[trigger] table_get(gen.pending_map(), p) == spec_updated_entry(
                old(gen).pending_map(),
                world@,
                cv,
                ov,
                full,
                p,
            ) by {
            assert(table_get(gen.pending_map(), p) == square_partial(
                old(gen).pending_map(),
                world@,
                cv,
                ov,
                full,
                xlo as int + span as int,
                p,
            ));
            if wants(cv, ov, full, p) {
                assert((p.x as int) < xlo as int + span as int);
            }
        }
    }
}

} // verus!
