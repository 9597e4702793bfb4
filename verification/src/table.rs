//! A model of the process descriptor table, and proofs that the
//! resolve-then-apply algorithm of [`crate::map_fds`] achieves the intended
//! simultaneous remap for every mapping list with distinct destinations —
//! including arbitrary permutation cycles among them — without ever
//! corrupting a source that a later duplication still needs, and without
//! leaking a temporary descriptor into the replaced program.
//!
//! A table is a partial map from descriptor number to [`FdEntry`]: the
//! abstract identity of the resource the slot refers to, and the slot's
//! close-on-exec flag. The two duplication primitives and program
//! replacement are given their documented meaning on this table, the
//! temporaries handed out by the resolution phase are kept abstract (any
//! choice the operating system may make is admitted), and the laws quantify
//! over them.

use vstd::prelude::*;

use crate::FdMapping;
use crate::collides;
use crate::distinct_child_fds;
use crate::fds_in_range;
use crate::lemma_max_requested_fd_bounds;
use crate::max_requested_fd;
use crate::safe_floor;

verus! {

/// One slot of the descriptor table: the identity of the resource the
/// descriptor refers to, and its close-on-exec flag.
pub ghost struct FdEntry {
    pub resource: int,
    pub cloexec: bool,
}

/// The set of requested destination descriptors.
pub open spec fn dest_set(ms: Seq<FdMapping>) -> Set<int> {
    Set::new(|fd: int| exists|q: int| 0 <= q < ms.len() && #[trigger] ms[q].child_fd == fd)
}

/// Every requested source descriptor is open in the table.
pub open spec fn sources_open(t0: Map<int, FdEntry>, ms: Seq<FdMapping>) -> bool {
    forall|i: int| 0 <= i < ms.len() ==> t0.dom().contains((#[trigger] ms[i]).parent_fd as int)
}

/// The duplication primitive of the application phase: `dst` comes to refer
/// to `src`'s resource with close-on-exec clear, transparently closing
/// whatever `dst` referred to before; `src` is untouched.
pub open spec fn model_dup2(t: Map<int, FdEntry>, src: int, dst: int) -> Map<int, FdEntry> {
    t.insert(dst, FdEntry { resource: t[src].resource, cloexec: false })
}

/// The duplication primitive of the resolution phase: the free descriptor
/// `tmp` comes to refer to `src`'s resource, marked close-on-exec.
pub open spec fn model_dup_cloexec(t: Map<int, FdEntry>, src: int, tmp: int) -> Map<int, FdEntry> {
    t.insert(tmp, FdEntry { resource: t[src].resource, cloexec: true })
}

/// Program replacement: every close-on-exec entry is discarded, the rest
/// survive unchanged.
pub open spec fn after_exec(t: Map<int, FdEntry>) -> Map<int, FdEntry> {
    Map::new(|fd: int| t.dom().contains(fd) && !t[fd].cloexec, |fd: int| t[fd])
}

/// The table after the first `i` steps of the resolution phase: each
/// colliding mapping's source duplicated, in list order, onto its temporary.
pub open spec fn resolve_table(
    t0: Map<int, FdEntry>,
    ms: Seq<FdMapping>,
    temps: Seq<int>,
    i: int,
) -> Map<int, FdEntry>
    decreases i,
{
    if i <= 0 {
        t0
    } else {
        let t = resolve_table(t0, ms, temps, i - 1);
        if collides(ms, i - 1) {
            model_dup_cloexec(t, ms[i - 1].parent_fd as int, temps[i - 1])
        } else {
            t
        }
    }
}

/// The mapping list after resolution, as source/destination pairs: each
/// colliding source replaced by its temporary, every other mapping as
/// requested.
pub open spec fn resolved_pairs(ms: Seq<FdMapping>, temps: Seq<int>) -> Seq<(int, int)> {
    Seq::new(
        ms.len(),
        |i: int|
            (
                if collides(ms, i) {
                    temps[i]
                } else {
                    ms[i].parent_fd as int
                },
                ms[i].child_fd as int,
            ),
    )
}

/// The table after the application phase has duplicated every pair's source
/// onto its destination, in list order.
pub open spec fn apply_table(t: Map<int, FdEntry>, ps: Seq<(int, int)>) -> Map<int, FdEntry>
    decreases ps.len(),
{
    if ps.len() == 0 {
        t
    } else {
        apply_table(model_dup2(t, ps[0].0, ps[0].1), ps.skip(1))
    }
}

/// Whether `fd` is some pair's destination.
pub open spec fn is_dest(ps: Seq<(int, int)>, fd: int) -> bool {
    exists|i: int| 0 <= i < ps.len() && (#[trigger] ps[i]).1 == fd
}

/// A valid choice of temporaries: wherever the resolution phase duplicates,
/// the atomic duplicate-above primitive returned a descriptor at or above
/// the safe floor that was free in the table at the moment of that call.
pub open spec fn temps_valid(t0: Map<int, FdEntry>, ms: Seq<FdMapping>, temps: Seq<int>) -> bool {
    &&& temps.len() == ms.len()
    &&& forall|i: int|
        0 <= i < ms.len() && collides(ms, i) ==> #[trigger] temps[i] >= safe_floor(ms)
            && !resolve_table(t0, ms, temps, i).dom().contains(temps[i])
}

/// The table the whole two-phase algorithm leaves behind: resolution of
/// every colliding source, then application of every mapping.
pub open spec fn two_phase_table(
    t0: Map<int, FdEntry>,
    ms: Seq<FdMapping>,
    temps: Seq<int>,
) -> Map<int, FdEntry> {
    apply_table(resolve_table(t0, ms, temps, ms.len() as int), resolved_pairs(ms, temps))
}

/// The resolution phase only adds fresh close-on-exec temporaries at or
/// above the safe floor: every entry of the starting table is left exactly
/// as it was, and each colliding mapping's temporary holds a copy of the
/// resource its source held at the start.
pub proof fn lemma_resolve_table_props(
    t0: Map<int, FdEntry>,
    ms: Seq<FdMapping>,
    temps: Seq<int>,
    i: int,
)
    requires
        sources_open(t0, ms),
        temps_valid(t0, ms, temps),
        0 <= i <= ms.len(),
    ensures
        ({
            let ti = resolve_table(t0, ms, temps, i);
            &&& forall|fd: int|
                #[trigger] t0.dom().contains(fd) ==> ti.dom().contains(fd) && ti[fd] == t0[fd]
            &&& forall|fd: int|
                #[trigger] ti.dom().contains(fd) && !t0.dom().contains(fd) ==> fd >= safe_floor(
                    ms,
                ) && ti[fd].cloexec
            &&& forall|j: int|
                0 <= j < i && collides(ms, j) ==> ti.dom().contains(#[trigger] temps[j])
                    && ti[temps[j]] == (FdEntry {
                    resource: t0[ms[j].parent_fd as int].resource,
                    cloexec: true,
                })
        }),
    decreases i,
{
    if i > 0 {
        lemma_resolve_table_props(t0, ms, temps, i - 1);
        let tprev = resolve_table(t0, ms, temps, i - 1);
        if collides(ms, i - 1) {
            // The temporary was free, so the insertion overwrites nothing,
            // and its source still holds the resource it held at the start.
            assert(t0.dom().contains(ms[i - 1].parent_fd as int));
            assert(tprev[ms[i - 1].parent_fd as int] == t0[ms[i - 1].parent_fd as int]);
            assert(!tprev.dom().contains(temps[i - 1]));
        }
    }
}

/// The application phase, on pairs whose destinations are pairwise distinct
/// and whose sources are open and are no pair's destination: afterwards
/// every destination holds its source's resource with close-on-exec clear,
/// and every other descriptor — sources included — is exactly as it was.
pub proof fn lemma_apply_table_props(t1: Map<int, FdEntry>, ps: Seq<(int, int)>)
    requires
        forall|i: int, j: int|
            0 <= i < j < ps.len() ==> (#[trigger] ps[i]).1 != (#[trigger] ps[j]).1,
        forall|i: int| 0 <= i < ps.len() ==> t1.dom().contains((#[trigger] ps[i]).0),
        forall|i: int| 0 <= i < ps.len() ==> !is_dest(ps, (#[trigger] ps[i]).0),
    ensures
        ({
            let tf = apply_table(t1, ps);
            &&& forall|i: int|
                0 <= i < ps.len() ==> tf.dom().contains((#[trigger] ps[i]).1) && tf[ps[i].1]
                    == (FdEntry { resource: t1[ps[i].0].resource, cloexec: false })
            &&& forall|fd: int|
                !is_dest(ps, fd) ==> (#[trigger] tf.dom().contains(fd) <==> t1.dom().contains(fd))
            &&& forall|fd: int|
                !is_dest(ps, fd) && t1.dom().contains(fd) ==> #[trigger] tf[fd] == t1[fd]
        }),
    decreases ps.len(),
{
    if ps.len() > 0 {
        let src = ps[0].0;
        let dst = ps[0].1;
        let t2 = model_dup2(t1, src, dst);
        let rest = ps.skip(1);
        assert forall|i: int| 0 <= i < rest.len() implies t2.dom().contains((#[trigger] rest[i]).0)
            && !is_dest(rest, rest[i].0) && rest[i].0 != dst by {
            assert(rest[i] == ps[i + 1]);
            assert(!is_dest(ps, ps[i + 1].0));
            if is_dest(rest, rest[i].0) {
                let k = choose|k: int| 0 <= k < rest.len() && (#[trigger] rest[k]).1 == rest[i].0;
                assert(ps[k + 1].1 == ps[i + 1].0);
                assert(is_dest(ps, ps[i + 1].0));
            }
        }
        assert forall|i: int, j: int|
            0 <= i < j < rest.len() implies (#[trigger] rest[i]).1 != (#[trigger] rest[j]).1 by {
            assert(rest[i] == ps[i + 1]);
            assert(rest[j] == ps[j + 1]);
        }
        lemma_apply_table_props(t2, rest);
        let tf = apply_table(t2, rest);
        assert(apply_table(t1, ps) == tf);

        // The head pair's destination is no later destination, so its entry
        // survives the rest of the phase untouched.
        assert forall|i: int|
            0 <= i < ps.len() implies tf.dom().contains((#[trigger] ps[i]).1) && tf[ps[i].1]
                == (FdEntry { resource: t1[ps[i].0].resource, cloexec: false }) by {
            if i == 0 {
                if is_dest(rest, dst) {
                    let k = choose|k: int| 0 <= k < rest.len() && (#[trigger] rest[k]).1 == dst;
                    assert(ps[k + 1].1 == ps[0].1);
                }
                assert(!is_dest(rest, dst));
                assert(t2.dom().contains(dst));
                assert(tf[dst] == t2[dst]);
            } else {
                assert(rest[i - 1] == ps[i]);
                assert(tf.dom().contains(rest[i - 1].1));
                assert(tf[rest[i - 1].1] == (FdEntry {
                    resource: t2[rest[i - 1].0].resource,
                    cloexec: false,
                }));
                // The source is no destination, in particular not `dst`.
                assert(t2[ps[i].0] == t1[ps[i].0]);
            }
        }
        assert forall|fd: int| !is_dest(ps, fd) implies (#[trigger] tf.dom().contains(fd)
            <==> t1.dom().contains(fd)) && (t1.dom().contains(fd) ==> tf[fd] == t1[fd]) by {
            assert(ps[0].1 != fd);
            if is_dest(rest, fd) {
                let k = choose|k: int| 0 <= k < rest.len() && (#[trigger] rest[k]).1 == fd;
                assert(ps[k + 1].1 == fd);
                assert(is_dest(ps, fd));
            }
            assert(!is_dest(rest, fd));
            assert(t2.dom().contains(fd) <==> t1.dom().contains(fd));
        }
    }
}

/// Correctness of the whole two-phase algorithm, for every mapping list with
/// distinct destinations, open sources and descriptors in range, and every
/// choice of temporaries the operating system may make: afterwards each
/// destination refers to the resource its source referred to at the start,
/// with close-on-exec clear; every descriptor that is no destination is
/// untouched — sources included; and whatever appeared beyond the starting
/// table outside the destinations is a close-on-exec temporary.
pub proof fn lemma_two_phase_correct(t0: Map<int, FdEntry>, ms: Seq<FdMapping>, temps: Seq<int>)
    requires
        fds_in_range(ms),
        distinct_child_fds(ms),
        sources_open(t0, ms),
        temps_valid(t0, ms, temps),
    ensures
        ({
            let tf = two_phase_table(t0, ms, temps);
            &&& forall|i: int|
                0 <= i < ms.len() ==> tf.dom().contains((#[trigger] ms[i]).child_fd as int)
                    && tf[ms[i].child_fd as int] == (FdEntry {
                    resource: t0[ms[i].parent_fd as int].resource,
                    cloexec: false,
                })
            &&& forall|fd: int|
                !dest_set(ms).contains(fd) && #[trigger] t0.dom().contains(fd)
                    ==> tf.dom().contains(fd) && tf[fd] == t0[fd]
            &&& forall|fd: int|
                !dest_set(ms).contains(fd) && !t0.dom().contains(fd) && #[trigger] tf.dom().contains(
                    fd,
                ) ==> tf[fd].cloexec
        }),
{
    let n = ms.len() as int;
    let t1 = resolve_table(t0, ms, temps, n);
    let ps = resolved_pairs(ms, temps);
    let tf = apply_table(t1, ps);
    lemma_max_requested_fd_bounds(ms);
    lemma_resolve_table_props(t0, ms, temps, n);

    // A pair's destination is a requested destination and the other way round.
    assert forall|fd: int| is_dest(ps, fd) == dest_set(ms).contains(fd) by {
        if is_dest(ps, fd) {
            let k = choose|k: int| 0 <= k < ps.len() && (#[trigger] ps[k]).1 == fd;
            assert(ms[k].child_fd == fd);
        }
        if dest_set(ms).contains(fd) {
            let q = choose|q: int| 0 <= q < ms.len() && #[trigger] ms[q].child_fd == fd;
            assert(ps[q].1 == fd);
        }
    }

    // Destinations are pairwise distinct.
    assert forall|i: int, j: int|
        0 <= i < j < ps.len() implies (#[trigger] ps[i]).1 != (#[trigger] ps[j]).1 by {
        assert(ms[i].child_fd != ms[j].child_fd);
    }

    // Every pair's source is open after resolution, and is no destination:
    // a temporary lies at or above the floor, strictly above every
    // destination; a source left in place collides with none.
    assert forall|i: int|
        0 <= i < ps.len() implies t1.dom().contains((#[trigger] ps[i]).0) && !is_dest(
        ps,
        ps[i].0,
    ) by {
        if collides(ms, i) {
            assert(t1.dom().contains(temps[i]));
            if dest_set(ms).contains(temps[i]) {
                let q = choose|q: int| 0 <= q < ms.len() && #[trigger] ms[q].child_fd == temps[i];
                assert(ms[q].child_fd <= max_requested_fd(ms));
                assert(temps[i] >= safe_floor(ms));
            }
            assert(!is_dest(ps, temps[i]));
        } else {
            assert(t0.dom().contains(ms[i].parent_fd as int));
            if dest_set(ms).contains(ms[i].parent_fd as int) {
                let q = choose|q: int|
                    0 <= q < ms.len() && #[trigger] ms[q].child_fd == ms[i].parent_fd as int;
                assert(ms[q].child_fd == ms[i].parent_fd);
                assert(collides(ms, i));
            }
        }
    }

    lemma_apply_table_props(t1, ps);

    // Each destination ends with its source's original resource.
    assert forall|i: int|
        0 <= i < ms.len() implies tf.dom().contains((#[trigger] ms[i]).child_fd as int)
            && tf[ms[i].child_fd as int] == (FdEntry {
            resource: t0[ms[i].parent_fd as int].resource,
            cloexec: false,
        }) by {
        assert(ps[i].1 == ms[i].child_fd as int);
        assert(tf[ps[i].1] == (FdEntry { resource: t1[ps[i].0].resource, cloexec: false }));
        if collides(ms, i) {
            assert(t1[temps[i]] == (FdEntry {
                resource: t0[ms[i].parent_fd as int].resource,
                cloexec: true,
            }));
        } else {
            assert(t1[ms[i].parent_fd as int] == t0[ms[i].parent_fd as int]);
        }
    }

    // Non-destinations pass through both phases untouched, and anything new
    // among them is a close-on-exec temporary of the resolution phase.
    assert forall|fd: int|
        !dest_set(ms).contains(fd) && #[trigger] t0.dom().contains(fd) implies tf.dom().contains(fd)
            && tf[fd] == t0[fd] by {
        assert(t1.dom().contains(fd) && t1[fd] == t0[fd]);
        assert(tf[fd] == t1[fd]);
    }
    assert forall|fd: int|
        !dest_set(ms).contains(fd) && !t0.dom().contains(fd) && #[trigger] tf.dom().contains(fd)
            implies tf[fd].cloexec by {
        assert(t1.dom().contains(fd));
        assert(tf[fd] == t1[fd]);
    }
}

/// What the child can see: after the two phases and program replacement, the
/// visible descriptors are exactly those already visible before, plus every
/// requested destination — so no temporary descriptor leaks into the child —
/// and each destination refers to its source's original resource.
pub proof fn lemma_after_exec_visible(t0: Map<int, FdEntry>, ms: Seq<FdMapping>, temps: Seq<int>)
    requires
        fds_in_range(ms),
        distinct_child_fds(ms),
        sources_open(t0, ms),
        temps_valid(t0, ms, temps),
    ensures
        ({
            let visible = after_exec(two_phase_table(t0, ms, temps));
            &&& visible.dom() == after_exec(t0).dom().union(dest_set(ms))
            &&& forall|i: int|
                0 <= i < ms.len() ==> visible[(#[trigger] ms[i]).child_fd as int].resource
                    == t0[ms[i].parent_fd as int].resource
        }),
{
    lemma_two_phase_correct(t0, ms, temps);
    let tf = two_phase_table(t0, ms, temps);
    let visible = after_exec(tf);
    assert forall|fd: int| visible.dom().contains(fd) == after_exec(t0).dom().union(
        dest_set(ms),
    ).contains(fd) by {
        if visible.dom().contains(fd) && !dest_set(ms).contains(fd) {
            assert(t0.dom().contains(fd) || tf[fd].cloexec);
        }
        if dest_set(ms).contains(fd) {
            let q = choose|q: int| 0 <= q < ms.len() && #[trigger] ms[q].child_fd == fd;
            assert(tf.dom().contains(ms[q].child_fd as int) && !tf[fd].cloexec);
        }
        if after_exec(t0).dom().contains(fd) && !dest_set(ms).contains(fd) {
            assert(tf.dom().contains(fd) && tf[fd] == t0[fd]);
        }
    }
    assert(visible.dom() =~= after_exec(t0).dom().union(dest_set(ms)));
}

/// The flag-clearing primitive of descriptor preservation
/// ([`crate::preserve_fds`]): `fd` keeps its number and resource, with
/// close-on-exec clear.
pub open spec fn model_clear_cloexec(t: Map<int, FdEntry>, fd: int) -> Map<int, FdEntry> {
    t.insert(fd, FdEntry { resource: t[fd].resource, cloexec: false })
}

/// Preservation law: clearing the close-on-exec flag of an open descriptor
/// that already lacks it changes nothing at all in the table; in general the
/// clearing is observable only as the descriptor's continued presence, with
/// its resource, after program replacement.
pub proof fn lemma_preserve_noop(t: Map<int, FdEntry>, fd: int)
    requires
        t.dom().contains(fd),
    ensures
        !t[fd].cloexec ==> model_clear_cloexec(t, fd) == t,
        after_exec(model_clear_cloexec(t, fd)).dom() == after_exec(t).dom().insert(fd),
        after_exec(model_clear_cloexec(t, fd))[fd].resource == t[fd].resource,
{
    if !t[fd].cloexec {
        assert(model_clear_cloexec(t, fd) =~= t);
    }
    assert(after_exec(model_clear_cloexec(t, fd)).dom() =~= after_exec(t).dom().insert(fd));
}

/// An empty mapping list leaves the descriptor table exactly as it was: both
/// phases have nothing to do.
pub proof fn lemma_empty_apply(t0: Map<int, FdEntry>, temps: Seq<int>)
    ensures
        two_phase_table(t0, Seq::<FdMapping>::empty(), temps) == t0,
{
}

/// The two mappings that swap `a` and `b`.
pub open spec fn swap_mappings(a: i32, b: i32) -> Seq<FdMapping> {
    seq![
        FdMapping { parent_fd: a, child_fd: b },
        FdMapping { parent_fd: b, child_fd: a },
    ]
}

/// The two mappings that expose `a` under both `x` and `y`.
pub open spec fn fan_out_mappings(a: i32, x: i32, y: i32) -> Seq<FdMapping> {
    seq![
        FdMapping { parent_fd: a, child_fd: x },
        FdMapping { parent_fd: a, child_fd: y },
    ]
}

/// Swap law: applying the mappings `{(a,b), (b,a)}` with `a != b`, both
/// referring to open resources, leaves the resource previously at `a`
/// reachable at `b` and the one previously at `b` reachable at `a`; after
/// program replacement the child sees exactly the previously visible
/// descriptors together with `a` and `b`, so neither temporary descriptor
/// remains open there.
pub proof fn lemma_swap(t0: Map<int, FdEntry>, a: i32, b: i32, temps: Seq<int>)
    requires
        a != b,
        0 <= a < i32::MAX,
        0 <= b < i32::MAX,
        t0.dom().contains(a as int),
        t0.dom().contains(b as int),
        temps_valid(t0, swap_mappings(a, b), temps),
    ensures
        ({
            let tf = two_phase_table(t0, swap_mappings(a, b), temps);
            &&& tf.dom().contains(a as int) && tf.dom().contains(b as int)
            &&& tf[b as int].resource == t0[a as int].resource
            &&& tf[a as int].resource == t0[b as int].resource
            &&& after_exec(tf).dom() == after_exec(t0).dom().insert(a as int).insert(b as int)
        }),
{
    let ms = swap_mappings(a, b);
    assert(ms[0] == (FdMapping { parent_fd: a, child_fd: b }));
    assert(ms[1] == (FdMapping { parent_fd: b, child_fd: a }));
    lemma_two_phase_correct(t0, ms, temps);
    lemma_after_exec_visible(t0, ms, temps);
    assert(dest_set(ms) =~= Set::<int>::empty().insert(b as int).insert(a as int)) by {
        assert(ms[0].child_fd == b && ms[1].child_fd == a);
        assert(dest_set(ms).contains(a as int) && dest_set(ms).contains(b as int));
    }
    assert(after_exec(two_phase_table(t0, ms, temps)).dom() =~= after_exec(t0).dom().insert(
        a as int,
    ).insert(b as int));
}

/// Fan-out law: applying the mappings `{(a,x), (a,y)}` with `x != y` leaves
/// both `x` and `y` referring to the resource originally at `a`, and `a`
/// itself still open with that same resource.
pub proof fn lemma_fan_out(t0: Map<int, FdEntry>, a: i32, x: i32, y: i32, temps: Seq<int>)
    requires
        x != y,
        0 <= a < i32::MAX,
        0 <= x < i32::MAX,
        0 <= y < i32::MAX,
        t0.dom().contains(a as int),
        temps_valid(t0, fan_out_mappings(a, x, y), temps),
    ensures
        ({
            let tf = two_phase_table(t0, fan_out_mappings(a, x, y), temps);
            &&& tf.dom().contains(x as int) && tf[x as int].resource == t0[a as int].resource
            &&& tf.dom().contains(y as int) && tf[y as int].resource == t0[a as int].resource
            &&& tf.dom().contains(a as int) && tf[a as int].resource == t0[a as int].resource
        }),
{
    let ms = fan_out_mappings(a, x, y);
    assert(ms[0] == (FdMapping { parent_fd: a, child_fd: x }));
    assert(ms[1] == (FdMapping { parent_fd: a, child_fd: y }));
    lemma_two_phase_correct(t0, ms, temps);
    let tf = two_phase_table(t0, ms, temps);
    if a != x && a != y {
        assert(!dest_set(ms).contains(a as int)) by {
            if dest_set(ms).contains(a as int) {
                let q = choose|q: int| 0 <= q < ms.len() && #[trigger] ms[q].child_fd == a as int;
            }
        }
    }
}

} // verus!
