//! Passing arbitrary open file descriptors to child processes.
//!
//! A caller describes, as a list of [`FdMapping`]s, which descriptors of the
//! current process should appear in a child process and under which numbers.
//! The list is validated up front ([`validate_child_fds`]: no two mappings may
//! target the same child descriptor) and later applied ([`map_fds`]) in the
//! window between process duplication and program replacement, resolving
//! source/destination collisions through temporary descriptors. Extra
//! descriptors can be kept open across program replacement with
//! [`preserve_fds`].
//!
//! The conflict-resolution algorithm is proved correct against a model of the
//! descriptor table in the [`table`] module.

use vstd::prelude::*;

pub mod sys;
pub mod table;

verus! {

/// A mapping from a file descriptor in the parent to a file descriptor in the
/// child, to be applied when spawning a child process.
///
/// The `parent_fd` must be kept open until after the child is spawned.
#[derive(Clone, Copy, Debug, PartialEq, Eq, Structural)]
pub struct FdMapping {
    pub parent_fd: i32,
    pub child_fd: i32,
}

/// Error setting up FD mappings, because there were two or more mappings for
/// the same child FD.
#[derive(Clone, Copy, Debug, PartialEq, Eq, Structural)]
pub struct FdMappingCollision;

/// An operating-system error from a descriptor duplication, carried as the raw
/// platform error code.
#[derive(Clone, Copy, Debug, PartialEq, Eq, Structural)]
pub struct OsError {
    pub errno: i32,
}

/// The child descriptors requested by a mapping list, in order.
pub open spec fn child_fd_seq(ms: Seq<FdMapping>) -> Seq<i32> {
    ms.map_values(|m: FdMapping| m.child_fd)
}

/// No two mappings target the same child descriptor.
pub open spec fn distinct_child_fds(ms: Seq<FdMapping>) -> bool {
    forall|p: int, q: int|
        0 <= p < q < ms.len() ==> ms[p].child_fd != ms[q].child_fd
}

/// Checks that no two mappings target the same child descriptor.
///
/// On success returns the requested child descriptors, in mapping order;
/// otherwise reports the collision. Repeated `parent_fd` values and repeated
/// whole pairs are compared on `child_fd` alone, so a duplicated pair is a
/// collision too.
pub fn validate_child_fds(mappings: &Vec<FdMapping>) -> (r: Result<Vec<i32>, FdMappingCollision>)
    ensures
        r is Ok <==> distinct_child_fds(mappings@),
        r matches Ok(child_fds) ==> child_fds@ == child_fd_seq(mappings@),
{
    let n = mappings.len();
    let mut child_fds: Vec<i32> = Vec::new();
    let mut i: usize = 0;
    while i < n
        invariant
            i <= n == mappings@.len(),
            child_fds@ == child_fd_seq(mappings@.take(i as int)),
            forall|p: int, q: int| 0 <= p < q < i ==> mappings@[p].child_fd != mappings@[q].child_fd,
        decreases n - i,
    {
        let c = mappings[i].child_fd;
        let mut j: usize = 0;
        while j < i
            invariant
                j <= i < n == mappings@.len(),
                c == mappings@[i as int].child_fd,
                forall|p: int| 0 <= p < j ==> mappings@[p].child_fd != c,
            decreases i - j,
        {
            if mappings[j].child_fd == c {
                assert(!distinct_child_fds(mappings@)) by {
                    assert(mappings@[j as int].child_fd == mappings@[i as int].child_fd);
                }
                return Err(FdMappingCollision);
            }
            j += 1;
        }
        proof {
            assert(mappings@.take(i + 1).map_values(|m: FdMapping| m.child_fd)
                =~= mappings@.take(i as int).map_values(|m: FdMapping| m.child_fd)
                    .push(mappings@[i as int].child_fd));
        }
        child_fds.push(c);
        i += 1;
    }
    proof {
        assert(mappings@.take(n as int) =~= mappings@);
    }
    Ok(child_fds)
}

/// Every requested descriptor is non-negative, and small enough that a
/// temporary descriptor number above all of them exists.
pub open spec fn fds_in_range(ms: Seq<FdMapping>) -> bool {
    forall|i: int|
        0 <= i < ms.len() ==> 0 <= #[trigger] ms[i].parent_fd < i32::MAX
            && 0 <= ms[i].child_fd < i32::MAX
}

/// The largest descriptor named by the mappings, or `-1` for an empty list.
pub open spec fn max_requested_fd(ms: Seq<FdMapping>) -> int
    decreases ms.len(),
{
    if ms.len() == 0 {
        -1
    } else {
        let rest = max_requested_fd(ms.drop_last());
        let m = ms.last();
        let hi: int = if m.parent_fd >= m.child_fd {
            m.parent_fd as int
        } else {
            m.child_fd as int
        };
        if hi >= rest {
            hi
        } else {
            rest
        }
    }
}

/// The first descriptor number safe to use for temporaries: one above every
/// descriptor the mappings name, so a temporary can never alias a requested
/// source or destination.
pub open spec fn safe_floor(ms: Seq<FdMapping>) -> int {
    max_requested_fd(ms) + 1
}

/// Whether mapping `i`'s source descriptor is also some mapping's
/// destination, so that applying the other mapping first would corrupt it.
pub open spec fn collides(ms: Seq<FdMapping>, i: int) -> bool {
    exists|q: int| 0 <= q < ms.len() && #[trigger] ms[q].child_fd == ms[i].parent_fd
}

/// How an applied mapping list relates to the requested one: same length and
/// the same child descriptors, with every colliding source replaced by a
/// temporary descriptor at or above the safe floor and every other source
/// left untouched.
pub open spec fn resolved_from(orig: Seq<FdMapping>, now: Seq<FdMapping>) -> bool {
    &&& now.len() == orig.len()
    &&& forall|i: int| 0 <= i < orig.len() ==> #[trigger] now[i].child_fd == orig[i].child_fd
    &&& forall|i: int|
        0 <= i < orig.len() ==> (if collides(orig, i) {
            #[trigger] now[i].parent_fd >= safe_floor(orig)
        } else {
            now[i].parent_fd == orig[i].parent_fd
        })
}

/// Every descriptor named by the mappings is at most `max_requested_fd`, so
/// the safe floor is strictly above every requested source and destination.
pub proof fn lemma_max_requested_fd_bounds(ms: Seq<FdMapping>)
    ensures
        forall|i: int|
            0 <= i < ms.len() ==> #[trigger] ms[i].parent_fd <= max_requested_fd(ms)
                && ms[i].child_fd <= max_requested_fd(ms),
    decreases ms.len(),
{
    if ms.len() > 0 {
        lemma_max_requested_fd_bounds(ms.drop_last());
        assert forall|i: int|
            0 <= i < ms.len() implies #[trigger] ms[i].parent_fd <= max_requested_fd(ms)
                && ms[i].child_fd <= max_requested_fd(ms) by {
            if i < ms.len() - 1 {
                assert(ms.drop_last()[i] == ms[i]);
            }
        }
    }
}

/// A mapping list's sources collide exactly where the validated child
/// descriptor list contains them.
proof fn lemma_contains_iff_collides(orig: Seq<FdMapping>, cs: Seq<i32>, i: int)
    requires
        cs == child_fd_seq(orig),
        0 <= i < orig.len(),
    ensures
        cs.contains(orig[i].parent_fd) <==> collides(orig, i),
{
    if cs.contains(orig[i].parent_fd) {
        let k = choose|k: int| 0 <= k < cs.len() && cs[k] == orig[i].parent_fd;
        assert(orig[k].child_fd == orig[i].parent_fd);
    }
    if collides(orig, i) {
        let q = choose|q: int|
            0 <= q < orig.len() && #[trigger] orig[q].child_fd == orig[i].parent_fd;
        assert(cs[q] == orig[i].parent_fd);
    }
}

/// Whether `fds` holds `fd`.
fn contains_fd(fds: &Vec<i32>, fd: i32) -> (b: bool)
    ensures
        b == fds@.contains(fd),
{
    let n = fds.len();
    let mut j: usize = 0;
    while j < n
        invariant
            j <= n == fds@.len(),
            forall|p: int| 0 <= p < j ==> fds@[p] != fd,
        decreases n - j,
    {
        if fds[j] == fd {
            return true;
        }
        j += 1;
    }
    false
}

/// Mutates the current process's descriptor table so that, for every mapping,
/// `child_fd` refers to the resource `parent_fd` referred to when the call
/// began.
///
/// This must run in the window between process duplication and program
/// replacement. Sources that also appear as destinations are first duplicated
/// to close-on-exec temporaries at or above the safe floor (one above every
/// requested descriptor), replacing the mapping's source in place, so that no
/// destination duplication can corrupt a source a later step still needs;
/// only then is every source duplicated onto its destination. `child_fds`
/// must list the requested child descriptors, as [`validate_child_fds`]
/// returns them. An empty mapping list succeeds without touching anything.
/// The first failing duplication aborts the procedure with the OS error; what
/// was already duplicated is left as it is, which is safe only because the
/// process copy is discarded without replacing its program.
pub fn map_fds(mappings: &mut Vec<FdMapping>, child_fds: &Vec<i32>) -> (r: Result<(), OsError>)
    requires
        fds_in_range(old(mappings)@),
        child_fds@ == child_fd_seq(old(mappings)@),
    ensures
        final(mappings)@.len() == old(mappings)@.len(),
        child_fd_seq(final(mappings)@) == child_fd_seq(old(mappings)@),
        old(mappings)@.len() == 0 ==> r is Ok && final(mappings)@ == old(mappings)@,
        r is Ok ==> resolved_from(old(mappings)@, final(mappings)@),
{
    let ghost orig = old(mappings)@;
    let n = mappings.len();
    if n == 0 {
        return Ok(());
    }

    // One above the largest descriptor the request names: temporaries at or
    // above it can alias no requested source or destination. They may still
    // alias unrelated descriptors already open in the process, which is why
    // the duplication primitive itself skips occupied slots.
    let mut acc: i32 = -1;
    let mut i: usize = 0;
    while i < n
        invariant
            i <= n == orig.len(),
            mappings@ == orig,
            fds_in_range(orig),
            acc == max_requested_fd(orig.take(i as int)),
            -1 <= acc < i32::MAX,
        decreases n - i,
    {
        let m = mappings[i];
        let hi = if m.parent_fd >= m.child_fd {
            m.parent_fd
        } else {
            m.child_fd
        };
        proof {
            assert(orig.take(i + 1).drop_last() =~= orig.take(i as int));
            assert(orig.take(i + 1).last() == orig[i as int]);
        }
        if hi > acc {
            acc = hi;
        }
        i += 1;
    }
    proof {
        assert(orig.take(n as int) =~= orig);
    }
    let first_safe_fd = acc + 1;
    assert(first_safe_fd == safe_floor(orig));

    // Resolution: replace every colliding source, in place, by a fresh
    // close-on-exec temporary at or above the floor.
    let mut i: usize = 0;
    while i < n
        invariant
            orig == old(mappings)@,
            i <= n == orig.len(),
            mappings@.len() == n,
            fds_in_range(orig),
            child_fds@ == child_fd_seq(orig),
            first_safe_fd == safe_floor(orig),
            forall|k: int| i <= k < n ==> #[trigger] mappings@[k] == orig[k],
            forall|k: int| 0 <= k < i ==> #[trigger] mappings@[k].child_fd == orig[k].child_fd,
            forall|k: int|
                0 <= k < i ==> (if collides(orig, k) {
                    #[trigger] mappings@[k].parent_fd >= first_safe_fd
                } else {
                    mappings@[k].parent_fd == orig[k].parent_fd
                }),
        decreases n - i,
    {
        let parent = mappings[i].parent_fd;
        proof {
            lemma_contains_iff_collides(orig, child_fds@, i as int);
        }
        if contains_fd(child_fds, parent) {
            match sys::dup_fd_cloexec(parent, first_safe_fd) {
                Ok(temp) => {
                    let child = mappings[i].child_fd;
                    mappings.set(
                        i,
                        FdMapping { parent_fd: temp, child_fd: child },
                    );
                }
                Err(e) => {
                    proof {
                        assert(child_fd_seq(mappings@) =~= child_fd_seq(orig));
                    }
                    return Err(OsError { errno: e });
                }
            }
        }
        i += 1;
    }
    proof {
        assert(child_fd_seq(mappings@) =~= child_fd_seq(orig));
        assert(resolved_from(orig, mappings@));
    }

    // Application: every source now either never was a destination or is a
    // temporary above all destinations, so the order of the duplications no
    // longer matters.
    let ghost resolved = mappings@;
    let mut i: usize = 0;
    while i < n
        invariant
            orig == old(mappings)@,
            i <= n == orig.len(),
            mappings@ == resolved,
            resolved.len() == n,
            child_fd_seq(resolved) == child_fd_seq(orig),
            resolved_from(orig, resolved),
        decreases n - i,
    {
        match sys::dup2_fd(mappings[i].parent_fd, mappings[i].child_fd) {
            Ok(_) => {}
            Err(e) => {
                return Err(OsError { errno: e });
            }
        }
        i += 1;
    }
    Ok(())
}

/// Clears the close-on-exec flag of every descriptor in `fds`, so that each
/// one survives program replacement under its present number, without
/// renumbering anything.
///
/// Like [`map_fds`] this runs between process duplication and program
/// replacement. A descriptor whose flag is already clear is left as it is.
/// No collision check against mapping destinations is performed; handing the
/// same slot to both facilities is a caller error. The first failing flag
/// update aborts the procedure with the OS error. An empty list succeeds
/// without touching anything.
pub fn preserve_fds(fds: &Vec<i32>) -> (r: Result<(), OsError>)
    ensures
        fds@.len() == 0 ==> r is Ok,
{
    let n = fds.len();
    let mut i: usize = 0;
    while i < n
        invariant
            i <= n == fds@.len(),
        decreases n - i,
    {
        match sys::clear_cloexec(fds[i]) {
            Ok(_) => {}
            Err(e) => {
                return Err(OsError { errno: e });
            }
        }
        i += 1;
    }
    Ok(())
}

} // verus!
