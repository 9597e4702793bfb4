//! These tests apply mappings to the test process's own descriptor table:
//! the same duplications that would otherwise run between process
//! duplication and program replacement.

use command_fds::map_fds;
use command_fds::preserve_fds;
use command_fds::validate_child_fds;
use command_fds::FdMapping;
use command_fds::OsError;

#[test]
fn no_mappings() {
    let mut mappings: Vec<FdMapping> = vec![];
    let child_fds = validate_child_fds(&mappings).unwrap();
    assert_eq!(map_fds(&mut mappings, &child_fds), Ok(()));
    assert!(mappings.is_empty());
}

#[test]
fn one_mapping_to_chosen_slot() {
    let (r, w): (i32, i32) = nix::unistd::pipe().unwrap();
    nix::unistd::write(w, b"hi").unwrap();

    let mut mappings = vec![FdMapping {
        parent_fd: r,
        child_fd: 46,
    }];
    let child_fds = validate_child_fds(&mappings).unwrap();
    assert_eq!(map_fds(&mut mappings, &child_fds), Ok(()));

    // No collision, so the mapping is left exactly as requested.
    assert_eq!(
        mappings,
        vec![FdMapping {
            parent_fd: r,
            child_fd: 46,
        }]
    );

    // The chosen slot refers to the pipe, and survives program replacement:
    // its close-on-exec flag is clear.
    let mut buf = [0u8; 2];
    assert_eq!(nix::unistd::read(46, &mut buf).unwrap(), 2);
    assert_eq!(&buf, b"hi");
    let bits: i32 = nix::fcntl::fcntl(46, nix::fcntl::FcntlArg::F_GETFD).unwrap();
    assert_eq!(bits & nix::fcntl::FdFlag::FD_CLOEXEC.bits(), 0);
}

#[test]
fn swap_reroutes_resources() {
    let (r1, w1): (i32, i32) = nix::unistd::pipe().unwrap();
    let (r2, w2): (i32, i32) = nix::unistd::pipe().unwrap();
    nix::unistd::write(w1, b"one").unwrap();
    nix::unistd::write(w2, b"two").unwrap();

    // Map each pipe's read end to the other's descriptor, to exercise the
    // temporary-descriptor logic.
    let mut mappings = vec![
        FdMapping {
            parent_fd: r1,
            child_fd: r2,
        },
        FdMapping {
            parent_fd: r2,
            child_fd: r1,
        },
    ];
    let child_fds = validate_child_fds(&mappings).unwrap();
    assert_eq!(map_fds(&mut mappings, &child_fds), Ok(()));

    // Both sources collided with destinations, so both were replaced in
    // place by temporaries above every requested descriptor.
    let floor: i32 = 1 + r1.max(r2);
    assert_eq!(mappings.len(), 2);
    assert!(mappings[0].parent_fd >= floor);
    assert!(mappings[1].parent_fd >= floor);
    assert_eq!(mappings[0].child_fd, r2);
    assert_eq!(mappings[1].child_fd, r1);

    // The descriptor previously reading "one" now reads "two", and the
    // other way round.
    let mut buf = [0u8; 3];
    assert_eq!(nix::unistd::read(r2, &mut buf).unwrap(), 3);
    assert_eq!(&buf, b"one");
    assert_eq!(nix::unistd::read(r1, &mut buf).unwrap(), 3);
    assert_eq!(&buf, b"two");

    // The temporaries carry the close-on-exec flag, so only the swapped
    // descriptors would survive program replacement.
    let t0: i32 = nix::fcntl::fcntl(mappings[0].parent_fd, nix::fcntl::FcntlArg::F_GETFD).unwrap();
    let t1: i32 = nix::fcntl::fcntl(mappings[1].parent_fd, nix::fcntl::FcntlArg::F_GETFD).unwrap();
    assert_ne!(t0 & nix::fcntl::FdFlag::FD_CLOEXEC.bits(), 0);
    assert_ne!(t1 & nix::fcntl::FdFlag::FD_CLOEXEC.bits(), 0);
}

#[test]
fn fan_out_shares_resource() {
    let (r, w): (i32, i32) = nix::unistd::pipe().unwrap();
    nix::unistd::write(w, b"ab").unwrap();

    let mut mappings = vec![
        FdMapping {
            parent_fd: r,
            child_fd: 40,
        },
        FdMapping {
            parent_fd: r,
            child_fd: 41,
        },
    ];
    let child_fds = validate_child_fds(&mappings).unwrap();
    assert_eq!(map_fds(&mut mappings, &child_fds), Ok(()));

    // Both destinations refer to the pipe; they share its read offset.
    let mut buf = [0u8; 1];
    assert_eq!(nix::unistd::read(40, &mut buf).unwrap(), 1);
    assert_eq!(&buf, b"a");
    assert_eq!(nix::unistd::read(41, &mut buf).unwrap(), 1);
    assert_eq!(&buf, b"b");

    // The source is still independently open and valid.
    nix::unistd::write(w, b"c").unwrap();
    assert_eq!(nix::unistd::read(r, &mut buf).unwrap(), 1);
    assert_eq!(&buf, b"c");
}

#[test]
fn os_error_from_closed_source() {
    let (r, w): (i32, i32) = nix::unistd::pipe().unwrap();
    nix::unistd::close(r).unwrap();
    nix::unistd::close(w).unwrap();

    let mut mappings = vec![FdMapping {
        parent_fd: r,
        child_fd: 45,
    }];
    let child_fds = validate_child_fds(&mappings).unwrap();
    assert_eq!(
        map_fds(&mut mappings, &child_fds),
        Err(OsError {
            errno: nix::errno::Errno::EBADF as i32,
        })
    );
}

#[test]
fn os_error_from_closed_colliding_source() {
    let (r, w): (i32, i32) = nix::unistd::pipe().unwrap();
    let (r2, _w2): (i32, i32) = nix::unistd::pipe().unwrap();
    nix::unistd::close(r).unwrap();
    nix::unistd::close(w).unwrap();

    // The closed source is also a destination, so the failure comes from
    // the temporary duplication of the resolution phase.
    let mut mappings = vec![
        FdMapping {
            parent_fd: r,
            child_fd: 47,
        },
        FdMapping {
            parent_fd: r2,
            child_fd: r,
        },
    ];
    let child_fds = validate_child_fds(&mappings).unwrap();
    assert_eq!(
        map_fds(&mut mappings, &child_fds),
        Err(OsError {
            errno: nix::errno::Errno::EBADF as i32,
        })
    );
    // Destinations are never touched by the resolution phase.
    assert_eq!(mappings[0].child_fd, 47);
    assert_eq!(mappings[1].child_fd, r);
}

#[test]
fn preserve_and_map_together() {
    // A mapped slot and an unrelated preserved descriptor can be prepared in
    // the same window.
    let (r, w): (i32, i32) = nix::unistd::pipe().unwrap();
    let (keep, _keep_w): (i32, i32) = nix::unistd::pipe().unwrap();
    nix::unistd::write(w, b"z").unwrap();

    let mut mappings = vec![FdMapping {
        parent_fd: r,
        child_fd: 48,
    }];
    let child_fds = validate_child_fds(&mappings).unwrap();
    assert_eq!(map_fds(&mut mappings, &child_fds), Ok(()));
    assert_eq!(preserve_fds(&vec![keep]), Ok(()));

    let mut buf = [0u8; 1];
    assert_eq!(nix::unistd::read(48, &mut buf).unwrap(), 1);
    assert_eq!(&buf, b"z");
    let bits: i32 = nix::fcntl::fcntl(keep, nix::fcntl::FcntlArg::F_GETFD).unwrap();
    assert_eq!(bits & nix::fcntl::FdFlag::FD_CLOEXEC.bits(), 0);
}
