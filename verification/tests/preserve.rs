use command_fds::preserve_fds;
use command_fds::OsError;

#[test]
fn preserve_empty_list() {
    assert_eq!(preserve_fds(&vec![]), Ok(()));
}

#[test]
fn preserve_clears_cloexec() {
    let (r, _w): (i32, i32) = nix::unistd::pipe().unwrap();
    nix::fcntl::fcntl(
        r,
        nix::fcntl::FcntlArg::F_SETFD(nix::fcntl::FdFlag::FD_CLOEXEC),
    )
    .unwrap();

    assert_eq!(preserve_fds(&vec![r]), Ok(()));

    let bits: i32 = nix::fcntl::fcntl(r, nix::fcntl::FcntlArg::F_GETFD).unwrap();
    assert_eq!(bits & nix::fcntl::FdFlag::FD_CLOEXEC.bits(), 0);
}

#[test]
fn preserve_already_inheritable_is_noop() {
    // A descriptor that is not close-on-exec keeps its number, its flags and
    // its resource.
    let (r, w): (i32, i32) = nix::unistd::pipe().unwrap();
    let before: i32 = nix::fcntl::fcntl(r, nix::fcntl::FcntlArg::F_GETFD).unwrap();
    assert_eq!(before & nix::fcntl::FdFlag::FD_CLOEXEC.bits(), 0);

    assert_eq!(preserve_fds(&vec![r]), Ok(()));

    let after: i32 = nix::fcntl::fcntl(r, nix::fcntl::FcntlArg::F_GETFD).unwrap();
    assert_eq!(after, before);
    nix::unistd::write(w, b"p").unwrap();
    let mut buf = [0u8; 1];
    assert_eq!(nix::unistd::read(r, &mut buf).unwrap(), 1);
    assert_eq!(&buf, b"p");
}

#[test]
fn preserve_closed_fd_fails() {
    let (r, w): (i32, i32) = nix::unistd::pipe().unwrap();
    nix::unistd::close(r).unwrap();
    nix::unistd::close(w).unwrap();

    assert_eq!(
        preserve_fds(&vec![r]),
        Err(OsError {
            errno: nix::errno::Errno::EBADF as i32,
        })
    );
}
