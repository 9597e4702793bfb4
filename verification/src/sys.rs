//! Trusted wrappers around the descriptor syscalls that [`crate::map_fds`]
//! and [`crate::preserve_fds`] rely on. Each wrapper makes exactly the call
//! its doc comment names; its contract states only what the operating system
//! documents of that call.

use vstd::prelude::*;

verus! {

/// Relies on `nix::fcntl::fcntl` with `FcntlArg::F_DUPFD_CLOEXEC`: atomically
/// duplicates `fd` onto the lowest free descriptor numbered at least `min_fd`
/// and sets the close-on-exec flag on the new copy. On success the new
/// descriptor number is returned; on failure, the raw OS error code.
#[verifier::external_body]
pub(crate) fn dup_fd_cloexec(fd: i32, min_fd: i32) -> (r: Result<i32, i32>)
    ensures
        r matches Ok(temp) ==> temp >= min_fd,
{
    match nix::fcntl::fcntl(fd, nix::fcntl::FcntlArg::F_DUPFD_CLOEXEC(min_fd)) {
        Ok(temp) => Ok(temp),
        Err(e) => Err(e as i32),
    }
}

/// Relies on `nix::unistd::dup2`: makes `new_fd` refer to the same resource
/// as `old_fd`, transparently closing `new_fd` first if it was open and
/// leaving the close-on-exec flag of the resulting `new_fd` clear; `old_fd`
/// itself stays open and unaffected. On success `dup2` returns the new
/// descriptor; on failure, the raw OS error code.
#[verifier::external_body]
pub(crate) fn dup2_fd(old_fd: i32, new_fd: i32) -> (r: Result<i32, i32>)
    ensures
        r matches Ok(f) ==> f == new_fd,
{
    match nix::unistd::dup2(old_fd, new_fd) {
        Ok(f) => Ok(f),
        Err(e) => Err(e as i32),
    }
}

/// Relies on `nix::fcntl::fcntl` with `F_GETFD` and `F_SETFD`: reads the
/// descriptor flags of `fd` and writes them back with close-on-exec cleared,
/// so that `fd` survives program replacement under its present number. The
/// descriptor's number and resource are untouched either way.
#[verifier::external_body]
pub(crate) fn clear_cloexec(fd: i32) -> (r: Result<(), i32>)
{
    match nix::fcntl::fcntl(fd, nix::fcntl::FcntlArg::F_GETFD) {
        Ok(bits) => {
            let flags = nix::fcntl::FdFlag::from_bits_truncate(bits)
                .difference(nix::fcntl::FdFlag::FD_CLOEXEC);
            match nix::fcntl::fcntl(fd, nix::fcntl::FcntlArg::F_SETFD(flags)) {
                Ok(_) => Ok(()),
                Err(e) => Err(e as i32),
            }
        }
        Err(e) => Err(e as i32),
    }
}

} // verus!
