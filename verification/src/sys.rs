//! Numbers of the operating system that are read from `libc`.

use vstd::prelude::*;

verus! {

/// The error number of a write to a pipe that nobody reads.
pub const EPIPE: i32 = 32;

/// The error number of an entry that does not exist.
pub const ENOENT: i32 = 2;

/// Reads the constant `libc::EPIPE`.
///
/// Trusted: that the constant is 32. `libc` defines it so for Linux, macOS and
/// iOS, FreeBSD, DragonFly, NetBSD and OpenBSD.
#[verifier::external_body]
pub(crate) fn epipe() -> (r: i32)
    ensures
        r == EPIPE,
{
    libc::EPIPE
}

/// Reads the constant `libc::ENOENT`.
///
/// Trusted: that the constant is 2. `libc` defines it so for Linux, macOS and
/// iOS, FreeBSD, DragonFly, NetBSD and OpenBSD.
#[verifier::external_body]
pub(crate) fn enoent() -> (r: i32)
    ensures
        r == ENOENT,
{
    libc::ENOENT
}

} // verus!
