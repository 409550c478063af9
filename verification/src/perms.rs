//! Replicated file permissions.
//!
//! Only two dimensions of a file's permissions travel between peers: the
//! readonly flag and, on Unix hosts, the user-execute bit.  The bit
//! arithmetic that reads and rewrites a Unix mode word lives here so it can
//! be verified; the calls that fetch and store a file's metadata live with
//! the rest of the disk I/O, outside the library.

use vstd::prelude::*;

verus! {

#[derive(Debug, PartialEq, Eq, Structural, Clone, Copy)]
pub struct FilePerm {
    pub readonly: bool,
    pub executable: bool,
}

/// Whether a Unix mode word has the user-execute bit set.
pub open spec fn spec_mode_is_executable(mode: u32) -> bool {
    ((mode & 0o700) >> 6) % 2 == 1
}

/// Whether a Unix mode word has the user-execute bit set.
pub fn mode_is_executable(mode: u32) -> (r: bool)
    ensures
        r == spec_mode_is_executable(mode),
{
    ((mode & 0o700) >> 6) % 2 == 1
}

impl FilePerm {
    /// The permissions recorded for a file with the given readonly flag and
    /// Unix mode word.
    pub fn from_mode(readonly: bool, mode: u32) -> (p: FilePerm)
        ensures
            p == (FilePerm { readonly, executable: spec_mode_is_executable(mode) }),
    {
        FilePerm { readonly, executable: mode_is_executable(mode) }
    }

    /// The mode word to write back so the user-execute bit agrees with this
    /// permission record.  Bits other than the user-execute bit are kept.
    pub fn mode_after_set(&self, mode: u32) -> (m: u32)
        requires
            mode < 0x10000,
        ensures
            m == (if !spec_mode_is_executable(mode) && self.executable {
                mode + 0o100
            } else if spec_mode_is_executable(mode) && !self.executable {
                mode - 0o100
            } else {
                mode as int
            }),
            spec_mode_is_executable(m) == self.executable,
    {
        let user_exec = mode_is_executable(mode);
        if !user_exec && self.executable {
            let m = mode + 0o100;
            proof {
                assert(spec_mode_is_executable(mode) == false && mode < 0x10000 ==>
                    spec_mode_is_executable((mode + 0o100) as u32)) by (bit_vector);
            }
            m
        } else if user_exec && !self.executable {
            proof {
                assert(spec_mode_is_executable(mode) ==> mode >= 0o100) by (bit_vector);
                assert(spec_mode_is_executable(mode) && mode < 0x10000 ==>
                    !spec_mode_is_executable((mode - 0o100) as u32)) by (bit_vector);
            }
            mode - 0o100
        } else {
            mode
        }
    }
}

} // verus!
