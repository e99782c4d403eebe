//! System calls.
//!
//! | number | call                     |
//! |--------|--------------------------|
//! | 0      | `ipc_call(cap, msg)`     |
//! | 1      | `ipc_send(cap, msg)`     |
//! | 2      | `ipc_recv(cap)`          |
//! | 3      | `ipc_reply(msg)`         |
//! | 4      | `cap_create_port()`      |
//! | 5      | `cap_grant(cap, task)`   |
//! | 6      | `cap_revoke(cap)`        |
//! | 7      | `mem_map(cap, addr)`     |
//! | 8      | `mem_unmap(addr)`        |
//! | 9      | `mem_alloc(size)`        |
//! | 10     | `task_spawn(bin, caps)`  |
//! | 11     | `task_exit(code)`        |
//! | 12     | `task_yield()`           |
//! | 13     | `time_now()`             |
//! | 14     | `time_sleep(ns)`         |

use vstd::prelude::*;

verus! {

/// Number of system calls.
pub const SYSCALL_COUNT: usize = 15;

/// What a call that is known but cannot be served returns.
pub const FAILED: isize = -1;

/// What a call with an unknown number returns.
pub const ENOSYS: isize = -38;

/// The result of system call `number`. No call is served yet: a known
/// number gives `FAILED`, any other `ENOSYS`.
pub fn syscall_handler(number: usize, arg0: usize, arg1: usize, arg2: usize) -> (r: isize)
    ensures
        r == (if number < SYSCALL_COUNT {
            FAILED
        } else {
            ENOSYS
        }),
{
    if number < SYSCALL_COUNT {
        FAILED
    } else {
        ENOSYS
    }
}

} // verus!
