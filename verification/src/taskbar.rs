//! The progress bar on the program's icon in the task bar.

use vstd::prelude::*;

verus! {

pub const TBPF_NOPROGRESS: u32 = 0x0;

pub const TBPF_NORMAL: u32 = 0x2;

pub const TBPF_ERROR: u32 = 0x4;

pub const TBPF_PAUSED: u32 = 0x8;

/// What to tell the task bar.
#[derive(Debug, Clone, Copy, PartialEq, Eq)]
pub struct Progress {
    pub state: u32,
    /// How much of how much is done; `None` leaves the bar as it is.
    pub value: Option<(u64, u64)>,
}

/// What to tell the task bar of the window `hwnd`: nothing if there is no
/// window yet. A bar that is switched off, or whose total is not known, gets
/// no value.
pub fn set(hwnd: isize, state: u32, done: u64, total: u64) -> (r: Option<Progress>)
    ensures
        r == if hwnd == 0 {
            None
        } else {
            Some(
                Progress {
                    state,
                    value: if state != TBPF_NOPROGRESS && total > 0 {
                        Some((done, total))
                    } else {
                        None
                    },
                },
            )
        },
{
    if hwnd == 0 {
        return None;
    }
    let value = if state != TBPF_NOPROGRESS && total > 0 { Some((done, total)) } else { None };
    Some(Progress { state, value })
}

} // verus!
