//! The bookkeeping of the daemon loop between its steps: from which offset the
//! next tail reads, and when the state must be saved.

use vstd::prelude::*;
use vstd::string::*;

verus! {

/// What the daemon keeps after a step: the offset the next tail starts from,
/// and whether the state changed and must be saved.
#[derive(Debug, Clone, Copy, PartialEq, Eq)]
pub struct LoopUpdate {
    /// The file length already published or applied.
    pub known_offset: u64,
    /// Whether the state must be persisted now.
    pub save_state: bool,
}

/// The offset the daemon keeps after a tail from `known_offset` that returned the
/// offset `tailed` (`None` when the tail failed): a moved offset is kept and the
/// state saved; otherwise nothing changes.
pub open spec fn tail_update(known_offset: u64, tailed: Option<u64>) -> LoopUpdate {
    match tailed {
        Some(off) => LoopUpdate { known_offset: off, save_state: off != known_offset },
        None => LoopUpdate { known_offset, save_state: false },
    }
}

/// The offset the daemon keeps after a remote event was handled from offset
/// `known_offset`. The daemon publishes pending local bytes before it appends a
/// remote block, and reads the file length `len_before` just before the append.
/// When the block of `block_len` bytes was appended (`applied == Some(true)`)
/// right at the offset (`len_before == Some(known_offset)`), the offset moves past
/// exactly that block, so that it is not published again and no local byte is
/// passed over; when local bytes were still unpublished before the block, or the
/// length could not be read, the offset stays, so that no local byte is lost. An
/// applied block always has the state saved. When the event was skipped or the
/// append failed, nothing changes.
pub open spec fn apply_update(
    known_offset: u64,
    applied: Option<bool>,
    len_before: Option<u64>,
    block_len: u64,
) -> LoopUpdate {
    if applied == Some(true) {
        LoopUpdate {
            known_offset: if len_before == Some(known_offset) && known_offset + block_len
                <= u64::MAX {
                (known_offset + block_len) as u64
            } else {
                known_offset
            },
            save_state: true,
        }
    } else {
        LoopUpdate { known_offset, save_state: false }
    }
}

/// Decides what the daemon keeps after a tail; see [`tail_update`].
pub fn after_tail(known_offset: u64, tailed: Option<u64>) -> (u: LoopUpdate)
    ensures
        u == tail_update(known_offset, tailed),
{
    match tailed {
        Some(off) => LoopUpdate { known_offset: off, save_state: off != known_offset },
        None => LoopUpdate { known_offset, save_state: false },
    }
}

/// Decides what the daemon keeps after a remote event was handled; see
/// [`apply_update`].
pub fn after_apply(known_offset: u64, applied: Option<bool>, len_before: Option<u64>, block_len: u64) -> (u: LoopUpdate)
    ensures
        u == apply_update(known_offset, applied, len_before, block_len),
{
    match applied {
        Some(true) => {
            let at_offset = match len_before {
                Some(len) => len == known_offset,
                None => false,
            };
            let offset = if at_offset && block_len <= u64::MAX - known_offset {
                known_offset + block_len
            } else {
                known_offset
            };
            LoopUpdate { known_offset: offset, save_state: true }
        },
        _ => LoopUpdate { known_offset, save_state: false },
    }
}

/// The name this node goes by: the name it was given, else the host name,
/// else `"unknown"`.
pub open spec fn chosen_name(given: Option<Seq<char>>, host: Option<Seq<char>>) -> Seq<char> {
    match given {
        Some(g) => g,
        None => match host {
            Some(h) => h,
            None => "unknown"@,
        },
    }
}

/// The text of an optional string, as a mathematical value.
pub open spec fn opt_text(s: Option<String>) -> Option<Seq<char>> {
    match s {
        Some(t) => Some(t@),
        None => None,
    }
}

/// Chooses the name of this node: `given` when there is one, else the host name
/// `host` when it could be read as text, else `"unknown"`.
pub fn node_name(given: Option<String>, host: Option<String>) -> (name: String)
    ensures
        name@ == chosen_name(opt_text(given), opt_text(host)),
{
    match given {
        Some(g) => g,
        None => match host {
            Some(h) => h,
            None => String::from_str("unknown"),
        },
    }
}

} // verus!
