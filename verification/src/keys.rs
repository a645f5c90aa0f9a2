//! Keys reserved for the node's own bookkeeping, each the ASCII bytes of its
//! name. To the store they are ordinary keys in ordinary columns.

use vstd::prelude::*;

verus! {

/// The bytes of `HEAD`.
pub const HEAD_KEY: [u8; 4] = [72, 69, 65, 68];

/// The bytes of `TAIL`.
pub const TAIL_KEY: [u8; 4] = [84, 65, 73, 76];

/// The bytes of `CHUNK_TAIL`.
pub const CHUNK_TAIL_KEY: [u8; 10] = [67, 72, 85, 78, 75, 95, 84, 65, 73, 76];

/// The bytes of `FORK_TAIL`.
pub const FORK_TAIL_KEY: [u8; 9] = [70, 79, 82, 75, 95, 84, 65, 73, 76];

/// The bytes of `HEADER_HEAD`.
pub const HEADER_HEAD_KEY: [u8; 11] = [72, 69, 65, 68, 69, 82, 95, 72, 69, 65, 68];

/// The bytes of `FINAL_HEAD`.
pub const FINAL_HEAD_KEY: [u8; 10] = [70, 73, 78, 65, 76, 95, 72, 69, 65, 68];

/// The bytes of `LATEST_KNOWN`.
pub const LATEST_KNOWN_KEY: [u8; 12] = [76, 65, 84, 69, 83, 84, 95, 75, 78, 79, 87, 78];

/// The bytes of `LARGEST_TARGET_HEIGHT`.
pub const LARGEST_TARGET_HEIGHT_KEY: [u8; 21] = [76, 65, 82, 71, 69, 83, 84, 95, 84, 65, 82, 71, 69, 84, 95, 72, 69, 73, 71, 72, 84];

/// The bytes of `GENESIS_JSON_HASH`.
pub const GENESIS_JSON_HASH_KEY: [u8; 17] = [71, 69, 78, 69, 83, 73, 83, 95, 74, 83, 79, 78, 95, 72, 65, 83, 72];

/// The bytes of `GENESIS_STATE_ROOTS`.
pub const GENESIS_STATE_ROOTS_KEY: [u8; 19] = [71, 69, 78, 69, 83, 73, 83, 95, 83, 84, 65, 84, 69, 95, 82, 79, 79, 84, 83];

/// The bytes of `COLD_HEAD`.
pub const COLD_HEAD_KEY: [u8; 9] = [67, 79, 76, 68, 95, 72, 69, 65, 68];

} // verus!
