//! A store for one-time pre-key bundles used to bootstrap end-to-end
//! encrypted sessions between devices.
//!
//! Each device publishes batches of opaque pre-key bundles; other devices
//! withdraw (consume) one bundle per target device when opening a new
//! session. The library guarantees that no bundle is ever handed out twice,
//! that storage per device stays bounded, and that device registration fans
//! the new device into every group its owner already belongs to.

use vstd::prelude::*;

pub mod e2ee;
pub mod laws;
pub mod store;

verus! {

/// Opaque identity handle of an account.
pub type AccountId = u64;

/// Unsigned device identifier, scoped to an account.
pub type DeviceId = u32;

/// Identifier of a group of accounts.
pub type GroupId = u64;

/// Serialized pre-key bundle; the store never looks inside.
pub type PreKeyBundle = Vec<u8>;

/// Caller-chosen request identifier for a withdrawal; opaque bytes.
pub type RequestId = Vec<u8>;

/// Everything that can go wrong in the store's operations.
#[derive(Clone, Copy, Debug, PartialEq, Eq, Structural)]
pub enum Error {
    /// An append would push a device's bundle list past `MAX_PKBS`.
    CapacityExceeded,
    /// A withdrawal request named more than `WITHDRAW_LIST_MAX_LEN` keys.
    TooManyKeys,
    /// The device id is already registered for this account.
    DeviceAlreadyRegistered,
}

} // verus!
