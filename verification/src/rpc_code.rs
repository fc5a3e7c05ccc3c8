//! The error codes of the device's RPC protocol.

use vstd::prelude::*;

verus! {

/// The message was not a valid request.
pub const INVALID_REQUEST: i64 = -32600;

/// The firmware does not know the method.
pub const UNKNOWN_METHOD: i64 = -32601;

/// The method did not accept its parameters.
pub const BAD_PARAMETERS: i64 = -32602;

/// The firmware failed in itself.
pub const INTERNAL_ERROR: i64 = -32603;

/// The user declined on the device.
pub const USER_CANCELLED: i64 = -32000;

/// The message does not fit the exchange under way.
pub const PROTOCOL_ERROR: i64 = -32001;

/// The device is locked.
pub const HW_LOCKED: i64 = -32002;

/// The request is for another network than the device is set to.
pub const NETWORK_MISMATCH: i64 = -32003;

} // verus!
