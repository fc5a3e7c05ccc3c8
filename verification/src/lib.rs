pub mod cbor;
pub mod error;
pub mod frame;
pub mod json;
pub mod members;
pub mod path;
pub mod pinserver;
pub mod protocol;
pub mod psbt;
pub mod reassembly;
pub mod reply;
pub mod rpc_code;
pub mod serial;
pub mod text;
pub mod transport;
pub mod types;
