//! The JSON-RPC surface of the gas station: request and response shapes
//! for the reserve and execute endpoints, and their validation bounds.
pub mod rpc_types;
