//! The shape of a sing-box outbound.

use vstd::prelude::*;

verus! {

/// Sing-box outbound for supported protocols.
#[derive(Default, Debug, Clone, PartialEq)]
pub struct Root {
    pub type_field: String,
    pub tag: String,
    pub server: String,
    pub server_port: i64,
    pub uuid: String,
    pub flow: String,
    pub network: String,
    pub tls: Tls,
    pub packet_encoding: String,
    pub multiplex: Multiplex,
    pub transport: Transport,
}

#[derive(Default, Debug, Clone, PartialEq)]
pub struct Tls {}

#[derive(Default, Debug, Clone, PartialEq)]
pub struct Multiplex {}

#[derive(Default, Debug, Clone, PartialEq)]
pub struct Transport {}

} // verus!
