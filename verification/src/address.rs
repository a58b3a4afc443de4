//! Addresses of actor systems and of cluster members.

use vstd::prelude::*;

verus! {

/// Transport protocol of an actor system address.
#[derive(PartialEq, Eq, Structural, Clone, Copy, Debug, Hash, PartialOrd, Ord)]
pub enum Protocol {
    Tcp,
}

/// An IPv4 socket address: four octets, most significant first, and a port.
#[derive(PartialEq, Eq, Structural, Clone, Copy, Debug, Hash, PartialOrd, Ord)]
pub struct SocketAddress {
    pub a: u8,
    pub b: u8,
    pub c: u8,
    pub d: u8,
    pub port: u16,
}

/// The address of an actor system: protocol, system name and, for a
/// remote-capable system, its socket address.
#[derive(Debug, Hash)]
pub struct Address {
    pub protocol: Protocol,
    pub system: String,
    pub addr: Option<SocketAddress>,
}

/// What an address stands for.
pub struct AddressView {
    pub protocol: Protocol,
    pub system: Seq<char>,
    pub addr: Option<SocketAddress>,
}

impl View for Address {
    type V = AddressView;

    open spec fn view(&self) -> AddressView {
        AddressView { protocol: self.protocol, system: self.system@, addr: self.addr }
    }
}

impl Clone for Address {
    fn clone(&self) -> (r: Self)
        ensures
            r@ == self@,
    {
        Address { protocol: self.protocol, system: self.system.clone(), addr: self.addr }
    }
}

impl Address {
    /// An address of the given parts.
    pub fn new(protocol: Protocol, system: &str, addr: Option<SocketAddress>) -> (r: Address)
        ensures
            r@ == (AddressView { protocol, system: system@, addr }),
    {
        Address { protocol, system: system.to_owned(), addr }
    }

    /// Whether two addresses are equal.
    pub fn same_as(&self, other: &Address) -> (r: bool)
        ensures
            r == (self@ == other@),
    {
        self.protocol == other.protocol && self.system == other.system && self.addr == other.addr
    }
}

/// A cluster member: the address of its actor system and a unique id of
/// the system's incarnation.
#[derive(Debug)]
pub struct UniqueAddress {
    pub address: Address,
    pub uid: i64,
}

/// What a unique address stands for.
pub struct UniqueAddressView {
    pub address: AddressView,
    pub uid: i64,
}

impl View for UniqueAddress {
    type V = UniqueAddressView;

    open spec fn view(&self) -> UniqueAddressView {
        UniqueAddressView { address: self.address@, uid: self.uid }
    }
}

impl Clone for UniqueAddress {
    fn clone(&self) -> (r: Self)
        ensures
            r@ == self@,
    {
        UniqueAddress { address: self.address.clone(), uid: self.uid }
    }
}

impl UniqueAddress {
    /// Whether two unique addresses are equal.
    pub fn same_as(&self, other: &UniqueAddress) -> (r: bool)
        ensures
            r == (self@ == other@),
    {
        self.uid == other.uid && self.address.same_as(&other.address)
    }

    /// The member's socket address, if it has one.
    pub fn socket_addr(&self) -> (r: Option<SocketAddress>)
        ensures
            r == self.address.addr,
    {
        self.address.addr
    }

    /// The name of the member's actor system.
    pub fn system_name(&self) -> (r: &String)
        ensures
            r@ == self.address.system@,
    {
        &self.address.system
    }
}

} // verus!
