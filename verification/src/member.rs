use vstd::prelude::*;

verus! {

/// The address of a cluster member: an IPv4 address and a port.
#[derive(Debug, Default, Clone, Copy, PartialEq, Eq, PartialOrd, Ord, Hash, Structural)]
pub struct Member {
    ip0: u8,
    ip1: u8,
    ip2: u8,
    ip3: u8,
    port: u16,
}

impl Member {
    /// The address bytes, in the order given to `new_ipv4`.
    pub closed spec fn address(&self) -> Seq<u8> {
        seq![self.ip0, self.ip1, self.ip2, self.ip3]
    }

    pub closed spec fn port_number(&self) -> u16 {
        self.port
    }

    /// An address has four bytes.
    pub proof fn lemma_address_len(m: Member)
        ensures
            m.address().len() == 4,
    {
    }

    /// A member is its address and port.
    pub proof fn lemma_address_port_determine(a: Member, b: Member)
        requires
            a.address() == b.address(),
            a.port_number() == b.port_number(),
        ensures
            a == b,
    {
        assert(a.address()[0] == b.address()[0]);
        assert(a.address()[1] == b.address()[1]);
        assert(a.address()[2] == b.address()[2]);
        assert(a.address()[3] == b.address()[3]);
    }

    pub fn new_ipv4(ip: [u8; 4], port: u16) -> (m: Self)
        ensures
            m.address() == ip@,
            m.port_number() == port,
    {
        let m = Member { ip0: ip[0], ip1: ip[1], ip2: ip[2], ip3: ip[3], port };
        assert(m.address() =~= ip@);
        m
    }

    pub fn ip(&self) -> (r: [u8; 4])
        ensures
            r@ == self.address(),
    {
        let r = [self.ip0, self.ip1, self.ip2, self.ip3];
        assert(r@ =~= self.address());
        r
    }

    pub fn port(&self) -> (r: u16)
        ensures
            r == self.port_number(),
    {
        self.port
    }

    /// The member packed into one integer: its address bytes, then its port.
    pub closed spec fn packed(&self) -> u64 {
        (self.ip0 as u64) << 40u64 | (self.ip1 as u64) << 32u64 | (self.ip2 as u64) << 24u64 | (
        self.ip3 as u64) << 16u64 | (self.port as u64)
    }

    /// The key under which a map keyed by integers stores this member.
    pub fn key(&self) -> (r: u64)
        ensures
            r == self.packed(),
    {
        (self.ip0 as u64) << 40u64 | (self.ip1 as u64) << 32u64 | (self.ip2 as u64) << 24u64 | (
        self.ip3 as u64) << 16u64 | (self.port as u64)
    }

    /// Distinct members are packed into distinct integers.
    pub proof fn lemma_packed_injective(a: Member, b: Member)
        requires
            a.packed() == b.packed(),
        ensures
            a == b,
    {
        let (a0, a1, a2, a3, ap) = (a.ip0, a.ip1, a.ip2, a.ip3, a.port);
        let (b0, b1, b2, b3, bp) = (b.ip0, b.ip1, b.ip2, b.ip3, b.port);
        assert(a0 == b0 && a1 == b1 && a2 == b2 && a3 == b3 && ap == bp) by (bit_vector)
            requires
                (a0 as u64) << 40u64 | (a1 as u64) << 32u64 | (a2 as u64) << 24u64 | (a3 as u64)
                    << 16u64 | (ap as u64) == (b0 as u64) << 40u64 | (b1 as u64) << 32u64 | (
                b2 as u64) << 24u64 | (b3 as u64) << 16u64 | (bp as u64),
        ;
    }
}

/// The liveness status that a member is known by.
#[derive(Debug, Clone, Copy, PartialEq, Eq, PartialOrd, Ord, Structural)]
pub enum MemberStatus {
    Alive,
    Suspect,
    Confirm,
}

/// What a node knows of one member.
#[derive(Debug, Clone, Copy, PartialEq, Eq, PartialOrd, Ord, Structural)]
pub struct MembershipEntry {
    pub member: Member,
    pub incarnation_counter: u64,
    pub status: MemberStatus,
}

/// A membership update, with the number of times it is still to be gossiped.
#[derive(Debug, Clone, Copy, PartialEq, Eq, PartialOrd, Ord, Structural)]
pub struct MembershipEvent {
    pub entry: MembershipEntry,
    pub infection_number: u64,
}

impl MembershipEvent {
    pub fn new(entry: MembershipEntry, infection_number: u64) -> (e: Self)
        ensures
            e.entry == entry,
            e.infection_number == infection_number,
    {
        MembershipEvent { entry, infection_number }
    }
}

} // verus!
