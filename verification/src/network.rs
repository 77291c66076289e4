//! The networks that a chain can belong to.

use vstd::prelude::*;

verus! {

/// Identifies a network.
#[derive(Clone, Copy, Debug, PartialEq, Eq, Structural, Hash)]
pub enum NetID {
    Testnet,
    Mainnet,
}

/// The byte that stands for a network: 1 for the test network, 255 for the
/// main network.
pub open spec fn net_byte(id: NetID) -> u8 {
    match id {
        NetID::Testnet => 0x01,
        NetID::Mainnet => 0xff,
    }
}

impl NetID {
    /// The byte that stands for the network.
    pub fn to_u8(self) -> (b: u8)
        ensures
            b == net_byte(self),
    {
        match self {
            NetID::Testnet => 0x01,
            NetID::Mainnet => 0xff,
        }
    }

    /// The network that a byte stands for, if it stands for one.
    pub fn from_u8(b: u8) -> (r: Option<NetID>)
        ensures
            match r {
                Some(id) => net_byte(id) == b,
                None => b != 0x01 && b != 0xff,
            },
    {
        if b == 0x01 {
            Some(NetID::Testnet)
        } else if b == 0xff {
            Some(NetID::Mainnet)
        } else {
            None
        }
    }
}

} // verus!
