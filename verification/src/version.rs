//! The handshake message that two peers exchange when a connection opens.

use vstd::prelude::*;

verus! {

/// A peer's socket address as plain numbers: the address bits, most
/// significant octet first, the port, and for the longer address family its
/// flow label and scope.
#[derive(Clone, Copy, Debug, PartialEq, Eq, Structural, Hash)]
pub enum PeerAddress {
    V4 { ip: u32, port: u16 },
    V6 { ip: u128, port: u16, flow_info: u32, scope_id: u32 },
}

/// The first message of a handshake. It is not changed after it is made, and
/// two messages are equal exactly when all six fields are.
#[derive(Clone, Copy, Debug, PartialEq, Eq, Structural, Hash)]
pub struct Version {
    /// The version number of the sender's node server.
    pub version: u64,
    /// The block height of the sender's node server.
    pub height: u32,
    /// The nonce of the connection request, by which a peer recognises a
    /// connection to itself or a duplicate. It protects nothing.
    pub nonce: u64,
    /// The address of the sender.
    pub sender: PeerAddress,
    /// The address of the recipient.
    pub receiver: PeerAddress,
    /// Seconds since the Unix epoch at which the message was made.
    pub timestamp: i64,
}

/// Reads the clock through `chrono::Utc::now` and gives the moment as
/// `DateTime::timestamp` does, in whole seconds since the Unix epoch. Nothing
/// is claimed of the value. The call does not return normally on a machine
/// whose clock is set before 1970.
#[verifier::external_body]
fn current_timestamp() -> (seconds: i64) {
    chrono::Utc::now().timestamp()
}

/// Draws a `u64` from `rand::thread_rng` with `Rng::gen`. Nothing is claimed
/// of the value: two calls may or may not agree. The call does not return
/// normally where the system's source of randomness cannot be opened.
#[verifier::external_body]
fn random_nonce() -> (nonce: u64) {
    let mut rng = rand::thread_rng();
    rand::Rng::gen::<u64>(&mut rng)
}

impl Version {
    /// The message with exactly these six fields.
    pub fn from_parts(
        version: u64,
        height: u32,
        nonce: u64,
        sender: PeerAddress,
        receiver: PeerAddress,
        timestamp: i64,
    ) -> (message: Version)
        ensures
            message == (Version { version, height, nonce, sender, receiver, timestamp }),
    {
        Version { version, height, nonce, sender, receiver, timestamp }
    }

    /// A message with the given nonce, stamped with the current time.
    pub fn new(version: u64, height: u32, nonce: u64, sender: PeerAddress, receiver: PeerAddress) -> (message:
        Version)
        ensures
            message == (Version { timestamp: message.timestamp, version, height, nonce, sender, receiver }),
    {
        let timestamp: i64 = current_timestamp();
        Version::from_parts(version, height, nonce, sender, receiver, timestamp)
    }

    /// A message with a freshly drawn nonce, stamped with the current time.
    pub fn new_with_rng(version: u64, height: u32, sender: PeerAddress, receiver: PeerAddress) -> (message:
        Version)
        ensures
            message == (Version {
                nonce: message.nonce,
                timestamp: message.timestamp,
                version,
                height,
                sender,
                receiver,
            }),
    {
        let nonce: u64 = random_nonce();
        let timestamp: i64 = current_timestamp();
        Version::from_parts(version, height, nonce, sender, receiver, timestamp)
    }

    /// Whether two messages are the same in every field.
    pub fn same_as(&self, other: &Version) -> (same: bool)
        ensures
            same == (*self == *other),
    {
        *self == *other
    }
}

/// Messages made from the same six fields are equal.
pub proof fn lemma_equal_fields_equal_messages(a: Version, b: Version)
    requires
        a.version == b.version,
        a.height == b.height,
        a.nonce == b.nonce,
        a.sender == b.sender,
        a.receiver == b.receiver,
        a.timestamp == b.timestamp,
    ensures
        a == b,
{
}

} // verus!
