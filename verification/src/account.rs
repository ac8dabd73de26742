//! The account record that the credential store keeps and persists.

use vstd::prelude::*;

verus! {

/// One account entry: a numeric id, the username, the 16-byte salt, the
/// x-coordinate of the Shamir share bound to this entry (0 is a tombstone
/// that is skipped during recovery), and the 33-byte `passhash`: the salted
/// SHA-256 of the password XORed with the share body, followed by one clear
/// byte of the raw hash for partial verification.
#[derive(Debug, Clone)]
pub struct Account {
    pub id: i64,
    pub username: String,
    pub salt: Vec<u8>,
    pub sharenumber: u8,
    pub passhash: Vec<u8>,
}

/// The shape every stored account list has: ids count up from 1 in order,
/// salts are 16 bytes, pass hashes 33 bytes.
pub open spec fn accounts_wf(accs: Seq<Account>) -> bool {
    forall|i: int|
        0 <= i < accs.len() ==> {
            &&& (#[trigger] accs[i]).id == i + 1
            &&& accs[i].salt@.len() == 16
            &&& accs[i].passhash@.len() == 33
        }
}

} // verus!
