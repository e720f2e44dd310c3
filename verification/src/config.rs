//! What the node is configured with, on-chain and off.

use vstd::prelude::*;

use crate::block::PeerId;
use crate::byte_string::byte_strings;
use crate::hex_text::{decode_hex, hex_bytes};
use crate::timing::MAX_DURATION;

verus! {

/// Why a text is not JSON of the expected form.
#[verifier::external_type_specification]
#[verifier::external_body]
pub struct ExJsonError(serde_json::Error);

/// The configuration of a node. Durations are in nanoseconds.
#[derive(Debug)]
pub struct PbftConfig {
    /// The nodes of the network, in the order in which they become primary
    pub peers: Vec<PeerId>,
    /// How long to wait for the next block before the primary is taken to be faulty
    pub faulty_primary_timeout: u128,
    /// How long to wait for a block to be committed once there is a `PrePrepare` for it
    pub commit_timeout: u128,
    /// How long to wait for a view change, for each view that is skipped
    pub view_change_duration: u128,
    /// The first pause between tries of a request
    pub exponential_retry_base: u128,
    /// The longest pause between tries of a request
    pub exponential_retry_max: u128,
    /// After how many blocks the primary changes in any case
    pub forced_view_change_period: u64,
    /// How many messages the log may hold before it is cleaned up
    pub max_log_size: u64,
}

impl PbftConfig {
    /// Whether a node can run with the configuration: there are enough nodes to be fault tolerant,
    /// and the numbers are in range.
    pub open spec fn valid(&self) -> bool {
        &&& self.peers@.len() >= 4
        &&& self.faulty_primary_timeout <= MAX_DURATION
        &&& self.commit_timeout <= MAX_DURATION
        &&& self.view_change_duration <= MAX_DURATION
        &&& self.forced_view_change_period > 0
    }
}

/// The texts of a list of strings.
pub open spec fn texts(list: Seq<String>) -> Seq<Seq<char>> {
    Seq::new(list.len(), |i: int| list[i]@)
}

/// The strings that a JSON text lists; `None` where it is no list of strings.
pub uninterp spec fn json_strings(text: Seq<char>) -> Option<Seq<Seq<char>>>;

/// Reads a JSON list of strings: `serde_json::from_str`.
///
/// Trusted: that the outcome is a function of the text alone, the one named `json_strings` here.
#[verifier::external_body]
fn read_json_strings(text: &String) -> (r: Result<Vec<String>, serde_json::Error>)
    ensures
        (match r {
            Ok(list) => json_strings(text@) == Some(texts(list@)),
            Err(_) => json_strings(text@) is None,
        }),
{
    serde_json::from_str::<Vec<String>>(text.as_str())
}

/// The byte strings that the given texts write in hexadecimal; `None` where one of them writes
/// none.
pub open spec fn hex_list(list: Seq<Seq<char>>) -> Option<Seq<Seq<u8>>> {
    if forall|i: int| 0 <= i < list.len() ==> hex_bytes(#[trigger] list[i]) is Some {
        Some(Seq::new(list.len(), |i: int| hex_bytes(list[i])->0))
    } else {
        None
    }
}

/// The peers that the setting `sawtooth.consensus.pbft.peers` lists; `None` where it is unset or
/// invalid.
pub open spec fn listed_peers(setting: Option<Seq<char>>) -> Option<Seq<Seq<u8>>> {
    match setting {
        Some(text) => match json_strings(text) {
            Some(list) => hex_list(list),
            None => None,
        },
        None => None,
    }
}

/// The text of an optional string.
pub open spec fn optional_text(text: Option<String>) -> Option<Seq<char>> {
    match text {
        Some(text) => Some(text@),
        None => None,
    }
}

/// Reads the IDs of peers, each written in hexadecimal.
pub fn peers_from_texts(list: &Vec<String>) -> (r: Option<Vec<PeerId>>)
    ensures
        (match r {
            Some(peers) => hex_list(texts(list@)) == Some(byte_strings(peers@)),
            None => hex_list(texts(list@)) is None,
        }),
{
    let mut peers: Vec<PeerId> = Vec::new();
    let mut i: usize = 0;
    while i < list.len()
        invariant
            i <= list@.len(),
            peers@.len() == i,
            forall|j: int|
                0 <= j < i ==> hex_bytes(#[trigger] texts(list@)[j]) == Some(peers@[j]@),
        decreases list@.len() - i,
    {
        match decode_hex(&list[i]) {
            Ok(peer) => {
                assert(texts(list@)[i as int] == list@[i as int]@);
                peers.push(peer);
            },
            Err(_) => {
                assert(hex_bytes(texts(list@)[i as int]) is None);
                return None;
            },
        }
        i += 1;
    }
    proof {
        let decoded = hex_list(texts(list@));
        assert(decoded is Some);
        assert forall|j: int| 0 <= j < peers@.len() implies decoded->0[j] == byte_strings(
            peers@,
        )[j] by {
            assert(hex_bytes(texts(list@)[j]) == Some(peers@[j]@));
        }
        assert(decoded->0 =~= byte_strings(peers@));
    }
    Some(peers)
}

/// Reads the peers from the value of the setting `sawtooth.consensus.pbft.peers`, a JSON list of
/// hexadecimal IDs. `None` where the setting is unset or invalid.
pub fn get_peers_from_settings(setting: &Option<String>) -> (r: Option<Vec<PeerId>>)
    ensures
        (match r {
            Some(peers) => listed_peers(optional_text(*setting)) == Some(byte_strings(peers@)),
            None => listed_peers(optional_text(*setting)) is None,
        }),
{
    match setting {
        Some(text) => match read_json_strings(text) {
            Ok(list) => peers_from_texts(&list),
            Err(_) => None,
        },
        None => None,
    }
}

} // verus!
