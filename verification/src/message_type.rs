//! The kinds of messages that PBFT nodes exchange.

use vstd::prelude::*;
use vstd::string::StringSliceAdditionalSpecFns;

use crate::byte_string::same_bytes;

verus! {

/// The kind of a PBFT message.
#[derive(Clone, Copy, Debug, PartialEq, Eq, Structural)]
pub enum PbftMessageType {
    PrePrepare,
    Prepare,
    Commit,
    NewView,
    ViewChange,
    SealRequest,
    SealResponse,
    Unset,
}

impl PbftMessageType {
    /// The name under which a message of this kind travels.
    pub open spec fn spec_name(self) -> &'static str {
        match self {
            PbftMessageType::PrePrepare => "PrePrepare",
            PbftMessageType::Prepare => "Prepare",
            PbftMessageType::Commit => "Commit",
            PbftMessageType::NewView => "NewView",
            PbftMessageType::ViewChange => "ViewChange",
            PbftMessageType::SealRequest => "SealRequest",
            PbftMessageType::SealResponse => "SealResponse",
            PbftMessageType::Unset => "Unset",
        }
    }

    /// The bytes of the name.
    pub open spec fn name_bytes(self) -> Seq<u8> {
        self.spec_name().spec_bytes()
    }

    /// The kind with the given name; a name that no kind has is that of no kind.
    pub open spec fn named(name: Seq<u8>) -> PbftMessageType {
        if name == PbftMessageType::PrePrepare.name_bytes() {
            PbftMessageType::PrePrepare
        } else if name == PbftMessageType::Prepare.name_bytes() {
            PbftMessageType::Prepare
        } else if name == PbftMessageType::Commit.name_bytes() {
            PbftMessageType::Commit
        } else if name == PbftMessageType::NewView.name_bytes() {
            PbftMessageType::NewView
        } else if name == PbftMessageType::ViewChange.name_bytes() {
            PbftMessageType::ViewChange
        } else if name == PbftMessageType::SealRequest.name_bytes() {
            PbftMessageType::SealRequest
        } else if name == PbftMessageType::SealResponse.name_bytes() {
            PbftMessageType::SealResponse
        } else {
            PbftMessageType::Unset
        }
    }

    /// The name under which a message of this kind travels.
    pub fn name(&self) -> (name: &'static str)
        ensures
            name == self.spec_name(),
    {
        match self {
            PbftMessageType::PrePrepare => "PrePrepare",
            PbftMessageType::Prepare => "Prepare",
            PbftMessageType::Commit => "Commit",
            PbftMessageType::NewView => "NewView",
            PbftMessageType::ViewChange => "ViewChange",
            PbftMessageType::SealRequest => "SealRequest",
            PbftMessageType::SealResponse => "SealResponse",
            PbftMessageType::Unset => "Unset",
        }
    }

    /// The kind with the given name.
    pub fn from_name(name: &[u8]) -> (kind: PbftMessageType)
        ensures
            kind == Self::named(name@),
    {
        if same_bytes(name, PbftMessageType::PrePrepare.name().as_bytes()) {
            PbftMessageType::PrePrepare
        } else if same_bytes(name, PbftMessageType::Prepare.name().as_bytes()) {
            PbftMessageType::Prepare
        } else if same_bytes(name, PbftMessageType::Commit.name().as_bytes()) {
            PbftMessageType::Commit
        } else if same_bytes(name, PbftMessageType::NewView.name().as_bytes()) {
            PbftMessageType::NewView
        } else if same_bytes(name, PbftMessageType::ViewChange.name().as_bytes()) {
            PbftMessageType::ViewChange
        } else if same_bytes(name, PbftMessageType::SealRequest.name().as_bytes()) {
            PbftMessageType::SealRequest
        } else if same_bytes(name, PbftMessageType::SealResponse.name().as_bytes()) {
            PbftMessageType::SealResponse
        } else {
            PbftMessageType::Unset
        }
    }
}

/// The name of a kind tells the kinds apart, is valid UTF-8, and is short.
pub proof fn lemma_name_round_trip(kind: PbftMessageType)
    ensures
        PbftMessageType::named(kind.name_bytes()) == kind,
        vstd::utf8::valid_utf8(kind.name_bytes()),
        0 < kind.name_bytes().len() <= 12,
{
    reveal_strlit("PrePrepare");
    reveal_strlit("Prepare");
    reveal_strlit("Commit");
    reveal_strlit("NewView");
    reveal_strlit("ViewChange");
    reveal_strlit("SealRequest");
    reveal_strlit("SealResponse");
    reveal_strlit("Unset");
    broadcast use vstd::string::is_ascii_spec_bytes, vstd::utf8::encode_utf8_valid_utf8;
    assert(vstd::string::is_ascii("PrePrepare"));
    assert(vstd::string::is_ascii("Prepare"));
    assert(vstd::string::is_ascii("Commit"));
    assert(vstd::string::is_ascii("NewView"));
    assert(vstd::string::is_ascii("ViewChange"));
    assert(vstd::string::is_ascii("SealRequest"));
    assert(vstd::string::is_ascii("SealResponse"));
    assert(vstd::string::is_ascii("Unset"));
    assert("PrePrepare".spec_bytes().len() == 10);
    assert("Prepare".spec_bytes().len() == 7);
    assert("Commit".spec_bytes().len() == 6);
    assert("NewView".spec_bytes().len() == 7);
    assert("ViewChange".spec_bytes().len() == 10);
    assert("SealRequest".spec_bytes().len() == 11);
    assert("SealResponse".spec_bytes().len() == 12);
    assert("Unset".spec_bytes().len() == 5);
    assert("PrePrepare".spec_bytes()[0] == 80u8);
    assert("Prepare".spec_bytes()[0] == 80u8);
    assert("NewView".spec_bytes()[0] == 78u8);
    assert("ViewChange".spec_bytes()[0] == 86u8);
}

} // verus!
