//! What the node keeps in mind from one update to the next.

use vstd::prelude::*;

use crate::block::{BlockId, PeerId};
use crate::byte_string::{byte_strings, copy_bytes, copy_list, same_bytes};
use crate::config::PbftConfig;
use crate::error::{InternalFault, PbftError};
use crate::timing::{MAX_DURATION, Timeout};

verus! {

/// Whether the node follows the normal course or changes to another view.
#[derive(Clone, Copy, Debug, PartialEq, Eq, Structural)]
pub enum PbftMode {
    Normal,
    /// The node is changing to the given view
    ViewChanging(u64),
}

/// How far the node is with the block at its sequence number.
#[derive(Debug, PartialEq, Eq)]
pub enum PbftPhase {
    /// Waiting for a block and a `PrePrepare` for it
    PrePreparing,
    /// Waiting for enough `Prepare`s
    Preparing,
    /// Waiting for enough `Commit`s
    Committing,
    /// Waiting for the validator to commit the block; whether the node is catching up
    Finishing(BlockId, bool),
}

/// The contents of a `PbftPhase`.
#[verifier::ext_equal]
pub enum PhaseView {
    PrePreparing,
    Preparing,
    Committing,
    Finishing(Seq<u8>, bool),
}

impl View for PbftPhase {
    type V = PhaseView;

    open spec fn view(&self) -> PhaseView {
        match self {
            PbftPhase::PrePreparing => PhaseView::PrePreparing,
            PbftPhase::Preparing => PhaseView::Preparing,
            PbftPhase::Committing => PhaseView::Committing,
            PbftPhase::Finishing(block_id, catching_up) => PhaseView::Finishing(
                block_id@,
                *catching_up,
            ),
        }
    }
}

impl Clone for PbftPhase {
    fn clone(&self) -> (copy: Self)
        ensures
            copy@ == self@,
    {
        match self {
            PbftPhase::PrePreparing => PbftPhase::PrePreparing,
            PbftPhase::Preparing => PbftPhase::Preparing,
            PbftPhase::Committing => PbftPhase::Committing,
            PbftPhase::Finishing(block_id, catching_up) => PbftPhase::Finishing(
                copy_bytes(block_id),
                *catching_up,
            ),
        }
    }
}

impl PhaseView {
    /// Whether the algorithm goes from this phase to the given one.
    pub open spec fn leads_to(self, next: PhaseView) -> bool {
        match (self, next) {
            (PhaseView::PrePreparing, PhaseView::Preparing) => true,
            (PhaseView::Preparing, PhaseView::Committing) => true,
            (PhaseView::Committing, PhaseView::Finishing(_, _)) => true,
            (PhaseView::Finishing(_, _), PhaseView::PrePreparing) => true,
            _ => false,
        }
    }
}

/// The state of a node. Durations and moments are in nanoseconds.
#[derive(Debug)]
pub struct PbftState {
    /// This node
    pub id: PeerId,
    /// The sequence number of the block that the node works on
    pub seq_num: u64,
    /// The current view
    pub view: u64,
    /// How far the node is with the block
    pub phase: PbftPhase,
    /// Whether the node is changing its view
    pub mode: PbftMode,
    /// The nodes of the network, in the order in which they become primary
    pub peer_ids: Vec<PeerId>,
    /// How many nodes may be faulty
    pub f: u64,
    /// Runs while the node waits for a block from the primary
    pub faulty_primary_timeout: Timeout,
    /// Runs while the node waits for a block to be committed
    pub commit_timeout: Timeout,
    /// Runs while the node waits for a view change
    pub view_change_timeout: Timeout,
    /// How long a view change may take, for each view that is skipped
    pub view_change_duration: u128,
    /// The first pause between tries of a request
    pub exponential_retry_base: u128,
    /// The longest pause between tries of a request
    pub exponential_retry_max: u128,
    /// After how many blocks the primary changes in any case
    pub forced_view_change_period: u64,
    /// What the time is
    pub now: u128,
}

/// The contents of a `PbftState`.
#[verifier::ext_equal]
pub struct StateView {
    pub id: Seq<u8>,
    pub seq_num: u64,
    pub view: u64,
    pub phase: PhaseView,
    pub mode: PbftMode,
    pub peer_ids: Seq<Seq<u8>>,
    pub f: u64,
    pub faulty_primary_timeout: Timeout,
    pub commit_timeout: Timeout,
    pub view_change_timeout: Timeout,
    pub view_change_duration: u128,
    pub exponential_retry_base: u128,
    pub exponential_retry_max: u128,
    pub forced_view_change_period: u64,
    pub now: u128,
}

impl View for PbftState {
    type V = StateView;

    open spec fn view(&self) -> StateView {
        StateView {
            id: self.id@,
            seq_num: self.seq_num,
            view: self.view,
            phase: self.phase@,
            mode: self.mode,
            peer_ids: byte_strings(self.peer_ids@),
            f: self.f,
            faulty_primary_timeout: self.faulty_primary_timeout,
            commit_timeout: self.commit_timeout,
            view_change_timeout: self.view_change_timeout,
            view_change_duration: self.view_change_duration,
            exponential_retry_base: self.exponential_retry_base,
            exponential_retry_max: self.exponential_retry_max,
            forced_view_change_period: self.forced_view_change_period,
            now: self.now,
        }
    }
}

impl Clone for PbftState {
    fn clone(&self) -> (copy: Self)
        ensures
            copy@ == self@,
    {
        PbftState {
            id: copy_bytes(&self.id),
            seq_num: self.seq_num,
            view: self.view,
            phase: self.phase.clone(),
            mode: self.mode,
            peer_ids: copy_list(&self.peer_ids),
            f: self.f,
            faulty_primary_timeout: self.faulty_primary_timeout,
            commit_timeout: self.commit_timeout,
            view_change_timeout: self.view_change_timeout,
            view_change_duration: self.view_change_duration,
            exponential_retry_base: self.exponential_retry_base,
            exponential_retry_max: self.exponential_retry_max,
            forced_view_change_period: self.forced_view_change_period,
            now: self.now,
        }
    }
}

/// How many of the given number of nodes may be faulty.
pub open spec fn tolerated_faults(nodes: nat) -> nat {
    ((nodes - 1) / 3) as nat
}

impl StateView {
    /// Whether the parts of the state fit together: there are enough nodes to be fault tolerant,
    /// and the numbers are in range.
    pub open spec fn wf(self) -> bool {
        &&& self.seq_num >= 1
        &&& self.peer_ids.len() >= 4
        &&& self.peer_ids.len() <= usize::MAX
        &&& self.f == tolerated_faults(self.peer_ids.len())
        &&& self.view_change_duration <= MAX_DURATION
        &&& self.forced_view_change_period > 0
    }

    /// The node that is primary at the given view.
    pub open spec fn primary_at(self, view: u64) -> Seq<u8> {
        self.peer_ids[view as int % self.peer_ids.len() as int]
    }

    /// The primary.
    pub open spec fn primary(self) -> Seq<u8> {
        self.primary_at(self.view)
    }

    /// Whether this node is primary at the given view.
    pub open spec fn is_primary_at(self, view: u64) -> bool {
        self.primary_at(view) == self.id
    }

    /// Whether this node is the primary.
    pub open spec fn is_primary(self) -> bool {
        self.is_primary_at(self.view)
    }

    /// Whether the node is in the process of a view change.
    pub open spec fn view_changing(self) -> bool {
        self.mode is ViewChanging
    }

    /// Whether the block before the current one was the last of a period after which the primary
    /// changes.
    pub open spec fn at_forced_view_change(self) -> bool {
        self.seq_num % self.forced_view_change_period == 0
    }

    /// The state at the beginning of the algorithm.
    pub open spec fn reset(self) -> StateView {
        StateView {
            phase: PhaseView::PrePreparing,
            mode: PbftMode::Normal,
            faulty_primary_timeout: self.faulty_primary_timeout.started_at(self.now),
            commit_timeout: self.commit_timeout.stopped(),
            ..self
        }
    }

    /// The state in the given phase.
    pub open spec fn in_phase(self, phase: PhaseView) -> StateView {
        StateView { phase, ..self }
    }

    /// The state of a node that starts on top of the given chain head.
    pub open spec fn initial(id: Seq<u8>, head_block_num: u64, config: PbftConfig) -> StateView {
        StateView {
            id,
            seq_num: (head_block_num + 1) as u64,
            view: 0,
            phase: PhaseView::PrePreparing,
            mode: PbftMode::Normal,
            peer_ids: byte_strings(config.peers@),
            f: tolerated_faults(config.peers@.len()) as u64,
            faulty_primary_timeout: Timeout::fresh(config.faulty_primary_timeout),
            commit_timeout: Timeout::fresh(config.commit_timeout),
            view_change_timeout: Timeout::fresh(config.view_change_duration),
            view_change_duration: config.view_change_duration,
            exponential_retry_base: config.exponential_retry_base,
            exponential_retry_max: config.exponential_retry_max,
            forced_view_change_period: config.forced_view_change_period,
            now: 0,
        }
    }
}

impl PbftState {
    /// Makes the state of a node that starts on top of the given chain head.
    pub fn new(id: PeerId, head_block_num: u64, config: &PbftConfig) -> (state: PbftState)
        requires
            config.valid(),
            head_block_num < u64::MAX,
        ensures
            state@ == StateView::initial(id@, head_block_num, *config),
            state@.wf(),
            3 * state.f + 1 <= config.peers@.len() < 3 * (state.f + 1) + 1,
    {
        PbftState {
            id,
            seq_num: head_block_num + 1,
            view: 0,
            phase: PbftPhase::PrePreparing,
            mode: PbftMode::Normal,
            peer_ids: copy_list(&config.peers),
            f: ((config.peers.len() - 1) / 3) as u64,
            faulty_primary_timeout: Timeout::new(config.faulty_primary_timeout),
            commit_timeout: Timeout::new(config.commit_timeout),
            view_change_timeout: Timeout::new(config.view_change_duration),
            view_change_duration: config.view_change_duration,
            exponential_retry_base: config.exponential_retry_base,
            exponential_retry_max: config.exponential_retry_max,
            forced_view_change_period: config.forced_view_change_period,
            now: 0,
        }
    }

    /// The primary's ID at the given view.
    pub fn get_primary_id_at_view(&self, view: u64) -> (id: PeerId)
        requires
            self@.wf(),
        ensures
            id@ == self@.primary_at(view),
    {
        let index: usize = (view % (self.peer_ids.len() as u64)) as usize;
        copy_bytes(&self.peer_ids[index])
    }

    /// The primary's ID.
    pub fn get_primary_id(&self) -> (id: PeerId)
        requires
            self@.wf(),
        ensures
            id@ == self@.primary(),
    {
        self.get_primary_id_at_view(self.view)
    }

    /// Whether this node is primary at the given view.
    pub fn is_primary_at_view(&self, view: u64) -> (primary: bool)
        requires
            self@.wf(),
        ensures
            primary == self@.is_primary_at(view),
    {
        same_bytes(&self.get_primary_id_at_view(view), &self.id)
    }

    /// Whether this node is the primary.
    pub fn is_primary(&self) -> (primary: bool)
        requires
            self@.wf(),
        ensures
            primary == self@.is_primary(),
    {
        self.is_primary_at_view(self.view)
    }

    /// Whether the node is in the process of a view change.
    pub fn is_view_changing(&self) -> (changing: bool)
        ensures
            changing == self@.view_changing(),
    {
        match self.mode {
            PbftMode::ViewChanging(_) => true,
            PbftMode::Normal => false,
        }
    }

    /// Whether a view change must be forced so that every node becomes primary in turn.
    pub fn at_forced_view_change(&self) -> (forced: bool)
        requires
            self@.wf(),
        ensures
            forced == self@.at_forced_view_change(),
    {
        self.seq_num % self.forced_view_change_period == 0
    }

    /// Switches to the given phase if it is the next one, and fails otherwise.
    pub fn switch_phase(&mut self, desired_phase: PbftPhase) -> (r: Result<(), PbftError>)
        ensures
            (match r {
                Ok(_) => old(self)@.phase.leads_to(desired_phase@) && final(self)@ == old(
                    self,
                )@.in_phase(desired_phase@),
                Err(error) => !old(self)@.phase.leads_to(desired_phase@) && final(self)@ == old(
                    self,
                )@ && error == PbftError::InternalError(InternalFault::WrongPhase),
            }),
    {
        let is_next = match (&self.phase, &desired_phase) {
            (PbftPhase::PrePreparing, PbftPhase::Preparing) => true,
            (PbftPhase::Preparing, PbftPhase::Committing) => true,
            (PbftPhase::Committing, PbftPhase::Finishing(_, _)) => true,
            (PbftPhase::Finishing(_, _), PbftPhase::PrePreparing) => true,
            _ => false,
        };
        if is_next {
            self.phase = desired_phase;
            Ok(())
        } else {
            Err(PbftError::InternalError(InternalFault::WrongPhase))
        }
    }

    /// Goes back to the beginning of the algorithm, and starts to wait for the next block.
    pub fn reset_to_start(&mut self)
        ensures
            final(self)@ == old(self)@.reset(),
    {
        self.phase = PbftPhase::PrePreparing;
        self.mode = PbftMode::Normal;
        self.faulty_primary_timeout.start(self.now);
        self.commit_timeout.stop();
    }
}

} // verus!
