//! The consensus state of a node.
use crate::message::{PrePrepare, PrePrepareView};
use std::collections::{HashMap, HashSet};
use vstd::prelude::*;

verus! {

/// Where a node stands in the protocol.
#[derive(Debug, Clone, Copy, PartialEq, Eq, Structural)]
pub enum Step {
    /// Starting up: waiting for the other nodes to tell the current view.
    ReceivingViewResponse,
    /// Waiting for the primary's sequence number.
    ReceivingStateResponse,
    /// Waiting for the blocks it lacks.
    ReceivingSyncResponse,
    /// The primary has gone silent.
    NoPrimary,
    /// A view change is under way.
    ReceivingViewChange,
    /// A view change waits for the announcements of the other nodes.
    ReceivingNewView,
    /// Idle, ready for the next proposal (`Ok` in the protocol's wording).
    Okay,
    /// A proposal was accepted; collecting prepares.
    ReceivingPrepare,
    /// Enough prepares came; collecting commits.
    ReceiveingCommit,
}

/// The consensus state of a node.
pub struct Pbft {
    pub view_number: u64,
    pub sequence_number: u64,
    pub step: Step,
    pub start_time: u64,
    pub preprepare: Option<PrePrepare>,
    pub prepares: HashSet<u64>,
    pub commits: HashSet<u64>,
    pub new_view_number: u64,
    pub view_change_collect_map: HashMap<u64, HashSet<u64>>,
}

/// What the consensus state holds.
pub struct PbftView {
    pub view_number: u64,
    pub sequence_number: u64,
    pub step: Step,
    pub start_time: u64,
    pub preprepare: Option<PrePrepareView>,
    pub prepares: Set<u64>,
    pub commits: Set<u64>,
    pub new_view_number: u64,
    pub view_change_collect_map: Map<u64, Set<u64>>,
}

pub open spec fn preprepare_view(p: Option<PrePrepare>) -> Option<PrePrepareView> {
    match p {
        Some(m) => Some(m@),
        None => None,
    }
}

/// The node ids collected for each view.
pub open spec fn collected_sets(m: Map<u64, HashSet<u64>>) -> Map<u64, Set<u64>> {
    m.map_values(|s: HashSet<u64>| s@)
}

impl View for Pbft {
    type V = PbftView;

    open spec fn view(&self) -> PbftView {
        PbftView {
            view_number: self.view_number,
            sequence_number: self.sequence_number,
            step: self.step,
            start_time: self.start_time,
            preprepare: preprepare_view(self.preprepare),
            prepares: self.prepares@,
            commits: self.commits@,
            new_view_number: self.new_view_number,
            view_change_collect_map: collected_sets(self.view_change_collect_map@),
        }
    }
}

impl Pbft {
    /// The state of a node that starts in a view at a sequence number at time
    /// `start_time`: it first asks the other nodes for the current view.
    pub fn new(view_number: u64, sequence_number: u64, start_time: u64) -> (pbft: Self)
        ensures
            pbft.start_time == start_time,
            pbft.view_number == view_number,
            pbft.sequence_number == sequence_number,
            pbft.step == Step::ReceivingViewResponse,
            pbft.preprepare is None,
            pbft.prepares@ == Set::<u64>::empty(),
            pbft.commits@ == Set::<u64>::empty(),
            pbft.new_view_number == view_number,
            pbft.view_change_collect_map@ == Map::<u64, HashSet<u64>>::empty(),
    {
        Pbft {
            view_number: view_number,
            sequence_number: sequence_number,
            step: Step::ReceivingViewResponse,
            start_time: start_time,
            preprepare: None,
            prepares: HashSet::new(),
            commits: HashSet::new(),
            view_change_collect_map: HashMap::new(),
            new_view_number: view_number,
        }
    }
}

} // verus!
