//! A sample domain: branches of a company, with a name and a country.

use vstd::prelude::*;
use crate::aggregate::{AggregatePayload, AggregateProjector, EmptyAggregatePayload};
use crate::aggregate::AggregateView;
use crate::command::{
    lemma_nothing_emitted, option_seq, Command, CommandContext, CommandWithHandler,
};
use crate::entropy::random_uuid;
use crate::event::{EventCommon, EventPayload, EventView};
use crate::partition::{default_partition_name, PartitionKeys, PartitionKeysView};

verus! {

/// A branch was opened.
#[derive(Debug)]
pub struct BranchCreated {
    pub name: String,
    pub country: String,
}

/// A branch was renamed.
#[derive(Debug)]
pub struct BranchNameChanged {
    pub name: String,
}

/// A branch moved to another country.
#[derive(Debug)]
pub struct BranchCountryNameChanged {
    pub country: String,
}

/// The events of a branch.
#[derive(Debug)]
pub enum BranchEvent {
    Created(BranchCreated),
    NameChanged(BranchNameChanged),
    CountryNameChanged(BranchCountryNameChanged),
}

/// A branch as it stands.
#[derive(Debug)]
pub struct Branch {
    pub name: String,
    pub country: String,
}

/// The states of a branch aggregate.
#[derive(Debug)]
pub enum BranchState {
    Empty(EmptyAggregatePayload),
    Branch(Branch),
}

impl Branch {
    /// A copy of the branch.
    pub fn clone_branch(&self) -> (r: Branch)
        ensures
            r == *self,
    {
        Branch { name: self.name.clone(), country: self.country.clone() }
    }
}

impl EventPayload for BranchEvent {
    fn clone_payload(&self) -> (r: Self) {
        match self {
            BranchEvent::Created(e) => BranchEvent::Created(
                BranchCreated { name: e.name.clone(), country: e.country.clone() },
            ),
            BranchEvent::NameChanged(e) => BranchEvent::NameChanged(
                BranchNameChanged { name: e.name.clone() },
            ),
            BranchEvent::CountryNameChanged(e) => BranchEvent::CountryNameChanged(
                BranchCountryNameChanged { country: e.country.clone() },
            ),
        }
    }
}

impl AggregatePayload for BranchState {
    open spec fn spec_empty() -> Self {
        BranchState::Empty(EmptyAggregatePayload {  })
    }

    fn empty() -> (r: Self) {
        BranchState::Empty(EmptyAggregatePayload {  })
    }

    fn clone_payload(&self) -> (r: Self) {
        match self {
            BranchState::Empty(e) => BranchState::Empty(*e),
            BranchState::Branch(b) => BranchState::Branch(b.clone_branch()),
        }
    }
}

/// How a branch's state follows from its events: creation sets name and
/// country, renaming and moving change one of them, and an event that does
/// not apply to the state (a change before creation) leaves it as it was.
pub open spec fn branch_transition(state: BranchState, event: BranchEvent) -> BranchState {
    match event {
        BranchEvent::Created(c) => BranchState::Branch(Branch { name: c.name, country: c.country }),
        BranchEvent::NameChanged(n) => match state {
            BranchState::Branch(b) => BranchState::Branch(Branch { name: n.name, country: b.country }),
            BranchState::Empty(_) => state,
        },
        BranchEvent::CountryNameChanged(c) => match state {
            BranchState::Branch(b) => BranchState::Branch(Branch { name: b.name, country: c.country }),
            BranchState::Empty(_) => state,
        },
    }
}

/// The projector of branch aggregates.
#[derive(Debug)]
pub struct BranchProjector {}

impl AggregateProjector<BranchEvent, BranchState> for BranchProjector {
    open spec fn transition(&self, state: BranchState, event: EventView<BranchEvent>) -> BranchState {
        branch_transition(state, event.payload)
    }

    open spec fn schema_version(&self) -> Seq<char> {
        seq!['i', 'n', 'i', 't', 'i', 'a', 'l']
    }

    fn project(&self, payload: &BranchState, ev: &EventCommon<BranchEvent>) -> (r: BranchState) {
        match &ev.payload {
            BranchEvent::Created(c) => BranchState::Branch(
                Branch { name: c.name.clone(), country: c.country.clone() },
            ),
            BranchEvent::NameChanged(n) => match payload {
                BranchState::Branch(b) => BranchState::Branch(
                    Branch { name: n.name.clone(), country: b.country.clone() },
                ),
                BranchState::Empty(e) => BranchState::Empty(*e),
            },
            BranchEvent::CountryNameChanged(c) => match payload {
                BranchState::Branch(b) => BranchState::Branch(
                    Branch { name: b.name.clone(), country: c.country.clone() },
                ),
                BranchState::Empty(e) => BranchState::Empty(*e),
            },
        }
    }

    fn get_version(&self) -> (r: &'static str) {
        proof {
            reveal_strlit("initial");
        }
        "initial"
    }

    fn clone_box(&self) -> (r: Self) {
        BranchProjector {  }
    }
}

/// Open a branch under a new aggregate id.
pub struct CreateBranchCommand {
    pub name: String,
    pub country: String,
}

/// Rename the branch in `partition_keys`.
pub struct ChangeBranchNameCommand {
    pub name: String,
    pub partition_keys: PartitionKeys,
}

/// Move the branch in `partition_keys` to another country.
pub struct ChangeBranchCountryNameCommand {
    pub country: String,
    pub partition_keys: PartitionKeys,
}

impl Command for CreateBranchCommand {

}

impl Command for ChangeBranchNameCommand {

}

impl Command for ChangeBranchCountryNameCommand {

}

impl CreateBranchCommand {
    /// The creation event that the command asks for.
    pub fn created_event(&self) -> (r: BranchEvent)
        ensures
            r == BranchEvent::Created(BranchCreated { name: self.name, country: self.country }),
    {
        BranchEvent::Created(BranchCreated { name: self.name.clone(), country: self.country.clone() })
    }
}

impl CommandWithHandler<BranchEvent, BranchState, BranchProjector> for CreateBranchCommand {
    /// Any aggregate id in the default group and root partition.
    open spec fn addresses(&self, pk: PartitionKeysView) -> bool {
        pk.1 == default_partition_name() && pk.2 == default_partition_name()
    }

    /// The creation event alone.
    open spec fn handled(&self, before: AggregateView<BranchState>, batch: Seq<BranchEvent>) -> bool {
        batch == seq![BranchEvent::Created(BranchCreated { name: self.name, country: self.country })]
    }

    /// A fresh random aggregate id in the default group and root partition.
    fn get_partition_keys(&self) -> PartitionKeys {
        PartitionKeys::from_aggregate_id(random_uuid())
    }

    fn command_handler(
        &self,
        context: &mut CommandContext<BranchEvent, BranchState, BranchProjector>,
    ) -> (r: Option<BranchEvent>) {
        let r = Some(self.created_event());
        proof {
            lemma_nothing_emitted(context.events_view(), r);
        }
        r
    }
}

impl ChangeBranchNameCommand {
    /// The renaming event that the command asks for.
    pub fn name_changed_event(&self) -> (r: BranchEvent)
        ensures
            r == BranchEvent::NameChanged(BranchNameChanged { name: self.name }),
    {
        BranchEvent::NameChanged(BranchNameChanged { name: self.name.clone() })
    }
}

impl CommandWithHandler<BranchEvent, BranchState, BranchProjector> for ChangeBranchNameCommand {
    /// The stream in `partition_keys`.
    open spec fn addresses(&self, pk: PartitionKeysView) -> bool {
        pk == self.partition_keys@
    }

    /// The renaming event alone.
    open spec fn handled(&self, before: AggregateView<BranchState>, batch: Seq<BranchEvent>) -> bool {
        batch == seq![BranchEvent::NameChanged(BranchNameChanged { name: self.name })]
    }

    fn get_partition_keys(&self) -> PartitionKeys {
        self.partition_keys.clone()
    }

    fn command_handler(
        &self,
        context: &mut CommandContext<BranchEvent, BranchState, BranchProjector>,
    ) -> (r: Option<BranchEvent>) {
        let r = Some(self.name_changed_event());
        proof {
            lemma_nothing_emitted(context.events_view(), r);
        }
        r
    }
}

impl ChangeBranchCountryNameCommand {
    /// What the command emits against `state`: nothing where there is no
    /// branch yet or it is already in that country, else the move.
    pub open spec fn decision(&self, state: BranchState) -> Option<BranchEvent> {
        match state {
            BranchState::Empty(_) => None,
            BranchState::Branch(b) => if b.country@ == self.country@ {
                None
            } else {
                Some(BranchEvent::CountryNameChanged(BranchCountryNameChanged { country: self.country }))
            },
        }
    }

    /// What the command emits against `state`.
    pub fn decide(&self, state: &BranchState) -> (r: Option<BranchEvent>)
        ensures
            r == self.decision(*state),
    {
        match state {
            BranchState::Empty(_) => None,
            BranchState::Branch(b) => {
                if b.country == self.country {
                    None
                } else {
                    Some(
                        BranchEvent::CountryNameChanged(
                            BranchCountryNameChanged { country: self.country.clone() },
                        ),
                    )
                }
            },
        }
    }
}

impl CommandWithHandler<BranchEvent, BranchState, BranchProjector> for ChangeBranchCountryNameCommand {
    /// The stream in `partition_keys`.
    open spec fn addresses(&self, pk: PartitionKeysView) -> bool {
        pk == self.partition_keys@
    }

    /// The move where the branch is elsewhere, else nothing.
    open spec fn handled(&self, before: AggregateView<BranchState>, batch: Seq<BranchEvent>) -> bool {
        batch == option_seq(self.decision(before.payload))
    }

    fn get_partition_keys(&self) -> PartitionKeys {
        self.partition_keys.clone()
    }

    fn command_handler(
        &self,
        context: &mut CommandContext<BranchEvent, BranchState, BranchProjector>,
    ) -> (r: Option<BranchEvent>) {
        let current = context.get_current_aggregate();
        let r = self.decide(&current.payload);
        proof {
            lemma_nothing_emitted(context.events_view(), r);
        }
        r
    }
}

} // verus!
