use sekiban_core::aggregate::{Aggregate, EmptyAggregatePayload};
use sekiban_core::branch::{
    Branch, BranchEvent, BranchNameChanged, BranchProjector, BranchState,
    ChangeBranchCountryNameCommand, ChangeBranchNameCommand, CreateBranchCommand,
};
use sekiban_core::command::{CommandContext, CommandExecutor};
use sekiban_core::error::EventSourcingError;
use sekiban_core::partition::PartitionKeys;

fn branch_of(a: &Aggregate<BranchState>) -> Option<(String, String)> {
    match &a.payload {
        BranchState::Branch(b) => Some((b.name.clone(), b.country.clone())),
        BranchState::Empty(_) => None,
    }
}

#[test]
fn branch_create_rename_move_and_no_op() {
    let mut executor: CommandExecutor<BranchEvent> = CommandExecutor::new();
    let p = BranchProjector {};
    let create = CreateBranchCommand { name: "main".to_string(), country: "Japan".to_string() };
    let r = executor.execute(&create, &p).unwrap();
    assert_eq!(r.version, 1);
    assert_eq!(r.events.len(), 1);
    let pk = r.partition_keys.clone();
    let a: Aggregate<BranchState> = executor.repository.load(&pk, &p);
    assert_eq!(a.version, 1);
    assert_eq!(branch_of(&a), Some(("main".to_string(), "Japan".to_string())));

    let rename = ChangeBranchNameCommand { name: "main2".to_string(), partition_keys: pk.clone() };
    let r = executor.execute(&rename, &p).unwrap();
    assert_eq!(r.version, 2);
    let a: Aggregate<BranchState> = executor.repository.load(&pk, &p);
    assert_eq!(branch_of(&a), Some(("main2".to_string(), "Japan".to_string())));

    let relocate = ChangeBranchCountryNameCommand { country: "USA".to_string(), partition_keys: pk.clone() };
    let r = executor.execute(&relocate, &p).unwrap();
    assert_eq!(r.version, 3);
    assert_eq!(r.events.len(), 1);
    let a: Aggregate<BranchState> = executor.repository.load(&pk, &p);
    assert_eq!(a.version, 3);
    assert_eq!(branch_of(&a), Some(("main2".to_string(), "USA".to_string())));

    let again = ChangeBranchCountryNameCommand { country: "USA".to_string(), partition_keys: pk.clone() };
    let r = executor.execute(&again, &p).unwrap();
    assert_eq!(r.version, 3);
    assert!(r.events.is_empty());
    assert_eq!(executor.repository.current_version(&pk), 3);
    assert_eq!(executor.repository.len(), 3);
}

#[test]
fn response_events_carry_versions_keys_and_ids() {
    let mut executor: CommandExecutor<BranchEvent> = CommandExecutor::new();
    let p = BranchProjector {};
    let create = CreateBranchCommand { name: "a".to_string(), country: "b".to_string() };
    let r = executor.execute(&create, &p).unwrap();
    let e = &r.events[0];
    assert_eq!(e.version, 1);
    assert!(e.partition_keys.same_partition(&r.partition_keys));
    assert_eq!(e.sortable_unique_id.len(), 30);
    assert!(e.sortable_unique_id.chars().all(|c| c.is_ascii_digit()));
}

#[test]
fn one_of_concurrent_commands_wins() {
    let mut executor: CommandExecutor<BranchEvent> = CommandExecutor::new();
    let p = BranchProjector {};
    let create = CreateBranchCommand { name: "main".to_string(), country: "Japan".to_string() };
    let pk = executor.execute(&create, &p).unwrap().partition_keys;
    let mut pending = Vec::new();
    for i in 0..4 {
        let cmd = ChangeBranchNameCommand { name: format!("name{}", i), partition_keys: pk.clone() };
        pending.push(executor.handle(&cmd, &p).unwrap());
    }
    let mut outcomes = Vec::new();
    for pc in pending {
        outcomes.push(executor.commit(pc));
    }
    assert_eq!(outcomes[0].as_ref().map(|r| r.version).ok(), Some(2));
    for o in &outcomes[1..] {
        assert_eq!(o.as_ref().err(), Some(&EventSourcingError::VersionConflict { expected: 1, actual: 2 }));
    }
    assert_eq!(executor.repository.current_version(&pk), 2);
    let a: Aggregate<BranchState> = executor.repository.load(&pk, &p);
    assert_eq!(branch_of(&a), Some(("name0".to_string(), "Japan".to_string())));
}

#[test]
fn country_change_before_creation_emits_nothing() {
    let mut executor: CommandExecutor<BranchEvent> = CommandExecutor::new();
    let p = BranchProjector {};
    let cmd = ChangeBranchCountryNameCommand {
        country: "USA".to_string(),
        partition_keys: PartitionKeys::from_aggregate_id(5),
    };
    let r = executor.execute(&cmd, &p).unwrap();
    assert_eq!(r.version, 0);
    assert!(r.events.is_empty());
    assert_eq!(executor.repository.len(), 0);
}

#[test]
fn decide_compares_countries() {
    let cmd = ChangeBranchCountryNameCommand {
        country: "USA".to_string(),
        partition_keys: PartitionKeys::from_aggregate_id(5),
    };
    let same = BranchState::Branch(Branch { name: "m".to_string(), country: "USA".to_string() });
    let other = BranchState::Branch(Branch { name: "m".to_string(), country: "Japan".to_string() });
    assert!(cmd.decide(&same).is_none());
    assert!(matches!(cmd.decide(&other), Some(BranchEvent::CountryNameChanged(ref c)) if c.country == "USA"));
    assert!(cmd.decide(&BranchState::Empty(EmptyAggregatePayload {})).is_none());
}

#[test]
fn events_emitted_through_the_context_then_a_last_event_are_committed_in_order() {
    let mut executor: CommandExecutor<BranchEvent> = CommandExecutor::new();
    let p = BranchProjector {};
    let create = CreateBranchCommand { name: "main".to_string(), country: "Japan".to_string() };
    let created = executor.execute(&create, &p).unwrap();
    let pk = created.partition_keys;
    let loaded: Aggregate<BranchState> = executor.repository.load(&pk, &p);
    let mut ctx = CommandContext::new(loaded, BranchProjector {});
    ctx.save_event(BranchEvent::NameChanged(BranchNameChanged { name: "x".to_string() })).unwrap();
    let seen = ctx.get_current_aggregate();
    assert_eq!(seen.version, 2);
    assert_eq!(branch_of(&seen).map(|b| b.0), Some("x".to_string()));
    assert_eq!(ctx.get_events().len(), 1);
    assert!(created.events[0].sortable_unique_id < ctx.get_events()[0].sortable_unique_id);
    let last = BranchEvent::NameChanged(BranchNameChanged { name: "y".to_string() });
    let pending = ctx.into_pending(Some(last)).unwrap();
    let r = executor.commit(pending).unwrap();
    assert_eq!(r.version, 3);
    assert_eq!(r.events.len(), 2);
    assert_eq!(r.events[0].version, 2);
    assert_eq!(r.events[1].version, 3);
    assert!(r.events[0].sortable_unique_id < r.events[1].sortable_unique_id);
    let a: Aggregate<BranchState> = executor.repository.load(&pk, &p);
    assert_eq!(a.version, 3);
    assert_eq!(branch_of(&a), Some(("y".to_string(), "Japan".to_string())));
}

#[test]
fn new_ids_sort_after_a_last_id_from_the_future() {
    let pk = PartitionKeys::from_aggregate_id(1);
    let mut start: Aggregate<BranchState> = Aggregate::empty_from_partition_keys(pk);
    start.version = 4;
    start.last_sortable_unique_id = "999999999999999999900000000000".to_string();
    let mut ctx = CommandContext::new(start, BranchProjector {});
    ctx.save_event(BranchEvent::NameChanged(BranchNameChanged { name: "x".to_string() })).unwrap();
    assert_eq!(ctx.get_events()[0].sortable_unique_id, "999999999999999999900000000001");
    assert_eq!(ctx.get_events()[0].version, 5);
}

#[test]
fn malformed_last_id_in_the_future_is_reported() {
    let pk = PartitionKeys::from_aggregate_id(1);
    let mut start: Aggregate<BranchState> = Aggregate::empty_from_partition_keys(pk);
    start.last_sortable_unique_id = "zzz".to_string();
    let mut ctx = CommandContext::new(start, BranchProjector {});
    let r = ctx.save_event(BranchEvent::NameChanged(BranchNameChanged { name: "x".to_string() }));
    assert_eq!(r, Err(EventSourcingError::MalformedSortableId));
    assert!(ctx.get_events().is_empty());
}

#[test]
fn context_refuses_a_version_past_i64() {
    let pk = PartitionKeys::from_aggregate_id(1);
    let mut start: Aggregate<BranchState> = Aggregate::empty_from_partition_keys(pk);
    start.version = i64::MAX;
    let mut ctx = CommandContext::new(start, BranchProjector {});
    let r = ctx.save_event(BranchEvent::NameChanged(BranchNameChanged { name: "x".to_string() }));
    assert_eq!(r, Err(EventSourcingError::StorageUnavailable));
    assert!(ctx.get_events().is_empty());
    let last = BranchEvent::NameChanged(BranchNameChanged { name: "y".to_string() });
    assert_eq!(ctx.into_pending(Some(last)).err(), Some(EventSourcingError::StorageUnavailable));
}

#[test]
fn into_pending_without_last_event_keeps_the_emitted_ones() {
    let pk = PartitionKeys::from_aggregate_id(1);
    let start: Aggregate<BranchState> = Aggregate::empty_from_partition_keys(pk);
    let mut ctx = CommandContext::new(start, BranchProjector {});
    ctx.save_event(BranchEvent::NameChanged(BranchNameChanged { name: "x".to_string() })).unwrap();
    let pc = ctx.into_pending(None).unwrap();
    assert_eq!(pc.loaded_version, 0);
    assert_eq!(pc.version, 1);
    assert_eq!(pc.events.len(), 1);
}
