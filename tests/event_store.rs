use sekiban_core::aggregate::{Aggregate, AggregateProjector};
use sekiban_core::branch::{
    BranchCountryNameChanged, BranchCreated, BranchEvent, BranchNameChanged, BranchProjector,
    BranchState,
};
use sekiban_core::error::EventSourcingError;
use sekiban_core::event::EventCommon;
use sekiban_core::partition::PartitionKeys;
use sekiban_core::repository::Repository;

fn keys(id: u128) -> PartitionKeys {
    PartitionKeys::from_aggregate_id(id)
}

fn event(pk: &PartitionKeys, version: i64, id: &str, payload: BranchEvent) -> EventCommon<BranchEvent> {
    EventCommon {
        version,
        sortable_unique_id: id.to_string(),
        partition_keys: pk.clone(),
        payload,
    }
}

fn created(name: &str, country: &str) -> BranchEvent {
    BranchEvent::Created(BranchCreated { name: name.to_string(), country: country.to_string() })
}

fn renamed(name: &str) -> BranchEvent {
    BranchEvent::NameChanged(BranchNameChanged { name: name.to_string() })
}

fn moved(country: &str) -> BranchEvent {
    BranchEvent::CountryNameChanged(BranchCountryNameChanged { country: country.to_string() })
}

fn branch_of(a: &Aggregate<BranchState>) -> Option<(String, String)> {
    match &a.payload {
        BranchState::Branch(b) => Some((b.name.clone(), b.country.clone())),
        BranchState::Empty(_) => None,
    }
}

const ID1: &str = "063835596800000000000000000001";
const ID2: &str = "063835596800000000000000000002";
const ID3: &str = "063835596800000000000000000003";

#[test]
fn default_partition_keys() {
    let pk = keys(7);
    assert_eq!(pk.aggregate_id, 7);
    assert_eq!(pk.group_, "default");
    assert_eq!(pk.root_partition_key, "default");
    assert!(pk.same_partition(&keys(7)));
    assert!(!pk.same_partition(&keys(8)));
    let mut other = keys(7);
    other.group_ = "other".to_string();
    assert!(!pk.same_partition(&other));
}

#[test]
fn load_of_unwritten_stream_is_empty_at_version_zero() {
    let mut repo: Repository<BranchEvent> = Repository::new();
    let written = keys(1);
    repo.save(event(&written, 1, ID1, created("main", "Japan"))).unwrap();
    let a: Aggregate<BranchState> = repo.load(&keys(2), &BranchProjector {});
    assert_eq!(a.version, 0);
    assert!(matches!(a.payload, BranchState::Empty(_)));
    assert_eq!(a.last_sortable_unique_id, "");
    assert_eq!(a.partition_keys.aggregate_id, 2);
}

#[test]
fn load_folds_the_stream() {
    let mut repo: Repository<BranchEvent> = Repository::new();
    let pk = keys(1);
    repo.save(event(&pk, 1, ID1, created("main", "Japan"))).unwrap();
    repo.save(event(&keys(9), 1, ID2, created("other", "France"))).unwrap();
    repo.save(event(&pk, 2, ID3, renamed("main2"))).unwrap();
    let a: Aggregate<BranchState> = repo.load(&pk, &BranchProjector {});
    assert_eq!(a.version, 2);
    assert_eq!(a.last_sortable_unique_id, ID3);
    assert_eq!(branch_of(&a), Some(("main2".to_string(), "Japan".to_string())));
    assert_eq!(repo.current_version(&pk), 2);
    assert_eq!(repo.current_version(&keys(9)), 1);
    assert_eq!(repo.len(), 3);
}

#[test]
fn loading_twice_gives_the_same_aggregate() {
    let mut repo: Repository<BranchEvent> = Repository::new();
    let pk = keys(1);
    repo.save(event(&pk, 1, ID1, created("main", "Japan"))).unwrap();
    repo.save(event(&pk, 2, ID2, moved("USA"))).unwrap();
    let a: Aggregate<BranchState> = repo.load(&pk, &BranchProjector {});
    let b: Aggregate<BranchState> = repo.load(&pk, &BranchProjector {});
    assert_eq!(branch_of(&a), branch_of(&b));
    assert_eq!(a.version, b.version);
    assert_eq!(a.last_sortable_unique_id, b.last_sortable_unique_id);
}

#[test]
fn load_sorts_by_id_not_by_append_order() {
    let pk = keys(1);
    let mut in_order: Repository<BranchEvent> = Repository::new();
    in_order
        .save_events(vec![
            event(&pk, 1, ID1, created("main", "Japan")),
            event(&pk, 2, ID2, renamed("main2")),
            event(&pk, 3, ID3, moved("USA")),
        ])
        .unwrap();
    let mut shuffled: Repository<BranchEvent> = Repository::new();
    shuffled
        .save_events(vec![
            event(&pk, 1, ID3, moved("USA")),
            event(&pk, 2, ID1, created("main", "Japan")),
            event(&pk, 3, ID2, renamed("main2")),
        ])
        .unwrap();
    let a: Aggregate<BranchState> = in_order.load(&pk, &BranchProjector {});
    let b: Aggregate<BranchState> = shuffled.load(&pk, &BranchProjector {});
    assert_eq!(branch_of(&a), Some(("main2".to_string(), "USA".to_string())));
    assert_eq!(branch_of(&a), branch_of(&b));
    assert_eq!(a.last_sortable_unique_id, b.last_sortable_unique_id);
}

#[test]
fn save_refuses_a_version_out_of_turn() {
    let mut repo: Repository<BranchEvent> = Repository::new();
    let pk = keys(1);
    assert_eq!(
        repo.save(event(&pk, 2, ID1, created("main", "Japan"))),
        Err(EventSourcingError::VersionConflict { expected: 1, actual: 0 })
    );
    assert_eq!(repo.len(), 0);
    repo.save(event(&pk, 1, ID1, created("main", "Japan"))).unwrap();
    assert_eq!(
        repo.save(event(&pk, 1, ID2, renamed("x"))),
        Err(EventSourcingError::VersionConflict { expected: 0, actual: 1 })
    );
    assert_eq!(repo.len(), 1);
}

#[test]
fn save_events_is_all_or_nothing() {
    let mut repo: Repository<BranchEvent> = Repository::new();
    let pk = keys(1);
    let bad = vec![
        event(&pk, 1, ID1, created("main", "Japan")),
        event(&pk, 3, ID2, renamed("main2")),
    ];
    assert!(matches!(repo.save_events(bad), Err(EventSourcingError::VersionConflict { .. })));
    assert_eq!(repo.len(), 0);
    let good = vec![
        event(&pk, 1, ID1, created("main", "Japan")),
        event(&keys(2), 1, ID2, created("b", "c")),
        event(&pk, 2, ID3, renamed("main2")),
    ];
    assert_eq!(repo.save_events(good), Ok(()));
    assert_eq!(repo.len(), 3);
    assert_eq!(repo.current_version(&pk), 2);
}

#[test]
fn projector_leaves_unknown_combinations_unchanged() {
    let p = BranchProjector {};
    let pk = keys(1);
    let empty = BranchState::Empty(sekiban_core::aggregate::EmptyAggregatePayload {});
    let r = p.project(&empty, &event(&pk, 1, ID1, renamed("x")));
    assert!(matches!(r, BranchState::Empty(_)));
    let r = p.project(&empty, &event(&pk, 1, ID1, moved("x")));
    assert!(matches!(r, BranchState::Empty(_)));
    assert_eq!(p.get_version(), "initial");
}

#[test]
fn project_all_folds_in_order() {
    let pk = keys(1);
    let start: Aggregate<BranchState> = Aggregate::empty_from_partition_keys(pk.clone());
    let events = vec![
        event(&pk, 1, ID1, created("main", "Japan")),
        event(&pk, 2, ID2, moved("USA")),
        event(&pk, 3, ID3, renamed("main2")),
    ];
    let a = start.project_all(&events, &BranchProjector {});
    assert_eq!(a.version, 3);
    assert_eq!(branch_of(&a), Some(("main2".to_string(), "USA".to_string())));
    let again = start.project_all(&events, &BranchProjector {});
    assert_eq!(branch_of(&a), branch_of(&again));
    let one = start.project(&events[0], &BranchProjector {});
    assert_eq!(one.version, 1);
    assert_eq!(one.last_sortable_unique_id, ID1);
}

#[test]
fn clone_event_common_copies_every_field() {
    let pk = keys(3);
    let e = event(&pk, 4, ID2, renamed("n"));
    let c = e.clone_event_common();
    assert_eq!(c.version, 4);
    assert_eq!(c.sortable_unique_id, ID2);
    assert_eq!(c.partition_keys.aggregate_id, 3);
    assert!(matches!(c.payload, BranchEvent::NameChanged(ref n) if n.name == "n"));
}
