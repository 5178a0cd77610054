use sekiban_core::clock::UtcTime;
use sekiban_core::digits::{digit_str, padded_decimal};
use sekiban_core::error::EventSourcingError;
use sekiban_core::sortable_id::{
    text_less_than, SortableUniqueIdValue, MAX_UNIX_SECONDS, MIN_UNIX_SECONDS,
};

const SAMPLE_UUID: u128 = 0xa1a2a3a4_b1b2_c1c2_d1d2_d3d4d5d6d7d8;

fn at(unix_seconds: i64, subsec_nanos: u32) -> UtcTime {
    UtcTime { unix_seconds, subsec_nanos }
}

#[test]
fn padded_decimal_pads_and_truncates() {
    assert_eq!(padded_decimal(42, 5), "00042");
    assert_eq!(padded_decimal(0, 3), "000");
    assert_eq!(padded_decimal(123456, 3), "456");
    assert_eq!(padded_decimal(7, 0), "");
    assert_eq!(digit_str(9), "9");
}

#[test]
fn ticks_of_an_instant() {
    let t = at(1_700_000_000, 123_456_789);
    assert_eq!(SortableUniqueIdValue::system_time_to_csharp_ticks(t), 638_355_968_001_234_567);
}

#[test]
fn ticks_before_the_unix_epoch_count_from_year_one() {
    assert_eq!(SortableUniqueIdValue::system_time_to_csharp_ticks(at(-10, 500)), 621_355_967_900_000_005);
    assert_eq!(SortableUniqueIdValue::system_time_to_csharp_ticks(at(MIN_UNIX_SECONDS, 0)), 0);
}

#[test]
fn generate_with_nil_uuid_at_the_epoch() {
    let id = SortableUniqueIdValue::generate(at(0, 0), 0);
    assert_eq!(id.0, "062135596800000000000000000000");
    assert_eq!(id.0.len(), 30);
}

#[test]
fn generate_takes_entropy_from_the_little_endian_uuid_value() {
    let id = SortableUniqueIdValue::generate(at(1_700_000_000, 123_456_789), SAMPLE_UUID);
    assert_eq!(id.0, "063835596800123456783805232479");
}

#[test]
fn ids_order_as_their_instants() {
    let early = SortableUniqueIdValue::generate(at(1_700_000_000, 0), SAMPLE_UUID);
    let late = SortableUniqueIdValue::generate(at(1_700_000_000, 100), 0);
    assert!(early.is_earlier_than(&late));
    assert!(early.is_earlier_than_or_equal(&late));
    assert!(!early.is_later_than(&late));
    assert!(late.is_later_than(&early));
    assert!(late.is_later_than_or_equal(&early));
    assert!(early.is_earlier_than_or_equal(&early));
    assert!(!early.is_earlier_than(&early));
}

#[test]
fn equal_ticks_fall_back_to_entropy() {
    let a = SortableUniqueIdValue::generate(at(1_700_000_000, 0), 0);
    let b = SortableUniqueIdValue::generate(at(1_700_000_000, 0), SAMPLE_UUID);
    assert!(a.is_earlier_than(&b));
}

#[test]
fn comparison_is_plain_string_order() {
    assert!(text_less_than("abc", "abd"));
    assert!(text_less_than("ab", "abc"));
    assert!(!text_less_than("abc", "ab"));
    assert!(!text_less_than("", ""));
    assert!(text_less_than("", "a"));
    assert!(text_less_than("1", "10"));
}

#[test]
fn new_accepts_thirty_digits() {
    let id = SortableUniqueIdValue::new("063835596800123456783805232479").unwrap();
    assert_eq!(id.0, "063835596800123456783805232479");
    assert!(id.is_well_formed());
    let text: String = id.into();
    assert_eq!(text, "063835596800123456783805232479");
}

#[test]
fn new_refuses_wrong_length() {
    assert_eq!(
        SortableUniqueIdValue::new("0638355968001234567").err(),
        Some(EventSourcingError::MalformedSortableId)
    );
    assert_eq!(SortableUniqueIdValue::new("").err(), Some(EventSourcingError::MalformedSortableId));
    assert!(!SortableUniqueIdValue(String::new()).is_well_formed());
}

#[test]
fn new_refuses_non_digits() {
    assert_eq!(
        SortableUniqueIdValue::new("06383559680012345678380523247x").err(),
        Some(EventSourcingError::MalformedSortableId)
    );
}

#[test]
fn get_ticks_reads_the_instant_back() {
    let id = SortableUniqueIdValue::generate(at(1_700_000_000, 123_456_789), SAMPLE_UUID);
    assert_eq!(id.get_ticks(), Ok(at(1_700_000_000, 123_456_700)));
}

#[test]
fn get_ticks_before_the_unix_epoch() {
    let id = SortableUniqueIdValue::new("000000000000000000000000000000").unwrap();
    assert_eq!(id.get_ticks(), Ok(at(-62_135_596_800, 0)));
    let id = SortableUniqueIdValue::new("062135596799999999500000000000").unwrap();
    assert_eq!(id.get_ticks(), Ok(at(-1, 999_999_500)));
}

#[test]
fn get_ticks_of_malformed_id_fails() {
    let id = SortableUniqueIdValue("unique_id_example".to_string());
    assert_eq!(id.get_ticks(), Err(EventSourcingError::MalformedSortableId));
}

#[test]
fn safe_id_is_five_seconds_earlier_with_zero_entropy() {
    let id = SortableUniqueIdValue::generate(at(1_700_000_000, 123_456_789), SAMPLE_UUID);
    let safe = id.get_safe_id().unwrap();
    assert_eq!(safe.0, "063835596795123456700000000000");
    assert!(safe.is_earlier_than(&id));
}

#[test]
fn safe_id_before_the_unix_epoch_is_five_seconds_earlier() {
    let id = SortableUniqueIdValue::generate(at(3, 0), SAMPLE_UUID);
    let safe = id.get_safe_id().unwrap();
    assert_eq!(safe.0, "062135596798000000000000000000");
    assert!(safe.is_earlier_than(&id));
}

#[test]
fn safe_id_never_goes_before_year_one() {
    let id = SortableUniqueIdValue::new("000000000000000100000000000007").unwrap();
    assert_eq!(id.get_safe_id().unwrap().0, "000000000000000000000000000000");
}

#[test]
fn safe_id_of_malformed_id_fails() {
    let id = SortableUniqueIdValue("abc".to_string());
    assert_eq!(id.get_safe_id().err(), Some(EventSourcingError::MalformedSortableId));
}

#[test]
fn safe_and_current_ids_at_an_instant() {
    let now = at(1_700_000_000, 123_456_789);
    assert_eq!(SortableUniqueIdValue::safe_id_at(now).unwrap().0, "063835596795123456700000000000");
    assert_eq!(SortableUniqueIdValue::current_id_at(now).unwrap().0, "063835596800123456700000000000");
}

#[test]
fn ids_beyond_nineteen_digits_of_ticks_are_refused() {
    let last = at(MAX_UNIX_SECONDS, 999_999_999);
    assert_eq!(SortableUniqueIdValue::current_id_at(last).unwrap().0, "999999999999999999900000000000");
    let past = at(MAX_UNIX_SECONDS + 1, 0);
    assert_eq!(SortableUniqueIdValue::current_id_at(past).err(), Some(EventSourcingError::ClockOutOfRange));
    assert_eq!(SortableUniqueIdValue::safe_id_at(past).err(), Some(EventSourcingError::ClockOutOfRange));
}

#[test]
fn ids_from_the_clock_are_well_formed() {
    let a = SortableUniqueIdValue::generate_now().unwrap();
    let b = SortableUniqueIdValue::get_current_id_from_utc().unwrap();
    let s = SortableUniqueIdValue::get_safe_id_from_utc().unwrap();
    assert!(a.is_well_formed() && b.is_well_formed() && s.is_well_formed());
    assert!(s.is_earlier_than(&b));
}

#[test]
fn epoch_offsets_become_instants() {
    assert_eq!(UtcTime::from_epoch_offset(false, 5, 7), at(5, 7));
    assert_eq!(UtcTime::from_epoch_offset(true, 5, 0), at(-5, 0));
    assert_eq!(UtcTime::from_epoch_offset(true, 5, 250_000_000), at(-6, 750_000_000));
    assert_eq!(UtcTime::from_epoch_offset(false, u64::MAX, 1), at(i64::MAX, 0));
    assert_eq!(UtcTime::from_epoch_offset(true, u64::MAX, 1), at(i64::MIN, 0));
    assert!(UtcTime::now().subsec_nanos < 1_000_000_000);
}

#[test]
fn instants_before_year_one_are_refused() {
    let first = at(MIN_UNIX_SECONDS, 0);
    assert_eq!(SortableUniqueIdValue::current_id_at(first).unwrap().0, "000000000000000000000000000000");
    let before = at(MIN_UNIX_SECONDS - 1, 999_999_999);
    assert_eq!(SortableUniqueIdValue::current_id_at(before).err(), Some(EventSourcingError::ClockOutOfRange));
    assert_eq!(SortableUniqueIdValue::generate_at(before, 0).err(), Some(EventSourcingError::ClockOutOfRange));
}

#[test]
fn generate_at_checks_the_range() {
    let id = SortableUniqueIdValue::generate_at(at(1_700_000_000, 123_456_789), SAMPLE_UUID).unwrap();
    assert_eq!(id.0, "063835596800123456783805232479");
    let past = at(MAX_UNIX_SECONDS + 1, 0);
    assert_eq!(SortableUniqueIdValue::generate_at(past, 0).err(), Some(EventSourcingError::ClockOutOfRange));
}

#[test]
fn successor_adds_one() {
    let next = SortableUniqueIdValue::successor_of("063835596800123456783805232479").unwrap();
    assert_eq!(next.0, "063835596800123456783805232480");
    let next = SortableUniqueIdValue::successor_of("000000000000000000009999999999").unwrap();
    assert_eq!(next.0, "000000000000000000010000000000");
    assert_eq!(
        SortableUniqueIdValue::successor_of("999999999999999999999999999999").err(),
        Some(EventSourcingError::ClockOutOfRange)
    );
    assert_eq!(SortableUniqueIdValue::successor_of("12").err(), Some(EventSourcingError::MalformedSortableId));
}

#[test]
fn generate_after_sorts_after_the_last_id() {
    let future = "999999999999999999900000000000";
    let id = SortableUniqueIdValue::generate_after(future).unwrap();
    assert_eq!(id.0, "999999999999999999900000000001");
    let id = SortableUniqueIdValue::generate_after("").unwrap();
    assert!(id.is_well_formed());
    let past = "000000000000000000000000000000";
    let id = SortableUniqueIdValue::generate_after(past).unwrap();
    assert!(text_less_than(past, &id.0));
    assert_eq!(
        SortableUniqueIdValue::generate_after("zzz").err(),
        Some(EventSourcingError::MalformedSortableId)
    );
}
