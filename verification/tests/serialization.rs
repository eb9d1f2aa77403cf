use time_steward::api::QueryOffset;
use time_steward::api::ValidSince;
use time_steward::bouncy::make_globals;
use time_steward::bouncy::Payload;
use time_steward::ids::DeterministicRandomId;
use time_steward::serialization::decode_snapshot;
use time_steward::serialization::deserialize_from;
use time_steward::serialization::serialize_snapshot;
use time_steward::simple_full::KernelError;
use time_steward::simple_full::Steward;

fn id(a: u64, b: u64) -> DeterministicRandomId {
    DeterministicRandomId::from_raw([a, b])
}

#[test]
fn snapshot_serialization_round_trip_is_byte_identical() {
    let mut steward = Steward::from_globals(make_globals());
    steward
        .insert_fiat_event(
            10,
            id(1, 1),
            Payload::SetMotionAndPredict { position: 0, velocity: 1, when: 20, id: id(7, 7) },
        )
        .unwrap();
    let snap = steward.snapshot_before(25).unwrap().unwrap();
    let bytes = serialize_snapshot(&mut steward, snap);
    let mut rebuilt = match deserialize_from(&bytes) {
        Ok(st) => st,
        Err(e) => panic!("deserialization refused its own bytes: {:?}", e),
    };
    assert_eq!(rebuilt.valid_since(), ValidSince::Before(25));
    let snap2 = rebuilt.snapshot_before(25).unwrap().unwrap();
    assert_eq!(
        rebuilt.snapshot_query(snap2, 0, QueryOffset::After),
        steward.snapshot_query(snap, 0, QueryOffset::After)
    );
    let bytes2 = serialize_snapshot(&mut rebuilt, snap2);
    assert_eq!(bytes2, bytes);
}

#[test]
fn truncated_or_garbled_bytes_are_refused() {
    let mut steward = Steward::from_globals(make_globals());
    steward
        .insert_fiat_event(10, id(1, 1), Payload::SetMotion { position: 4, velocity: 0 })
        .unwrap();
    let snap = steward.snapshot_before(25).unwrap().unwrap();
    let bytes = serialize_snapshot(&mut steward, snap);

    let mut truncated = bytes.clone();
    truncated.pop();
    assert!(matches!(
        deserialize_from(&truncated),
        Err(KernelError::DeserializationMismatch)
    ));

    let mut garbled = bytes.clone();
    let tag_index = 36 + 24;
    garbled[tag_index] = 7;
    assert!(matches!(
        deserialize_from(&garbled),
        Err(KernelError::DeserializationMismatch)
    ));

    assert!(decode_snapshot(&Vec::new()).is_none());
}

#[test]
fn snapshots_of_equal_worlds_write_equal_bytes() {
    let mut a = Steward::from_globals(make_globals());
    let mut b = Steward::from_globals(make_globals());
    for steward in [&mut a, &mut b] {
        steward
            .insert_fiat_event(3, id(4, 4), Payload::SetMotion { position: -2, velocity: 5 })
            .unwrap();
    }
    let sa = a.snapshot_before(9).unwrap().unwrap();
    let sb = b.snapshot_before(9).unwrap().unwrap();
    assert_eq!(
        serialize_snapshot(&mut a, sa),
        serialize_snapshot(&mut b, sb)
    );
}
