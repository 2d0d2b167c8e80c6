use concurrency_kit::readings::SensorReadings;
use std::collections::HashMap;

#[test]
fn measures_are_grouped_by_sensor_in_arrival_order() {
    let mut r = SensorReadings::new();
    r.add(1, 10u32);
    r.add(2, 20);
    r.add(2, 10);
    r.add(1, 20);
    let mut groups: Vec<(usize, Vec<u32>)> = r.drain().into_iter().collect();
    groups.sort_by_key(|g| g.0);
    assert_eq!(groups, vec![(1, vec![10, 20]), (2, vec![20, 10])]);
    assert!(r.drain().is_empty());
}

#[test]
fn a_drained_period_starts_empty() {
    let mut r = SensorReadings::new();
    r.add(7, 'a');
    assert_eq!(r.drain(), HashMap::from([(7, vec!['a'])]));
    r.add(7, 'b');
    assert_eq!(r.drain(), HashMap::from([(7, vec!['b'])]));
}
