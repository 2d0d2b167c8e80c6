use vstd::prelude::*;
use std::collections::HashMap;

verus! {

broadcast use vstd::std_specs::hash::group_hash_axioms;

/// Measures collected during one sampling period, grouped by sensor: for
/// each sensor that reported, its measures in the order they arrived.
pub struct SensorReadings<T> {
    measures: HashMap<usize, Vec<T>>,
}

impl<T> SensorReadings<T> {
    /// The measures of each sensor that reported, in arrival order.
    pub closed spec fn readings(&self) -> Map<usize, Seq<T>> {
        self.measures@.map_values(|v: Vec<T>| v@)
    }

    /// No measures yet.
    pub fn new() -> (r: Self)
        ensures
            r.readings() == Map::<usize, Seq<T>>::empty(),
    {
        let r = SensorReadings { measures: HashMap::new() };
        assert(r.readings() =~= Map::<usize, Seq<T>>::empty());
        r
    }

    /// Records `value` as the latest measure of `sensor_id`.
    pub fn add(&mut self, sensor_id: usize, value: T)
        ensures
            final(self).readings() == old(self).readings().insert(
                sensor_id,
                if old(self).readings().dom().contains(sensor_id) {
                    old(self).readings()[sensor_id].push(value)
                } else {
                    seq![value]
                },
            ),
    {
        let ghost before = self.measures@;
        let mut group = match self.measures.remove(&sensor_id) {
            Some(g) => g,
            None => Vec::new(),
        };
        let ghost taken = group@;
        group.push(value);
        self.measures.insert(sensor_id, group);
        proof {
            if before.contains_key(sensor_id) {
                assert(taken == before[sensor_id]@);
            } else {
                assert(group@ =~= seq![value]);
            }
            assert(self.readings() =~= old(self).readings().insert(
                sensor_id,
                if old(self).readings().dom().contains(sensor_id) {
                    old(self).readings()[sensor_id].push(value)
                } else {
                    seq![value]
                },
            ));
        }
    }

    /// Hands out all the measures, by sensor, and starts a new period with
    /// none.
    pub fn drain(&mut self) -> (r: HashMap<usize, Vec<T>>)
        ensures
            final(self).readings() == Map::<usize, Seq<T>>::empty(),
            r@.map_values(|v: Vec<T>| v@) == old(self).readings(),
    {
        let mut out: HashMap<usize, Vec<T>> = HashMap::new();
        core::mem::swap(&mut self.measures, &mut out);
        assert(self.readings() =~= Map::<usize, Seq<T>>::empty());
        out
    }
}

} // verus!
