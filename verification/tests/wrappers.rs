use extenders::adapters::CountingMapper;
use extenders::adapters::DoublingMapper;
use extenders::adapters::ThresholdFilter;
use extenders::ExtendFilter;
use extenders::ExtendMap;
use extenders::Extendable;

#[test]
fn map_scenario_doubles_into_container() {
    let mut container: Vec<u64> = vec![1, 2, 3];
    let mut wrapper = ExtendMap::new(&mut container, DoublingMapper);
    wrapper.extend(vec![4, 5]);
    wrapper.into_inner();
    assert_eq!(container, vec![1, 2, 3, 8, 10]);
}

#[test]
fn filter_scenario_keeps_large_elements() {
    let mut container: Vec<u64> = vec![10, 20];
    let mut wrapper = ExtendFilter::new(&mut container, ThresholdFilter { min: 15 });
    wrapper.extend(vec![5, 16, 20, 3]);
    wrapper.into_inner();
    assert_eq!(container, vec![10, 20, 16, 20]);
}

#[test]
fn map_agrees_with_directly_extending_mapped_elements() {
    let inputs: Vec<u64> = vec![0, 7, 21, 2];

    let mut through_wrapper: Vec<u64> = vec![100];
    let mut wrapper = ExtendMap::new(&mut through_wrapper, DoublingMapper);
    wrapper.extend(inputs.clone());
    wrapper.into_inner();

    let mut direct: Vec<u64> = vec![100];
    let mapped: Vec<u64> = inputs.iter().map(|x| x * 2).collect();
    Extendable::extend(&mut direct, mapped);

    assert_eq!(through_wrapper, direct);
    assert_eq!(through_wrapper, vec![100, 0, 14, 42, 4]);
}

#[test]
fn filter_agrees_with_directly_extending_kept_elements() {
    let inputs: Vec<u64> = vec![9, 50, 15, 16, 1];

    let mut through_wrapper: Vec<u64> = vec![0];
    let mut wrapper = ExtendFilter::new(&mut through_wrapper, ThresholdFilter { min: 15 });
    wrapper.extend(inputs.clone());
    wrapper.into_inner();

    let mut direct: Vec<u64> = vec![0];
    let kept: Vec<u64> = inputs.into_iter().filter(|x| *x > 15).collect();
    Extendable::extend(&mut direct, kept);

    assert_eq!(through_wrapper, direct);
    assert_eq!(through_wrapper, vec![0, 50, 16]);
}

#[test]
fn elements_keep_their_relative_order() {
    let mut mapped: Vec<u64> = Vec::new();
    let mut wrapper = ExtendMap::new(&mut mapped, DoublingMapper);
    wrapper.extend(vec![3, 1, 2]);
    wrapper.into_inner();
    assert_eq!(mapped, vec![6, 2, 4]);

    let mut kept: Vec<u64> = Vec::new();
    let mut wrapper = ExtendFilter::new(&mut kept, ThresholdFilter { min: 0 });
    wrapper.extend(vec![3, 1, 2]);
    wrapper.into_inner();
    assert_eq!(kept, vec![3, 1, 2]);
}

#[test]
fn extending_with_nothing_changes_nothing() {
    let mut container: Vec<u64> = vec![1, 2];
    let mut wrapper = ExtendMap::new(&mut container, DoublingMapper);
    wrapper.extend(Vec::new());
    wrapper.into_inner();
    assert_eq!(container, vec![1, 2]);

    let mut container: Vec<u64> = vec![3];
    let mut wrapper = ExtendFilter::new(&mut container, ThresholdFilter { min: 1 });
    wrapper.extend(Vec::new());
    wrapper.into_inner();
    assert_eq!(container, vec![3]);
}

#[test]
fn counter_state_persists_across_extend_calls() {
    let mut container: Vec<(u64, u64)> = Vec::new();
    let mut wrapper = ExtendMap::new(&mut container, CountingMapper::new(0));
    wrapper.extend(vec![7, 8]);
    wrapper.extend(vec![9]);
    wrapper.into_inner();
    assert_eq!(container, vec![(0, 7), (1, 8), (2, 9)]);
    let mut last = None;
    for (index, _) in &container {
        assert!(last.map_or(true, |prev| prev < *index));
        last = Some(*index);
    }
}

#[test]
fn counter_wraps_at_the_largest_index() {
    let mut container: Vec<(u64, u64)> = Vec::new();
    let mut wrapper = ExtendMap::new(&mut container, CountingMapper::new(u64::MAX));
    wrapper.extend(vec![1, 2]);
    wrapper.into_inner();
    assert_eq!(container, vec![(u64::MAX, 1), (0, 2)]);
}

#[test]
fn doubling_saturates_at_the_largest_value() {
    let mut container: Vec<u64> = Vec::new();
    let mut wrapper = ExtendMap::new(&mut container, DoublingMapper);
    wrapper.extend(vec![u64::MAX / 2, u64::MAX / 2 + 1, u64::MAX]);
    wrapper.into_inner();
    assert_eq!(container, vec![u64::MAX - 1, u64::MAX, u64::MAX]);
}

#[test]
fn into_inner_returns_the_borrowed_container_itself() {
    let mut container: Vec<u64> = vec![10, 20];
    let wrapper = ExtendMap::new(&mut container, DoublingMapper);
    let inner = wrapper.into_inner();
    inner.push(99);
    assert_eq!(container, vec![10, 20, 99]);

    let mut container: Vec<u64> = vec![7];
    let mut wrapper = ExtendFilter::new(&mut container, ThresholdFilter { min: 3 });
    wrapper.extend(vec![2, 4]);
    let inner = wrapper.into_inner();
    inner.push(1);
    assert_eq!(container, vec![7, 4, 1]);
}

#[test]
fn vec_extendable_appends_in_order() {
    let mut container: Vec<u64> = vec![5];
    Extendable::extend(&mut container, vec![6, 7]);
    Extendable::extend(&mut container, Vec::new());
    Extendable::extend(&mut container, vec![8]);
    assert_eq!(container, vec![5, 6, 7, 8]);
}

#[test]
fn wrappers_nest_and_compose() {
    let mut container: Vec<u64> = Vec::new();
    let mut doubled = ExtendMap::new(&mut container, DoublingMapper);
    let mut wrapper = ExtendFilter::new(&mut doubled, ThresholdFilter { min: 10 });
    wrapper.extend(vec![4, 11, 30, 9]);
    wrapper.into_inner();
    doubled.into_inner();
    assert_eq!(container, vec![22, 60]);
}
