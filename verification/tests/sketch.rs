use rusty_structures::sketch::acmsketch::AcmSketch;
use rusty_structures::sketch::cm_sketch::CmSketch;
use rusty_structures::sketch::count_min_sketch::{CountMinError, CountMinSketch};

fn count_min(epsilon: f64, delta: f64) -> Result<CountMinSketch, CountMinError> {
    if epsilon < 0.0 || delta < 0.0 || epsilon > 1.0 || delta > 1.0 {
        return Err(CountMinError::WrongInput);
    }
    let width = (std::f64::consts::E / epsilon).ceil() as usize;
    let depth = (1. / delta).ln().ceil() as usize;
    CountMinSketch::with_dimensions(width, depth)
}

#[test]
fn acmsketch_only_one_updated() {
    let mut sketch = AcmSketch::new(8);
    sketch.update(5).unwrap();
    let result = sketch.estimate(5).unwrap();
    assert_eq!(1, result);
}

#[test]
fn acmsketch_same_element_multiple_times_updated() {
    let mut sketch = AcmSketch::new(8);
    sketch.update(5).unwrap();
    sketch.update(5).unwrap();
    sketch.update(5).unwrap();
    let result = sketch.estimate(5).unwrap();
    assert_eq!(3, result);
}

// Probabilistic test, sometime may fail even though it is correct
#[test]
fn acmsketch_different_elements_single_time_updated() {
    let mut sketch = AcmSketch::new(24);
    sketch.update(3).unwrap();
    sketch.update(4).unwrap();
    sketch.update(5).unwrap();
    let result = sketch.estimate(5).unwrap();
    assert_eq!(1, result);
}

// Probabilistic test, sometime may fail even though it is correct
#[test]
fn acmsketch_different_elements_multiple_time_updated() {
    let mut sketch = AcmSketch::new(24);
    sketch.update(3).unwrap();
    sketch.update(3).unwrap();
    sketch.update(4).unwrap();
    sketch.update(4).unwrap();
    sketch.update(4).unwrap();
    sketch.update(5).unwrap();
    let result1 = sketch.estimate(3).unwrap();
    assert_eq!(2, result1);
    let result2 = sketch.estimate(4).unwrap();
    assert_eq!(3, result2);
    let result3 = sketch.estimate(5).unwrap();
    assert_eq!(1, result3);
}

#[test]
fn lib_only_one_updated() {
    let mut sketch = CmSketch::new(8);
    sketch.update(5);
    let result = sketch.estimate(5);
    assert_eq!(1, result);
}

#[test]
fn count_min_only_one_updated() {
    let mut sketch = count_min(0.1, 0.1).unwrap();
    sketch.update(5, Some(1));
    let result = sketch.estimate(5);
    assert_eq!(1, result);
}

#[test]
fn lib_same_element_multiple_times_updated() {
    let mut sketch = CmSketch::new(8);
    sketch.update(5);
    sketch.update(5);
    sketch.update(5);
    let result = sketch.estimate(5);
    assert_eq!(3, result);
}

#[test]
fn count_min_same_element_multiple_times_updated() {
    let mut sketch = count_min(0.1, 0.1).unwrap();
    sketch.update(5, Some(1));
    sketch.update(5, Some(1));
    sketch.update(5, Some(1));
    let result = sketch.estimate(5);
    assert_eq!(3, result);
}

// Probabilistic test, sometime may fail even though it is correct
#[test]
fn lib_different_elements_single_time_updated() {
    let mut sketch = CmSketch::new(24);
    sketch.update(3);
    sketch.update(4);
    sketch.update(5);
    let result = sketch.estimate(5);
    assert_eq!(1, result);
}

#[test]
fn count_min_different_elements_single_time_updated() {
    let mut sketch = count_min(0.1, 0.1).unwrap();
    sketch.update(3, Some(1));
    sketch.update(4, Some(1));
    sketch.update(5, Some(1));
    let result = sketch.estimate(5);
    assert_eq!(1, result);
}

// Probabilistic test, sometime may fail even though it is correct
#[test]
fn lib_different_elements_multiple_time_updated() {
    let mut sketch = CmSketch::new(24);
    sketch.update(3);
    sketch.update(3);
    sketch.update(4);
    sketch.update(4);
    sketch.update(4);
    sketch.update(5);
    let result1 = sketch.estimate(3);
    assert_eq!(2, result1);
    let result2 = sketch.estimate(4);
    assert_eq!(3, result2);
    let result3 = sketch.estimate(5);
    assert_eq!(1, result3);
}

#[test]
fn count_min_different_elements_multiple_time_updated() {
    let mut sketch = count_min(0.1, 0.1).unwrap();
    sketch.update(3, Some(1));
    sketch.update(3, Some(1));
    sketch.update(4, Some(1));
    sketch.update(4, Some(1));
    sketch.update(4, Some(1));
    sketch.update(5, Some(1));
    let result1 = sketch.estimate(3);
    assert_eq!(2, result1);
    let result2 = sketch.estimate(4);
    assert_eq!(3, result2);
    let result3 = sketch.estimate(5);
    assert_eq!(1, result3);
}

#[test]
fn update_cells_counts_in_three_rows() {
    let mut sketch = CmSketch::new(8);
    assert_eq!(sketch.capacity(), 8);
    sketch.update_cells(1, 2, 3);
    sketch.update_cells(1, 2, 4);
    assert_eq!(sketch.estimate_cells(1, 2, 3), 1);
    assert_eq!(sketch.estimate_cells(1, 2, 4), 1);
    assert_eq!(sketch.estimate_cells(1, 2, 5), 0);
    assert_eq!(sketch.estimate_cells(0, 2, 3), 0);
    assert!(sketch.can_add(u64::MAX - 2));
    assert!(!sketch.can_add(u64::MAX - 1));
}

#[test]
fn third_counter_counts_in_steps_of_three() {
    let mut sketch = AcmSketch::new(8);
    sketch.update_cells(0, 0, 0);
    // the counters of the three hash functions start at 0, 8 and 16
    assert_eq!(sketch.estimate_cells(0, 0, 0), 1);
    assert_eq!(sketch.estimate_cells(8, 0, 0), 1);
    assert_eq!(sketch.estimate_cells(16, 0, 0), 1);
    sketch.update_cells(16, 1, 1);
    assert_eq!(sketch.estimate_cells(16, 0, 0), 1);
    assert_eq!(sketch.estimate_cells(16, 8, 0), 4);
    assert!(sketch.can_add(5));
}

#[test]
fn count_min_rows_and_frequencies() {
    let mut sketch = CountMinSketch::with_dimensions(4, 3).unwrap();
    assert_eq!(sketch.width(), 4);
    assert_eq!(sketch.depth(), 3);
    sketch.update_cells(&vec![0, 1, 2], Some(5));
    sketch.update_cells(&vec![0, 3, 2], None);
    assert_eq!(sketch.estimate_cells(&vec![0, 1, 2]), 5);
    assert_eq!(sketch.estimate_cells(&vec![0, 3, 2]), 1);
    assert_eq!(sketch.estimate_cells(&vec![0, 2, 2]), 0);
    assert_eq!(sketch.estimate_cells(&vec![0, 0, 2]), 0);
    sketch.update("seen", Some(7));
    assert!(sketch.estimate("seen") >= 7);
    assert!(sketch.can_add(u64::MAX - 13));
    assert!(!sketch.can_add(u64::MAX));
}

#[test]
fn count_min_dimensions_are_checked() {
    assert!(matches!(CountMinSketch::with_dimensions(0, 3), Err(CountMinError::WrongInput)));
    assert!(matches!(
        CountMinSketch::with_dimensions(usize::MAX, 2),
        Err(CountMinError::WrongInput)
    ));
    assert!(matches!(count_min(1.5, 0.1), Err(CountMinError::WrongInput)));
    let sketch = CountMinSketch::with_dimensions(5, 0).unwrap();
    assert_eq!(sketch.estimate(1), u64::MAX);
    let sketch = count_min(0.1, 0.1).unwrap();
    assert_eq!(sketch.width(), 28);
    assert_eq!(sketch.depth(), 3);
}

#[test]
fn counters_and_steps_of_a_shared_sketch() {
    let (first, second, third) = AcmSketch::cells_for(8, &5);
    assert!(first < 8 && (8..16).contains(&second) && (16..24).contains(&third));
    assert_eq!(AcmSketch::cells_for(8, &5), (first, second, third));
    assert_eq!(AcmSketch::step_of(0), 1);
    assert_eq!(AcmSketch::step_of(1), 1);
    assert_eq!(AcmSketch::step_of(2), 3);
    assert_eq!(AcmSketch::least_of_three(4, 2, 9), 2);
    assert_eq!(AcmSketch::least_of_three(1, 2, 3), 1);
    assert_eq!(AcmSketch::least_of_three(7, 7, 6), 6);
}
