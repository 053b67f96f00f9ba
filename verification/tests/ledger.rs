use citybuilder::errors::GameError;
use citybuilder::resources::Resources;

#[test]
fn covers_true_when_componentwise_geq() {
    let a = Resources(vec![10, 5, 3]);
    let b = Resources(vec![10, 4, 0]);
    assert!(a.covers(&b));
}

#[test]
fn covers_false_when_any_component_less() {
    let a = Resources(vec![10, 5, 3]);
    let b = Resources(vec![10, 6, 0]);
    assert!(!a.covers(&b));
}

#[test]
fn covers_compares_shared_slots_only() {
    let a = Resources(vec![1]);
    let b = Resources(vec![0, 100]);
    assert!(a.covers(&b));
}

#[test]
fn scenario_money_ten_covers_and_substracts_to_zero() {
    let mut a = Resources(vec![10]);
    let cost = Resources(vec![10]);
    assert!(a.covers(&cost));
    let left = a.substract(&cost);
    assert_eq!(left.0, vec![0]);
}

#[test]
fn scenario_money_eleven_not_covered() {
    let a = Resources(vec![10]);
    let cost = Resources(vec![11]);
    assert!(!a.covers(&cost));
}

#[test]
fn substract_without_covers_goes_negative() {
    let mut a = Resources(vec![5, 2]);
    let b = Resources(vec![7, 1]);
    assert!(!a.covers(&b));
    let d = a.substract(&b);
    assert_eq!(d.0, vec![-2, 1]);
}

#[test]
fn get_set_update_roundtrip() {
    let mut r = Resources(vec![0, 0]);
    assert_eq!(r.set(0, 41), Ok(()));
    assert_eq!(r.update(0, 1), Ok(42));
    assert_eq!(r.get(0), Ok(42));
    assert_eq!(r.get(1), Ok(0));
    assert_eq!(r.len(), 2);
}

#[test]
fn out_of_range_slot_is_reported() {
    let mut r = Resources(vec![1]);
    assert_eq!(r.get(1), Err(GameError::InvalidResourceIndex));
    assert_eq!(r.set(1, 5), Err(GameError::InvalidResourceIndex));
    assert_eq!(r.update(7, 5), Err(GameError::InvalidResourceIndex));
    assert_eq!(r.get(0), Ok(1));
}
