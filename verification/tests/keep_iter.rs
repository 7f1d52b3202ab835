use pmbs::clean::KeepIter;
use pmbs::config::PmbsConfigKeep;

#[test]
fn keep_iter() {
    let mut ki = KeepIter::new(vec![
        PmbsConfigKeep::new_sn(5, 3),
        PmbsConfigKeep::new_sn(20, 2),
        PmbsConfigKeep::new_sn(60, 1),
    ]);
    assert_eq!(ki.next(), Some(5));
    assert_eq!(ki.next(), Some(5));
    assert_eq!(ki.next(), Some(5));
    assert_eq!(ki.next(), Some(20));
    assert_eq!(ki.next(), Some(20));
    assert_eq!(ki.next(), Some(60));
    assert_eq!(ki.next(), None);
    assert_eq!(ki.next(), None);
}

#[test]
fn keep_iter_without_rules_is_exhausted() {
    let mut ki = KeepIter::new(Vec::new());
    assert_eq!(ki.next(), None);
    assert_eq!(ki.next(), None);
}

#[test]
fn keep_iter_passes_over_rules_without_slots() {
    let mut ki = KeepIter::new(vec![
        PmbsConfigKeep::new_sn(5, 0),
        PmbsConfigKeep::new_sn(20, 1),
        PmbsConfigKeep::new_sn(30, 0),
        PmbsConfigKeep::new_sn(40, 0),
        PmbsConfigKeep::new_sn(60, 2),
        PmbsConfigKeep::new_sn(90, 0),
    ]);
    assert_eq!(ki.next(), Some(20));
    assert_eq!(ki.next(), Some(60));
    assert_eq!(ki.next(), Some(60));
    assert_eq!(ki.next(), None);
    assert_eq!(ki.next(), None);
}

#[test]
fn new_sn_sets_seconds_and_count() {
    let r = PmbsConfigKeep::new_sn(300, 2);
    assert_eq!(r.s, 300);
    assert_eq!(r.n, 2);
    assert_eq!(r.time, "");
}

#[test]
fn keep_iter_clone_stands_where_the_cursor_stands() {
    let mut ki = KeepIter::new(vec![
        PmbsConfigKeep::new_sn(5, 2),
        PmbsConfigKeep::new_sn(20, 1),
    ]);
    assert_eq!(ki.next(), Some(5));
    let mut other = ki.clone();
    assert_eq!(ki.next(), Some(5));
    assert_eq!(ki.next(), Some(20));
    assert_eq!(ki.next(), None);
    assert_eq!(other.next(), Some(5));
    assert_eq!(other.next(), Some(20));
    assert_eq!(other.next(), None);
}
