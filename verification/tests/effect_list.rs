use mixopt::mix::EffectList;

#[test]
fn add_then_has() {
    let mut s = EffectList::new();
    s.add_effect(&17);
    assert!(s.has_effect(&17));
    assert!(!s.has_effect(&16));
}

#[test]
fn remove_then_has_not() {
    let mut s = EffectList::new();
    s.add_effect(&5);
    s.add_effect(&63);
    s.remove_effect(&5);
    assert!(!s.has_effect(&5));
    assert!(s.has_effect(&63));
}

#[test]
fn add_is_idempotent() {
    let mut once = EffectList::new();
    once.add_effect(&9);
    let mut twice = EffectList::new();
    twice.add_effect(&9);
    twice.add_effect(&9);
    assert_eq!(once.len(), twice.len());
    for id in 0..64u8 {
        assert_eq!(once.has_effect(&id), twice.has_effect(&id));
    }
}

#[test]
fn cardinality_counts_members() {
    let mut s = EffectList::new();
    assert_eq!(s.len(), 0);
    s.add_effect(&0);
    s.add_effect(&1);
    s.add_effect(&63);
    s.add_effect(&1);
    assert_eq!(s.len(), 3);
    let mut counted = 0;
    for id in 0..64u8 {
        if s.has_effect(&id) {
            counted += 1;
        }
    }
    assert_eq!(counted, s.len());
    s.remove_effect(&0);
    assert_eq!(s.len(), 2);
    s.remove_effect(&0);
    assert_eq!(s.len(), 2);
}

#[test]
fn from_effects_collects_ids() {
    let s = EffectList::from_effects(vec![&3, &7, &3, &42]);
    assert_eq!(s.len(), 3);
    assert!(s.has_effect(&3));
    assert!(s.has_effect(&7));
    assert!(s.has_effect(&42));
    assert!(!s.has_effect(&0));
}
