use mixopt::filter::Filter;
use mixopt::mix::EffectList;
use mixopt::search::is_admissible;

fn constrained_filter() -> Filter {
    let mut filter = Filter::new();
    filter.required_effects = vec![0, 1];
    filter.blocked_effects = vec![2];
    filter
}

#[test]
fn accepts_when_required_present_and_blocked_absent() {
    let filter = constrained_filter();
    let effects = EffectList::from_effects(vec![&0, &1, &5]);
    assert!(is_admissible(&filter, &effects));
}

#[test]
fn rejects_when_any_required_effect_is_missing() {
    let filter = constrained_filter();
    // Has one required effect but not the other.
    let effects = EffectList::from_effects(vec![&0, &5]);
    assert!(!is_admissible(&filter, &effects));
}

#[test]
fn rejects_when_any_blocked_effect_is_present() {
    let filter = constrained_filter();
    // All required effects present, but the single blocked one sneaks in.
    let effects = EffectList::from_effects(vec![&0, &1, &2, &5]);
    assert!(!is_admissible(&filter, &effects));
}

#[test]
fn no_constraints_accept_everything() {
    let filter = Filter::new();
    assert!(is_admissible(&filter, &EffectList::new()));
    assert!(is_admissible(&filter, &EffectList::from_effects(vec![&63])));
}
