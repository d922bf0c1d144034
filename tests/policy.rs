use cached::policy::AdmissionPolicy;
use cached::types::CommandStatus;

#[test]
fn admits_what_fits() {
    let mut policy: AdmissionPolicy<&str> = AdmissionPolicy::new(10, 100);

    let admission = policy.maybe_add("topic", 1, 10, 60);

    assert_eq!(CommandStatus::Accepted, admission.status);
    assert!(admission.victims.is_empty());
    assert_eq!(60, policy.weight_used());
    assert_eq!(Some(60), policy.weight_of(1));
}

#[test]
fn rejects_what_outweighs_the_budget() {
    let mut policy: AdmissionPolicy<&str> = AdmissionPolicy::new(10, 100);

    let admission = policy.maybe_add("topic", 1, 10, 101);

    assert_eq!(CommandStatus::Rejected, admission.status);
    assert_eq!(0, policy.weight_used());
    assert!(!policy.contains(1));
}

#[test]
fn a_known_id_gets_its_weight_updated() {
    let mut policy: AdmissionPolicy<&str> = AdmissionPolicy::new(10, 100);
    policy.maybe_add("topic", 1, 10, 60);

    let admission = policy.maybe_add("topic", 1, 10, 30);

    assert_eq!(CommandStatus::Accepted, admission.status);
    assert_eq!(Some(30), policy.weight_of(1));
    assert_eq!(30, policy.weight_used());
}

#[test]
fn evicts_less_frequent_residents_to_make_room() {
    let mut policy: AdmissionPolicy<&str> = AdmissionPolicy::new(10, 100);
    policy.maybe_add("a", 1, 1, 40);
    policy.maybe_add("b", 2, 2, 40);
    policy.accept(&vec![3, 3, 3]);

    let admission = policy.maybe_add("c", 3, 3, 60);

    assert_eq!(CommandStatus::Accepted, admission.status);
    assert_eq!(1, admission.victims.len());
    let victim = admission.victims[0].key_id;
    assert!(victim == 1 || victim == 2);
    assert!(!policy.contains(victim));
    assert!(policy.contains(3));
    assert_eq!(100, policy.weight_used());
}

#[test]
fn delete_frees_the_weight() {
    let mut policy: AdmissionPolicy<&str> = AdmissionPolicy::new(10, 100);
    policy.maybe_add("a", 1, 1, 40);

    let removed = policy.delete(1).unwrap();

    assert_eq!("a", removed.key);
    assert_eq!(0, policy.weight_used());
    assert!(policy.delete(1).is_none());
}

#[test]
fn clear_drops_every_resident() {
    let mut policy: AdmissionPolicy<&str> = AdmissionPolicy::new(10, 100);
    policy.maybe_add("a", 1, 1, 40);
    policy.maybe_add("b", 2, 2, 40);

    policy.clear();

    assert_eq!(0, policy.weight_used());
    assert!(!policy.contains(1));
    assert!(!policy.contains(2));
}
