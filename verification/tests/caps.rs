use vhost_user_nvrm::caps::{clear_admin_capability, CapData, ADMIN_BIT};

#[test]
fn drops_admin_even_when_only_permitted_or_inheritable() {
    for capability in [
        CapData { effective: ADMIN_BIT, ..CapData::default() },
        CapData { permitted: ADMIN_BIT, ..CapData::default() },
        CapData { inheritable: ADMIN_BIT, ..CapData::default() },
    ] {
        let mut data = [capability, CapData::default()];
        assert!(clear_admin_capability(&mut data));
        assert_eq!(data, [CapData::default(); 2]);
        assert!(!clear_admin_capability(&mut data));
    }
}

#[test]
fn retains_unrelated_capabilities() {
    let other = CapData { effective: 7, permitted: 15, inheritable: 3 };
    let mut data = [other; 2];
    data[0].permitted |= ADMIN_BIT;
    assert!(clear_admin_capability(&mut data));
    assert_eq!(data, [other; 2]);
}

#[test]
fn the_second_word_is_left_alone() {
    let all = CapData { effective: u32::MAX, permitted: u32::MAX, inheritable: u32::MAX };
    let mut data = [all; 2];
    assert!(clear_admin_capability(&mut data));
    assert_eq!(data[0].effective, !ADMIN_BIT);
    assert_eq!(data[1], all);
    assert_eq!(ADMIN_BIT, 1 << 21);
}
