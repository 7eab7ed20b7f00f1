use sylo_e2ee::e2ee::Module;
use sylo_e2ee::e2ee::WITHDRAW_LIST_MAX_LEN;
use sylo_e2ee::store::BundleStore;
use sylo_e2ee::store::DeviceKey;
use sylo_e2ee::store::MAX_PKBS;
use sylo_e2ee::Error;

fn key(account: u64, device: u32) -> DeviceKey {
    DeviceKey { account, device }
}

#[test]
fn should_add_device() {
    let mut e2ee = Module::new();
    assert!(e2ee.register_device(1, 0, vec![]).is_ok());
    assert_eq!(e2ee.devices(1).len(), 1);

    assert!(e2ee.register_device(1, 1, vec![]).is_ok());
    assert_eq!(e2ee.devices(1).len(), 2);
    assert_eq!(e2ee.devices(1)[1], 1);
}

#[test]
fn should_replenish_pkbs() {
    let mut e2ee = Module::new();
    assert!(e2ee.register_device(1, 0, vec![]).is_ok());

    let mock_pkb = b"10".to_vec();

    assert!(e2ee.replenish_pkbs(1, 0, vec![mock_pkb.clone()]).is_ok());

    assert_eq!(e2ee.pkbs(key(1, 0)), vec![mock_pkb]);
}

#[test]
fn should_withdraw_pkbs() {
    let mut e2ee = Module::new();
    assert!(e2ee.register_device(1, 0, vec![]).is_ok());

    let mock_pkb = b"10".to_vec();

    assert!(e2ee.replenish_pkbs(1, 0, vec![mock_pkb.clone()]).is_ok());

    let req_id = vec![3u8; 32];
    let wanted_pkbs = vec![key(1, 0)];

    assert!(e2ee.withdraw_pkbs(2, req_id.clone(), wanted_pkbs).is_ok());

    assert_eq!(e2ee.response(2, &req_id), Some(vec![(1, 0, mock_pkb)]));
}

#[test]
fn capacity_reached_store_rejected() {
    let mut store = BundleStore::new();
    let full: Vec<Vec<u8>> = vec![vec![9u8]; MAX_PKBS];
    assert_eq!(store.store(key(1, 0), full), Ok(()));
    assert_eq!(store.count(key(1, 0)), MAX_PKBS);

    assert_eq!(store.store(key(1, 0), vec![vec![7u8]]), Err(Error::CapacityExceeded));
    assert_eq!(store.count(key(1, 0)), MAX_PKBS);
    assert_eq!(store.bundles_vec(key(1, 0)), vec![vec![9u8]; MAX_PKBS]);
}

#[test]
fn replenish_over_capacity_rejected() {
    let mut e2ee = Module::new();
    let too_many: Vec<Vec<u8>> = vec![vec![1u8]; MAX_PKBS + 1];
    assert_eq!(e2ee.replenish_pkbs(1, 0, too_many), Err(Error::CapacityExceeded));
    assert_eq!(e2ee.pkbs(key(1, 0)), Vec::<Vec<u8>>::new());

    let exactly: Vec<Vec<u8>> = vec![vec![1u8]; MAX_PKBS];
    assert_eq!(e2ee.replenish_pkbs(1, 0, exactly), Ok(()));
    assert_eq!(e2ee.replenish_pkbs(1, 0, vec![vec![2u8]]), Err(Error::CapacityExceeded));
    assert_eq!(e2ee.pkbs(key(1, 0)).len(), MAX_PKBS);
}

#[test]
fn register_over_capacity_rejected() {
    let mut e2ee = Module::new();
    let too_many: Vec<Vec<u8>> = vec![vec![1u8]; MAX_PKBS + 1];
    assert_eq!(e2ee.register_device(1, 0, too_many), Err(Error::CapacityExceeded));
    assert_eq!(e2ee.devices(1).len(), 0);
}

#[test]
fn register_duplicate_device_rejected() {
    let mut e2ee = Module::new();
    assert_eq!(e2ee.register_device(1, 0, vec![]), Ok(()));
    assert_eq!(e2ee.register_device(1, 0, vec![]), Err(Error::DeviceAlreadyRegistered));
    assert_eq!(e2ee.devices(1), vec![0]);
}

#[test]
fn pop_is_one_time_use() {
    let mut store = BundleStore::new();
    let x = b"first".to_vec();
    let y = b"second".to_vec();
    assert_eq!(store.store(key(1, 0), vec![x.clone(), y.clone()]), Ok(()));

    assert_eq!(store.pop(key(1, 0)), Some(y));
    assert_eq!(store.count(key(1, 0)), 1);
    assert_eq!(store.pop(key(1, 0)), Some(x));
    assert_eq!(store.count(key(1, 0)), 0);
    assert_eq!(store.pop(key(1, 0)), None);
}

#[test]
fn pop_on_absent_key_is_none() {
    let mut store = BundleStore::new();
    assert_eq!(store.count(key(5, 5)), 0);
    assert_eq!(store.pop(key(5, 5)), None);
}

#[test]
fn lifo_order() {
    let mut store = BundleStore::new();
    let b1 = b"b1".to_vec();
    let b2 = b"b2".to_vec();
    let b3 = b"b3".to_vec();
    assert_eq!(store.store(key(1, 0), vec![b1.clone(), b2.clone(), b3.clone()]), Ok(()));

    assert_eq!(store.pop(key(1, 0)), Some(b3));
    assert_eq!(store.pop(key(1, 0)), Some(b2));
    assert_eq!(store.pop(key(1, 0)), Some(b1));
    assert_eq!(store.pop(key(1, 0)), None);
}

#[test]
fn partial_success_batching() {
    let mut e2ee = Module::new();
    let bundle = b"only".to_vec();
    assert_eq!(e2ee.replenish_pkbs(1, 0, vec![bundle.clone()]), Ok(()));

    let req_id = b"req".to_vec();
    assert_eq!(e2ee.withdraw_pkbs(9, req_id.clone(), vec![key(1, 0), key(2, 0)]), Ok(()));

    assert_eq!(e2ee.response(9, &req_id), Some(vec![(1, 0, bundle)]));
}

#[test]
fn withdraw_repeated_key_pops_progressively() {
    let mut e2ee = Module::new();
    let bundle = b"one".to_vec();
    assert_eq!(e2ee.replenish_pkbs(1, 0, vec![bundle.clone()]), Ok(()));

    let req_id = b"rep".to_vec();
    assert_eq!(e2ee.withdraw_pkbs(9, req_id.clone(), vec![key(1, 0), key(1, 0)]), Ok(()));

    assert_eq!(e2ee.response(9, &req_id), Some(vec![(1, 0, bundle)]));
    assert_eq!(e2ee.pkbs(key(1, 0)), Vec::<Vec<u8>>::new());
}

#[test]
fn too_many_keys_rejected_without_side_effects() {
    let mut e2ee = Module::new();
    let bundle = b"kept".to_vec();
    assert_eq!(e2ee.replenish_pkbs(1, 0, vec![bundle.clone()]), Ok(()));

    let keys: Vec<DeviceKey> = (0..WITHDRAW_LIST_MAX_LEN as u64 + 1).map(|a| key(a, 0)).collect();
    assert_eq!(keys.len(), 51);
    let req_id = b"big".to_vec();
    assert_eq!(e2ee.withdraw_pkbs(9, req_id.clone(), keys), Err(Error::TooManyKeys));

    assert_eq!(e2ee.response(9, &req_id), None);
    assert_eq!(e2ee.pkbs(key(1, 0)), vec![bundle]);
}

#[test]
fn withdraw_at_bound_accepted() {
    let mut e2ee = Module::new();
    let keys: Vec<DeviceKey> = (0..WITHDRAW_LIST_MAX_LEN as u64).map(|a| key(a, 0)).collect();
    let req_id = b"ok".to_vec();
    assert_eq!(e2ee.withdraw_pkbs(9, req_id.clone(), keys), Ok(()));
    assert_eq!(e2ee.response(9, &req_id), Some(vec![]));
}

#[test]
fn registration_fan_out() {
    let mut e2ee = Module::new();
    e2ee.add_group_membership(1, 10);
    e2ee.add_group_membership(1, 20);

    assert_eq!(e2ee.register_device(1, 0, vec![]), Ok(()));

    assert!(e2ee.group_member_devices(10).contains(&(1, 0)));
    assert!(e2ee.group_member_devices(20).contains(&(1, 0)));
    assert_eq!(e2ee.devices(1), vec![0]);
}

#[test]
fn check_total_pkbs_boundary() {
    let e2ee = Module::new();
    assert!(e2ee.check_total_pkbs(&1, 0, MAX_PKBS));
    assert!(!e2ee.check_total_pkbs(&1, 0, MAX_PKBS + 1));
}

#[test]
fn end_to_end_scenario() {
    let mut e2ee = Module::new();
    assert_eq!(e2ee.register_device(7, 0, vec![]), Ok(()));
    assert_eq!(e2ee.replenish_pkbs(7, 0, vec![b"x".to_vec()]), Ok(()));

    let r = b"r".to_vec();
    assert_eq!(e2ee.withdraw_pkbs(2, r.clone(), vec![key(7, 0)]), Ok(()));
    assert_eq!(e2ee.response(2, &r), Some(vec![(7, 0, b"x".to_vec())]));

    let r2 = b"r2".to_vec();
    assert_eq!(e2ee.withdraw_pkbs(2, r2.clone(), vec![key(7, 0)]), Ok(()));
    assert_eq!(e2ee.response(2, &r2), Some(vec![]));
    assert_eq!(e2ee.response(2, &r), Some(vec![(7, 0, b"x".to_vec())]));
}

#[test]
fn later_delivery_overwrites_same_slot() {
    let mut e2ee = Module::new();
    assert_eq!(e2ee.replenish_pkbs(1, 0, vec![b"a".to_vec(), b"b".to_vec()]), Ok(()));

    let rid = b"same".to_vec();
    assert_eq!(e2ee.withdraw_pkbs(4, rid.clone(), vec![key(1, 0)]), Ok(()));
    assert_eq!(e2ee.response(4, &rid), Some(vec![(1, 0, b"b".to_vec())]));

    assert_eq!(e2ee.withdraw_pkbs(4, rid.clone(), vec![key(1, 0)]), Ok(()));
    assert_eq!(e2ee.response(4, &rid), Some(vec![(1, 0, b"a".to_vec())]));
}
