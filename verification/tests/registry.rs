use log_index::binary_search_tree::{DeviceRegistry, IotDevice};

#[test]
fn find_registered_devices() {
    let mut registry = DeviceRegistry::new_empty();
    registry.add(IotDevice::new(100, String::from("root"), String::from("100")));
    registry.add(IotDevice::new(1, String::from("address_1"), String::from("1")));
    registry.add(IotDevice::new(101, String::from("address_2"), String::from("101")));
    registry.add(IotDevice::new(2, String::from("address_3"), String::from("2")));
    assert_eq!(registry.length, 4);

    let found = registry.find(101).unwrap();
    assert_eq!(found.numeric_id, 101);
    assert_eq!(found.address, String::from("address_2"));
    assert_eq!(found.path, String::from("101"));

    let found = registry.find(2).unwrap();
    assert_eq!(found.numeric_id, 2);
    assert_eq!(found.address, String::from("address_3"));
}

#[test]
fn find_misses_unregistered_ids() {
    let mut registry = DeviceRegistry::new_empty();
    assert!(registry.find(7).is_none());
    registry.add(IotDevice::new(10, String::from("a"), String::from("p")));
    registry.add(IotDevice::new(30, String::from("b"), String::from("q")));
    assert!(registry.find(20).is_none());
    assert!(registry.find(0).is_none());
}

#[test]
fn walk_yields_devices_by_descending_id() {
    let mut registry = DeviceRegistry::new_empty();
    registry.add(IotDevice::new(100, String::from("root"), String::from("100")));
    registry.add(IotDevice::new(1, String::from("address_1"), String::from("1")));
    registry.add(IotDevice::new(101, String::from("address_2"), String::from("101")));
    registry.add(IotDevice::new(2, String::from("address_3"), String::from("2")));

    let devices = registry.walk();
    let ids: Vec<u64> = devices.iter().map(|d| d.numeric_id).collect();
    assert_eq!(ids, vec![101, 100, 2, 1]);
}

#[test]
fn walk_of_empty_registry_is_empty() {
    let registry = DeviceRegistry::new_empty();
    assert!(registry.walk().is_empty());
    assert_eq!(registry.length, 0);
}
