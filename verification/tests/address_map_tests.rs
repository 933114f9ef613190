use compile_to_rout::address_map::AddressValueMap;

#[test]
fn new_map_is_empty() {
    let map = AddressValueMap::new();
    assert!(map.is_empty());
    assert_eq!(map.len(), 0);
    assert_eq!(map.get(0), None);
    assert!(!map.contains_key(0));
    assert_eq!(map.addresses(), Vec::<u32>::new());
    assert_eq!(map.entries(), Vec::<(u32, u32)>::new());
}

#[test]
fn insert_then_get() {
    let mut map = AddressValueMap::new();
    map.insert(0x1000, 0xAABBCCDD);
    assert_eq!(map.get(0x1000), Some(0xAABBCCDD));
    assert_eq!(map.get(0x1004), None);
    assert!(map.contains_key(0x1000));
    assert!(!map.contains_key(0x1004));
    assert_eq!(map.len(), 1);
    assert!(!map.is_empty());
}

#[test]
fn insert_at_the_same_address_replaces_the_word() {
    let mut map = AddressValueMap::new();
    map.insert(4, 1);
    map.insert(4, 2);
    assert_eq!(map.get(4), Some(2));
    assert_eq!(map.len(), 1);
}

#[test]
fn addresses_come_out_ascending() {
    let mut map = AddressValueMap::new();
    for address in [40u32, 8, 0xFFFFFFFF, 0, 12, 4] {
        map.insert(address, address / 4);
    }
    assert_eq!(map.addresses(), vec![0, 4, 8, 12, 40, 0xFFFFFFFF]);
    assert_eq!(
        map.entries(),
        vec![(0, 0), (4, 1), (8, 2), (12, 3), (40, 10), (0xFFFFFFFF, 0x3FFFFFFF)]
    );
}

#[test]
fn many_addresses_come_out_ascending() {
    let mut map = AddressValueMap::new();
    let mut address: u32 = 7;
    for _ in 0..1000 {
        address = address.wrapping_mul(1664525).wrapping_add(1013904223);
        map.insert(address, !address);
    }
    let addresses = map.addresses();
    assert_eq!(addresses.len(), map.len());
    assert!(addresses.windows(2).all(|pair| pair[0] < pair[1]));
    assert!(map.entries().iter().all(|&(a, w)| w == !a && map.get(a) == Some(w)));
}
