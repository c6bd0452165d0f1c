use state_space::amm::{BalancerPool, Pool, AMM};
use state_space::cache::{StateChange, StateChangeCache};
use state_space::key_map::KeyMap;
use state_space::key_set::KeySet;
use state_space::primitives::{Address, B256};

fn address(n: u8) -> Address {
    Address([n; 20])
}

fn pool(n: u8, mark: u8) -> AMM {
    AMM {
        address: address(n),
        sync_events: vec![],
        pool: Pool::BalancerPool(BalancerPool { tokens: vec![address(mark)] }),
    }
}

#[test]
fn map_keeps_its_keys_in_order() {
    let mut map: KeyMap<Address, u32> = KeyMap::new();
    assert!(map.is_empty());
    assert_eq!(map.insert(address(3), 30), None);
    assert_eq!(map.insert(address(1), 10), None);
    assert_eq!(map.insert(address(2), 20), None);
    assert_eq!(map.insert(address(2), 21), Some(20));
    assert_eq!(map.len(), 3);
    assert_eq!(map.entry(0), (&address(1), &10));
    assert_eq!(map.entry(1), (&address(2), &21));
    assert_eq!(map.entry(2), (&address(3), &30));
    assert_eq!(map.get(&address(2)), Some(&21));
    assert_eq!(map.get(&address(4)), None);
    assert_eq!(map.remove(&address(1)), Some(10));
    assert_eq!(map.remove(&address(1)), None);
    assert_eq!(map.len(), 2);
    map.clear();
    assert!(map.is_empty());
}

#[test]
fn map_by_pairs_of_texts() {
    let mut map: KeyMap<(String, String), u32> = KeyMap::new();
    let key = |a: &str, b: &str| (a.to_string(), b.to_string());
    let _ = map.insert(key("b", "a"), 1);
    let _ = map.insert(key("a", "b"), 2);
    let _ = map.insert(key("a", ""), 3);
    assert_eq!(map.get(&key("a", "b")), Some(&2));
    assert_eq!(map.get(&key("b", "a")), Some(&1));
    assert_eq!(map.get(&key("", "a")), None);
    if let Some(value) = map.get_mut(&key("a", "")) {
        *value = 4;
    }
    assert_eq!(map.get(&key("a", "")), Some(&4));
}

#[test]
fn set_holds_each_member_once() {
    let mut set: KeySet<Address> = KeySet::new();
    set.insert(address(2));
    set.insert(address(1));
    set.insert(address(2));
    assert_eq!(set.to_vec(), vec![address(1), address(2)]);
    let mut other: KeySet<Address> = KeySet::new();
    other.insert(address(0));
    other.insert_all(&set);
    assert_eq!(other.len(), 3);
    assert!(other.contains(&address(2)));
    other.remove(&address(2));
    other.remove(&address(7));
    assert!(!other.contains(&address(2)));
    assert!(!other.is_empty());
    assert_eq!(other.member(1), &address(1));
}

#[test]
fn same_bytes_are_the_same_address() {
    let mut nearly = [7u8; 20];
    nearly[19] = 8;
    assert!(address(7).same_as(&Address([7; 20])));
    assert!(!address(7).same_as(&Address(nearly)));
    assert!(B256([1; 32]).same_as(&B256([1; 32])));
    assert!(!B256([1; 32]).same_as(&B256([2; 32])));
}

#[test]
fn cache_hands_back_the_newest_change_first() {
    let mut cache: StateChangeCache<30> = StateChangeCache::new();
    cache.push(StateChange::new(vec![pool(1, 10)], 100));
    cache.push(StateChange::new(vec![pool(1, 11), pool(2, 21)], 101));
    cache.push(StateChange::new(vec![pool(2, 22)], 102));
    let former = cache.unwind_state_changes(101);
    let expected = vec![pool(2, 22), pool(1, 11), pool(2, 21)];
    assert_eq!(format!("{:?}", former), format!("{:?}", expected));
    assert!(cache.unwind_state_changes(101).is_empty());
    let first = cache.unwind_state_changes(0);
    assert_eq!(format!("{:?}", first), format!("{:?}", vec![pool(1, 10)]));
}

#[test]
fn full_cache_forgets_the_oldest_change() {
    let mut cache: StateChangeCache<2> = StateChangeCache::new();
    cache.push(StateChange::new(vec![pool(1, 10)], 100));
    cache.push(StateChange::new(vec![pool(1, 11)], 101));
    cache.push(StateChange::new(vec![pool(1, 12)], 102));
    let former = cache.unwind_state_changes(0);
    assert_eq!(format!("{:?}", former), format!("{:?}", vec![pool(1, 12), pool(1, 11)]));
}

#[test]
fn cache_without_room_remembers_nothing() {
    let mut cache: StateChangeCache<0> = StateChangeCache::new();
    cache.push(StateChange::new(vec![pool(1, 10)], 100));
    assert!(cache.unwind_state_changes(0).is_empty());
}
