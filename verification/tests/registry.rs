use message_router::message::Protocol;
use message_router::registry::{ServerMap, ServerReg};

const ONE: Protocol = Protocol::RouteSrv;
const TWO: Protocol = Protocol::SessionSrv;

fn endpoint(map: &ServerMap, protocol: Protocol, shard: u32) -> Option<String> {
    map.get(&protocol, &shard).map(|reg| reg.endpoint.clone())
}

#[test]
fn nothing_is_registered_at_first() {
    assert_eq!(endpoint(&ServerMap::new(), ONE, 0), None);
}

#[test]
fn what_is_registered_is_found() {
    let mut map = ServerMap::new();
    assert!(map.add(ONE, String::from("a"), vec![3, 5, 3], 10));
    assert_eq!(endpoint(&map, ONE, 3), Some(String::from("a")));
    assert_eq!(endpoint(&map, ONE, 5), Some(String::from("a")));
    assert_eq!(endpoint(&map, ONE, 4), None);
    assert_eq!(endpoint(&map, TWO, 3), None);
    assert_eq!(map.get(&ONE, &3).unwrap().renewed_at, 10);
}

#[test]
fn a_refused_registration_changes_no_shard() {
    let mut map = ServerMap::new();
    assert!(map.add(ONE, String::from("a"), vec![1], 10));
    assert!(!map.add(ONE, String::from("b"), vec![2, 1, 3], 20));
    assert_eq!(endpoint(&map, ONE, 1), Some(String::from("a")));
    assert_eq!(endpoint(&map, ONE, 2), None);
    assert_eq!(endpoint(&map, ONE, 3), None);
    assert_eq!(map.get(&ONE, &1).unwrap().renewed_at, 10);
}

#[test]
fn registering_again_succeeds() {
    let mut map = ServerMap::new();
    assert!(map.add(ONE, String::from("a"), vec![1], 10));
    assert!(map.add(ONE, String::from("a"), vec![1, 2], 20));
    assert_eq!(map.get(&ONE, &1).unwrap().renewed_at, 20);
    assert_eq!(endpoint(&map, ONE, 2), Some(String::from("a")));
    assert!(map.add(ONE, String::from("a"), vec![2], 30));
    assert_eq!(map.get(&ONE, &1).unwrap().renewed_at, 20);
}

#[test]
fn registering_for_no_shard_succeeds() {
    let mut map = ServerMap::new();
    assert!(map.add(ONE, String::from("a"), vec![], 10));
    assert_eq!(endpoint(&map, ONE, 0), None);
}

#[test]
fn dropping_takes_away_one_endpoint_of_one_protocol() {
    let mut map = ServerMap::new();
    map.add(ONE, String::from("a"), vec![1, 2], 10);
    map.add(ONE, String::from("b"), vec![3], 10);
    map.add(TWO, String::from("a"), vec![1], 10);
    map.drop(&ONE, "a");
    assert_eq!(endpoint(&map, ONE, 1), None);
    assert_eq!(endpoint(&map, ONE, 2), None);
    assert_eq!(endpoint(&map, ONE, 3), Some(String::from("b")));
    assert_eq!(endpoint(&map, TWO, 1), Some(String::from("a")));
    assert!(map.add(ONE, String::from("b"), vec![1, 2], 20));
    map.drop(&Protocol::JobSrv, "b");
    assert_eq!(endpoint(&map, ONE, 1), Some(String::from("b")));
}

#[test]
fn renewing_is_for_every_registration_of_an_endpoint() {
    let mut map = ServerMap::new();
    map.add(ONE, String::from("a"), vec![1, 2], 10);
    map.add(TWO, String::from("a"), vec![1], 10);
    map.add(TWO, String::from("b"), vec![2], 10);
    map.renew("a", 30);
    assert_eq!(map.get(&ONE, &1).unwrap().renewed_at, 30);
    assert_eq!(map.get(&ONE, &2).unwrap().renewed_at, 30);
    assert_eq!(map.get(&TWO, &1).unwrap().renewed_at, 30);
    assert_eq!(map.get(&TWO, &2).unwrap().renewed_at, 10);
    assert_eq!(endpoint(&map, TWO, 1), Some(String::from("a")));
}

#[test]
fn a_registration_is_renewed_and_copied() {
    let mut reg = ServerReg::new(String::from("a"), 1);
    reg.renew(2);
    let copy = reg.clone();
    assert_eq!((copy.endpoint.as_str(), copy.renewed_at), ("a", 2));
}
