use std::sync::{Arc, Mutex};

use conn_map::{ConnMap, ConnMapError, IpAddr, SocketAddr};

#[derive(Debug, Clone, PartialEq)]
struct Closed;

struct TestConn {
    addr: SocketAddr,
    closed: bool,
}

type Handle = Arc<Mutex<TestConn>>;

fn v4(a: u8, b: u8, c: u8, d: u8) -> IpAddr {
    IpAddr::V4(u32::from_be_bytes([a, b, c, d]))
}

fn sock(ip: IpAddr, port: u16) -> SocketAddr {
    SocketAddr::new(ip, port)
}

fn conn(ip: IpAddr, port: u16) -> Handle {
    Arc::new(Mutex::new(TestConn { addr: sock(ip, port), closed: false }))
}

fn close(h: &Handle) {
    h.lock().unwrap().closed = true;
}

fn query(h: &Handle) -> Result<SocketAddr, Closed> {
    let c = h.lock().unwrap();
    if c.closed {
        Err(Closed)
    } else {
        Ok(c.addr)
    }
}

fn probes(map: &ConnMap<Handle>, port: u16) -> Vec<Result<SocketAddr, Closed>> {
    map.conns_on(port).iter().map(query).collect()
}

fn insert(map: &mut ConnMap<Handle>, h: Handle) -> Result<(), ConnMapError<Closed>> {
    let addr = query(&h).map_err(ConnMapError::ConnectionQueryFailed)?;
    let p = probes(map, addr.port);
    map.insert(addr, h, p)
}

fn find(map: &ConnMap<Handle>, addr: SocketAddr) -> Option<Handle> {
    let p = probes(map, addr.port);
    map.find(addr, &p).cloned()
}

fn delete(map: &mut ConnMap<Handle>, addr: SocketAddr) -> Result<(), ConnMapError<Closed>> {
    let p = probes(map, addr.port);
    map.delete(addr, p)
}

#[test]
fn example_scenario() {
    let mut map = ConnMap::new();
    let a = conn(v4(10, 0, 0, 1), 5000);
    let b = conn(v4(10, 0, 0, 2), 5000);
    let c = conn(v4(10, 0, 0, 1), 5000);
    assert_eq!(insert(&mut map, a), Ok(()));
    assert_eq!(insert(&mut map, b.clone()), Ok(()));
    assert_eq!(insert(&mut map, c), Err(ConnMapError::AddressInUse));
    assert_eq!(map.len(), 2);
    let found = find(&map, sock(v4(10, 0, 0, 2), 5000)).unwrap();
    assert!(Arc::ptr_eq(&found, &b));
    assert_eq!(delete(&mut map, sock(v4(10, 0, 0, 1), 5000)), Ok(()));
    assert_eq!(map.len(), 1);
    assert!(find(&map, sock(v4(10, 0, 0, 1), 5000)).is_none());
}

#[test]
fn new_registry_is_empty() {
    let map: ConnMap<Handle> = ConnMap::new();
    assert_eq!(map.len(), 0);
    assert!(map.conns_on(5000).is_empty());
    assert!(find(&map, sock(v4(127, 0, 0, 1), 5000)).is_none());
}

#[test]
fn distinct_inserts_all_succeed() {
    let mut map = ConnMap::new();
    let mut n = 0;
    for port in [80u16, 443, 5000] {
        for last in 1u8..=4 {
            assert_eq!(insert(&mut map, conn(v4(10, 0, 0, last), port)), Ok(()));
            n += 1;
        }
    }
    assert_eq!(map.len(), n);
    assert_eq!(map.len(), 12);
    assert_eq!(map.conns_on(443).len(), 4);
}

#[test]
fn duplicate_insert_refused() {
    let mut map = ConnMap::new();
    let first = conn(v4(192, 168, 1, 1), 8080);
    assert_eq!(insert(&mut map, first.clone()), Ok(()));
    assert_eq!(insert(&mut map, conn(v4(192, 168, 1, 1), 8080)), Err(ConnMapError::AddressInUse));
    assert_eq!(map.len(), 1);
    let found = find(&map, sock(v4(192, 168, 1, 1), 8080)).unwrap();
    assert!(Arc::ptr_eq(&found, &first));
}

#[test]
fn shared_port_distinct_ip_both_found() {
    let mut map = ConnMap::new();
    let a = conn(v4(10, 0, 0, 1), 5000);
    let b = conn(v4(10, 0, 0, 2), 5000);
    assert_eq!(insert(&mut map, a.clone()), Ok(()));
    assert_eq!(insert(&mut map, b.clone()), Ok(()));
    assert_eq!(map.len(), 2);
    assert!(Arc::ptr_eq(&find(&map, sock(v4(10, 0, 0, 1), 5000)).unwrap(), &a));
    assert!(Arc::ptr_eq(&find(&map, sock(v4(10, 0, 0, 2), 5000)).unwrap(), &b));
}

#[test]
fn same_ip_on_other_port_is_separate() {
    let mut map = ConnMap::new();
    assert_eq!(insert(&mut map, conn(v4(10, 0, 0, 1), 5000)), Ok(()));
    assert_eq!(insert(&mut map, conn(v4(10, 0, 0, 1), 5001)), Ok(()));
    assert_eq!(map.len(), 2);
}

#[test]
fn find_never_inserted_is_none() {
    let mut map = ConnMap::new();
    assert_eq!(insert(&mut map, conn(v4(10, 0, 0, 1), 5000)), Ok(()));
    assert!(find(&map, sock(v4(10, 0, 0, 9), 5000)).is_none());
    assert!(find(&map, sock(v4(10, 0, 0, 1), 6000)).is_none());
}

#[test]
fn delete_removes_only_that_entry() {
    let mut map = ConnMap::new();
    let a = conn(v4(10, 0, 0, 1), 5000);
    let b = conn(v4(10, 0, 0, 2), 5000);
    let c = conn(v4(10, 0, 0, 3), 5000);
    for h in [a.clone(), b.clone(), c.clone()] {
        assert_eq!(insert(&mut map, h), Ok(()));
    }
    assert_eq!(delete(&mut map, sock(v4(10, 0, 0, 2), 5000)), Ok(()));
    assert_eq!(map.len(), 2);
    assert!(find(&map, sock(v4(10, 0, 0, 2), 5000)).is_none());
    let left = map.conns_on(5000);
    assert_eq!(left.len(), 2);
    assert!(Arc::ptr_eq(&left[0], &a));
    assert!(Arc::ptr_eq(&left[1], &c));
}

#[test]
fn delete_absent_is_noop() {
    let mut map = ConnMap::new();
    assert_eq!(insert(&mut map, conn(v4(10, 0, 0, 1), 5000)), Ok(()));
    assert_eq!(delete(&mut map, sock(v4(10, 0, 0, 2), 5000)), Ok(()));
    assert_eq!(delete(&mut map, sock(v4(10, 0, 0, 1), 7000)), Ok(()));
    assert_eq!(map.len(), 1);
    assert_eq!(map.conns_on(5000).len(), 1);
    assert_eq!(delete(&mut map, sock(v4(10, 0, 0, 1), 5000)), Ok(()));
    assert_eq!(delete(&mut map, sock(v4(10, 0, 0, 1), 5000)), Ok(()));
    assert_eq!(map.len(), 0);
}

#[test]
fn emptied_port_is_dropped() {
    let mut map = ConnMap::new();
    assert_eq!(insert(&mut map, conn(v4(10, 0, 0, 1), 5000)), Ok(()));
    assert_eq!(insert(&mut map, conn(v4(10, 0, 0, 2), 5000)), Ok(()));
    assert_eq!(delete(&mut map, sock(v4(10, 0, 0, 1), 5000)), Ok(()));
    assert_eq!(delete(&mut map, sock(v4(10, 0, 0, 2), 5000)), Ok(()));
    assert_eq!(map.len(), 0);
    assert!(map.conns_on(5000).is_empty());
    let again = conn(v4(10, 0, 0, 1), 5000);
    assert_eq!(insert(&mut map, again.clone()), Ok(()));
    assert_eq!(map.len(), 1);
    assert_eq!(map.conns_on(5000).len(), 1);
    assert!(Arc::ptr_eq(&find(&map, sock(v4(10, 0, 0, 1), 5000)).unwrap(), &again));
}

#[test]
fn insert_propagates_query_failure() {
    let mut map = ConnMap::new();
    let a = conn(v4(10, 0, 0, 1), 5000);
    assert_eq!(insert(&mut map, a.clone()), Ok(()));
    close(&a);
    assert_eq!(
        insert(&mut map, conn(v4(10, 0, 0, 2), 5000)),
        Err(ConnMapError::ConnectionQueryFailed(Closed))
    );
    assert_eq!(map.len(), 1);
}

#[test]
fn insert_of_closed_connection_fails() {
    let mut map = ConnMap::new();
    let a = conn(v4(10, 0, 0, 1), 5000);
    close(&a);
    assert_eq!(insert(&mut map, a), Err(ConnMapError::ConnectionQueryFailed(Closed)));
    assert_eq!(map.len(), 0);
}

#[test]
fn insert_conflict_seen_before_failure() {
    let mut map = ConnMap::new();
    let a = conn(v4(10, 0, 0, 1), 5000);
    let b = conn(v4(10, 0, 0, 2), 5000);
    assert_eq!(insert(&mut map, a), Ok(()));
    assert_eq!(insert(&mut map, b.clone()), Ok(()));
    close(&b);
    assert_eq!(insert(&mut map, conn(v4(10, 0, 0, 1), 5000)), Err(ConnMapError::AddressInUse));
    assert_eq!(
        insert(&mut map, conn(v4(10, 0, 0, 3), 5000)),
        Err(ConnMapError::ConnectionQueryFailed(Closed))
    );
    assert_eq!(map.len(), 2);
}

#[test]
fn find_gives_up_at_failed_query() {
    let mut map = ConnMap::new();
    let a = conn(v4(10, 0, 0, 1), 5000);
    let b = conn(v4(10, 0, 0, 2), 5000);
    assert_eq!(insert(&mut map, a.clone()), Ok(()));
    assert_eq!(insert(&mut map, b.clone()), Ok(()));
    assert!(Arc::ptr_eq(&find(&map, sock(v4(10, 0, 0, 1), 5000)).unwrap(), &a));
    close(&a);
    assert!(find(&map, sock(v4(10, 0, 0, 2), 5000)).is_none());
}

#[test]
fn find_stops_at_first_match() {
    let mut map = ConnMap::new();
    let a = conn(v4(10, 0, 0, 1), 5000);
    let b = conn(v4(10, 0, 0, 2), 5000);
    assert_eq!(insert(&mut map, a.clone()), Ok(()));
    assert_eq!(insert(&mut map, b.clone()), Ok(()));
    close(&b);
    assert!(Arc::ptr_eq(&find(&map, sock(v4(10, 0, 0, 1), 5000)).unwrap(), &a));
}

#[test]
fn delete_propagates_query_failure() {
    let mut map = ConnMap::new();
    let a = conn(v4(10, 0, 0, 1), 5000);
    let b = conn(v4(10, 0, 0, 2), 5000);
    assert_eq!(insert(&mut map, a.clone()), Ok(()));
    assert_eq!(insert(&mut map, b.clone()), Ok(()));
    close(&b);
    assert_eq!(
        delete(&mut map, sock(v4(10, 0, 0, 1), 5000)),
        Err(ConnMapError::ConnectionQueryFailed(Closed))
    );
    assert_eq!(map.len(), 2);
    assert_eq!(map.conns_on(5000).len(), 2);
}

#[test]
fn ipv6_addresses_are_compared_whole() {
    let mut map = ConnMap::new();
    let a = conn(IpAddr::V6(1), 443);
    assert_eq!(insert(&mut map, a.clone()), Ok(()));
    assert_eq!(insert(&mut map, conn(IpAddr::V6(2), 443)), Ok(()));
    assert_eq!(insert(&mut map, conn(IpAddr::V4(1), 443)), Ok(()));
    assert_eq!(insert(&mut map, conn(IpAddr::V6(1), 443)), Err(ConnMapError::AddressInUse));
    assert_eq!(map.len(), 3);
    assert!(Arc::ptr_eq(&find(&map, sock(IpAddr::V6(1), 443)).unwrap(), &a));
}

fn runtime() -> tokio::runtime::Runtime {
    tokio::runtime::Builder::new_multi_thread().worker_threads(4).build().unwrap()
}

#[test]
fn concurrent_distinct_inserts_all_land() {
    let map = Arc::new(tokio::sync::Mutex::new(ConnMap::<Handle>::new()));
    let results = runtime().block_on(async {
        let mut tasks = Vec::new();
        for i in 0u32..64 {
            let map = Arc::clone(&map);
            tasks.push(tokio::spawn(async move {
                let h = conn(v4(10, 0, 0, (i % 8) as u8 + 1), 5000 + (i / 8) as u16);
                let mut guard = map.lock().await;
                insert(&mut guard, h)
            }));
        }
        let mut out = Vec::new();
        for t in tasks {
            out.push(t.await.unwrap());
        }
        out
    });
    assert!(results.iter().all(|r| r.is_ok()));
    assert_eq!(map.try_lock().unwrap().len(), 64);
}

#[test]
fn concurrent_same_address_one_wins() {
    for _ in 0..20 {
        let map = Arc::new(tokio::sync::Mutex::new(ConnMap::<Handle>::new()));
        let results = runtime().block_on(async {
            let mut tasks = Vec::new();
            for _ in 0..2 {
                let map = Arc::clone(&map);
                tasks.push(tokio::spawn(async move {
                    let h = conn(v4(10, 0, 0, 1), 5000);
                    let mut guard = map.lock().await;
                    insert(&mut guard, h)
                }));
            }
            let mut out = Vec::new();
            for t in tasks {
                out.push(t.await.unwrap());
            }
            out
        });
        let wins = results.iter().filter(|r| r.is_ok()).count();
        let refused = results.iter().filter(|r| **r == Err(ConnMapError::AddressInUse)).count();
        assert_eq!(wins, 1);
        assert_eq!(refused, 1);
        assert_eq!(map.try_lock().unwrap().len(), 1);
    }
}
