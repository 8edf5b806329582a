use std::collections::HashMap;

use vstd::prelude::*;

use crate::addr::SocketAddr;
use crate::model::{
    bucket, delete_verdict, fails_first, find_verdict, insert_verdict, kept,
    lemma_bucket_le_total, lemma_first_failure_unique, lemma_kept_len, lemma_kept_port,
    lemma_no_stop, lemma_stop_unique, lemma_total_empty, lemma_total_update, passes, same_shape,
    total, well_placed, with_added, with_rebuilt, ConnMapError,
};

verus! {

broadcast use vstd::std_specs::hash::group_hash_axioms;

/// The registry: for each occupied port, the connection handles bound on it,
/// in the order they were registered.
///
/// Beside each handle it keeps, as ghost state, the address the handle
/// reported when it was registered.
pub struct ConnMap<H> {
    port_map: HashMap<u16, Vec<H>>,
    count: usize,
    registered: Ghost<Map<u16, Seq<SocketAddr>>>,
}

impl<H> ConnMap<H> {
    /// The handles of each occupied port, in registration order.
    pub closed spec fn conns(&self) -> Map<u16, Seq<H>> {
        self.port_map@.map_values(|v: Vec<H>| v@)
    }

    /// The address each entry reported when it was registered, laid out as
    /// `conns`.
    pub closed spec fn addrs(&self) -> Map<u16, Seq<SocketAddr>> {
        self.registered@
    }

    /// The registry's invariant.
    pub closed spec fn wf(&self) -> bool {
        &&& same_shape(self.conns(), self.addrs())
        &&& well_placed(self.addrs())
        &&& self.count == total(self.addrs())
    }

    /// What the invariant says of the two models.
    pub proof fn lemma_wf(&self)
        requires
            self.wf(),
        ensures
            same_shape(self.conns(), self.addrs()),
            well_placed(self.addrs()),
    {
    }

    /// An empty registry.
    pub fn new() -> (r: Self)
        ensures
            r.wf(),
            r.conns() == Map::<u16, Seq<H>>::empty(),
            r.addrs() == Map::<u16, Seq<SocketAddr>>::empty(),
            total(r.addrs()) == 0,
    {
        let r = ConnMap {
            port_map: HashMap::new(),
            count: 0,
            registered: Ghost(Map::empty()),
        };
        proof {
            lemma_total_empty(r.registered@);
            assert(r.conns() =~= Map::<u16, Seq<H>>::empty());
        }
        r
    }

    /// The number of registered connections, over all ports.
    pub fn len(&self) -> (r: usize)
        requires
            self.wf(),
        ensures
            r == total(self.addrs()),
    {
        self.count
    }

    /// The handles registered on `port`, in registration order.
    pub fn conns_on(&self, port: u16) -> (r: &[H])
        requires
            self.wf(),
        ensures
            r@ == bucket(self.conns(), port),
    {
        match self.port_map.get(&port) {
            Some(v) => v.as_slice(),
            None => &[],
        }
    }

    /// Registers `conn`, which reports the address `addr`, unless an entry of
    /// `addr.port` already reports `addr.ip`.
    ///
    /// `probes` holds, in bucket order, what each handle registered on
    /// `addr.port` answered when asked for its address. The scan stops at the
    /// first entry that failed to answer, whose error is passed on, or that
    /// answered with `addr.ip`, which refuses the bind. Nothing changes unless
    /// the handle is appended.
    pub fn insert<E>(&mut self, addr: SocketAddr, conn: H, probes: Vec<Result<SocketAddr, E>>) -> (r:
        Result<(), ConnMapError<E>>)
        requires
            old(self).wf(),
            probes@.len() == bucket(old(self).conns(), addr.port).len(),
            total(old(self).addrs()) < usize::MAX,
        ensures
            final(self).wf(),
            r == insert_verdict(probes@, addr.ip),
            r is Ok ==> final(self).conns() == with_added(old(self).conns(), addr.port, conn),
            r is Ok ==> final(self).addrs() == with_added(old(self).addrs(), addr.port, addr),
            r is Ok ==> total(final(self).addrs()) == total(old(self).addrs()) + 1,
            r is Err ==> final(self).conns() == old(self).conns(),
            r is Err ==> final(self).addrs() == old(self).addrs(),
    {
        let mut outcomes = probes;
        let n = outcomes.len();
        let mut i: usize = 0;
        while i < n
            invariant
                self.wf(),
                outcomes@ == probes@,
                n == probes@.len(),
                i <= n,
                forall|j: int| 0 <= j < i ==> passes(#[trigger] probes@[j], addr.ip),
            decreases n - i,
        {
            let stop = match &outcomes[i] {
                Ok(a) => a.ip == addr.ip,
                Err(_) => true,
            };
            if stop {
                proof {
                    lemma_stop_unique(probes@, addr.ip, i as int);
                }
                return match outcomes.remove(i) {
                    Ok(_) => Err(ConnMapError::AddressInUse),
                    Err(e) => Err(ConnMapError::ConnectionQueryFailed(e)),
                };
            }
            i += 1;
        }
        proof {
            lemma_no_stop(probes@, addr.ip);
        }
        let port = addr.port;
        let ghost old_addrs = self.registered@;
        let mut b = match self.port_map.remove(&port) {
            Some(v) => v,
            None => Vec::new(),
        };
        b.push(conn);
        self.port_map.insert(port, b);
        self.registered = Ghost(with_added(old_addrs, port, addr));
        proof {
            let new_addrs = self.registered@;
            assert forall|q: u16| q != port implies #[trigger] bucket(new_addrs, q) == bucket(
                old_addrs,
                q,
            ) by {}
            lemma_total_update(old_addrs, new_addrs, port);
            assert(self.conns() =~= with_added(old(self).conns(), port, conn));
        }
        self.count = self.count + 1;
        Ok(())
    }

    /// The first handle on `addr.port` that reports `addr.ip`.
    ///
    /// `probes` holds, in bucket order, what each handle registered on
    /// `addr.port` answered when asked for its address. The lookup goes in
    /// registration order and gives up at the first handle that failed to
    /// answer: a connection that cannot say where it is bound matches nothing,
    /// and the lookup reports no match rather than an error.
    pub fn find<E>(&self, addr: SocketAddr, probes: &Vec<Result<SocketAddr, E>>) -> (r: Option<&H>)
        requires
            self.wf(),
            probes@.len() == bucket(self.conns(), addr.port).len(),
        ensures
            r == (match find_verdict(probes@, addr.ip) {
                Some(k) => Some(&bucket(self.conns(), addr.port)[k]),
                None => None,
            }),
    {
        let conns = self.conns_on(addr.port);
        let n = probes.len();
        let mut i: usize = 0;
        while i < n
            invariant
                n == probes@.len(),
                conns@ == bucket(self.conns(), addr.port),
                conns@.len() == n,
                i <= n,
                forall|j: int| 0 <= j < i ==> passes(#[trigger] probes@[j], addr.ip),
            decreases n - i,
        {
            match &probes[i] {
                Ok(a) => {
                    if a.ip == addr.ip {
                        proof {
                            lemma_stop_unique(probes@, addr.ip, i as int);
                        }
                        return Some(&conns[i]);
                    }
                },
                Err(_) => {
                    proof {
                        lemma_stop_unique(probes@, addr.ip, i as int);
                    }
                    return None;
                },
            }
            i += 1;
        }
        proof {
            lemma_no_stop(probes@, addr.ip);
        }
        None
    }

    /// Removes every entry of `addr.port` that reports exactly `addr`,
    /// keeping the others in order; a port left without entries is dropped.
    ///
    /// `probes` holds, in bucket order, what each handle registered on
    /// `addr.port` answered when asked for its address. If any failed to
    /// answer, the first such error is passed on and nothing changes. Removing
    /// an address that no entry reports succeeds and changes nothing.
    pub fn delete<E>(&mut self, addr: SocketAddr, probes: Vec<Result<SocketAddr, E>>) -> (r: Result<
        (),
        ConnMapError<E>,
    >)
        requires
            old(self).wf(),
            probes@.len() == bucket(old(self).conns(), addr.port).len(),
        ensures
            final(self).wf(),
            r == delete_verdict(probes@),
            r is Ok ==> final(self).conns() == with_rebuilt(
                old(self).conns(),
                addr.port,
                kept(bucket(old(self).conns(), addr.port), probes@, addr, probes@.len() as int),
            ),
            r is Ok ==> final(self).addrs() == with_rebuilt(
                old(self).addrs(),
                addr.port,
                kept(bucket(old(self).addrs(), addr.port), probes@, addr, probes@.len() as int),
            ),
            r is Ok ==> total(final(self).addrs()) + probes@.len() == total(old(self).addrs()) + kept(
                bucket(old(self).addrs(), addr.port),
                probes@,
                addr,
                probes@.len() as int,
            ).len(),
            r is Err ==> final(self).conns() == old(self).conns(),
            r is Err ==> final(self).addrs() == old(self).addrs(),
    {
        let mut outcomes = probes;
        let n = outcomes.len();
        let mut i: usize = 0;
        while i < n
            invariant
                self.wf(),
                outcomes@ == probes@,
                n == probes@.len(),
                i <= n,
                forall|j: int| 0 <= j < i ==> (#[trigger] probes@[j]) is Ok,
            decreases n - i,
        {
            if outcomes[i].is_err() {
                proof {
                    lemma_first_failure_unique(probes@, i as int);
                }
                return match outcomes.remove(i) {
                    Ok(_) => Ok(()),
                    Err(e) => Err(ConnMapError::ConnectionQueryFailed(e)),
                };
            }
            i += 1;
        }
        proof {
            assert(!exists|k: int| fails_first(probes@, k));
        }
        let port = addr.port;
        let ghost old_conns = self.conns();
        let ghost old_addrs = self.registered@;
        let mut b = match self.port_map.remove(&port) {
            Some(v) => v,
            None => Vec::new(),
        };
        let ghost orig = b@;
        let mut kept_len: usize = 0;
        let mut j: usize = 0;
        while j < n
            invariant
                n == probes@.len(),
                n == orig.len(),
                outcomes@ == probes@,
                j <= n,
                kept_len <= j,
                kept_len == kept(orig, probes@, addr, j as int).len(),
                b@ == kept(orig, probes@, addr, j as int) + orig.subrange(j as int, n as int),
            decreases n - j,
        {
            let hit = match &outcomes[j] {
                Ok(a) => *a == addr,
                Err(_) => false,
            };
            let ghost before = kept(orig, probes@, addr, j as int);
            if hit {
                b.remove(kept_len);
                assert(b@ =~= before + orig.subrange(j + 1, n as int));
            } else {
                assert(b@ =~= before.push(orig[j as int]) + orig.subrange(j + 1, n as int));
                kept_len += 1;
            }
            j += 1;
        }
        assert(b@ =~= kept(orig, probes@, addr, n as int));
        let ghost kept_conns = b@;
        if b.len() > 0 {
            self.port_map.insert(port, b);
        }
        let ghost old_bucket = bucket(old_addrs, port);
        let ghost new_addrs = with_rebuilt(
            old_addrs,
            port,
            kept(old_bucket, probes@, addr, n as int),
        );
        self.registered = Ghost(new_addrs);
        proof {
            assert(orig == bucket(old_conns, port));
            assert(self.conns() =~= with_rebuilt(old_conns, port, kept_conns));
            lemma_kept_len(orig, old_bucket, probes@, addr, n as int);
            if old_addrs.contains_key(port) {
                lemma_kept_port(old_bucket, probes@, addr, n as int, port);
            }
            assert forall|q: u16| q != port implies #[trigger] bucket(new_addrs, q) == bucket(
                old_addrs,
                q,
            ) by {}
            lemma_total_update(old_addrs, new_addrs, port);
            lemma_bucket_le_total(old_addrs, port);
        }
        self.count = self.count - (n - kept_len);
        Ok(())
    }
}

} // verus!
