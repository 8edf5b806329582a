//! The registry's mathematical model: buckets as maps from port to sequences,
//! and the outcome of each operation as a function of what the entries
//! answered when asked for their addresses.

use vstd::prelude::*;

use crate::addr::{IpAddr, SocketAddr};

verus! {

/// Why a registry operation refused to act.
#[derive(Debug, PartialEq, Eq)]
pub enum ConnMapError<E> {
    /// An entry of the port already reports the IP being bound.
    AddressInUse,
    /// A connection could not report its local address; carries its error.
    ConnectionQueryFailed(E),
}

/// The bucket of `port` in `m`, empty where the port has none.
pub open spec fn bucket<A>(m: Map<u16, Seq<A>>, port: u16) -> Seq<A> {
    if m.contains_key(port) {
        m[port]
    } else {
        Seq::empty()
    }
}

/// The number of entries in the buckets of the ports below `n`.
pub open spec fn count_below<A>(m: Map<u16, Seq<A>>, n: int) -> nat
    decreases n,
{
    if n <= 0 {
        0
    } else {
        count_below(m, n - 1) + bucket(m, (n - 1) as u16).len()
    }
}

/// The number of entries over all buckets.
pub open spec fn total<A>(m: Map<u16, Seq<A>>) -> nat {
    count_below(m, 0x1_0000)
}

/// `m` with `x` appended to the bucket of `port`, the bucket made where absent.
pub open spec fn with_added<A>(m: Map<u16, Seq<A>>, port: u16, x: A) -> Map<u16, Seq<A>> {
    m.insert(port, bucket(m, port).push(x))
}

/// `m` with the bucket of `port` replaced by `s`; an empty `s` drops the port.
pub open spec fn with_rebuilt<A>(m: Map<u16, Seq<A>>, port: u16, s: Seq<A>) -> Map<u16, Seq<A>> {
    if s.len() == 0 {
        m.remove(port)
    } else {
        m.insert(port, s)
    }
}

/// Every bucket holds at least one entry, and each entry was registered on
/// the port of its bucket.
pub open spec fn well_placed(m: Map<u16, Seq<SocketAddr>>) -> bool {
    forall|p: u16|
        #![trigger m[p]]
        m.contains_key(p) ==> {
            &&& m[p].len() > 0
            &&& forall|i: int| 0 <= i < m[p].len() ==> (#[trigger] m[p][i]).port == p
        }
}

/// `m1` and `m2` have the same ports, and buckets of the same lengths.
pub open spec fn same_shape<A, B>(m1: Map<u16, Seq<A>>, m2: Map<u16, Seq<B>>) -> bool {
    &&& m1.dom() == m2.dom()
    &&& forall|p: u16| m1.contains_key(p) ==> (#[trigger] m1[p]).len() == m2[p].len()
}

/// Within each bucket, no two entries share an IP address.
pub open spec fn unique_ips(m: Map<u16, Seq<SocketAddr>>) -> bool {
    forall|p: u16, i: int, j: int|
        m.contains_key(p) && 0 <= i < m[p].len() && 0 <= j < m[p].len() && i != j ==> (
        #[trigger] m[p][i]).ip != (#[trigger] m[p][j]).ip
}

/// Whether a scan for `ip` goes past an entry whose query gave `probe`: the
/// entry reported its address, and the address holds another IP.
pub open spec fn passes<E>(probe: Result<SocketAddr, E>, ip: IpAddr) -> bool {
    probe is Ok && probe->Ok_0.ip != ip
}

/// A scan for `ip` over the outcomes `probes` stops at `k`: the first entry
/// that either failed to report or reported `ip`.
pub open spec fn stops_at<E>(probes: Seq<Result<SocketAddr, E>>, ip: IpAddr, k: int) -> bool {
    &&& 0 <= k < probes.len()
    &&& !passes(probes[k], ip)
    &&& forall|j: int| 0 <= j < k ==> passes(#[trigger] probes[j], ip)
}

/// Where a scan for `ip` stops, if anywhere.
pub open spec fn scan_stop<E>(probes: Seq<Result<SocketAddr, E>>, ip: IpAddr) -> Option<int> {
    if exists|k: int| stops_at(probes, ip, k) {
        Some(choose|k: int| stops_at(probes, ip, k))
    } else {
        None
    }
}

/// The outcome of registering an address with IP `ip` on a bucket whose
/// entries were queried with outcomes `probes`.
pub open spec fn insert_verdict<E>(probes: Seq<Result<SocketAddr, E>>, ip: IpAddr) -> Result<
    (),
    ConnMapError<E>,
> {
    match scan_stop(probes, ip) {
        None => Ok(()),
        Some(k) => match probes[k] {
            Ok(_) => Err(ConnMapError::AddressInUse),
            Err(e) => Err(ConnMapError::ConnectionQueryFailed(e)),
        },
    }
}

/// The position of the entry that a lookup of `ip` returns; a failed query
/// ends the lookup with nothing.
pub open spec fn find_verdict<E>(probes: Seq<Result<SocketAddr, E>>, ip: IpAddr) -> Option<int> {
    match scan_stop(probes, ip) {
        Some(k) => if probes[k] is Ok {
            Some(k)
        } else {
            None
        },
        None => None,
    }
}

/// `k` is the first outcome in `probes` that is a failure.
pub open spec fn fails_first<E>(probes: Seq<Result<SocketAddr, E>>, k: int) -> bool {
    &&& 0 <= k < probes.len()
    &&& probes[k] is Err
    &&& forall|j: int| 0 <= j < k ==> (#[trigger] probes[j]) is Ok
}

/// The outcome of a removal from a bucket queried with outcomes `probes`: the
/// first failure is passed on, else it succeeds.
pub open spec fn delete_verdict<E>(probes: Seq<Result<SocketAddr, E>>) -> Result<
    (),
    ConnMapError<E>,
> {
    if exists|k: int| fails_first(probes, k) {
        let k = choose|k: int| fails_first(probes, k);
        Err(ConnMapError::ConnectionQueryFailed(probes[k]->Err_0))
    } else {
        Ok(())
    }
}

/// Whether a query outcome reports exactly `addr`.
pub open spec fn reports<E>(probe: Result<SocketAddr, E>, addr: SocketAddr) -> bool {
    probe is Ok && probe->Ok_0 == addr
}

/// The first `n` of `entries`, in order, less those whose outcome in `probes`
/// reports `addr`.
pub open spec fn kept<A, E>(
    entries: Seq<A>,
    probes: Seq<Result<SocketAddr, E>>,
    addr: SocketAddr,
    n: int,
) -> Seq<A>
    decreases n,
{
    if n <= 0 {
        Seq::empty()
    } else if reports(probes[n - 1], addr) {
        kept(entries, probes, addr, n - 1)
    } else {
        kept(entries, probes, addr, n - 1).push(entries[n - 1])
    }
}

/// The outcomes of querying entries that report the addresses `s` faithfully.
pub open spec fn faithful<E>(s: Seq<SocketAddr>) -> Seq<Result<SocketAddr, E>> {
    s.map_values(|a: SocketAddr| Ok::<SocketAddr, E>(a))
}

/// A scan stops at one place at most.
pub proof fn lemma_stop_unique<E>(probes: Seq<Result<SocketAddr, E>>, ip: IpAddr, k: int)
    requires
        stops_at(probes, ip, k),
    ensures
        scan_stop(probes, ip) == Some(k),
{
    let c = choose|c: int| stops_at(probes, ip, c);
    assert(stops_at(probes, ip, c));
    if c < k {
        assert(passes(probes[c], ip));
    } else if k < c {
        assert(passes(probes[k], ip));
    }
}

/// A scan that passes every outcome stops nowhere.
pub proof fn lemma_no_stop<E>(probes: Seq<Result<SocketAddr, E>>, ip: IpAddr)
    requires
        forall|j: int| 0 <= j < probes.len() ==> passes(#[trigger] probes[j], ip),
    ensures
        scan_stop(probes, ip) is None,
{
    assert(!exists|k: int| stops_at(probes, ip, k));
}

/// There is one first failure at most.
pub proof fn lemma_first_failure_unique<E>(probes: Seq<Result<SocketAddr, E>>, k: int)
    requires
        fails_first(probes, k),
    ensures
        delete_verdict(probes) == Err::<(), ConnMapError<E>>(
            ConnMapError::ConnectionQueryFailed(probes[k]->Err_0),
        ),
{
    let c = choose|c: int| fails_first(probes, c);
    assert(fails_first(probes, c));
    if c < k {
        assert(probes[c] is Ok);
    } else if k < c {
        assert(probes[k] is Ok);
    }
}

/// Changing the bucket of one port changes the count by the difference.
proof fn lemma_count_below_update<A>(m: Map<u16, Seq<A>>, m2: Map<u16, Seq<A>>, p: u16, n: int)
    requires
        0 <= n <= 0x1_0000,
        forall|q: u16| q != p ==> #[trigger] bucket(m2, q) == bucket(m, q),
    ensures
        p < n ==> count_below(m2, n) + bucket(m, p).len() == count_below(m, n) + bucket(m2, p).len(),
        p >= n ==> count_below(m2, n) == count_below(m, n),
    decreases n,
{
    if n > 0 {
        lemma_count_below_update(m, m2, p, n - 1);
        let q = (n - 1) as u16;
        assert(q as int == n - 1);
        if q != p {
            assert(bucket(m2, q) == bucket(m, q));
        }
    }
}

/// Changing the bucket of one port changes the total by the difference.
pub proof fn lemma_total_update<A>(m: Map<u16, Seq<A>>, m2: Map<u16, Seq<A>>, p: u16)
    requires
        forall|q: u16| q != p ==> #[trigger] bucket(m2, q) == bucket(m, q),
    ensures
        total(m2) + bucket(m, p).len() == total(m) + bucket(m2, p).len(),
{
    lemma_count_below_update(m, m2, p, 0x1_0000);
}

/// Every bucket counts toward the total.
pub proof fn lemma_bucket_le_total<A>(m: Map<u16, Seq<A>>, p: u16)
    ensures
        bucket(m, p).len() <= total(m),
{
    let m2 = m.remove(p);
    assert forall|q: u16| q != p implies #[trigger] bucket(m2, q) == bucket(m, q) by {}
    lemma_total_update(m, m2, p);
}

/// No entries, no total.
pub proof fn lemma_total_empty<A>(m: Map<u16, Seq<A>>)
    requires
        m == Map::<u16, Seq<A>>::empty(),
    ensures
        total(m) == 0,
{
    lemma_count_below_empty(m, 0x1_0000);
}

proof fn lemma_count_below_empty<A>(m: Map<u16, Seq<A>>, n: int)
    requires
        m == Map::<u16, Seq<A>>::empty(),
    ensures
        count_below(m, n) == 0,
    decreases n,
{
    if n > 0 {
        lemma_count_below_empty(m, n - 1);
    }
}

/// How many entries are kept depends on the outcomes alone.
pub proof fn lemma_kept_len<A, B, E>(
    a: Seq<A>,
    b: Seq<B>,
    probes: Seq<Result<SocketAddr, E>>,
    addr: SocketAddr,
    n: int,
)
    requires
        0 <= n,
    ensures
        kept(a, probes, addr, n).len() == kept(b, probes, addr, n).len(),
        kept(a, probes, addr, n).len() <= n,
    decreases n,
{
    if n > 0 {
        lemma_kept_len(a, b, probes, addr, n - 1);
    }
}

/// Entries that all stand on port `p` keep doing so when some are removed.
pub proof fn lemma_kept_port<E>(
    e: Seq<SocketAddr>,
    probes: Seq<Result<SocketAddr, E>>,
    addr: SocketAddr,
    n: int,
    p: u16,
)
    requires
        0 <= n <= e.len(),
        forall|i: int| 0 <= i < e.len() ==> (#[trigger] e[i]).port == p,
    ensures
        forall|k: int|
            0 <= k < kept(e, probes, addr, n).len() ==> (#[trigger] kept(
                e,
                probes,
                addr,
                n,
            )[k]).port == p,
    decreases n,
{
    if n > 0 {
        lemma_kept_port(e, probes, addr, n - 1, p);
        let prev = kept(e, probes, addr, n - 1);
        assert forall|k: int| 0 <= k < kept(e, probes, addr, n).len() implies (#[trigger] kept(
            e,
            probes,
            addr,
            n,
        )[k]).port == p by {
            if !reports(probes[n - 1], addr) && k == prev.len() {
                assert(e[n - 1].port == p);
            } else {
                assert(prev[k].port == p);
            }
        }
    }
}

} // verus!
