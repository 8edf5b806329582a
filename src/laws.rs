//! What holds of the registry when every connection answers with the address
//! it was registered under (`faithful` answers), as in practice it does once
//! bound.

use vstd::prelude::*;

use crate::addr::{IpAddr, SocketAddr};
use crate::conn_map::ConnMap;
use crate::model::{
    bucket, delete_verdict, fails_first, faithful, find_verdict, insert_verdict, kept,
    lemma_no_stop, lemma_stop_unique, lemma_total_empty, lemma_total_update, passes, reports,
    scan_stop, stops_at, total, unique_ips, well_placed, with_added, with_rebuilt, ConnMapError,
};

verus! {

/// The registered addresses after registering each address of `s` in turn,
/// starting from an empty registry.
pub open spec fn registered_all(s: Seq<SocketAddr>) -> Map<u16, Seq<SocketAddr>>
    decreases s.len(),
{
    if s.len() == 0 {
        Map::empty()
    } else {
        with_added(registered_all(s.drop_last()), s.last().port, s.last())
    }
}

/// No two addresses of `s` share both port and IP.
pub open spec fn distinct_binds(s: Seq<SocketAddr>) -> bool {
    forall|i: int, j: int|
        0 <= i < s.len() && 0 <= j < s.len() && i != j ==> !((#[trigger] s[i]).port == (
        #[trigger] s[j]).port && s[i].ip == s[j].ip)
}

/// A scan that meets an entry it cannot pass stops somewhere.
proof fn lemma_stop_exists<E>(probes: Seq<Result<SocketAddr, E>>, ip: IpAddr, j: int)
    requires
        0 <= j < probes.len(),
        !passes(probes[j], ip),
    ensures
        exists|k: int| stops_at(probes, ip, k),
    decreases j,
{
    if exists|i: int| 0 <= i < j && !passes(#[trigger] probes[i], ip) {
        let i = choose|i: int| 0 <= i < j && !passes(#[trigger] probes[i], ip);
        lemma_stop_exists(probes, ip, i);
    } else {
        assert(stops_at(probes, ip, j));
    }
}

/// What registering each address of `s` in turn leaves: as many entries as
/// addresses, each one of them, on its own port.
proof fn lemma_registered_all(s: Seq<SocketAddr>)
    ensures
        total(registered_all(s)) == s.len(),
        forall|p: u16, k: int|
            0 <= k < bucket(registered_all(s), p).len() ==> exists|i: int|
                0 <= i < s.len() && s[i] == #[trigger] bucket(registered_all(s), p)[k] && s[i].port
                    == p,
    decreases s.len(),
{
    if s.len() == 0 {
        lemma_total_empty(registered_all(s));
    } else {
        let t = s.drop_last();
        let x = s.last();
        let m = registered_all(t);
        let m2 = registered_all(s);
        lemma_registered_all(t);
        assert forall|q: u16| q != x.port implies #[trigger] bucket(m2, q) == bucket(m, q) by {}
        lemma_total_update(m, m2, x.port);
        assert forall|p: u16, k: int| 0 <= k < bucket(m2, p).len() implies exists|i: int|
            0 <= i < s.len() && s[i] == #[trigger] bucket(m2, p)[k] && s[i].port == p by {
            if p == x.port && k == bucket(m, p).len() {
                assert(s[s.len() - 1] == bucket(m2, p)[k]);
            } else {
                assert(bucket(m2, p)[k] == bucket(m, p)[k]);
                let i = choose|i: int|
                    0 <= i < t.len() && t[i] == #[trigger] bucket(m, p)[k] && t[i].port == p;
                assert(s[i] == t[i]);
            }
        }
    }
}

/// Faithful answers from entries that all hold another IP than `ip` let a
/// scan for `ip` pass them all.
proof fn lemma_faithful_passes<E>(s: Seq<SocketAddr>, ip: IpAddr)
    requires
        forall|k: int| 0 <= k < s.len() ==> (#[trigger] s[k]).ip != ip,
    ensures
        scan_stop(faithful::<E>(s), ip) is None,
{
    let probes = faithful::<E>(s);
    assert forall|j: int| 0 <= j < probes.len() implies passes(#[trigger] probes[j], ip) by {
        assert(probes[j] == Ok::<SocketAddr, E>(s[j]));
    }
    lemma_no_stop(probes, ip);
}

/// Registering pairwise distinct (port, IP) pairs one after another, each
/// checked against the entries' faithful answers, never meets a conflict;
/// afterwards the registry holds one entry per pair. Concurrent callers are
/// serialised by the registry's exclusive access, so this covers every
/// order in which their inserts land.
pub proof fn law_distinct_inserts_all_succeed<E>(s: Seq<SocketAddr>)
    requires
        distinct_binds(s),
    ensures
        forall|i: int|
            0 <= i < s.len() ==> (#[trigger] insert_verdict(
                faithful::<E>(bucket(registered_all(s.take(i)), s[i].port)),
                s[i].ip,
            )) is Ok,
        total(registered_all(s)) == s.len(),
{
    lemma_registered_all(s);
    assert forall|i: int| 0 <= i < s.len() implies (#[trigger] insert_verdict(
        faithful::<E>(bucket(registered_all(s.take(i)), s[i].port)),
        s[i].ip,
    )) is Ok by {
        let t = s.take(i);
        let b = bucket(registered_all(t), s[i].port);
        lemma_registered_all(t);
        assert forall|k: int| 0 <= k < b.len() implies (#[trigger] b[k]).ip != s[i].ip by {
            let j = choose|j: int|
                0 <= j < t.len() && t[j] == #[trigger] bucket(registered_all(t), s[i].port)[k]
                    && t[j].port == s[i].port;
            assert(s[j] == t[j]);
        }
        lemma_faithful_passes::<E>(b, s[i].ip);
    }
}

/// Registering an address whose (port, IP) an entry already reports is
/// refused as in use (and a refused insert changes nothing).
pub proof fn law_duplicate_insert_refused<E>(m: Map<u16, Seq<SocketAddr>>, a: SocketAddr, k: int)
    requires
        0 <= k < bucket(m, a.port).len(),
        bucket(m, a.port)[k].ip == a.ip,
    ensures
        insert_verdict(faithful::<E>(bucket(m, a.port)), a.ip) == Err::<(), ConnMapError<E>>(
            ConnMapError::AddressInUse,
        ),
{
    let probes = faithful::<E>(bucket(m, a.port));
    assert(probes[k] == Ok::<SocketAddr, E>(bucket(m, a.port)[k]));
    lemma_stop_exists(probes, a.ip, k);
    let c = choose|c: int| stops_at(probes, a.ip, c);
    lemma_stop_unique(probes, a.ip, c);
    assert(probes[c] == Ok::<SocketAddr, E>(bucket(m, a.port)[c]));
}

/// With faithful answers, a lookup finds each registered entry by its IP,
/// when no two entries of a port share an IP.
pub proof fn law_registered_found<E>(m: Map<u16, Seq<SocketAddr>>, p: u16, k: int)
    requires
        unique_ips(m),
        0 <= k < bucket(m, p).len(),
    ensures
        find_verdict(faithful::<E>(bucket(m, p)), bucket(m, p)[k].ip) == Some(k),
{
    let s = bucket(m, p);
    let probes = faithful::<E>(s);
    assert forall|j: int| 0 <= j < k implies passes(#[trigger] probes[j], s[k].ip) by {
        assert(probes[j] == Ok::<SocketAddr, E>(s[j]));
        assert(s[j] == m[p][j] && s[k] == m[p][k]);
    }
    assert(probes[k] == Ok::<SocketAddr, E>(s[k]));
    assert(stops_at(probes, s[k].ip, k));
    lemma_stop_unique(probes, s[k].ip, k);
}

/// A successful insert keeps the IPs of each port unique.
pub proof fn law_insert_keeps_ips_unique<E>(m: Map<u16, Seq<SocketAddr>>, a: SocketAddr)
    requires
        unique_ips(m),
        insert_verdict(faithful::<E>(bucket(m, a.port)), a.ip) is Ok,
    ensures
        unique_ips(with_added(m, a.port, a)),
{
    let s = bucket(m, a.port);
    let m2 = with_added(m, a.port, a);
    assert forall|k: int| 0 <= k < s.len() implies (#[trigger] s[k]).ip != a.ip by {
        if s[k].ip == a.ip {
            law_duplicate_insert_refused::<E>(m, a, k);
        }
    }
    assert forall|p: u16, i: int, j: int|
        m2.contains_key(p) && 0 <= i < m2[p].len() && 0 <= j < m2[p].len() && i != j implies (
    #[trigger] m2[p][i]).ip != (#[trigger] m2[p][j]).ip by {
        if p != a.port {
            assert(m2[p] == m[p]);
        } else if i < s.len() && j < s.len() {
            assert(m2[p][i] == s[i] && m2[p][j] == s[j]);
            assert(s[i] == m[p][i] && s[j] == m[p][j]);
        } else if i < s.len() {
            assert(m2[p][i] == s[i]);
        } else {
            assert(m2[p][j] == s[j]);
        }
    }
}

/// On a port where an entry stands, registering another IP succeeds, and
/// afterwards a lookup finds both the new entry and the old one.
pub proof fn law_shared_port_distinct_ip<E>(m: Map<u16, Seq<SocketAddr>>, a: SocketAddr, k: int)
    requires
        unique_ips(m),
        forall|j: int| 0 <= j < bucket(m, a.port).len() ==> (#[trigger] bucket(m, a.port)[j]).ip != a.ip,
        0 <= k < bucket(m, a.port).len(),
    ensures
        insert_verdict(faithful::<E>(bucket(m, a.port)), a.ip) is Ok,
        find_verdict(faithful::<E>(bucket(with_added(m, a.port, a), a.port)), a.ip) == Some(
            bucket(m, a.port).len() as int,
        ),
        find_verdict(
            faithful::<E>(bucket(with_added(m, a.port, a), a.port)),
            bucket(m, a.port)[k].ip,
        ) == Some(k),
{
    let s = bucket(m, a.port);
    let m2 = with_added(m, a.port, a);
    lemma_faithful_passes::<E>(s, a.ip);
    law_insert_keeps_ips_unique::<E>(m, a);
    assert(bucket(m2, a.port) == s.push(a));
    law_registered_found::<E>(m2, a.port, s.len() as int);
    law_registered_found::<E>(m2, a.port, k);
}

/// A lookup of an address that no entry reports finds nothing.
pub proof fn law_unbound_not_found<E>(m: Map<u16, Seq<SocketAddr>>, a: SocketAddr)
    requires
        well_placed(m),
        forall|j: int| 0 <= j < bucket(m, a.port).len() ==> #[trigger] bucket(m, a.port)[j] != a,
    ensures
        find_verdict(faithful::<E>(bucket(m, a.port)), a.ip) is None,
{
    let s = bucket(m, a.port);
    assert forall|j: int| 0 <= j < s.len() implies (#[trigger] s[j]).ip != a.ip by {
        assert(s[j] == m[a.port][j]);
    }
    lemma_faithful_passes::<E>(s, a.ip);
}

/// With no outcome among the first `n` reporting `addr`, all of the first
/// `n` entries are kept.
pub proof fn lemma_kept_none<A, E>(
    e: Seq<A>,
    probes: Seq<Result<SocketAddr, E>>,
    addr: SocketAddr,
    n: int,
)
    requires
        0 <= n <= e.len(),
        n <= probes.len(),
        forall|i: int| 0 <= i < n ==> !reports(#[trigger] probes[i], addr),
    ensures
        kept(e, probes, addr, n) == e.take(n),
    decreases n,
{
    if n > 0 {
        lemma_kept_none(e, probes, addr, n - 1);
        assert(e.take(n) =~= e.take(n - 1).push(e[n - 1]));
    }
}

/// With every outcome among the first `n` reporting `addr`, none is kept.
pub proof fn lemma_kept_all_removed<A, E>(
    e: Seq<A>,
    probes: Seq<Result<SocketAddr, E>>,
    addr: SocketAddr,
    n: int,
)
    requires
        0 <= n <= probes.len(),
        forall|i: int| 0 <= i < n ==> reports(#[trigger] probes[i], addr),
    ensures
        kept(e, probes, addr, n).len() == 0,
    decreases n,
{
    if n > 0 {
        lemma_kept_all_removed(e, probes, addr, n - 1);
    }
}

/// With exactly the outcome at `k` reporting `addr`, all of the first `n`
/// entries but entry `k` are kept, in order.
pub proof fn lemma_kept_all_but<A, E>(
    e: Seq<A>,
    probes: Seq<Result<SocketAddr, E>>,
    addr: SocketAddr,
    k: int,
    n: int,
)
    requires
        0 <= k < n <= e.len(),
        n <= probes.len(),
        reports(probes[k], addr),
        forall|i: int| 0 <= i < n && i != k ==> !reports(#[trigger] probes[i], addr),
    ensures
        kept(e, probes, addr, n) == e.take(n).remove(k),
    decreases n,
{
    if n == k + 1 {
        lemma_kept_none(e, probes, addr, k);
        assert(e.take(n).remove(k) =~= e.take(k));
    } else {
        lemma_kept_all_but(e, probes, addr, k, n - 1);
        assert(e.take(n).remove(k) =~= e.take(n - 1).remove(k).push(e[n - 1]));
    }
}

/// Faithful answers hold no failure, so a removal checked against them
/// succeeds.
proof fn lemma_faithful_delete_ok<E>(s: Seq<SocketAddr>)
    ensures
        delete_verdict(faithful::<E>(s)) is Ok,
{
    let probes = faithful::<E>(s);
    assert forall|k: int| !fails_first(probes, k) by {
        if 0 <= k < probes.len() {
            assert(probes[k] == Ok::<SocketAddr, E>(s[k]));
        }
    }
}

/// Removing a registered address removes exactly its entry: the port's
/// other handles and addresses stay, in order; the registry holds one entry
/// fewer; and a lookup of the address then finds nothing.
pub proof fn law_delete_registered<H, E>(c: &ConnMap<H>, a: SocketAddr, k: int)
    requires
        c.wf(),
        unique_ips(c.addrs()),
        0 <= k < bucket(c.addrs(), a.port).len(),
        bucket(c.addrs(), a.port)[k] == a,
    ensures
        ({
            let s = bucket(c.addrs(), a.port);
            let probes = faithful::<E>(s);
            let rest = with_rebuilt(c.addrs(), a.port, s.remove(k));
            &&& delete_verdict(probes) is Ok
            &&& kept(bucket(c.conns(), a.port), probes, a, s.len() as int) == bucket(
                c.conns(),
                a.port,
            ).remove(k)
            &&& kept(s, probes, a, s.len() as int) == s.remove(k)
            &&& total(rest) + 1 == total(c.addrs())
            &&& find_verdict(faithful::<E>(bucket(rest, a.port)), a.ip) is None
        }),
{
    c.lemma_wf();
    let p = a.port;
    let m = c.addrs();
    let s = bucket(m, p);
    let h = bucket(c.conns(), p);
    let probes = faithful::<E>(s);
    let n = s.len() as int;
    assert(m.contains_key(p));
    assert(h.len() == n);
    lemma_faithful_delete_ok::<E>(s);
    assert(probes[k] == Ok::<SocketAddr, E>(s[k]));
    assert forall|i: int| 0 <= i < n && i != k implies !reports(#[trigger] probes[i], a) by {
        assert(probes[i] == Ok::<SocketAddr, E>(s[i]));
        assert(s[i] == m[p][i] && s[k] == m[p][k]);
    }
    lemma_kept_all_but(h, probes, a, k, n);
    lemma_kept_all_but(s, probes, a, k, n);
    assert(h.take(n) =~= h);
    assert(s.take(n) =~= s);
    let rest = with_rebuilt(m, p, s.remove(k));
    assert forall|q: u16| q != p implies #[trigger] bucket(rest, q) == bucket(m, q) by {}
    lemma_total_update(m, rest, p);
    let b = bucket(rest, p);
    assert forall|j: int| 0 <= j < b.len() implies (#[trigger] b[j]).ip != a.ip by {
        let i = if j < k {
            j
        } else {
            j + 1
        };
        assert(b[j] == s[i]);
        assert(s[i] == m[p][i] && s[k] == m[p][k]);
    }
    lemma_faithful_passes::<E>(b, a.ip);
}

/// Removing an address that no entry reports succeeds and changes nothing.
pub proof fn law_delete_absent_is_noop<H, E>(c: &ConnMap<H>, a: SocketAddr)
    requires
        c.wf(),
        forall|j: int| 0 <= j < bucket(c.addrs(), a.port).len() ==> #[trigger] bucket(c.addrs(), a.port)[j] != a,
    ensures
        ({
            let s = bucket(c.addrs(), a.port);
            let probes = faithful::<E>(s);
            &&& delete_verdict(probes) is Ok
            &&& with_rebuilt(
                c.conns(),
                a.port,
                kept(bucket(c.conns(), a.port), probes, a, s.len() as int),
            ) == c.conns()
            &&& with_rebuilt(c.addrs(), a.port, kept(s, probes, a, s.len() as int)) == c.addrs()
        }),
{
    c.lemma_wf();
    let p = a.port;
    let s = bucket(c.addrs(), p);
    let h = bucket(c.conns(), p);
    let probes = faithful::<E>(s);
    let n = s.len() as int;
    lemma_faithful_delete_ok::<E>(s);
    assert(h.len() == n);
    assert forall|i: int| 0 <= i < n implies !reports(#[trigger] probes[i], a) by {
        assert(probes[i] == Ok::<SocketAddr, E>(s[i]));
    }
    lemma_kept_none(h, probes, a, n);
    lemma_kept_none(s, probes, a, n);
    assert(h.take(n) =~= h);
    assert(s.take(n) =~= s);
    if c.addrs().contains_key(p) {
        assert(c.addrs()[p].len() > 0);
        assert(with_rebuilt(c.conns(), p, h) =~= c.conns());
        assert(with_rebuilt(c.addrs(), p, s) =~= c.addrs());
    } else {
        assert(with_rebuilt(c.conns(), p, h) =~= c.conns());
        assert(with_rebuilt(c.addrs(), p, s) =~= c.addrs());
    }
}

/// Removing the address that every entry of a port reports empties the
/// port, and the port is dropped: afterwards it is as if it had never been
/// used, and a new registration on it succeeds and starts a fresh bucket.
pub proof fn law_emptied_port_dropped<H, E>(c: &ConnMap<H>, a: SocketAddr, x: SocketAddr)
    requires
        c.wf(),
        forall|j: int| 0 <= j < bucket(c.addrs(), a.port).len() ==> #[trigger] bucket(c.addrs(), a.port)[j] == a,
        x.port == a.port,
    ensures
        ({
            let s = bucket(c.addrs(), a.port);
            let probes = faithful::<E>(s);
            let rest = with_rebuilt(c.addrs(), a.port, kept(s, probes, a, s.len() as int));
            &&& delete_verdict(probes) is Ok
            &&& with_rebuilt(
                c.conns(),
                a.port,
                kept(bucket(c.conns(), a.port), probes, a, s.len() as int),
            ) == c.conns().remove(a.port)
            &&& rest == c.addrs().remove(a.port)
            &&& !rest.contains_key(a.port)
            &&& insert_verdict(faithful::<E>(bucket(rest, a.port)), x.ip) is Ok
            &&& with_added(rest, a.port, x) == rest.insert(a.port, seq![x])
        }),
{
    c.lemma_wf();
    let p = a.port;
    let s = bucket(c.addrs(), p);
    let h = bucket(c.conns(), p);
    let probes = faithful::<E>(s);
    let n = s.len() as int;
    lemma_faithful_delete_ok::<E>(s);
    assert forall|i: int| 0 <= i < n implies reports(#[trigger] probes[i], a) by {
        assert(probes[i] == Ok::<SocketAddr, E>(s[i]));
    }
    lemma_kept_all_removed(h, probes, a, n);
    lemma_kept_all_removed(s, probes, a, n);
    let rest = c.addrs().remove(p);
    lemma_faithful_passes::<E>(bucket(rest, p), x.ip);
    assert(bucket(rest, p).push(x) =~= seq![x]);
}

/// Two registrations of the same unbound address, one after the other (the
/// registry's exclusive access puts concurrent ones in some order): the
/// first succeeds and the second is refused as in use.
pub proof fn law_same_address_twice<E>(m: Map<u16, Seq<SocketAddr>>, a: SocketAddr)
    requires
        well_placed(m),
        forall|j: int| 0 <= j < bucket(m, a.port).len() ==> #[trigger] bucket(m, a.port)[j] != a,
    ensures
        insert_verdict(faithful::<E>(bucket(m, a.port)), a.ip) is Ok,
        insert_verdict(faithful::<E>(bucket(with_added(m, a.port, a), a.port)), a.ip) == Err::<
            (),
            ConnMapError<E>,
        >(ConnMapError::AddressInUse),
{
    let s = bucket(m, a.port);
    assert forall|j: int| 0 <= j < s.len() implies (#[trigger] s[j]).ip != a.ip by {
        assert(s[j] == m[a.port][j]);
    }
    lemma_faithful_passes::<E>(s, a.ip);
    law_duplicate_insert_refused::<E>(with_added(m, a.port, a), a, s.len() as int);
}

/// No two of the addresses `s` share an IP.
spec fn distinct_ips(s: Seq<SocketAddr>) -> bool {
    forall|i: int, j: int|
        0 <= i < s.len() && 0 <= j < s.len() && i != j ==> (#[trigger] s[i]).ip != (
        #[trigger] s[j]).ip
}

/// Each kept entry is one of the first `n`, and entries with distinct IPs
/// stay distinct.
proof fn lemma_kept_distinct<E>(
    e: Seq<SocketAddr>,
    probes: Seq<Result<SocketAddr, E>>,
    addr: SocketAddr,
    n: int,
)
    requires
        0 <= n <= e.len(),
        distinct_ips(e),
    ensures
        distinct_ips(kept(e, probes, addr, n)),
        forall|k: int|
            0 <= k < kept(e, probes, addr, n).len() ==> exists|i: int|
                0 <= i < n && #[trigger] kept(e, probes, addr, n)[k] == e[i],
    decreases n,
{
    if n > 0 {
        lemma_kept_distinct(e, probes, addr, n - 1);
        let prev = kept(e, probes, addr, n - 1);
        let r = kept(e, probes, addr, n);
        if !reports(probes[n - 1], addr) {
            assert forall|k: int| 0 <= k < r.len() implies exists|i: int|
                0 <= i < n && #[trigger] r[k] == e[i] by {
                if k == prev.len() {
                    assert(r[k] == e[n - 1]);
                } else {
                    assert(r[k] == prev[k]);
                }
            }
            assert forall|i: int, j: int|
                0 <= i < r.len() && 0 <= j < r.len() && i != j implies (#[trigger] r[i]).ip != (
            #[trigger] r[j]).ip by {
                if i == prev.len() {
                    assert(r[j] == prev[j]);
                    let x = choose|x: int| 0 <= x < n - 1 && #[trigger] prev[j] == e[x];
                    assert(e[x].ip != e[n - 1].ip);
                } else if j == prev.len() {
                    assert(r[i] == prev[i]);
                    let x = choose|x: int| 0 <= x < n - 1 && #[trigger] prev[i] == e[x];
                    assert(e[x].ip != e[n - 1].ip);
                } else {
                    assert(r[i] == prev[i] && r[j] == prev[j]);
                }
            }
        }
    }
}

/// A removal keeps the IPs of each port unique, whatever the entries answered.
pub proof fn law_delete_keeps_ips_unique<E>(
    m: Map<u16, Seq<SocketAddr>>,
    a: SocketAddr,
    probes: Seq<Result<SocketAddr, E>>,
)
    requires
        unique_ips(m),
        probes.len() == bucket(m, a.port).len(),
    ensures
        unique_ips(with_rebuilt(m, a.port, kept(bucket(m, a.port), probes, a, probes.len() as int))),
{
    let s = bucket(m, a.port);
    let r = kept(s, probes, a, probes.len() as int);
    let m2 = with_rebuilt(m, a.port, r);
    assert forall|i: int, j: int| 0 <= i < s.len() && 0 <= j < s.len() && i != j implies (
    #[trigger] s[i]).ip != (#[trigger] s[j]).ip by {
        assert(s[i] == m[a.port][i] && s[j] == m[a.port][j]);
    }
    lemma_kept_distinct(s, probes, a, probes.len() as int);
    assert forall|p: u16, i: int, j: int|
        m2.contains_key(p) && 0 <= i < m2[p].len() && 0 <= j < m2[p].len() && i != j implies (
    #[trigger] m2[p][i]).ip != (#[trigger] m2[p][j]).ip by {
        if p != a.port {
            assert(m2[p] == m[p]);
        } else {
            assert(m2[p] == r);
        }
    }
}

} // verus!
