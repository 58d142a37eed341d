//! The network interfaces of illumos: their names in the `ifaddrs` list, their
//! counters in the kernel statistics, the replies of the `SIOCGLIFMTU` and
//! `SIOCGLIFHWADDR` requests, and the list of interfaces that a refresh keeps.
use vstd::prelude::*;
use crate::text::{find_from, lemma_find_from, find_byte_from, copy_range, bytes_eq};
use crate::kstat_cpu::{KstatValue, spec_integer};
use crate::network::{InterfaceOperationalState, MacAddr, NetCounters, InterfaceStats, rolled_counters};
use crate::psinfo::{ByteOrder, field, read_u32, lemma_word_bound};

verus! {

// ---------------------------------------------------------------------------
// Names and requests
// ---------------------------------------------------------------------------

/// The name of the interface of an `ifaddrs` entry named `raw`: the part before the
/// first `:` (which numbers a logical interface); `None` when it is empty.
pub open spec fn spec_interface_name(raw: Seq<u8>) -> Option<Seq<u8>> {
    let k = find_from(raw, 0x3au8, 0);
    if k == 0 {
        None
    } else {
        Some(raw.subrange(0, k))
    }
}

/// The name of the interface of an `ifaddrs` entry.
pub fn interface_name(raw: &[u8]) -> (r: Option<Vec<u8>>)
    ensures
        match r {
            Some(v) => spec_interface_name(raw@) == Some(v@),
            None => spec_interface_name(raw@) is None,
        },
{
    let k = find_byte_from(raw, 0x3a, 0);
    if k == 0 {
        None
    } else {
        Some(copy_range(raw, 0, k))
    }
}

/// The name field of a `lifreq` request for the interface `name`: its first 31 bytes,
/// then NULs.
pub fn lifreq_name(name: &[u8]) -> (r: [u8; 32])
    ensures
        forall|i: int| 0 <= i < 32 ==> r@[i] == (if i < 31 && i < name@.len() { name@[i] } else { 0u8 }),
{
    let mut out: [u8; 32] = [0; 32];
    let n = name.len();
    let mut i: usize = 0;
    while i < 31 && i < n
        invariant
            i <= 31,
            n == name@.len(),
            i <= n,
            forall|k: int| 0 <= k < 32 ==> out@[k] == (if k < i { name@[k] } else { 0u8 }),
        decreases 31 - i,
    {
        out.set(i, name[i]);
        i = i + 1;
    }
    out
}

/// The MTU that a `SIOCGLIFMTU` reply holds in its first 4 bytes, in the byte order
/// `order`; 0 when the request failed (`reply` is `None`).
pub fn mtu_from_reply(reply: Option<&[u8]>, order: ByteOrder) -> (r: u64)
    requires
        reply matches Some(d) ==> d@.len() >= 4,
    ensures
        r == match reply {
            Some(d) => field(d@, 0, 4, order),
            None => 0,
        },
{
    match reply {
        Some(d) => {
            proof {
                lemma_word_bound(d@.subrange(0, 4), order);
                reveal_with_fuel(crate::psinfo::pow256, 5);
            }
            match read_u32(d, 0, order) {
                Some(v) => v as u64,
                None => 0,
            }
        },
        None => 0,
    }
}

/// The hardware address in a `SIOCGLIFHWADDR` reply: byte 5 holds the length of the
/// name part and byte 6 that of the address, which follows the name part after byte
/// 8. Unspecified when the request failed, the address is not 6 bytes long or does
/// not lie inside the reply.
pub open spec fn spec_mac_from_reply(reply: Option<Seq<u8>>) -> Seq<u8> {
    match reply {
        None => seq![0u8, 0u8, 0u8, 0u8, 0u8, 0u8],
        Some(d) => {
            let start = 8 + d[5] as int;
            let len = d[6] as int;
            if len == 6 && start + 6 <= d.len() {
                d.subrange(start, start + 6)
            } else {
                seq![0u8, 0u8, 0u8, 0u8, 0u8, 0u8]
            }
        },
    }
}

/// The hardware address in a `SIOCGLIFHWADDR` reply.
pub fn mac_from_reply(reply: Option<&[u8]>) -> (r: MacAddr)
    requires
        reply matches Some(d) ==> d@.len() >= 7,
    ensures
        r.0@ == spec_mac_from_reply(match reply {
            Some(d) => Some(d@),
            None => None,
        }),
{
    match reply {
        None => {
            let r = MacAddr::unspecified();
            assert(r.0@ =~= seq![0u8, 0u8, 0u8, 0u8, 0u8, 0u8]);
            r
        },
        Some(d) => {
            let start: usize = 8 + d[5] as usize;
            let len: usize = d[6] as usize;
            if len == 6 && start <= d.len() && d.len() - start >= 6 {
                let m = MacAddr([d[start], d[start + 1], d[start + 2], d[start + 3], d[start + 4], d[start + 5]]);
                assert(m.0@ =~= d@.subrange(start as int, start + 6));
                m
            } else {
                let r = MacAddr::unspecified();
                assert(r.0@ =~= seq![0u8, 0u8, 0u8, 0u8, 0u8, 0u8]);
                r
            }
        },
    }
}

/// The state of an interface from its flags: up when it is both up and running.
pub fn state_from_flags(up: bool, running: bool) -> (r: InterfaceOperationalState)
    ensures
        r == (if up && running { InterfaceOperationalState::Up } else { InterfaceOperationalState::Down }),
{
    if up && running {
        InterfaceOperationalState::Up
    } else {
        InterfaceOperationalState::Down
    }
}

// ---------------------------------------------------------------------------
// Counters
// ---------------------------------------------------------------------------

/// The named statistics of a link that the counters are read from (`None` for a
/// name the record lacks).
#[derive(Clone, Copy, Debug)]
pub struct LinkStats {
    pub rbytes64: Option<KstatValue>,
    pub rbytes: Option<KstatValue>,
    pub obytes64: Option<KstatValue>,
    pub obytes: Option<KstatValue>,
    pub ipackets64: Option<KstatValue>,
    pub ipackets: Option<KstatValue>,
    pub opackets64: Option<KstatValue>,
    pub opackets: Option<KstatValue>,
    pub ierrors: Option<KstatValue>,
    pub oerrors: Option<KstatValue>,
}

/// The counters of a link.
#[derive(Clone, Copy, Debug, Default, PartialEq, Eq, Structural)]
pub struct Counters {
    pub received: u64,
    pub transmitted: u64,
    pub packets_received: u64,
    pub packets_transmitted: u64,
    pub errors_received: u64,
    pub errors_transmitted: u64,
}

/// The integer of a named statistic, when the record has it and it is one.
pub open spec fn named_integer(v: Option<KstatValue>) -> Option<u64> {
    match v {
        Some(k) => spec_integer(k),
        None => None,
    }
}

/// The integer of the 64-bit statistic, else of the 32-bit one, else 0.
pub open spec fn wide_or_narrow(wide: Option<KstatValue>, narrow: Option<KstatValue>) -> u64 {
    match named_integer(wide) {
        Some(x) => x,
        None => match named_integer(narrow) {
            Some(x) => x,
            None => 0,
        },
    }
}

fn integer_of(v: Option<KstatValue>) -> (r: Option<u64>)
    ensures
        r == named_integer(v),
{
    match v {
        Some(k) => k.integer(),
        None => None,
    }
}

fn wide_or_narrow_exec(wide: Option<KstatValue>, narrow: Option<KstatValue>) -> (r: u64)
    ensures
        r == wide_or_narrow(wide, narrow),
{
    match integer_of(wide) {
        Some(x) => x,
        None => match integer_of(narrow) {
            Some(x) => x,
            None => 0,
        },
    }
}

/// The counters of a link from its statistics: the 64-bit byte and packet counters
/// when present, else the 32-bit ones; 0 for what is missing.
pub fn read_counters(record: &LinkStats) -> (r: Counters)
    ensures
        r.received == wide_or_narrow(record.rbytes64, record.rbytes),
        r.transmitted == wide_or_narrow(record.obytes64, record.obytes),
        r.packets_received == wide_or_narrow(record.ipackets64, record.ipackets),
        r.packets_transmitted == wide_or_narrow(record.opackets64, record.opackets),
        r.errors_received == wide_or_narrow(record.ierrors, None),
        r.errors_transmitted == wide_or_narrow(record.oerrors, None),
{
    Counters {
        received: wide_or_narrow_exec(record.rbytes64, record.rbytes),
        transmitted: wide_or_narrow_exec(record.obytes64, record.obytes),
        packets_received: wide_or_narrow_exec(record.ipackets64, record.ipackets),
        packets_transmitted: wide_or_narrow_exec(record.opackets64, record.opackets),
        errors_received: wide_or_narrow_exec(record.ierrors, None),
        errors_transmitted: wide_or_narrow_exec(record.oerrors, None),
    }
}

/// What a refresh read of an interface: its counters, MTU and state.
pub open spec fn stats_of(c: Counters, mtu: u64, state: InterfaceOperationalState) -> InterfaceStats {
    InterfaceStats {
        rx_bytes: c.received,
        tx_bytes: c.transmitted,
        rx_packets: c.packets_received,
        tx_packets: c.packets_transmitted,
        rx_errors: c.errors_received,
        tx_errors: c.errors_transmitted,
        mtu,
        operational_state: state,
    }
}

/// The counters of an interface seen for the first time: nothing before them.
pub open spec fn first_counters(s: InterfaceStats) -> NetCounters {
    NetCounters {
        rx_bytes: s.rx_bytes,
        old_rx_bytes: 0,
        tx_bytes: s.tx_bytes,
        old_tx_bytes: 0,
        rx_packets: s.rx_packets,
        old_rx_packets: 0,
        tx_packets: s.tx_packets,
        old_tx_packets: 0,
        rx_errors: s.rx_errors,
        old_rx_errors: 0,
        tx_errors: s.tx_errors,
        old_tx_errors: 0,
        mtu: s.mtu,
        operational_state: s.operational_state,
        updated: true,
    }
}

// ---------------------------------------------------------------------------
// The list of interfaces
// ---------------------------------------------------------------------------

/// An interface of the list: its name, counters and hardware address.
pub type IfEntry = (Seq<u8>, NetCounters, [u8; 6]);

/// Whether no two interfaces of `v` share a name.
pub open spec fn names_distinct(v: Seq<IfEntry>) -> bool {
    forall|a: int, b: int| 0 <= a < b < v.len() ==> v[a].0 != v[b].0
}

/// Whether `v` lists an interface named `name`.
pub open spec fn has_name(v: Seq<IfEntry>, name: Seq<u8>) -> bool {
    exists|i: int| 0 <= i < v.len() && (#[trigger] v[i]).0 == name
}

/// Whether a refresh still reads the interface `name`: it is not known, or not yet
/// read by this refresh.
pub open spec fn spec_wants(v: Seq<IfEntry>, name: Seq<u8>) -> bool {
    forall|i: int| 0 <= i < v.len() && (#[trigger] v[i]).0 == name ==> !v[i].1.updated
}

/// The list after a refresh read `s` and `mac` for `name`: a known interface has its
/// counters rolled, a new one is added at the end with nothing before its counters.
pub open spec fn recorded(v: Seq<IfEntry>, name: Seq<u8>, s: InterfaceStats, mac: [u8; 6]) -> Seq<IfEntry> {
    if has_name(v, name) {
        let i = choose|i: int| 0 <= i < v.len() && (#[trigger] v[i]).0 == name;
        v.update(i, (name, rolled_counters(v[i].1, s), mac))
    } else {
        v.push((name, first_counters(s), mac))
    }
}

/// The interfaces of `v` read by the last refresh, in order.
pub open spec fn kept(v: Seq<IfEntry>) -> Seq<IfEntry>
    decreases v.len(),
{
    if v.len() == 0 {
        seq![]
    } else {
        let p = kept(v.drop_last());
        if v.last().1.updated {
            p.push(v.last())
        } else {
            p
        }
    }
}

/// An interface of illumos.
pub struct IfData {
    pub counters: NetCounters,
    pub mac_addr: MacAddr,
}

/// The network interfaces known, by name.
pub struct NetworksInner {
    interfaces: Vec<(Vec<u8>, IfData)>,
}

impl View for NetworksInner {
    type V = Seq<IfEntry>;

    closed spec fn view(&self) -> Seq<IfEntry> {
        self.interfaces@.map_values(|e: (Vec<u8>, IfData)| (e.0@, e.1.counters, e.1.mac_addr.0))
    }
}

impl NetworksInner {
    /// The invariant: no two interfaces share a name.
    pub open spec fn wf(&self) -> bool {
        names_distinct(self@)
    }

    /// No interface yet.
    pub fn new() -> (r: NetworksInner)
        ensures
            r@ == Seq::<IfEntry>::empty(),
            r.wf(),
    {
        let r = NetworksInner { interfaces: Vec::new() };
        assert(r@ =~= Seq::<IfEntry>::empty());
        r
    }

    /// The number of interfaces.
    pub fn len(&self) -> (r: usize)
        ensures
            r == self@.len(),
    {
        self.interfaces.len()
    }

    /// The interface at `i` in the list.
    pub fn get_index(&self, i: usize) -> (r: (&[u8], &IfData))
        requires
            i < self@.len(),
        ensures
            r.0@ == self@[i as int].0,
            r.1.counters == self@[i as int].1,
            r.1.mac_addr.0 == self@[i as int].2,
    {
        let e = &self.interfaces[i];
        (e.0.as_slice(), &e.1)
    }

    fn position(&self, name: &[u8]) -> (r: Option<usize>)
        ensures
            r matches Some(i) ==> i < self@.len() && self@[i as int].0 == name@,
            r is None ==> !has_name(self@, name@),
    {
        let mut j: usize = 0;
        while j < self.interfaces.len()
            invariant
                j <= self@.len(),
                self@.len() == self.interfaces@.len(),
                forall|k: int| 0 <= k < j ==> (#[trigger] self@[k]).0 != name@,
            decreases self@.len() - j,
        {
            assert(self@[j as int].0 == self.interfaces@[j as int].0@);
            if bytes_eq(self.interfaces[j].0.as_slice(), name) {
                return Some(j);
            }
            j = j + 1;
        }
        None
    }

    /// Starts a refresh: no interface is marked as read yet.
    pub fn begin_refresh(&mut self)
        requires
            old(self).wf(),
        ensures
            final(self).wf(),
            final(self)@.len() == old(self)@.len(),
            forall|i: int| 0 <= i < old(self)@.len() ==> (#[trigger] final(self)@[i]) == (
                old(self)@[i].0,
                NetCounters { updated: false, ..old(self)@[i].1 },
                old(self)@[i].2,
            ),
    {
        let ghost v = self@;
        let n = self.interfaces.len();
        let mut i: usize = 0;
        while i < n
            invariant
                i <= n == self.interfaces@.len() == v.len(),
                self@.len() == v.len(),
                forall|k: int| 0 <= k < n ==> (#[trigger] self@[k]) == (if k < i {
                    (v[k].0, NetCounters { updated: false, ..v[k].1 }, v[k].2)
                } else {
                    v[k]
                }),
            decreases n - i,
        {
            let ghost before = self@;
            self.interfaces[i].1.counters.updated = false;
            proof {
                assert(before[i as int] == v[i as int]);
                assert(self@ =~= before.update(i as int, (v[i as int].0, NetCounters { updated: false, ..v[i as int].1 }, v[i as int].2)));
                assert forall|k: int| 0 <= k < n implies (#[trigger] self@[k]) == (if k < i + 1 {
                    (v[k].0, NetCounters { updated: false, ..v[k].1 }, v[k].2)
                } else {
                    v[k]
                }) by {
                    if k != i {
                        assert(self@[k] == before[k]);
                    }
                }
            }
            i = i + 1;
        }
        proof {
            assert forall|a: int, b: int| 0 <= a < b < self@.len() implies self@[a].0 != self@[b].0 by {
                assert(self@[a].0 == v[a].0);
                assert(self@[b].0 == v[b].0);
            }
        }
    }

    /// Whether this refresh still reads the interface `name`.
    pub fn wants(&self, name: &[u8]) -> (r: bool)
        requires
            self.wf(),
        ensures
            r == spec_wants(self@, name@),
    {
        match self.position(name) {
            Some(j) => {
                let u = self.interfaces[j].1.counters.updated;
                proof {
                    assert(self@[j as int].1.updated == u);
                }
                !u
            },
            None => true,
        }
    }

    /// Records what this refresh read of the interface `name`: its counters, MTU,
    /// state and hardware address.
    pub fn record(&mut self, name: Vec<u8>, counters: Counters, mtu: u64, state: InterfaceOperationalState, mac: MacAddr)
        requires
            old(self).wf(),
        ensures
            final(self).wf(),
            final(self)@ == recorded(old(self)@, name@, stats_of(counters, mtu, state), mac.0),
    {
        let ghost v = self@;
        let s = InterfaceStats {
            rx_bytes: counters.received,
            tx_bytes: counters.transmitted,
            rx_packets: counters.packets_received,
            tx_packets: counters.packets_transmitted,
            rx_errors: counters.errors_received,
            tx_errors: counters.errors_transmitted,
            mtu,
            operational_state: state,
        };
        match self.position(name.as_slice()) {
            Some(j) => {
                let c = self.interfaces[j].1.counters.rolled(s);
                self.interfaces[j].1.counters = c;
                self.interfaces[j].1.mac_addr = mac;
                proof {
                    let i = choose|i: int| 0 <= i < v.len() && (#[trigger] v[i]).0 == name@;
                    assert(i == j);
                    assert(self@ =~= v.update(j as int, (name@, rolled_counters(v[j as int].1, s), mac.0)));
                }
            },
            None => {
                let c = NetCounters {
                    rx_bytes: s.rx_bytes,
                    old_rx_bytes: 0,
                    tx_bytes: s.tx_bytes,
                    old_tx_bytes: 0,
                    rx_packets: s.rx_packets,
                    old_rx_packets: 0,
                    tx_packets: s.tx_packets,
                    old_tx_packets: 0,
                    rx_errors: s.rx_errors,
                    old_rx_errors: 0,
                    tx_errors: s.tx_errors,
                    old_tx_errors: 0,
                    mtu: s.mtu,
                    operational_state: s.operational_state,
                    updated: true,
                };
                self.interfaces.push((name, IfData { counters: c, mac_addr: mac }));
                proof {
                    assert(self@ =~= v.push((name@, first_counters(s), mac.0)));
                }
            },
        }
    }

    /// Ends a refresh: when `remove_not_listed` holds, the interfaces it did not read
    /// are dropped.
    pub fn finish_refresh(&mut self, remove_not_listed: bool)
        requires
            old(self).wf(),
        ensures
            final(self).wf(),
            final(self)@ == (if remove_not_listed { kept(old(self)@) } else { old(self)@ }),
    {
        if !remove_not_listed {
            return;
        }
        let ghost v = self@;
        let mut old_list: Vec<(Vec<u8>, IfData)> = Vec::new();
        std::mem::swap(&mut old_list, &mut self.interfaces);
        let n = old_list.len();
        let mut rest = old_list;
        let ghost all = rest@;
        proof {
            assert(self@ =~= Seq::<IfEntry>::empty());
            assert(v =~= all.map_values(|e: (Vec<u8>, IfData)| (e.0@, e.1.counters, e.1.mac_addr.0)));
            assert(v.take(0) =~= Seq::<IfEntry>::empty());
        }
        let mut i: usize = 0;
        while i < n
            invariant
                i <= n == all.len() == v.len(),
                rest@ == all.subrange(i as int, n as int),
                v == all.map_values(|e: (Vec<u8>, IfData)| (e.0@, e.1.counters, e.1.mac_addr.0)),
                self@ == kept(v.take(i as int)),
                names_distinct(v),
            decreases n - i,
        {
            let e = rest.remove(0);
            let ghost before = self@;
            proof {
                assert(v.take(i + 1).drop_last() =~= v.take(i as int));
                assert(v.take(i + 1).last() == v[i as int]);
                assert(v[i as int] == (e.0@, e.1.counters, e.1.mac_addr.0));
            }
            if e.1.counters.updated {
                self.interfaces.push(e);
                proof {
                    assert(self@ =~= before.push(v[i as int]));
                }
            }
            i = i + 1;
        }
        proof {
            assert(v.take(n as int) =~= v);
            lemma_kept_distinct(v);
        }
    }
}

/// A refresh reads each interface once: once recorded, an interface is no longer
/// wanted by the same refresh.
pub proof fn recorded_is_not_wanted(v: Seq<IfEntry>, name: Seq<u8>, s: InterfaceStats, mac: [u8; 6])
    requires
        names_distinct(v),
    ensures
        !spec_wants(recorded(v, name, s, mac), name),
        has_name(recorded(v, name, s, mac), name),
{
    let w = recorded(v, name, s, mac);
    if has_name(v, name) {
        let i = choose|i: int| 0 <= i < v.len() && (#[trigger] v[i]).0 == name;
        assert(w[i].0 == name && w[i].1.updated);
    } else {
        assert(w[v.len() as int].0 == name && w[v.len() as int].1.updated);
    }
}

/// After a refresh that drops the interfaces it did not read, every interface left
/// was read by it.
pub proof fn kept_were_read(v: Seq<IfEntry>)
    ensures
        forall|k: int| 0 <= k < kept(v).len() ==> (#[trigger] kept(v)[k]).1.updated,
    decreases v.len(),
{
    if v.len() > 0 {
        kept_were_read(v.drop_last());
        let p = kept(v.drop_last());
        assert forall|k: int| 0 <= k < kept(v).len() implies (#[trigger] kept(v)[k]).1.updated by {
            if k < p.len() {
                assert(kept(v)[k] == p[k]);
            }
        }
    }
}

proof fn lemma_kept_member(v: Seq<IfEntry>)
    ensures
        forall|k: int| 0 <= k < kept(v).len() ==> exists|j: int| 0 <= j < v.len() && #[trigger] kept(v)[k] == v[j],
    decreases v.len(),
{
    if v.len() > 0 {
        let d = v.drop_last();
        lemma_kept_member(d);
        let p = kept(d);
        assert forall|k: int| 0 <= k < kept(v).len() implies exists|j: int| 0 <= j < v.len() && #[trigger] kept(v)[k] == v[j] by {
            if k < p.len() {
                assert(kept(v)[k] == p[k]);
                let j = choose|j: int| 0 <= j < d.len() && #[trigger] p[k] == d[j];
                assert(v[j] == d[j]);
            } else {
                assert(kept(v)[k] == v[v.len() - 1]);
            }
        }
    }
}

proof fn lemma_kept_distinct(v: Seq<IfEntry>)
    requires
        names_distinct(v),
    ensures
        names_distinct(kept(v)),
    decreases v.len(),
{
    if v.len() > 0 {
        let d = v.drop_last();
        assert(names_distinct(d)) by {
            assert forall|a: int, b: int| 0 <= a < b < d.len() implies d[a].0 != d[b].0 by {
                assert(d[a] == v[a] && d[b] == v[b]);
            }
        }
        lemma_kept_distinct(d);
        lemma_kept_member(d);
        let p = kept(d);
        if v.last().1.updated {
            let w = kept(v);
            assert(w =~= p.push(v.last()));
            assert forall|a: int, b: int| 0 <= a < b < w.len() implies w[a].0 != w[b].0 by {
                if b == w.len() - 1 {
                    let j = choose|j: int| 0 <= j < d.len() && #[trigger] p[a] == d[j];
                    assert(d[j] == v[j]);
                    assert(w[a] == p[a]);
                }
            }
        }
    }
}

// ---------------------------------------------------------------------------
// A whole refresh
// ---------------------------------------------------------------------------

/// What one `ifaddrs` entry gave: its raw name, and what was read of the interface
/// it names (its kernel statistics, MTU, state and hardware address).
pub struct IfReading {
    pub raw_name: Vec<u8>,
    pub counters: Counters,
    pub mtu: u64,
    pub state: InterfaceOperationalState,
    pub mac: MacAddr,
}

/// The list with every mark of the last refresh cleared.
pub open spec fn unmarked(v: Seq<IfEntry>) -> Seq<IfEntry> {
    v.map_values(|e: IfEntry| (e.0, NetCounters { updated: false, ..e.1 }, e.2))
}

/// The list after the entries `es` are read in turn: an entry without a name, or
/// naming an interface this refresh already read, changes nothing; another is
/// recorded.
pub open spec fn read_entries(v: Seq<IfEntry>, es: Seq<IfReading>) -> Seq<IfEntry>
    decreases es.len(),
{
    if es.len() == 0 {
        v
    } else {
        let p = read_entries(v, es.drop_last());
        let e = es.last();
        match spec_interface_name(e.raw_name@) {
            None => p,
            Some(n) => if spec_wants(p, n) {
                recorded(p, n, stats_of(e.counters, e.mtu, e.state), e.mac.0)
            } else {
                p
            },
        }
    }
}

/// The list after a refresh: the marks cleared; then, when the entries could be
/// listed (`es` is `Some`), the entries read and, when `remove` holds, the
/// interfaces not read dropped.
pub open spec fn spec_refresh(v: Seq<IfEntry>, es: Option<Seq<IfReading>>, remove: bool) -> Seq<IfEntry> {
    match es {
        None => unmarked(v),
        Some(e) => {
            let a = read_entries(unmarked(v), e);
            if remove {
                kept(a)
            } else {
                a
            }
        },
    }
}

impl NetworksInner {
    /// A refresh of the list from the `ifaddrs` entries read (`None` when the kernel
    /// statistics or the entries could not be opened): see `spec_refresh`.
    pub fn refresh(&mut self, readings: Option<Vec<IfReading>>, remove_not_listed: bool)
        requires
            old(self).wf(),
        ensures
            final(self).wf(),
            final(self)@ == spec_refresh(
                old(self)@,
                match readings {
                    Some(r) => Some(r@),
                    None => None,
                },
                remove_not_listed,
            ),
    {
        let ghost v0 = self@;
        self.begin_refresh();
        proof {
            assert(self@ =~= unmarked(v0));
        }
        let es = match readings {
            Some(r) => r,
            None => return,
        };
        let ghost all = es@;
        let n = es.len();
        let mut rest = es;
        let mut i: usize = 0;
        while i < n
            invariant
                i <= n == all.len(),
                rest@ == all.subrange(i as int, n as int),
                self.wf(),
                self@ == read_entries(unmarked(v0), all.take(i as int)),
            decreases n - i,
        {
            let e = rest.remove(0);
            proof {
                assert(all[i as int] == e);
                assert(all.take(i + 1).drop_last() =~= all.take(i as int));
                assert(all.take(i + 1).last() == e);
            }
            match interface_name(e.raw_name.as_slice()) {
                Some(name) => {
                    if self.wants(name.as_slice()) {
                        self.record(name, e.counters, e.mtu, e.state, e.mac);
                    }
                },
                None => {},
            }
            i = i + 1;
        }
        proof {
            assert(all.take(n as int) =~= all);
        }
        self.finish_refresh(remove_not_listed);
    }
}

/// Whether one of the entries `es` names the interface `x`.
pub open spec fn names_listed(es: Seq<IfReading>, x: Seq<u8>) -> bool {
    exists|i: int| 0 <= i < es.len() && spec_interface_name((#[trigger] es[i]).raw_name@) == Some(x)
}

proof fn lemma_read_entries_marks(u: Seq<IfEntry>, es: Seq<IfReading>)
    requires
        names_distinct(u),
        forall|k: int| 0 <= k < u.len() ==> !(#[trigger] u[k]).1.updated,
    ensures
        names_distinct(read_entries(u, es)),
        forall|k: int| 0 <= k < read_entries(u, es).len() ==> ((#[trigger] read_entries(u, es)[k]).1.updated
            <==> names_listed(es, read_entries(u, es)[k].0)),
        forall|x: Seq<u8>| names_listed(es, x) ==> has_name(read_entries(u, es), x),
    decreases es.len(),
{
    if es.len() > 0 {
        let ed = es.drop_last();
        lemma_read_entries_marks(u, ed);
        let p = read_entries(u, ed);
        let r = read_entries(u, es);
        let e = es.last();
        assert forall|x: Seq<u8>| names_listed(ed, x) implies names_listed(es, x) by {
            let i = choose|i: int| 0 <= i < ed.len() && spec_interface_name((#[trigger] ed[i]).raw_name@) == Some(x);
            assert(es[i] == ed[i]);
        }
        assert forall|x: Seq<u8>| names_listed(es, x) implies names_listed(ed, x) || spec_interface_name(e.raw_name@)
            == Some(x) by {
            let i = choose|i: int| 0 <= i < es.len() && spec_interface_name((#[trigger] es[i]).raw_name@) == Some(x);
            if i < ed.len() {
                assert(es[i] == ed[i]);
            }
        }
        match spec_interface_name(e.raw_name@) {
            None => {},
            Some(n) => {
                assert(names_listed(es, n)) by {
                    assert(spec_interface_name(es[es.len() - 1].raw_name@) == Some(n));
                }
                if spec_wants(p, n) {
                    let s = stats_of(e.counters, e.mtu, e.state);
                    lemma_recorded_distinct(p, n, s, e.mac.0);
                    if has_name(p, n) {
                        let j = choose|j: int| 0 <= j < p.len() && (#[trigger] p[j]).0 == n;
                        assert forall|k: int| 0 <= k < r.len() implies ((#[trigger] r[k]).1.updated <==> names_listed(es, r[k].0)) by {
                            if k != j {
                                assert(r[k] == p[k]);
                                assert(p[k].0 != n);
                            }
                        }
                        assert forall|x: Seq<u8>| names_listed(es, x) implies has_name(r, x) by {
                            if x == n {
                                assert(r[j].0 == n);
                            } else {
                                let t = choose|t: int| 0 <= t < p.len() && (#[trigger] p[t]).0 == x;
                                assert(r[t].0 == p[t].0);
                            }
                        }
                    } else {
                        assert forall|k: int| 0 <= k < r.len() implies ((#[trigger] r[k]).1.updated <==> names_listed(es, r[k].0)) by {
                            if k < p.len() {
                                assert(r[k] == p[k]);
                                assert(p[k].0 != n);
                            }
                        }
                        assert forall|x: Seq<u8>| names_listed(es, x) implies has_name(r, x) by {
                            if x == n {
                                assert(r[p.len() as int].0 == n);
                            } else {
                                let t = choose|t: int| 0 <= t < p.len() && (#[trigger] p[t]).0 == x;
                                assert(r[t] == p[t]);
                            }
                        }
                    }
                } else {
                    let j = choose|j: int| 0 <= j < p.len() && (#[trigger] p[j]).0 == n && p[j].1.updated;
                    assert forall|x: Seq<u8>| names_listed(es, x) implies has_name(r, x) by {
                        if x == n {
                            assert(r[j].0 == n);
                        }
                    }
                }
            },
        }
    }
}

proof fn lemma_recorded_distinct(v: Seq<IfEntry>, name: Seq<u8>, s: InterfaceStats, mac: [u8; 6])
    requires
        names_distinct(v),
    ensures
        names_distinct(recorded(v, name, s, mac)),
{
    let w = recorded(v, name, s, mac);
    if has_name(v, name) {
        let i = choose|i: int| 0 <= i < v.len() && (#[trigger] v[i]).0 == name;
        assert forall|a: int, b: int| 0 <= a < b < w.len() implies w[a].0 != w[b].0 by {
            assert(w[a].0 == v[a].0 && w[b].0 == v[b].0);
        }
    } else {
        assert forall|a: int, b: int| 0 <= a < b < w.len() implies w[a].0 != w[b].0 by {
            if b == v.len() {
                assert(w[a] == v[a]);
            } else {
                assert(w[a] == v[a] && w[b] == v[b]);
            }
        }
    }
}

proof fn lemma_kept_names(v: Seq<IfEntry>)
    ensures
        forall|x: Seq<u8>| has_name(kept(v), x) <==> exists|k: int| 0 <= k < v.len() && (#[trigger] v[k]).0 == x && v[k].1.updated,
    decreases v.len(),
{
    if v.len() > 0 {
        let d = v.drop_last();
        lemma_kept_names(d);
        let p = kept(d);
        assert forall|x: Seq<u8>| has_name(kept(v), x) <==> exists|k: int| 0 <= k < v.len() && (#[trigger] v[k]).0 == x && v[k].1.updated by {
            if has_name(kept(v), x) {
                let m = choose|m: int| 0 <= m < kept(v).len() && (#[trigger] kept(v)[m]).0 == x;
                if m < p.len() {
                    assert(kept(v)[m] == p[m]);
                    assert(has_name(p, x));
                    assert(exists|k: int| 0 <= k < d.len() && (#[trigger] d[k]).0 == x && d[k].1.updated);
                    let k = choose|k: int| 0 <= k < d.len() && (#[trigger] d[k]).0 == x && d[k].1.updated;
                    assert(v[k] == d[k]);
                } else {
                    assert(v[v.len() - 1].0 == x);
                }
            }
            if exists|k: int| 0 <= k < v.len() && (#[trigger] v[k]).0 == x && v[k].1.updated {
                let k = choose|k: int| 0 <= k < v.len() && (#[trigger] v[k]).0 == x && v[k].1.updated;
                if k < d.len() {
                    assert(d[k] == v[k]);
                    assert(exists|k2: int| 0 <= k2 < d.len() && (#[trigger] d[k2]).0 == x && d[k2].1.updated);
                    assert(has_name(p, x));
                    let m = choose|m: int| 0 <= m < p.len() && (#[trigger] p[m]).0 == x;
                    assert(kept(v)[m] == p[m]);
                } else {
                    assert(kept(v)[p.len() as int].0 == x);
                }
            }
        }
    }
}

/// After a refresh that could list the interfaces and drops those it did not read,
/// the list names exactly the interfaces that the entries name.
pub proof fn refresh_lists_the_named(v: Seq<IfEntry>, es: Seq<IfReading>)
    requires
        names_distinct(v),
    ensures
        forall|x: Seq<u8>| has_name(spec_refresh(v, Some(es), true), x) <==> names_listed(es, x),
{
    let u = unmarked(v);
    assert forall|a: int, b: int| 0 <= a < b < u.len() implies u[a].0 != u[b].0 by {
        assert(u[a].0 == v[a].0 && u[b].0 == v[b].0);
    }
    assert forall|k: int| 0 <= k < u.len() implies !(#[trigger] u[k]).1.updated by {}
    lemma_read_entries_marks(u, es);
    let a = read_entries(u, es);
    lemma_kept_names(a);
    assert forall|x: Seq<u8>| has_name(spec_refresh(v, Some(es), true), x) <==> names_listed(es, x) by {
        if names_listed(es, x) {
            let k = choose|k: int| 0 <= k < a.len() && (#[trigger] a[k]).0 == x;
            assert(a[k].1.updated);
        }
    }
}

/// A refresh that could not list the interfaces drops none: it only clears the
/// marks of the last refresh.
pub proof fn unlisted_refresh_keeps_all(v: Seq<IfEntry>, remove: bool)
    ensures
        spec_refresh(v, None, remove).len() == v.len(),
        forall|k: int| 0 <= k < v.len() ==> (#[trigger] spec_refresh(v, None, remove)[k]).0 == v[k].0
            && spec_refresh(v, None, remove)[k].2 == v[k].2,
{
}

} // verus!
