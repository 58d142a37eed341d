//! Network interfaces: the counters of each interface, their growth between two
//! refreshes, and the list of interfaces kept up to date from what the system lists.
use vstd::prelude::*;
use crate::netmask::IpAddr;
use crate::text::{is_digit, dec_value, all_digits, lemma_dec_value_grows, bytes_eq, find_from, find_byte_from, range_eq};
use vstd::string::StringSliceAdditionalSpecFns;

verus! {

/// The operational state of an interface (`/sys/class/net/<iface>/operstate`).
#[derive(Clone, Copy, Debug, PartialEq, Eq, Structural)]
pub enum InterfaceOperationalState {
    Up,
    Down,
    Unknown,
    Testing,
    LowerLayerDown,
    NotPresent,
    Dormant,
    Other,
}

/// The state that the contents of an `operstate` file name.
pub open spec fn state_named(data: Seq<u8>) -> InterfaceOperationalState {
    if data == seq![0x75u8, 0x6eu8, 0x6bu8, 0x6eu8, 0x6fu8, 0x77u8, 0x6eu8] {
        InterfaceOperationalState::Unknown
    } else if data == seq![0x6eu8, 0x6fu8, 0x74u8, 0x70u8, 0x72u8, 0x65u8, 0x73u8, 0x65u8, 0x6eu8, 0x74u8] {
        InterfaceOperationalState::NotPresent
    } else if data == seq![0x64u8, 0x6fu8, 0x77u8, 0x6eu8] {
        InterfaceOperationalState::Down
    } else if data == seq![0x6cu8, 0x6fu8, 0x77u8, 0x65u8, 0x72u8, 0x6cu8, 0x61u8, 0x79u8, 0x65u8, 0x72u8, 0x64u8, 0x6fu8, 0x77u8, 0x6eu8] {
        InterfaceOperationalState::LowerLayerDown
    } else if data == seq![0x74u8, 0x65u8, 0x73u8, 0x74u8, 0x69u8, 0x6eu8, 0x67u8] {
        InterfaceOperationalState::Testing
    } else if data == seq![0x64u8, 0x6fu8, 0x72u8, 0x6du8, 0x61u8, 0x6eu8, 0x74u8] {
        InterfaceOperationalState::Dormant
    } else if data == seq![0x75u8, 0x70u8] {
        InterfaceOperationalState::Up
    } else {
        InterfaceOperationalState::Other
    }
}

impl InterfaceOperationalState {
    /// The state that the contents of an `operstate` file (trimmed) name.
    pub fn from_data(data: &[u8]) -> (r: InterfaceOperationalState)
        ensures
            r == state_named(data@),
    {
        let k0: [u8; 7] = [0x75, 0x6e, 0x6b, 0x6e, 0x6f, 0x77, 0x6e];
        let k1: [u8; 10] = [0x6e, 0x6f, 0x74, 0x70, 0x72, 0x65, 0x73, 0x65, 0x6e, 0x74];
        let k2: [u8; 4] = [0x64, 0x6f, 0x77, 0x6e];
        let k3: [u8; 14] = [0x6c, 0x6f, 0x77, 0x65, 0x72, 0x6c, 0x61, 0x79, 0x65, 0x72, 0x64, 0x6f, 0x77, 0x6e];
        let k4: [u8; 7] = [0x74, 0x65, 0x73, 0x74, 0x69, 0x6e, 0x67];
        let k5: [u8; 7] = [0x64, 0x6f, 0x72, 0x6d, 0x61, 0x6e, 0x74];
        let k6: [u8; 2] = [0x75, 0x70];
        proof {
            assert(k0@ =~= seq![0x75u8, 0x6eu8, 0x6bu8, 0x6eu8, 0x6fu8, 0x77u8, 0x6eu8]);
            assert(k1@ =~= seq![0x6eu8, 0x6fu8, 0x74u8, 0x70u8, 0x72u8, 0x65u8, 0x73u8, 0x65u8, 0x6eu8, 0x74u8]);
            assert(k2@ =~= seq![0x64u8, 0x6fu8, 0x77u8, 0x6eu8]);
            assert(k3@ =~= seq![0x6cu8, 0x6fu8, 0x77u8, 0x65u8, 0x72u8, 0x6cu8, 0x61u8, 0x79u8, 0x65u8, 0x72u8, 0x64u8, 0x6fu8, 0x77u8, 0x6eu8]);
            assert(k4@ =~= seq![0x74u8, 0x65u8, 0x73u8, 0x74u8, 0x69u8, 0x6eu8, 0x67u8]);
            assert(k5@ =~= seq![0x64u8, 0x6fu8, 0x72u8, 0x6du8, 0x61u8, 0x6eu8, 0x74u8]);
            assert(k6@ =~= seq![0x75u8, 0x70u8]);
        }
        if bytes_eq(data, k0.as_slice()) {
            InterfaceOperationalState::Unknown
        } else if bytes_eq(data, k1.as_slice()) {
            InterfaceOperationalState::NotPresent
        } else if bytes_eq(data, k2.as_slice()) {
            InterfaceOperationalState::Down
        } else if bytes_eq(data, k3.as_slice()) {
            InterfaceOperationalState::LowerLayerDown
        } else if bytes_eq(data, k4.as_slice()) {
            InterfaceOperationalState::Testing
        } else if bytes_eq(data, k5.as_slice()) {
            InterfaceOperationalState::Dormant
        } else if bytes_eq(data, k6.as_slice()) {
            InterfaceOperationalState::Up
        } else {
            InterfaceOperationalState::Other
        }
    }
}

/// A MAC address.
#[derive(Clone, Copy, Debug, PartialEq, Eq)]
pub struct MacAddr(pub [u8; 6]);

impl MacAddr {
    /// The all-zero address, for an interface whose address is not known.
    pub fn unspecified() -> (r: MacAddr)
        ensures
            r.0@ == seq![0u8, 0u8, 0u8, 0u8, 0u8, 0u8],
    {
        let r = MacAddr([0, 0, 0, 0, 0, 0]);
        assert(r.0@ =~= seq![0u8, 0u8, 0u8, 0u8, 0u8, 0u8]);
        r
    }
}

/// An IP network: an address and the length of its prefix.
#[derive(Clone, Copy, Debug)]
pub struct IpNetwork {
    pub addr: IpAddr,
    pub prefix: u8,
}

// ---------------------------------------------------------------------------
// Numbers in sysfs files
// ---------------------------------------------------------------------------

/// The index of the first byte at or after `i` that is not a decimal digit, or the
/// length of `s`.
pub open spec fn digits_end(s: Seq<u8>, i: int) -> int
    decreases s.len() - i,
{
    if i < 0 || i >= s.len() {
        s.len() as int
    } else if !is_digit(s[i]) {
        i
    } else {
        digits_end(s, i + 1)
    }
}

/// The number written by the digits that `s` starts with (0 when it starts with none).
pub open spec fn leading_number(s: Seq<u8>) -> nat {
    dec_value(s.take(digits_end(s, 0)))
}

proof fn lemma_digits_end(s: Seq<u8>, i: int)
    requires
        0 <= i <= s.len(),
    ensures
        i <= digits_end(s, i) <= s.len(),
        forall|j: int| i <= j < digits_end(s, i) ==> is_digit(#[trigger] s[j]),
    decreases s.len() - i,
{
    if i < s.len() && is_digit(s[i]) {
        lemma_digits_end(s, i + 1);
    }
}

/// Whether the number that `data` starts with fits in 64 bits, which is what
/// `read_leading_number` asks of its input.
pub fn leading_number_fits(data: &[u8]) -> (r: bool)
    ensures
        r == (leading_number(data@) <= u64::MAX),
{
    let ghost k = digits_end(data@, 0);
    proof {
        lemma_digits_end(data@, 0);
        assert(all_digits(data@.take(k)));
    }
    let mut i: usize = 0;
    let mut ret: u64 = 0;
    while i < data.len() && 0x30 <= data[i] && data[i] <= 0x39
        invariant
            i <= k <= data@.len(),
            k == digits_end(data@, 0),
            digits_end(data@, i as int) == k,
            all_digits(data@.take(k)),
            ret == dec_value(data@.take(i as int)),
        decreases data@.len() - i,
    {
        proof {
            assert(is_digit(data@[i as int]));
            lemma_digits_end(data@, i + 1);
            assert(digits_end(data@, i as int) == digits_end(data@, i + 1));
            assert(i < k);
            assert(data@.take(i + 1).drop_last() =~= data@.take(i as int));
        }
        let d = (data[i] - 0x30) as u64;
        match ret.checked_mul(10) {
            Some(m) => match m.checked_add(d) {
                Some(x) => {
                    ret = x;
                },
                None => {
                    proof {
                        lemma_dec_value_grows(data@.take(k), i + 1);
                        assert(data@.take(k).subrange(0, i + 1) =~= data@.take(i + 1));
                    }
                    return false;
                },
            },
            None => {
                proof {
                    lemma_dec_value_grows(data@.take(k), i + 1);
                    assert(data@.take(k).subrange(0, i + 1) =~= data@.take(i + 1));
                }
                return false;
            },
        }
        i = i + 1;
    }
    proof {
        assert(i == k);
    }
    true
}

/// Reads the number that the contents of a sysfs counter file start with; the
/// digits are accumulated without overflow checks, so the number must fit in 64 bits.
pub fn read_leading_number(data: &[u8]) -> (r: u64)
    requires
        leading_number(data@) <= u64::MAX,
    ensures
        r == leading_number(data@),
{
    let ghost k = digits_end(data@, 0);
    proof {
        lemma_digits_end(data@, 0);
        assert(all_digits(data@.take(k)));
    }
    let mut i: usize = 0;
    let mut ret: u64 = 0;
    while i < data.len() && 0x30 <= data[i] && data[i] <= 0x39
        invariant
            i <= k <= data@.len(),
            k == digits_end(data@, 0),
            digits_end(data@, i as int) == k,
            all_digits(data@.take(k)),
            dec_value(data@.take(k)) <= u64::MAX,
            ret == dec_value(data@.take(i as int)),
        decreases data@.len() - i,
    {
        proof {
            assert(is_digit(data@[i as int]));
            lemma_digits_end(data@, i + 1);
            assert(digits_end(data@, i as int) == digits_end(data@, i + 1));
            assert(i < k);
            lemma_dec_value_grows(data@.take(k), i + 1);
            assert(data@.take(k).subrange(0, i + 1) =~= data@.take(i + 1));
            assert(data@.take(i + 1).drop_last() =~= data@.take(i as int));
        }
        ret = ret * 10;
        ret = ret + (data[i] - 0x30) as u64;
        i = i + 1;
    }
    proof {
        assert(i == k);
    }
    ret
}

// ---------------------------------------------------------------------------
// Interface counters
// ---------------------------------------------------------------------------

/// What a refresh reads of an interface.
#[derive(Clone, Copy, Debug, PartialEq, Eq, Structural)]
pub struct InterfaceStats {
    pub rx_bytes: u64,
    pub tx_bytes: u64,
    pub rx_packets: u64,
    pub tx_packets: u64,
    pub rx_errors: u64,
    pub tx_errors: u64,
    pub mtu: u64,
    pub operational_state: InterfaceOperationalState,
}

/// The counters of an interface as of the last refresh and the one before, and
/// whether the last listing saw it.
#[derive(Clone, Copy, Debug, PartialEq, Eq, Structural)]
pub struct NetCounters {
    pub rx_bytes: u64,
    pub old_rx_bytes: u64,
    pub tx_bytes: u64,
    pub old_tx_bytes: u64,
    pub rx_packets: u64,
    pub old_rx_packets: u64,
    pub tx_packets: u64,
    pub old_tx_packets: u64,
    pub rx_errors: u64,
    pub old_rx_errors: u64,
    pub tx_errors: u64,
    pub old_tx_errors: u64,
    pub mtu: u64,
    pub operational_state: InterfaceOperationalState,
    pub updated: bool,
}

/// The counters of an interface seen for the first time: no growth yet.
pub open spec fn fresh_counters(s: InterfaceStats) -> NetCounters {
    NetCounters {
        rx_bytes: s.rx_bytes,
        old_rx_bytes: s.rx_bytes,
        tx_bytes: s.tx_bytes,
        old_tx_bytes: s.tx_bytes,
        rx_packets: s.rx_packets,
        old_rx_packets: s.rx_packets,
        tx_packets: s.tx_packets,
        old_tx_packets: s.tx_packets,
        rx_errors: s.rx_errors,
        old_rx_errors: s.rx_errors,
        tx_errors: s.tx_errors,
        old_tx_errors: s.tx_errors,
        mtu: s.mtu,
        operational_state: s.operational_state,
        updated: true,
    }
}

/// The counters after a refresh that read `s`: the current values become the
/// previous ones.
pub open spec fn rolled_counters(c: NetCounters, s: InterfaceStats) -> NetCounters {
    NetCounters {
        rx_bytes: s.rx_bytes,
        old_rx_bytes: c.rx_bytes,
        tx_bytes: s.tx_bytes,
        old_tx_bytes: c.tx_bytes,
        rx_packets: s.rx_packets,
        old_rx_packets: c.rx_packets,
        tx_packets: s.tx_packets,
        old_tx_packets: c.tx_packets,
        rx_errors: s.rx_errors,
        old_rx_errors: c.rx_errors,
        tx_errors: s.tx_errors,
        old_tx_errors: c.tx_errors,
        mtu: s.mtu,
        operational_state: s.operational_state,
        updated: true,
    }
}

impl NetCounters {
    /// The counters of an interface seen for the first time.
    pub fn fresh(s: InterfaceStats) -> (r: NetCounters)
        ensures
            r == fresh_counters(s),
    {
        NetCounters {
            rx_bytes: s.rx_bytes,
            old_rx_bytes: s.rx_bytes,
            tx_bytes: s.tx_bytes,
            old_tx_bytes: s.tx_bytes,
            rx_packets: s.rx_packets,
            old_rx_packets: s.rx_packets,
            tx_packets: s.tx_packets,
            old_tx_packets: s.tx_packets,
            rx_errors: s.rx_errors,
            old_rx_errors: s.rx_errors,
            tx_errors: s.tx_errors,
            old_tx_errors: s.tx_errors,
            mtu: s.mtu,
            operational_state: s.operational_state,
            updated: true,
        }
    }

    /// The counters after a refresh that read `s`.
    pub fn rolled(&self, s: InterfaceStats) -> (r: NetCounters)
        ensures
            r == rolled_counters(*self, s),
    {
        NetCounters {
            rx_bytes: s.rx_bytes,
            old_rx_bytes: self.rx_bytes,
            tx_bytes: s.tx_bytes,
            old_tx_bytes: self.tx_bytes,
            rx_packets: s.rx_packets,
            old_rx_packets: self.rx_packets,
            tx_packets: s.tx_packets,
            old_tx_packets: self.tx_packets,
            rx_errors: s.rx_errors,
            old_rx_errors: self.rx_errors,
            tx_errors: s.tx_errors,
            old_tx_errors: self.tx_errors,
            mtu: s.mtu,
            operational_state: s.operational_state,
            updated: true,
        }
    }
}

/// An interface: its counters, MAC address and IP networks.
pub struct NetworkDataInner {
    pub counters: NetCounters,
    pub mac_addr: MacAddr,
    pub ip_networks: Vec<IpNetwork>,
}

impl NetworkDataInner {
    /// Bytes received since the refresh before the last (0 when the counter went down).
    pub fn received(&self) -> (r: u64)
        ensures
            r == self.counters.rx_bytes.saturating_sub(self.counters.old_rx_bytes),
    {
        self.counters.rx_bytes.saturating_sub(self.counters.old_rx_bytes)
    }

    /// Bytes received in all.
    pub fn total_received(&self) -> (r: u64)
        ensures
            r == self.counters.rx_bytes,
    {
        self.counters.rx_bytes
    }

    /// Bytes sent since the refresh before the last.
    pub fn transmitted(&self) -> (r: u64)
        ensures
            r == self.counters.tx_bytes.saturating_sub(self.counters.old_tx_bytes),
    {
        self.counters.tx_bytes.saturating_sub(self.counters.old_tx_bytes)
    }

    /// Bytes sent in all.
    pub fn total_transmitted(&self) -> (r: u64)
        ensures
            r == self.counters.tx_bytes,
    {
        self.counters.tx_bytes
    }

    /// Packets received since the refresh before the last.
    pub fn packets_received(&self) -> (r: u64)
        ensures
            r == self.counters.rx_packets.saturating_sub(self.counters.old_rx_packets),
    {
        self.counters.rx_packets.saturating_sub(self.counters.old_rx_packets)
    }

    /// Packets received in all.
    pub fn total_packets_received(&self) -> (r: u64)
        ensures
            r == self.counters.rx_packets,
    {
        self.counters.rx_packets
    }

    /// Packets sent since the refresh before the last.
    pub fn packets_transmitted(&self) -> (r: u64)
        ensures
            r == self.counters.tx_packets.saturating_sub(self.counters.old_tx_packets),
    {
        self.counters.tx_packets.saturating_sub(self.counters.old_tx_packets)
    }

    /// Packets sent in all.
    pub fn total_packets_transmitted(&self) -> (r: u64)
        ensures
            r == self.counters.tx_packets,
    {
        self.counters.tx_packets
    }

    /// Receive errors since the refresh before the last.
    pub fn errors_on_received(&self) -> (r: u64)
        ensures
            r == self.counters.rx_errors.saturating_sub(self.counters.old_rx_errors),
    {
        self.counters.rx_errors.saturating_sub(self.counters.old_rx_errors)
    }

    /// Receive errors in all.
    pub fn total_errors_on_received(&self) -> (r: u64)
        ensures
            r == self.counters.rx_errors,
    {
        self.counters.rx_errors
    }

    /// Send errors since the refresh before the last.
    pub fn errors_on_transmitted(&self) -> (r: u64)
        ensures
            r == self.counters.tx_errors.saturating_sub(self.counters.old_tx_errors),
    {
        self.counters.tx_errors.saturating_sub(self.counters.old_tx_errors)
    }

    /// Send errors in all.
    pub fn total_errors_on_transmitted(&self) -> (r: u64)
        ensures
            r == self.counters.tx_errors,
    {
        self.counters.tx_errors
    }

    /// The MAC address.
    pub fn mac_address(&self) -> (r: MacAddr)
        ensures
            r.0@ == self.mac_addr.0@,
    {
        self.mac_addr
    }

    /// The IP networks.
    pub fn ip_networks(&self) -> (r: &[IpNetwork])
        ensures
            r@ == self.ip_networks@,
    {
        self.ip_networks.as_slice()
    }

    /// The maximum transfer unit.
    pub fn mtu(&self) -> (r: u64)
        ensures
            r == self.counters.mtu,
    {
        self.counters.mtu
    }

    /// The operational state.
    pub fn operational_state(&self) -> (r: InterfaceOperationalState)
        ensures
            r == self.counters.operational_state,
    {
        self.counters.operational_state
    }
}

// ---------------------------------------------------------------------------
// The list of interfaces
// ---------------------------------------------------------------------------

/// An interface of the list as its name and counters.
pub type NamedCounters = (Seq<char>, NetCounters);

/// The counters with the mark of the last listing set to `b`.
pub open spec fn marked(c: NetCounters, b: bool) -> NetCounters {
    NetCounters { updated: b, ..c }
}

/// Whether no two interfaces of `v` share a name.
pub open spec fn names_distinct(v: Seq<NamedCounters>) -> bool {
    forall|a: int, b: int| 0 <= a < b < v.len() ==> v[a].0 != v[b].0
}

/// Whether `v` lists an interface named `name`.
pub open spec fn has_name(v: Seq<NamedCounters>, name: Seq<char>) -> bool {
    exists|i: int| 0 <= i < v.len() && (#[trigger] v[i]).0 == name
}

/// The list after a listing read `s` for the interface `name`: a known interface has
/// its counters rolled, a new one is added at the end.
pub open spec fn upsert(v: Seq<NamedCounters>, name: Seq<char>, s: InterfaceStats) -> Seq<
    NamedCounters,
> {
    if has_name(v, name) {
        let i = choose|i: int| 0 <= i < v.len() && (#[trigger] v[i]).0 == name;
        v.update(i, (name, rolled_counters(v[i].1, s)))
    } else {
        v.push((name, fresh_counters(s)))
    }
}

/// The list after the interfaces of the listing `l` are applied in turn.
pub open spec fn apply_listing(v: Seq<NamedCounters>, l: Seq<(Seq<char>, InterfaceStats)>) -> Seq<
    NamedCounters,
>
    decreases l.len(),
{
    if l.len() == 0 {
        v
    } else {
        upsert(apply_listing(v, l.drop_last()), l.last().0, l.last().1)
    }
}

/// The list with every mark cleared.
pub open spec fn unmark_all(v: Seq<NamedCounters>) -> Seq<NamedCounters> {
    v.map_values(|e: NamedCounters| (e.0, marked(e.1, false)))
}

/// The marked interfaces of `v`, in order, with their marks cleared.
pub open spec fn prune(v: Seq<NamedCounters>) -> Seq<NamedCounters>
    decreases v.len(),
{
    if v.len() == 0 {
        seq![]
    } else {
        let p = prune(v.drop_last());
        if v.last().1.updated {
            p.push((v.last().0, marked(v.last().1, false)))
        } else {
            p
        }
    }
}

/// The list after a refresh that read the listing `l`: every interface of the
/// listing updated or added, and, when `remove` holds, the interfaces missing from it
/// dropped.
pub open spec fn refreshed(v: Seq<NamedCounters>, l: Seq<(Seq<char>, InterfaceStats)>, remove: bool) -> Seq<
    NamedCounters,
> {
    let a = apply_listing(unmark_all(v), l);
    if remove {
        prune(a)
    } else {
        a
    }
}

/// A listing entry as plain values.
pub open spec fn listing_view(l: Seq<(String, InterfaceStats)>) -> Seq<(Seq<char>, InterfaceStats)> {
    l.map_values(|e: (String, InterfaceStats)| (e.0@, e.1))
}

/// Whether the list `v` with addresses `m` and networks `p` has an interface named
/// `name` that holds the address `mac` and the networks `ips`.
pub open spec fn kept_entry(
    v: Seq<NamedCounters>,
    m: Seq<[u8; 6]>,
    p: Seq<Seq<IpNetwork>>,
    name: Seq<char>,
    mac: [u8; 6],
    ips: Seq<IpNetwork>,
) -> bool {
    exists|j: int| 0 <= j < v.len() && (#[trigger] v[j]).0 == name && m[j] == mac && p[j] == ips
}

/// Whether an interface named `name` holding the address `mac` and the networks
/// `ips` took them from the list `v` whose addresses are `m` and networks `p`: the
/// interface of that name there holds them, or, when the list has none of that name,
/// they are the unspecified address and no network.
pub open spec fn addresses_from(
    v: Seq<NamedCounters>,
    m: Seq<[u8; 6]>,
    p: Seq<Seq<IpNetwork>>,
    name: Seq<char>,
    mac: [u8; 6],
    ips: Seq<IpNetwork>,
) -> bool {
    if has_name(v, name) {
        kept_entry(v, m, p, name, mac, ips)
    } else {
        mac@ == seq![0u8, 0u8, 0u8, 0u8, 0u8, 0u8] && ips.len() == 0
    }
}

/// The network interfaces known, by name.
pub struct NetworksInner {
    interfaces: Vec<(String, NetworkDataInner)>,
}

impl View for NetworksInner {
    type V = Seq<NamedCounters>;

    closed spec fn view(&self) -> Seq<NamedCounters> {
        self.interfaces@.map_values(|e: (String, NetworkDataInner)| (e.0@, e.1.counters))
    }
}

impl NetworksInner {
    /// The invariant: no two interfaces share a name.
    pub open spec fn wf(&self) -> bool {
        names_distinct(self@)
    }

    /// No interface yet.
    pub fn new() -> (r: NetworksInner)
        ensures
            r@ == Seq::<NamedCounters>::empty(),
            r.wf(),
    {
        let r = NetworksInner { interfaces: Vec::new() };
        assert(r@ =~= Seq::<NamedCounters>::empty());
        r
    }

    /// The number of interfaces.
    pub fn len(&self) -> (r: usize)
        ensures
            r == self@.len(),
    {
        self.interfaces.len()
    }

    /// The hardware addresses of the interfaces, in the order of the list.
    pub closed spec fn macs(&self) -> Seq<[u8; 6]> {
        self.interfaces@.map_values(|e: (String, NetworkDataInner)| e.1.mac_addr.0)
    }

    /// The IP networks of the interfaces, in the order of the list.
    pub closed spec fn ips(&self) -> Seq<Seq<IpNetwork>> {
        self.interfaces@.map_values(|e: (String, NetworkDataInner)| e.1.ip_networks@)
    }

    /// The interface at `i` in the list.
    pub fn get_index(&self, i: usize) -> (r: (&String, &NetworkDataInner))
        requires
            i < self@.len(),
        ensures
            r.0@ == self@[i as int].0,
            r.1.counters == self@[i as int].1,
            r.1.mac_addr.0 == self.macs()[i as int],
            r.1.ip_networks@ == self.ips()[i as int],
    {
        let e = &self.interfaces[i];
        (&e.0, &e.1)
    }

    /// The position of the interface named `name`, if there is one.
    pub fn position(&self, name: &String) -> (r: Option<usize>)
        ensures
            r matches Some(i) ==> i < self@.len() && self@[i as int].0 == name@,
            r is None ==> !has_name(self@, name@),
    {
        let mut j: usize = 0;
        while j < self.interfaces.len()
            invariant
                j <= self@.len(),
                self@.len() == self.interfaces@.len(),
                forall|k: int| 0 <= k < j ==> (#[trigger] self@[k]).0 != name@,
            decreases self@.len() - j,
        {
            assert(self@[j as int].0 == self.interfaces@[j as int].0@);
            if self.interfaces[j].0 == *name {
                return Some(j);
            }
            j = j + 1;
        }
        None
    }

    /// Records that a listing read `s` for the interface `name`.
    fn upsert(&mut self, name: String, s: InterfaceStats)
        requires
            old(self).wf(),
        ensures
            final(self).wf(),
            final(self)@ == upsert(old(self)@, name@, s),
            has_name(old(self)@, name@) ==> final(self).macs() == old(self).macs() && final(self).ips()
                == old(self).ips(),
            !has_name(old(self)@, name@) ==> final(self).macs() == old(self).macs().push(
                [0u8, 0u8, 0u8, 0u8, 0u8, 0u8],
            ) && final(self).ips() == old(self).ips().push(Seq::<IpNetwork>::empty()),
    {
        let ghost m0 = self.macs();
        let ghost p0 = self.ips();
        let ghost v = self@;
        match self.position(&name) {
            Some(j) => {
                let c = self.interfaces[j].1.counters.rolled(s);
                self.interfaces[j].1.counters = c;
                proof {
                    let i = choose|i: int| 0 <= i < v.len() && (#[trigger] v[i]).0 == name@;
                    assert(i == j);
                    assert(self@ =~= v.update(j as int, (name@, rolled_counters(v[j as int].1, s))));
                    assert(self.macs() =~= m0);
                    assert(self.ips() =~= p0);
                }
            },
            None => {
                let data = NetworkDataInner {
                    counters: NetCounters::fresh(s),
                    mac_addr: MacAddr::unspecified(),
                    ip_networks: Vec::new(),
                };
                let ghost z = data.mac_addr.0;
                self.interfaces.push((name, data));
                proof {
                    assert(self@ =~= v.push((name@, fresh_counters(s))));
                    assert(z =~= [0u8, 0u8, 0u8, 0u8, 0u8, 0u8]);
                    assert(self.macs() =~= m0.push([0u8, 0u8, 0u8, 0u8, 0u8, 0u8]));
                    assert(self.ips() =~= p0.push(Seq::<IpNetwork>::empty()));
                }
            },
        }
    }

    /// Refreshes the list from a listing of the interfaces (their names and what was
    /// read of each): listed interfaces are updated or added, and when
    /// `remove_not_listed` holds the others are dropped.
    pub fn refresh(&mut self, listing: Vec<(String, InterfaceStats)>, remove_not_listed: bool)
        requires
            old(self).wf(),
        ensures
            final(self).wf(),
            final(self)@ == refreshed(old(self)@, listing_view(listing@), remove_not_listed),
            final(self).macs().len() == final(self)@.len(),
            final(self).ips().len() == final(self)@.len(),
            forall|k: int| 0 <= k < final(self)@.len() ==> addresses_from(
                old(self)@,
                old(self).macs(),
                old(self).ips(),
                (#[trigger] final(self)@[k]).0,
                final(self).macs()[k],
                final(self).ips()[k],
            ),
    {
        let ghost v0 = self@;
        let ghost m0 = self.macs();
        let ghost p0 = self.ips();
        let mut j: usize = 0;
        while j < self.interfaces.len()
            invariant
                j <= self.interfaces@.len() == v0.len(),
                self@.len() == v0.len(),
                forall|k: int| 0 <= k < j ==> #[trigger] self@[k] == unmark_all(v0)[k],
                forall|k: int| j <= k < v0.len() ==> #[trigger] self@[k] == v0[k],
                self.macs() == m0,
                self.ips() == p0,
            decreases v0.len() - j,
        {
            let ghost before = self@;
            let c = self.interfaces[j].1.counters;
            self.interfaces[j].1.counters = NetCounters { updated: false, ..c };
            proof {
                assert(self@ =~= before.update(j as int, (before[j as int].0, marked(c, false))));
                assert(self.macs() =~= m0);
                assert(self.ips() =~= p0);
            }
            j = j + 1;
        }
        proof {
            assert(self@ =~= unmark_all(v0));
            assert forall|a: int, b: int| 0 <= a < b < self@.len() implies self@[a].0 != self@[b].0 by {
                assert(self@[a].0 == v0[a].0 && self@[b].0 == v0[b].0);
            }
            assert forall|k: int| 0 <= k < self@.len() implies addresses_from(
                v0,
                m0,
                p0,
                (#[trigger] self@[k]).0,
                self.macs()[k],
                self.ips()[k],
            ) by {
                assert(v0[k].0 == self@[k].0);
                assert(has_name(v0, self@[k].0));
            }
            assert forall|q: int| 0 <= q < v0.len() implies has_name(self@, (#[trigger] v0[q]).0) by {
                assert(self@[q].0 == v0[q].0);
            }
        }
        let ghost lv = listing_view(listing@);
        let mut i: usize = 0;
        let mut listing = listing;
        let ghost l0 = listing@;
        while i < listing.len()
            invariant
                i <= listing@.len(),
                listing@.len() == l0.len(),
                forall|k: int| i <= k < l0.len() ==> #[trigger] listing@[k] == l0[k],
                lv == listing_view(l0),
                self.wf(),
                self@ == apply_listing(unmark_all(v0), lv.take(i as int)),
                self.macs().len() == self@.len(),
                self.ips().len() == self@.len(),
                m0.len() == v0.len(),
                p0.len() == v0.len(),
                forall|k: int| 0 <= k < self@.len() ==> addresses_from(
                    v0,
                    m0,
                    p0,
                    (#[trigger] self@[k]).0,
                    self.macs()[k],
                    self.ips()[k],
                ),
                forall|q: int| 0 <= q < v0.len() ==> has_name(self@, (#[trigger] v0[q]).0),
            decreases l0.len() - i,
        {
            let name = listing[i].0.clone();
            let s = listing[i].1;
            proof {
                assert(lv.take(i + 1).drop_last() =~= lv.take(i as int));
                assert(lv.take(i + 1).last() == (name@, s));
            }
            let ghost b = self@;
            let ghost mb = self.macs();
            let ghost pb = self.ips();
            let ghost known = has_name(b, name@);
            self.upsert(name, s);
            proof {
                if known {
                    let w = choose|w: int| 0 <= w < b.len() && (#[trigger] b[w]).0 == name@;
                    assert(self@ == b.update(w, (name@, rolled_counters(b[w].1, s))));
                    assert forall|k: int| 0 <= k < self@.len() implies (#[trigger] self@[k]).0 == b[k].0 by {}
                    assert forall|q: int| 0 <= q < v0.len() implies has_name(self@, (#[trigger] v0[q]).0) by {
                        let t = choose|t: int| 0 <= t < b.len() && (#[trigger] b[t]).0 == v0[q].0;
                        assert(self@[t].0 == b[t].0);
                    }
                    assert forall|k: int| 0 <= k < self@.len() implies addresses_from(
                        v0,
                        m0,
                        p0,
                        (#[trigger] self@[k]).0,
                        self.macs()[k],
                        self.ips()[k],
                    ) by {
                        assert(self@[k].0 == b[k].0);
                    }
                } else {
                    assert(self@ == b.push((name@, fresh_counters(s))));
                    assert(!has_name(v0, name@)) by {
                        if has_name(v0, name@) {
                            let q = choose|q: int| 0 <= q < v0.len() && (#[trigger] v0[q]).0 == name@;
                            assert(has_name(b, v0[q].0));
                        }
                    }
                    assert forall|q: int| 0 <= q < v0.len() implies has_name(self@, (#[trigger] v0[q]).0) by {
                        let t = choose|t: int| 0 <= t < b.len() && (#[trigger] b[t]).0 == v0[q].0;
                        assert(self@[t].0 == b[t].0);
                    }
                    assert forall|k: int| 0 <= k < self@.len() implies addresses_from(
                        v0,
                        m0,
                        p0,
                        (#[trigger] self@[k]).0,
                        self.macs()[k],
                        self.ips()[k],
                    ) by {
                        if k < b.len() {
                            assert(self@[k] == b[k]);
                            assert(self.macs()[k] == mb[k]);
                            assert(self.ips()[k] == pb[k]);
                        } else {
                            assert(self@[k].0 == name@);
                            assert(self.macs()[k]@ =~= seq![0u8, 0u8, 0u8, 0u8, 0u8, 0u8]);
                        }
                    }
                }
            }
            i = i + 1;
        }
        proof {
            assert(lv.take(l0.len() as int) =~= lv);
        }
        if remove_not_listed {
            let ghost b = self@;
            let ghost mb = self.macs();
            let ghost pb = self.ips();
            self.prune();
            proof {
                assert forall|k: int| 0 <= k < self@.len() implies addresses_from(
                    v0,
                    m0,
                    p0,
                    (#[trigger] self@[k]).0,
                    self.macs()[k],
                    self.ips()[k],
                ) by {
                    assert(kept_entry(b, mb, pb, self@[k].0, self.macs()[k], self.ips()[k]));
                    let t = choose|t: int| 0 <= t < b.len() && (#[trigger] b[t]).0 == self@[k].0 && mb[t]
                        == self.macs()[k] && pb[t] == self.ips()[k];
                    assert(addresses_from(v0, m0, p0, b[t].0, mb[t], pb[t]));
                }
            }
        }
    }

    /// What a refresh with removal does when the interfaces could not be listed: the
    /// interfaces not marked by the last listing are dropped and the marks of the
    /// others cleared; the interfaces kept keep their addresses and networks.
    pub fn retain_listed(&mut self)
        requires
            old(self).wf(),
        ensures
            final(self).wf(),
            final(self)@ == prune(old(self)@),
            final(self).macs().len() == final(self)@.len(),
            final(self).ips().len() == final(self)@.len(),
            forall|k: int| 0 <= k < final(self)@.len() ==> kept_entry(
                old(self)@,
                old(self).macs(),
                old(self).ips(),
                (#[trigger] final(self)@[k]).0,
                final(self).macs()[k],
                final(self).ips()[k],
            ),
    {
        self.prune();
    }

    /// Drops the unmarked interfaces and clears the marks of the others.
    fn prune(&mut self)
        requires
            old(self).wf(),
        ensures
            final(self).wf(),
            final(self)@ == prune(old(self)@),
            final(self).macs().len() == final(self)@.len(),
            final(self).ips().len() == final(self)@.len(),
            forall|k: int| 0 <= k < final(self)@.len() ==> kept_entry(
                old(self)@,
                old(self).macs(),
                old(self).ips(),
                (#[trigger] final(self)@[k]).0,
                final(self).macs()[k],
                final(self).ips()[k],
            ),
    {
        let ghost v0 = self@;
        let ghost m0 = self.macs();
        let ghost p0 = self.ips();
        proof {
            assert forall|k: int| 0 <= k < self@.len() implies kept_entry(
                v0,
                m0,
                p0,
                (#[trigger] self@[k]).0,
                self.macs()[k],
                self.ips()[k],
            ) by {
                assert(v0[k].0 == self@[k].0);
            }
        }
        let n = self.interfaces.len();
        let mut c: usize = 0;
        let mut j: usize = 0;
        while c < n
            invariant
                n == v0.len(),
                j <= c <= v0.len(),
                self@ == prune(v0.take(c as int)) + v0.skip(c as int),
                j == prune(v0.take(c as int)).len(),
                self@.len() == self.interfaces@.len(),
                names_distinct(v0),
                forall|k: int| 0 <= k < j ==> exists|m: int| 0 <= m < c && (#[trigger] self@[k]).0 == v0[m].0,
                self.macs().len() == self@.len(),
                self.ips().len() == self@.len(),
                m0.len() == v0.len(),
                p0.len() == v0.len(),
                forall|k: int| 0 <= k < self@.len() ==> kept_entry(
                    v0,
                    m0,
                    p0,
                    (#[trigger] self@[k]).0,
                    self.macs()[k],
                    self.ips()[k],
                ),
            decreases v0.len() - c,
        {
            proof {
                assert(v0.take(c + 1).drop_last() =~= v0.take(c as int));
                assert(v0.take(c + 1).last() == v0[c as int]);
                assert(self@[j as int] == v0[c as int]);
            }
            let ghost before = self@;
            if self.interfaces[j].1.counters.updated {
                let k = self.interfaces[j].1.counters;
                let ghost mb = self.macs();
                let ghost pb = self.ips();
                self.interfaces[j].1.counters = NetCounters { updated: false, ..k };
                proof {
                    assert(self.macs() =~= mb);
                    assert(self.ips() =~= pb);
                    assert(self@ =~= before.update(j as int, (before[j as int].0, marked(k, false))));
                    assert(self@ =~= prune(v0.take(c + 1)) + v0.skip(c + 1));
                }
                j = j + 1;
            } else {
                let ghost mb = self.macs();
                let ghost pb = self.ips();
                let _gone = self.interfaces.remove(j);
                proof {
                    assert(self.macs() =~= mb.remove(j as int));
                    assert(self.ips() =~= pb.remove(j as int));
                    assert forall|k: int| 0 <= k < self@.len() implies kept_entry(
                        v0,
                        m0,
                        p0,
                        (#[trigger] self@[k]).0,
                        self.macs()[k],
                        self.ips()[k],
                    ) by {
                        if k < j {
                            assert(self@[k] == before[k]);
                        } else {
                            assert(self@[k] == before[k + 1]);
                        }
                    }
                    assert(self@ =~= before.remove(j as int));
                    assert(self@ =~= prune(v0.take(c + 1)) + v0.skip(c + 1));
                }
            }
            c = c + 1;
        }
        proof {
            assert(v0.take(v0.len() as int) =~= v0);
            assert(v0.skip(v0.len() as int) =~= Seq::<NamedCounters>::empty());
            assert(self@ =~= prune(v0));
            lemma_prune_distinct(v0);
        }
    }
}

/// `prune` keeps names distinct.
proof fn lemma_prune_distinct(v: Seq<NamedCounters>)
    requires
        names_distinct(v),
    ensures
        names_distinct(prune(v)),
        forall|k: int| 0 <= k < prune(v).len() ==> has_name(v, #[trigger] prune(v)[k].0),
    decreases v.len(),
{
    if v.len() > 0 {
        let w = v.drop_last();
        assert forall|a: int, b: int| 0 <= a < b < w.len() implies w[a].0 != w[b].0 by {
            assert(w[a] == v[a] && w[b] == v[b]);
        }
        lemma_prune_distinct(w);
        let p = prune(w);
        assert forall|k: int| 0 <= k < p.len() implies has_name(v, #[trigger] p[k].0) by {
            let m = choose|m: int| 0 <= m < w.len() && (#[trigger] w[m]).0 == p[k].0;
            assert(v[m] == w[m]);
        }
        if v.last().1.updated {
            let q = p.push((v.last().0, marked(v.last().1, false)));
            assert forall|a: int, b: int| 0 <= a < b < q.len() implies q[a].0 != q[b].0 by {
                if b == p.len() {
                    let m = choose|m: int| 0 <= m < w.len() && (#[trigger] w[m]).0 == p[a].0;
                    assert(v[m] == w[m]);
                    assert(m < v.len() - 1);
                }
            }
            assert forall|k: int| 0 <= k < q.len() implies has_name(v, #[trigger] q[k].0) by {
                if k == p.len() {
                    assert(v[v.len() - 1].0 == q[k].0);
                }
            }
        }
    }
}

/// Whether the listing `l` holds an interface named `name`.
pub open spec fn listed(l: Seq<(Seq<char>, InterfaceStats)>, name: Seq<char>) -> bool {
    exists|j: int| 0 <= j < l.len() && (#[trigger] l[j]).0 == name
}

proof fn lemma_upsert(v: Seq<NamedCounters>, name: Seq<char>, s: InterfaceStats)
    requires
        names_distinct(v),
    ensures
        names_distinct(upsert(v, name, s)),
        upsert(v, name, s).len() >= v.len(),
        forall|k: int| 0 <= k < v.len() ==> (#[trigger] upsert(v, name, s)[k]).0 == v[k].0,
        forall|k: int|
            0 <= k < upsert(v, name, s).len() ==> (#[trigger] upsert(v, name, s)[k]).1.updated == (
            upsert(v, name, s)[k].0 == name || (k < v.len() && v[k].1.updated)),
        forall|x: Seq<char>| has_name(upsert(v, name, s), x) <==> (has_name(v, x) || x == name),
{
    let u = upsert(v, name, s);
    if has_name(v, name) {
        let i = choose|i: int| 0 <= i < v.len() && (#[trigger] v[i]).0 == name;
        assert forall|k: int| 0 <= k < u.len() implies (#[trigger] u[k]).1.updated == (u[k].0 == name
            || (k < v.len() && v[k].1.updated)) by {
            if k != i {
                assert(v[k].0 != v[i].0);
            }
        }
        assert forall|x: Seq<char>| has_name(u, x) <==> (has_name(v, x) || x == name) by {
            if has_name(v, x) {
                let m = choose|m: int| 0 <= m < v.len() && (#[trigger] v[m]).0 == x;
                assert(u[m].0 == x);
            }
            if has_name(u, x) {
                let m = choose|m: int| 0 <= m < u.len() && (#[trigger] u[m]).0 == x;
                assert(v[m].0 == x);
            }
            if x == name {
                assert(u[i].0 == x);
            }
        }
    } else {
        assert forall|a: int, b: int| 0 <= a < b < u.len() implies u[a].0 != u[b].0 by {
            if b == v.len() {
                assert(v[a].0 == u[a].0);
            }
        }
        assert forall|x: Seq<char>| has_name(u, x) <==> (has_name(v, x) || x == name) by {
            if has_name(v, x) {
                let m = choose|m: int| 0 <= m < v.len() && (#[trigger] v[m]).0 == x;
                assert(u[m].0 == x);
            }
            if has_name(u, x) {
                let m = choose|m: int| 0 <= m < u.len() && (#[trigger] u[m]).0 == x;
                if m < v.len() {
                    assert(v[m].0 == x);
                }
            }
            if x == name {
                assert(u[v.len() as int].0 == x);
            }
        }
        assert forall|k: int| 0 <= k < u.len() implies (#[trigger] u[k]).1.updated == (u[k].0 == name
            || (k < v.len() && v[k].1.updated)) by {
            if k < v.len() {
                assert(v[k].0 != name);
            }
        }
    }
}

proof fn lemma_apply_listing(v: Seq<NamedCounters>, l: Seq<(Seq<char>, InterfaceStats)>)
    requires
        names_distinct(v),
    ensures
        names_distinct(apply_listing(v, l)),
        apply_listing(v, l).len() >= v.len(),
        forall|k: int| 0 <= k < v.len() ==> (#[trigger] apply_listing(v, l)[k]).0 == v[k].0,
        forall|k: int|
            0 <= k < apply_listing(v, l).len() ==> (#[trigger] apply_listing(v, l)[k]).1.updated == (
            listed(l, apply_listing(v, l)[k].0) || (k < v.len() && v[k].1.updated)),
        forall|x: Seq<char>| has_name(apply_listing(v, l), x) <==> (has_name(v, x) || listed(l, x)),
    decreases l.len(),
{
    if l.len() > 0 {
        let p = l.drop_last();
        lemma_apply_listing(v, p);
        let a = apply_listing(v, p);
        lemma_upsert(a, l.last().0, l.last().1);
        let r = apply_listing(v, l);
        assert(r == upsert(a, l.last().0, l.last().1));
        assert forall|x: Seq<char>| listed(l, x) <==> (listed(p, x) || x == l.last().0) by {
            if listed(p, x) {
                let j = choose|j: int| 0 <= j < p.len() && (#[trigger] p[j]).0 == x;
                assert(l[j] == p[j]);
            }
            if listed(l, x) {
                let j = choose|j: int| 0 <= j < l.len() && (#[trigger] l[j]).0 == x;
                if j < p.len() {
                    assert(l[j] == p[j]);
                }
            }
            if x == l.last().0 {
                assert(l[l.len() - 1].0 == x);
            }
        }
        assert forall|k: int| 0 <= k < r.len() implies (#[trigger] r[k]).1.updated == (listed(
            l,
            r[k].0,
        ) || (k < v.len() && v[k].1.updated)) by {
            if k < a.len() {
                assert(r[k].0 == a[k].0);
            }
        }
    }
}

proof fn lemma_prune_names(v: Seq<NamedCounters>)
    ensures
        forall|x: Seq<char>|
            has_name(prune(v), x) <==> exists|k: int|
                0 <= k < v.len() && (#[trigger] v[k]).0 == x && v[k].1.updated,
    decreases v.len(),
{
    if v.len() > 0 {
        let w = v.drop_last();
        lemma_prune_names(w);
        let p = prune(w);
        assert forall|x: Seq<char>|
            has_name(prune(v), x) <==> exists|k: int|
                0 <= k < v.len() && (#[trigger] v[k]).0 == x && v[k].1.updated by {
            if has_name(p, x) {
                let k = choose|k: int| 0 <= k < w.len() && (#[trigger] w[k]).0 == x && w[k].1.updated;
                assert(v[k] == w[k]);
                let m = choose|m: int| 0 <= m < p.len() && (#[trigger] p[m]).0 == x;
                if v.last().1.updated {
                    assert(prune(v)[m] == p[m]);
                }
            }
            if exists|k: int| 0 <= k < v.len() && (#[trigger] v[k]).0 == x && v[k].1.updated {
                let k = choose|k: int| 0 <= k < v.len() && (#[trigger] v[k]).0 == x && v[k].1.updated;
                if k < w.len() {
                    assert(w[k] == v[k]);
                    let m = choose|m: int| 0 <= m < p.len() && (#[trigger] p[m]).0 == x;
                    if v.last().1.updated {
                        assert(prune(v)[m] == p[m]);
                    }
                } else {
                    assert(prune(v)[p.len() as int].0 == x);
                }
            }
            if has_name(prune(v), x) {
                let m = choose|m: int| 0 <= m < prune(v).len() && (#[trigger] prune(v)[m]).0 == x;
                if m < p.len() {
                    assert(prune(v)[m] == p[m]);
                    assert(has_name(p, x));
                } else {
                    assert(v[v.len() - 1].0 == x);
                }
            }
        }
    }
}

/// After a refresh that drops the interfaces missing from the listing, the list
/// names exactly the interfaces of the listing.
pub proof fn refresh_lists_exactly_the_listed(
    v: Seq<NamedCounters>,
    l: Seq<(Seq<char>, InterfaceStats)>,
)
    requires
        names_distinct(v),
    ensures
        forall|x: Seq<char>| has_name(refreshed(v, l, true), x) <==> listed(l, x),
{
    let u = unmark_all(v);
    assert forall|a: int, b: int| 0 <= a < b < u.len() implies u[a].0 != u[b].0 by {
        assert(u[a].0 == v[a].0 && u[b].0 == v[b].0);
    }
    lemma_apply_listing(u, l);
    let a = apply_listing(u, l);
    lemma_prune_names(a);
    assert forall|x: Seq<char>| has_name(refreshed(v, l, true), x) <==> listed(l, x) by {
        if listed(l, x) {
            assert(has_name(a, x));
            let k = choose|k: int| 0 <= k < a.len() && (#[trigger] a[k]).0 == x;
            assert(a[k].1.updated);
        }
        if has_name(refreshed(v, l, true), x) {
            let k = choose|k: int| 0 <= k < a.len() && (#[trigger] a[k]).0 == x && a[k].1.updated;
            if k < u.len() {
                assert(!u[k].1.updated);
            }
        }
    }
}

/// A refresh that keeps the interfaces missing from the listing loses none: the list
/// names the interfaces it named and those of the listing.
pub proof fn refresh_without_removal_keeps_all(
    v: Seq<NamedCounters>,
    l: Seq<(Seq<char>, InterfaceStats)>,
)
    requires
        names_distinct(v),
    ensures
        forall|x: Seq<char>| has_name(refreshed(v, l, false), x) <==> (has_name(v, x) || listed(l, x)),
{
    let u = unmark_all(v);
    assert forall|a: int, b: int| 0 <= a < b < u.len() implies u[a].0 != u[b].0 by {
        assert(u[a].0 == v[a].0 && u[b].0 == v[b].0);
    }
    lemma_apply_listing(u, l);
    assert forall|x: Seq<char>| has_name(u, x) <==> has_name(v, x) by {
        if has_name(u, x) {
            let k = choose|k: int| 0 <= k < u.len() && (#[trigger] u[k]).0 == x;
            assert(v[k].0 == x);
        }
        if has_name(v, x) {
            let k = choose|k: int| 0 <= k < v.len() && (#[trigger] v[k]).0 == x;
            assert(u[k].0 == x);
        }
    }
}

// ---------------------------------------------------------------------------
// Addresses
// ---------------------------------------------------------------------------

/// An address of an interface as the system lists them (`getifaddrs`): the name
/// (with `:<n>` after it for a logical interface), and the hardware address and the
/// IP network, where the entry has them.
pub struct AddressEntry {
    pub name: String,
    pub mac: Option<MacAddr>,
    pub ip: Option<IpNetwork>,
}

/// The name of the interface that an entry named `b` (its bytes) belongs to: the
/// text before the first `:`.
pub open spec fn base_name(b: Seq<u8>) -> Seq<u8> {
    b.subrange(0, find_from(b, 0x3au8, 0))
}

/// Whether the entry `e` belongs to the interface named `n`.
pub open spec fn names(e: AddressEntry, n: Seq<char>) -> bool {
    base_name(vstd::utf8::encode_utf8(e.name@)) == vstd::utf8::encode_utf8(n)
}

/// The bytes of a hardware address.
pub open spec fn mac_bytes(m: MacAddr) -> [u8; 6] {
    let MacAddr(b) = m;
    b
}

/// The hardware address of the interface `n` after the entries `es`: the one of the
/// last entry of it that has one, else `known`.
pub open spec fn last_mac(es: Seq<AddressEntry>, n: Seq<char>, known: [u8; 6]) -> [u8; 6]
    decreases es.len(),
{
    if es.len() == 0 {
        known
    } else if names(es.last(), n) && es.last().mac is Some {
        mac_bytes(es.last().mac->0)
    } else {
        last_mac(es.drop_last(), n, known)
    }
}

/// The IP networks of the entries of `es` for the interface `n`, each once, in the
/// order they first come.
pub open spec fn networks_of(es: Seq<AddressEntry>, n: Seq<char>) -> Seq<IpNetwork>
    decreases es.len(),
{
    if es.len() == 0 {
        seq![]
    } else {
        let rest = networks_of(es.drop_last(), n);
        let e = es.last();
        if names(e, n) && e.ip is Some && !rest.contains(e.ip->0) {
            rest.push(e.ip->0)
        } else {
            rest
        }
    }
}

/// Whether two IP networks are the same.
pub fn ip_network_eq(a: &IpNetwork, b: &IpNetwork) -> (r: bool)
    ensures
        r == (*a == *b),
{
    if a.prefix != b.prefix {
        return false;
    }
    match (&a.addr, &b.addr) {
        (IpAddr::V4(x), IpAddr::V4(y)) => {
            let mut i: usize = 0;
            while i < 4
                invariant
                    i <= 4,
                    a.addr == IpAddr::V4(*x),
                    b.addr == IpAddr::V4(*y),
                    forall|k: int| 0 <= k < i ==> x.octets[k] == y.octets[k],
                decreases 4 - i,
            {
                if x.octets[i] != y.octets[i] {
                    return false;
                }
                i = i + 1;
            }
            assert(x.octets =~= y.octets);
            true
        },
        (IpAddr::V6(x), IpAddr::V6(y)) => {
            let mut i: usize = 0;
            while i < 8
                invariant
                    i <= 8,
                    a.addr == IpAddr::V6(*x),
                    b.addr == IpAddr::V6(*y),
                    forall|k: int| 0 <= k < i ==> x.segments[k] == y.segments[k],
                decreases 8 - i,
            {
                if x.segments[i] != y.segments[i] {
                    return false;
                }
                i = i + 1;
            }
            assert(x.segments =~= y.segments);
            true
        },
        _ => false,
    }
}

fn entry_names(e: &AddressEntry, n: &[u8]) -> (r: bool)
    ensures
        r == (base_name(vstd::utf8::encode_utf8(e.name@)) == n@),
{
    let b = e.name.as_str().as_bytes();
    let k = find_byte_from(b, 0x3a, 0);
    range_eq(b, 0, k, n)
}

impl NetworksInner {
    /// Takes the addresses that the system lists: each known interface gets the
    /// hardware address of its last entry that has one, and, when its entries have IP
    /// networks, those networks, each once. Other interfaces, names and counters stay.
    pub fn apply_addresses(&mut self, entries: &[AddressEntry])
        requires
            old(self).wf(),
        ensures
            final(self).wf(),
            final(self)@ == old(self)@,
            final(self).macs().len() == old(self).macs().len(),
            final(self).ips().len() == old(self).ips().len(),
            forall|k: int| 0 <= k < old(self)@.len() ==> (#[trigger] final(self).macs()[k]) == last_mac(
                entries@,
                old(self)@[k].0,
                old(self).macs()[k],
            ),
            forall|k: int| 0 <= k < old(self)@.len() ==> (#[trigger] final(self).ips()[k]) == (if networks_of(
                entries@,
                old(self)@[k].0,
            ).len() > 0 {
                networks_of(entries@, old(self)@[k].0)
            } else {
                old(self).ips()[k]
            }),
    {
        let ghost v0 = self@;
        let ghost m0 = self.macs();
        let ghost i0 = self.ips();
        let n = self.interfaces.len();
        let mut k: usize = 0;
        while k < n
            invariant
                k <= n == self.interfaces@.len() == v0.len(),
                self@ == v0,
                self.macs().len() == m0.len() == n,
                self.ips().len() == i0.len() == n,
                forall|j: int| 0 <= j < k ==> (#[trigger] self.macs()[j]) == last_mac(entries@, v0[j].0, m0[j]),
                forall|j: int| k <= j < n ==> (#[trigger] self.macs()[j]) == m0[j],
                forall|j: int| 0 <= j < k ==> (#[trigger] self.ips()[j]) == (if networks_of(entries@, v0[j].0).len() > 0 {
                    networks_of(entries@, v0[j].0)
                } else {
                    i0[j]
                }),
                forall|j: int| k <= j < n ==> (#[trigger] self.ips()[j]) == i0[j],
            decreases n - k,
        {
            let name_bytes = self.interfaces[k].0.as_str().as_bytes();
            let ghost nm = v0[k as int].0;
            assert(name_bytes@ == vstd::utf8::encode_utf8(nm));
            let mut mac = self.interfaces[k].1.mac_addr;
            let mut nets: Vec<IpNetwork> = Vec::new();
            proof {
                assert(self.macs()[k as int] == m0[k as int]);
                assert(mac.0 == self.macs()[k as int]);
                assert(entries@.take(0) =~= Seq::<AddressEntry>::empty());
            }
            let mut i: usize = 0;
            while i < entries.len()
                invariant
                    i <= entries@.len(),
                    name_bytes@ == vstd::utf8::encode_utf8(nm),
                    mac.0 == last_mac(entries@.take(i as int), nm, m0[k as int]),
                    nets@ == networks_of(entries@.take(i as int), nm),
                decreases entries@.len() - i,
            {
                proof {
                    assert(entries@.take(i + 1).drop_last() =~= entries@.take(i as int));
                    assert(entries@.take(i + 1).last() == entries@[i as int]);
                }
                let e = &entries[i];
                if entry_names(e, name_bytes) {
                    if let Some(m) = e.mac {
                        mac = m;
                    }
                    if let Some(ip) = e.ip {
                        let mut seen = false;
                        let mut j: usize = 0;
                        while j < nets.len()
                            invariant
                                j <= nets@.len(),
                                seen == (exists|q: int| 0 <= q < j && nets@[q] == ip),
                            decreases nets@.len() - j,
                        {
                            if ip_network_eq(&nets[j], &ip) {
                                seen = true;
                            }
                            j = j + 1;
                        }
                        if !seen {
                            nets.push(ip);
                        }
                    }
                }
                i = i + 1;
            }
            proof {
                assert(entries@.take(entries@.len() as int) =~= entries@);
            }
            let ghost before_m = self.macs();
            let ghost before_i = self.ips();
            let ghost nets_view = nets@;
            self.interfaces[k].1.mac_addr = mac;
            let has_nets = nets.len() > 0;
            if has_nets {
                self.interfaces[k].1.ip_networks = nets;
            }
            proof {
                assert(self@ =~= v0);
                assert(self.macs()[k as int] == mac.0);
                if nets_view.len() > 0 {
                    assert(self.ips()[k as int] == nets_view);
                } else {
                    assert(self.ips()[k as int] == before_i[k as int]);
                }
                assert forall|j: int| 0 <= j < n && j != k implies (#[trigger] self.macs()[j]) == before_m[j]
                    && self.ips()[j] == before_i[j] by {}
                assert(before_i[k as int] == i0[k as int]);
                assert(nets_view == networks_of(entries@, v0[k as int].0));
                assert(self.ips()[k as int] == (if networks_of(entries@, v0[k as int].0).len() > 0 {
                    networks_of(entries@, v0[k as int].0)
                } else {
                    i0[k as int]
                }));
                assert forall|j: int| 0 <= j < k implies (#[trigger] self.ips()[j]) == (if networks_of(entries@, v0[j].0).len() > 0 {
                    networks_of(entries@, v0[j].0)
                } else {
                    i0[j]
                }) by {
                    assert(self.ips()[j] == before_i[j]);
                }
                assert forall|j: int| k < j < n implies (#[trigger] self.ips()[j]) == i0[j] by {
                    assert(self.ips()[j] == before_i[j]);
                    assert(before_i[j] == i0[j]);
                }
            }
            k = k + 1;
        }
    }
}


/// A refresh that reads `s` keeps, as each counter's previous value, that same counter
/// as it stood before the refresh, and takes each counter's new value from `s`.
pub proof fn refresh_rolls_each_counter(c: NetCounters, s: InterfaceStats)
    ensures
        ({
            let r = rolled_counters(c, s);
            &&& r.rx_bytes == s.rx_bytes && r.old_rx_bytes == c.rx_bytes
            &&& r.tx_bytes == s.tx_bytes && r.old_tx_bytes == c.tx_bytes
            &&& r.rx_packets == s.rx_packets && r.old_rx_packets == c.rx_packets
            &&& r.tx_packets == s.tx_packets && r.old_tx_packets == c.tx_packets
            &&& r.rx_errors == s.rx_errors && r.old_rx_errors == c.rx_errors
            &&& r.tx_errors == s.tx_errors && r.old_tx_errors == c.tx_errors
            &&& r.mtu == s.mtu && r.operational_state == s.operational_state && r.updated
        }),
{
}

/// After two refreshes that read `s1` then `s2`, each figure since the last refresh
/// (what `received`, `transmitted`, `packets_received`, `packets_transmitted`,
/// `errors_on_received` and `errors_on_transmitted` give) is the growth of that same
/// counter from `s1` to `s2`, 0 when it went down, whatever the counters held before.
pub proof fn figures_are_growths_between_readings(c: NetCounters, s1: InterfaceStats, s2: InterfaceStats)
    ensures
        ({
            let r = rolled_counters(rolled_counters(c, s1), s2);
            &&& r.rx_bytes.saturating_sub(r.old_rx_bytes) == s2.rx_bytes.saturating_sub(s1.rx_bytes)
            &&& r.tx_bytes.saturating_sub(r.old_tx_bytes) == s2.tx_bytes.saturating_sub(s1.tx_bytes)
            &&& r.rx_packets.saturating_sub(r.old_rx_packets) == s2.rx_packets.saturating_sub(s1.rx_packets)
            &&& r.tx_packets.saturating_sub(r.old_tx_packets) == s2.tx_packets.saturating_sub(s1.tx_packets)
            &&& r.rx_errors.saturating_sub(r.old_rx_errors) == s2.rx_errors.saturating_sub(s1.rx_errors)
            &&& r.tx_errors.saturating_sub(r.old_tx_errors) == s2.tx_errors.saturating_sub(s1.tx_errors)
        }),
{
    refresh_rolls_each_counter(c, s1);
    refresh_rolls_each_counter(rolled_counters(c, s1), s2);
}


/// An interface seen for the first time holds the counters read, each figure since
/// the last refresh being 0; a refresh after it gives the growth since that reading.
pub proof fn first_reading_has_no_growth(s1: InterfaceStats, s2: InterfaceStats)
    ensures
        ({
            let c = fresh_counters(s1);
            &&& c.rx_bytes == s1.rx_bytes && c.old_rx_bytes == s1.rx_bytes
            &&& c.tx_bytes == s1.tx_bytes && c.old_tx_bytes == s1.tx_bytes
            &&& c.rx_packets == s1.rx_packets && c.old_rx_packets == s1.rx_packets
            &&& c.tx_packets == s1.tx_packets && c.old_tx_packets == s1.tx_packets
            &&& c.rx_errors == s1.rx_errors && c.old_rx_errors == s1.rx_errors
            &&& c.tx_errors == s1.tx_errors && c.old_tx_errors == s1.tx_errors
            &&& c.mtu == s1.mtu && c.operational_state == s1.operational_state && c.updated
        }),
        ({
            let r = rolled_counters(fresh_counters(s1), s2);
            &&& r.rx_bytes.saturating_sub(r.old_rx_bytes) == s2.rx_bytes.saturating_sub(s1.rx_bytes)
            &&& r.tx_bytes.saturating_sub(r.old_tx_bytes) == s2.tx_bytes.saturating_sub(s1.tx_bytes)
            &&& r.rx_packets.saturating_sub(r.old_rx_packets) == s2.rx_packets.saturating_sub(s1.rx_packets)
            &&& r.tx_packets.saturating_sub(r.old_tx_packets) == s2.tx_packets.saturating_sub(s1.tx_packets)
            &&& r.rx_errors.saturating_sub(r.old_rx_errors) == s2.rx_errors.saturating_sub(s1.rx_errors)
            &&& r.tx_errors.saturating_sub(r.old_tx_errors) == s2.tx_errors.saturating_sub(s1.tx_errors)
        }),
{
    refresh_rolls_each_counter(fresh_counters(s1), s2);
}

} // verus!
