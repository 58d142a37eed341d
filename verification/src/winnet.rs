//! The network interfaces of Windows: which rows of the interface table are hardware
//! interfaces, and how the list of interfaces follows the table.
use vstd::prelude::*;
use crate::network::MacAddr;

verus! {

/// The traffic counters of an interface table row.
#[derive(Clone, Copy, Debug, PartialEq, Eq, Structural)]
pub struct IfCounters {
    pub in_octets: u64,
    pub out_octets: u64,
    pub in_ucast_pkts: u64,
    pub in_nucast_pkts: u64,
    pub out_ucast_pkts: u64,
    pub out_nucast_pkts: u64,
    pub in_errors: u64,
    pub out_errors: u64,
}

/// A row of the interface table (`MIB_IF_ROW2`), as plain values: link speeds,
/// whether the medium is disconnected, the length of the physical address, the
/// interface GUID (its second and third parts and its eight last bytes), the alias
/// (UTF-16, NUL-terminated), the LUID and the counters.
#[derive(Clone, Debug)]
pub struct IfRow {
    pub transmit_link_speed: u64,
    pub receive_link_speed: u64,
    pub disconnected: bool,
    pub physical_address_length: u32,
    pub guid: Vec<u16>,
    pub alias: Vec<u16>,
    pub luid: u64,
    pub counters: IfCounters,
}

/// Whether a row can be a hardware interface: it has a link speed, its medium is
/// connected and it has a physical address.
pub open spec fn row_passes(r: IfRow) -> bool {
    !(r.transmit_link_speed == 0 && r.receive_link_speed == 0) && !r.disconnected
        && r.physical_address_length != 0
}

/// How many of the rows `rows[..n]` pass and have the GUID `g`.
pub open spec fn guid_count(rows: Seq<IfRow>, n: int, g: Seq<u16>) -> nat
    decreases n,
{
    if n <= 0 || n > rows.len() {
        0
    } else {
        guid_count(rows, n - 1, g) + if row_passes(rows[n - 1]) && rows[n - 1].guid@ == g {
            1nat
        } else {
            0nat
        }
    }
}

/// Whether row `i` is a hardware interface: it passes, and no other passing row
/// shares its GUID (software interfaces come in groups on one GUID).
pub open spec fn is_hardware_row(rows: Seq<IfRow>, i: int) -> bool {
    row_passes(rows[i]) && guid_count(rows, rows.len() as int, rows[i].guid@) == 1
}

/// The indices of the hardware rows among `rows[..n]`, in order.
pub open spec fn hardware_rows_upto(rows: Seq<IfRow>, n: int) -> Seq<int>
    decreases n,
{
    if n <= 0 || n > rows.len() {
        seq![]
    } else if is_hardware_row(rows, n - 1) {
        hardware_rows_upto(rows, n - 1).push(n - 1)
    } else {
        hardware_rows_upto(rows, n - 1)
    }
}

fn u16_eq(a: &[u16], b: &[u16]) -> (r: bool)
    ensures
        r == (a@ == b@),
{
    if a.len() != b.len() {
        return false;
    }
    let mut i: usize = 0;
    while i < a.len()
        invariant
            i <= a@.len() == b@.len(),
            forall|k: int| 0 <= k < i ==> a@[k] == b@[k],
        decreases a@.len() - i,
    {
        if a[i] != b[i] {
            return false;
        }
        i = i + 1;
    }
    assert(a@ =~= b@);
    true
}

fn passes(r: &IfRow) -> (b: bool)
    ensures
        b == row_passes(*r),
{
    !(r.transmit_link_speed == 0 && r.receive_link_speed == 0) && !r.disconnected
        && r.physical_address_length != 0
}

/// The indices of the rows of the interface table that are hardware interfaces.
pub fn hardware_rows(rows: &[IfRow]) -> (r: Vec<usize>)
    ensures
        r@.map_values(|i: usize| i as int) == hardware_rows_upto(rows@, rows@.len() as int),
        forall|m: int| 0 <= m < r@.len() ==> r@[m] < rows@.len(),
{
    let n = rows.len();
    let mut out: Vec<usize> = Vec::new();
    let mut i: usize = 0;
    while i < n
        invariant
            i <= n == rows@.len(),
            out@.map_values(|x: usize| x as int) == hardware_rows_upto(rows@, i as int),
            forall|m: int| 0 <= m < out@.len() ==> out@[m] < i,
        decreases n - i,
    {
        let ghost before = out@.map_values(|x: usize| x as int);
        if passes(&rows[i]) {
            let g = rows[i].guid.as_slice();
            let mut count: usize = 0;
            let mut j: usize = 0;
            while j < n
                invariant
                    j <= n == rows@.len(),
                    g@ == rows@[i as int].guid@,
                    count == guid_count(rows@, j as int, g@),
                    count <= j,
                decreases n - j,
            {
                if passes(&rows[j]) && u16_eq(rows[j].guid.as_slice(), g) {
                    count = count + 1;
                }
                j = j + 1;
            }
            if count == 1 {
                out.push(i);
                proof {
                    assert(out@.map_values(|x: usize| x as int) =~= before.push(i as int));
                }
            }
        }
        i = i + 1;
    }
    out
}

// ---------------------------------------------------------------------------
// Interface names
// ---------------------------------------------------------------------------

/// The characters that the UTF-16 code units `u` encode, or `None` when they are not
/// well-formed UTF-16 (a lone or misplaced surrogate).
pub open spec fn utf16_decode(u: Seq<u16>) -> Option<Seq<char>>
    decreases u.len(),
{
    if u.len() == 0 {
        Some(seq![])
    } else if u[0] < 0xd800 || u[0] > 0xdfff {
        match utf16_decode(u.drop_first()) {
            Some(r) => Some(seq![u[0] as char] + r),
            None => None,
        }
    } else if u[0] <= 0xdbff && u.len() >= 2 && 0xdc00 <= u[1] <= 0xdfff {
        let c = 0x10000 + (u[0] - 0xd800) * 0x400 + (u[1] - 0xdc00);
        match utf16_decode(u.subrange(2, u.len() as int)) {
            Some(r) => Some(seq![c as char] + r),
            None => None,
        }
    } else {
        None
    }
}

/// The characters of an optional string.
pub open spec fn opt_chars(s: Option<String>) -> Option<Seq<char>> {
    match s {
        Some(x) => Some(x@),
        None => None,
    }
}

/// `String::from_utf16`: the string that the code units encode, `None` when they
/// are not well-formed UTF-16.
#[verifier::external_body]
fn string_from_utf16(units: &[u16]) -> (r: Option<String>)
    ensures
        opt_chars(r) == utf16_decode(units@),
{
    String::from_utf16(units).ok()
}

/// The index of the first NUL of `u`, or its length.
pub open spec fn nul_from(u: Seq<u16>, i: int) -> int
    decreases u.len() - i,
{
    if i < 0 || i >= u.len() {
        u.len() as int
    } else if u[i] == 0 {
        i
    } else {
        nul_from(u, i + 1)
    }
}

proof fn lemma_nul_from(u: Seq<u16>, i: int)
    requires
        0 <= i <= u.len(),
    ensures
        i <= nul_from(u, i) <= u.len(),
    decreases u.len() - i,
{
    if i < u.len() && u[i] != 0 {
        lemma_nul_from(u, i + 1);
    }
}

/// The name of a row: its alias up to the first NUL, decoded.
pub open spec fn row_name(r: IfRow) -> Option<Seq<char>> {
    utf16_decode(r.alias@.subrange(0, nul_from(r.alias@, 0)))
}

/// The name of a row of the interface table, `None` when its alias is not UTF-16.
pub fn interface_name(r: &IfRow) -> (n: Option<String>)
    ensures
        opt_chars(n) == row_name(*r),
{
    let a = r.alias.as_slice();
    let mut pos: usize = 0;
    while pos < a.len() && a[pos] != 0
        invariant
            pos <= a@.len(),
            nul_from(a@, pos as int) == nul_from(a@, 0),
        decreases a@.len() - pos,
    {
        pos = pos + 1;
    }
    let mut units: Vec<u16> = Vec::new();
    let mut k: usize = 0;
    while k < pos
        invariant
            k <= pos <= a@.len(),
            units@ == a@.subrange(0, k as int),
        decreases pos - k,
    {
        units.push(a[k]);
        k = k + 1;
        proof {
            assert(units@ =~= a@.subrange(0, k as int));
        }
    }
    string_from_utf16(units.as_slice())
}

// ---------------------------------------------------------------------------
// The list of interfaces
// ---------------------------------------------------------------------------

/// The counters of an interface as of the last refresh and the one before, its
/// LUID, and whether the last listing saw it.
#[derive(Clone, Copy, Debug, PartialEq, Eq, Structural)]
pub struct WinCounters {
    pub id: u64,
    pub current_out: u64,
    pub old_out: u64,
    pub current_in: u64,
    pub old_in: u64,
    pub packets_in: u64,
    pub old_packets_in: u64,
    pub packets_out: u64,
    pub old_packets_out: u64,
    pub errors_in: u64,
    pub old_errors_in: u64,
    pub errors_out: u64,
    pub old_errors_out: u64,
    pub updated: bool,
}

/// `a + b`, or `u64::MAX` when that overflows.
pub open spec fn sat_add(a: u64, b: u64) -> u64 {
    if a + b > u64::MAX {
        u64::MAX
    } else {
        (a + b) as u64
    }
}

/// The counters of an interface seen for the first time.
pub open spec fn fresh_win(id: u64, c: IfCounters) -> WinCounters {
    WinCounters {
        id,
        current_out: c.out_octets,
        old_out: c.out_octets,
        current_in: c.in_octets,
        old_in: c.in_octets,
        packets_in: sat_add(c.in_ucast_pkts, c.in_nucast_pkts),
        old_packets_in: sat_add(c.in_ucast_pkts, c.in_nucast_pkts),
        packets_out: sat_add(c.out_ucast_pkts, c.out_nucast_pkts),
        old_packets_out: sat_add(c.out_ucast_pkts, c.out_nucast_pkts),
        errors_in: c.in_errors,
        old_errors_in: c.in_errors,
        errors_out: c.out_errors,
        old_errors_out: c.out_errors,
        updated: true,
    }
}

/// The counters after a reading `c`: the current values become the previous ones.
pub open spec fn rolled_win(w: WinCounters, c: IfCounters) -> WinCounters {
    WinCounters {
        current_out: c.out_octets,
        old_out: w.current_out,
        current_in: c.in_octets,
        old_in: w.current_in,
        packets_in: sat_add(c.in_ucast_pkts, c.in_nucast_pkts),
        old_packets_in: w.packets_in,
        packets_out: sat_add(c.out_ucast_pkts, c.out_nucast_pkts),
        old_packets_out: w.packets_out,
        errors_in: c.in_errors,
        old_errors_in: w.errors_in,
        errors_out: c.out_errors,
        old_errors_out: w.errors_out,
        ..w
    }
}

impl WinCounters {
    fn fresh(id: u64, c: IfCounters) -> (r: WinCounters)
        ensures
            r == fresh_win(id, c),
    {
        let pin = c.in_ucast_pkts.saturating_add(c.in_nucast_pkts);
        let pout = c.out_ucast_pkts.saturating_add(c.out_nucast_pkts);
        WinCounters {
            id,
            current_out: c.out_octets,
            old_out: c.out_octets,
            current_in: c.in_octets,
            old_in: c.in_octets,
            packets_in: pin,
            old_packets_in: pin,
            packets_out: pout,
            old_packets_out: pout,
            errors_in: c.in_errors,
            old_errors_in: c.in_errors,
            errors_out: c.out_errors,
            old_errors_out: c.out_errors,
            updated: true,
        }
    }

    fn rolled(&self, c: IfCounters) -> (r: WinCounters)
        ensures
            r == rolled_win(*self, c),
    {
        WinCounters {
            current_out: c.out_octets,
            old_out: self.current_out,
            current_in: c.in_octets,
            old_in: self.current_in,
            packets_in: c.in_ucast_pkts.saturating_add(c.in_nucast_pkts),
            old_packets_in: self.packets_in,
            packets_out: c.out_ucast_pkts.saturating_add(c.out_nucast_pkts),
            old_packets_out: self.packets_out,
            errors_in: c.in_errors,
            old_errors_in: self.errors_in,
            errors_out: c.out_errors,
            old_errors_out: self.errors_out,
            ..*self
        }
    }
}

/// An interface: its counters and MAC address.
pub struct NetworkData {
    pub counters: WinCounters,
    pub mac_addr: MacAddr,
}

impl NetworkData {
    /// Bytes received since the refresh before the last (0 when the counter went down).
    pub fn received(&self) -> (r: u64)
        ensures
            r == self.counters.current_in.saturating_sub(self.counters.old_in),
    {
        self.counters.current_in.saturating_sub(self.counters.old_in)
    }

    /// Bytes received in all.
    pub fn total_received(&self) -> (r: u64)
        ensures
            r == self.counters.current_in,
    {
        self.counters.current_in
    }

    /// Bytes sent since the refresh before the last.
    pub fn transmitted(&self) -> (r: u64)
        ensures
            r == self.counters.current_out.saturating_sub(self.counters.old_out),
    {
        self.counters.current_out.saturating_sub(self.counters.old_out)
    }

    /// Bytes sent in all.
    pub fn total_transmitted(&self) -> (r: u64)
        ensures
            r == self.counters.current_out,
    {
        self.counters.current_out
    }

    /// Packets received since the refresh before the last.
    pub fn packets_received(&self) -> (r: u64)
        ensures
            r == self.counters.packets_in.saturating_sub(self.counters.old_packets_in),
    {
        self.counters.packets_in.saturating_sub(self.counters.old_packets_in)
    }

    /// Packets received in all.
    pub fn total_packets_received(&self) -> (r: u64)
        ensures
            r == self.counters.packets_in,
    {
        self.counters.packets_in
    }

    /// Packets sent since the refresh before the last.
    pub fn packets_transmitted(&self) -> (r: u64)
        ensures
            r == self.counters.packets_out.saturating_sub(self.counters.old_packets_out),
    {
        self.counters.packets_out.saturating_sub(self.counters.old_packets_out)
    }

    /// Packets sent in all.
    pub fn total_packets_transmitted(&self) -> (r: u64)
        ensures
            r == self.counters.packets_out,
    {
        self.counters.packets_out
    }

    /// Receive errors since the refresh before the last.
    pub fn errors_on_received(&self) -> (r: u64)
        ensures
            r == self.counters.errors_in.saturating_sub(self.counters.old_errors_in),
    {
        self.counters.errors_in.saturating_sub(self.counters.old_errors_in)
    }

    /// Receive errors in all.
    pub fn total_errors_on_received(&self) -> (r: u64)
        ensures
            r == self.counters.errors_in,
    {
        self.counters.errors_in
    }

    /// Send errors since the refresh before the last.
    pub fn errors_on_transmitted(&self) -> (r: u64)
        ensures
            r == self.counters.errors_out.saturating_sub(self.counters.old_errors_out),
    {
        self.counters.errors_out.saturating_sub(self.counters.old_errors_out)
    }

    /// Send errors in all.
    pub fn total_errors_on_transmitted(&self) -> (r: u64)
        ensures
            r == self.counters.errors_out,
    {
        self.counters.errors_out
    }

    /// The MAC address.
    pub fn mac_address(&self) -> (r: MacAddr)
        ensures
            r.0@ == self.mac_addr.0@,
    {
        self.mac_addr
    }
}

/// An interface of the list as its name and counters.
pub type NamedWin = (Seq<char>, WinCounters);

/// Whether `v` lists an interface named `name`.
pub open spec fn has_name(v: Seq<NamedWin>, name: Seq<char>) -> bool {
    exists|i: int| 0 <= i < v.len() && (#[trigger] v[i]).0 == name
}

/// Whether no two interfaces of `v` share a name.
pub open spec fn names_distinct(v: Seq<NamedWin>) -> bool {
    forall|a: int, b: int| 0 <= a < b < v.len() ==> v[a].0 != v[b].0
}

/// The list after the hardware row `r` named `name` is seen: a known interface has
/// its counters rolled and is marked, a new one is added.
pub open spec fn upsert_row(v: Seq<NamedWin>, name: Seq<char>, r: IfRow) -> Seq<NamedWin> {
    if has_name(v, name) {
        let i = choose|i: int| 0 <= i < v.len() && (#[trigger] v[i]).0 == name;
        v.update(i, (name, WinCounters { updated: true, ..rolled_win(v[i].1, r.counters) }))
    } else {
        v.push((name, fresh_win(r.luid, r.counters)))
    }
}

/// The list after the rows `rows[sel[..n]]` are seen in turn; rows whose alias is not
/// UTF-16 are skipped.
pub open spec fn apply_rows(v: Seq<NamedWin>, rows: Seq<IfRow>, sel: Seq<int>, n: int) -> Seq<NamedWin>
    decreases n,
{
    if n <= 0 || n > sel.len() {
        v
    } else {
        let a = apply_rows(v, rows, sel, n - 1);
        let r = rows[sel[n - 1]];
        match row_name(r) {
            Some(name) => upsert_row(a, name, r),
            None => a,
        }
    }
}

/// The marked interfaces of `v`, in order.
pub open spec fn keep_marked(v: Seq<NamedWin>) -> Seq<NamedWin>
    decreases v.len(),
{
    if v.len() == 0 {
        seq![]
    } else if v.last().1.updated {
        keep_marked(v.drop_last()).push(v.last())
    } else {
        keep_marked(v.drop_last())
    }
}

/// The list after a listing of the interface table `rows`: marks cleared, the
/// hardware rows applied, the interfaces they did not name dropped.
pub open spec fn listed_from_rows(v: Seq<NamedWin>, rows: Seq<IfRow>) -> Seq<NamedWin> {
    let sel = hardware_rows_upto(rows, rows.len() as int);
    let u = v.map_values(|e: NamedWin| (e.0, WinCounters { updated: false, ..e.1 }));
    keep_marked(apply_rows(u, rows, sel, sel.len() as int))
}

/// Whether the list `v` with addresses `m` has an interface named `name` holding
/// the address `mac`.
pub open spec fn kept_mac(v: Seq<NamedWin>, m: Seq<[u8; 6]>, name: Seq<char>, mac: [u8; 6]) -> bool {
    exists|j: int| 0 <= j < v.len() && (#[trigger] v[j]).0 == name && m[j] == mac
}

/// Whether an interface named `name` holding `mac` took it from the list `v` with
/// addresses `m`: the interface of that name there holds it, or, when the list has
/// none of that name, it is the unspecified address.
pub open spec fn mac_from(v: Seq<NamedWin>, m: Seq<[u8; 6]>, name: Seq<char>, mac: [u8; 6]) -> bool {
    if has_name(v, name) {
        kept_mac(v, m, name, mac)
    } else {
        mac@ == seq![0u8, 0u8, 0u8, 0u8, 0u8, 0u8]
    }
}

/// The network interfaces of the machine, by name.
pub struct Networks {
    interfaces: Vec<(String, NetworkData)>,
}

impl View for Networks {
    type V = Seq<NamedWin>;

    closed spec fn view(&self) -> Seq<NamedWin> {
        self.interfaces@.map_values(|e: (String, NetworkData)| (e.0@, e.1.counters))
    }
}

impl Networks {
    /// The invariant: no two interfaces share a name.
    pub open spec fn wf(&self) -> bool {
        names_distinct(self@)
    }

    /// The MAC addresses of the interfaces, in the order of the list.
    pub closed spec fn macs(&self) -> Seq<[u8; 6]> {
        self.interfaces@.map_values(|e: (String, NetworkData)| e.1.mac_addr.0)
    }

    /// No interface yet.
    pub fn new() -> (r: Networks)
        ensures
            r@ == Seq::<NamedWin>::empty(),
            r.wf(),
    {
        let r = Networks { interfaces: Vec::new() };
        assert(r@ =~= Seq::<NamedWin>::empty());
        r
    }

    /// The number of interfaces.
    pub fn len(&self) -> (r: usize)
        ensures
            r == self@.len(),
    {
        self.interfaces.len()
    }

    /// The interface at `i` in the list.
    pub fn get_index(&self, i: usize) -> (r: (&String, &NetworkData))
        requires
            i < self@.len(),
        ensures
            r.0@ == self@[i as int].0,
            r.1.counters == self@[i as int].1,
            r.1.mac_addr.0 == self.macs()[i as int],
    {
        let e = &self.interfaces[i];
        (&e.0, &e.1)
    }

    fn position(&self, name: &String) -> (r: Option<usize>)
        ensures
            r matches Some(i) ==> i < self@.len() && self@[i as int].0 == name@,
            r is None ==> !has_name(self@, name@),
    {
        let mut j: usize = 0;
        while j < self.interfaces.len()
            invariant
                j <= self@.len(),
                self@.len() == self.interfaces@.len(),
                forall|k: int| 0 <= k < j ==> (#[trigger] self@[k]).0 != name@,
            decreases self@.len() - j,
        {
            assert(self@[j as int].0 == self.interfaces@[j as int].0@);
            if self.interfaces[j].0 == *name {
                return Some(j);
            }
            j = j + 1;
        }
        None
    }

    fn upsert_row(&mut self, name: String, r: &IfRow)
        requires
            old(self).wf(),
        ensures
            final(self).wf(),
            final(self)@ == upsert_row(old(self)@, name@, *r),
            has_name(old(self)@, name@) ==> final(self).macs() == old(self).macs(),
            !has_name(old(self)@, name@) ==> final(self).macs() == old(self).macs().push(
                [0u8, 0u8, 0u8, 0u8, 0u8, 0u8],
            ),
    {
        let ghost v = self@;
        let ghost m0 = self.macs();
        match self.position(&name) {
            Some(j) => {
                let c = self.interfaces[j].1.counters.rolled(r.counters);
                self.interfaces[j].1.counters = WinCounters { updated: true, ..c };
                proof {
                    assert(self.macs() =~= m0);
                    let i = choose|i: int| 0 <= i < v.len() && (#[trigger] v[i]).0 == name@;
                    assert(i == j);
                    assert(self@ =~= v.update(
                        j as int,
                        (name@, WinCounters { updated: true, ..rolled_win(v[j as int].1, r.counters) }),
                    ));
                }
            },
            None => {
                let data = NetworkData {
                    counters: WinCounters::fresh(r.luid, r.counters),
                    mac_addr: MacAddr::unspecified(),
                };
                let ghost z = data.mac_addr.0;
                self.interfaces.push((name, data));
                proof {
                    assert(z =~= [0u8, 0u8, 0u8, 0u8, 0u8, 0u8]);
                    assert(self.macs() =~= m0.push([0u8, 0u8, 0u8, 0u8, 0u8, 0u8]));
                    assert(self@ =~= v.push((name@, fresh_win(r.luid, r.counters))));
                    assert forall|a: int, b: int| 0 <= a < b < self@.len() implies self@[a].0
                        != self@[b].0 by {
                        if b == v.len() {
                            assert(self@[a] == v[a]);
                        }
                    }
                }
            },
        }
    }

    /// Follows a fresh reading of the interface table: the hardware interfaces are
    /// updated or added, the others dropped.
    pub fn refresh_networks_list(&mut self, rows: &[IfRow])
        requires
            old(self).wf(),
        ensures
            final(self).wf(),
            final(self)@ == listed_from_rows(old(self)@, rows@),
            final(self).macs().len() == final(self)@.len(),
            forall|k: int| 0 <= k < final(self)@.len() ==> mac_from(
                old(self)@,
                old(self).macs(),
                (#[trigger] final(self)@[k]).0,
                final(self).macs()[k],
            ),
    {
        let ghost v0 = self@;
        let ghost m0 = self.macs();
        let ghost u = v0.map_values(|e: NamedWin| (e.0, WinCounters { updated: false, ..e.1 }));
        let mut j: usize = 0;
        while j < self.interfaces.len()
            invariant
                j <= self.interfaces@.len() == v0.len(),
                self@.len() == v0.len(),
                u == v0.map_values(|e: NamedWin| (e.0, WinCounters { updated: false, ..e.1 })),
                forall|k: int| 0 <= k < j ==> #[trigger] self@[k] == u[k],
                forall|k: int| j <= k < v0.len() ==> #[trigger] self@[k] == v0[k],
                self.macs() == m0,
            decreases v0.len() - j,
        {
            let ghost before = self@;
            let c = self.interfaces[j].1.counters;
            self.interfaces[j].1.counters = WinCounters { updated: false, ..c };
            proof {
                assert(self@ =~= before.update(j as int, (before[j as int].0, WinCounters { updated: false, ..c })));
                assert(self.macs() =~= m0);
            }
            j = j + 1;
        }
        proof {
            assert(self@ =~= u);
            assert forall|a: int, b: int| 0 <= a < b < self@.len() implies self@[a].0 != self@[b].0 by {
                assert(self@[a].0 == v0[a].0 && self@[b].0 == v0[b].0);
            }
            assert forall|k: int| 0 <= k < self@.len() implies mac_from(
                v0,
                m0,
                (#[trigger] self@[k]).0,
                self.macs()[k],
            ) by {
                assert(v0[k].0 == self@[k].0);
                assert(has_name(v0, self@[k].0));
            }
            assert forall|q: int| 0 <= q < v0.len() implies has_name(self@, (#[trigger] v0[q]).0) by {
                assert(self@[q].0 == v0[q].0);
            }
        }
        let sel = hardware_rows(rows);
        let ghost sv = sel@.map_values(|i: usize| i as int);
        let mut k: usize = 0;
        while k < sel.len()
            invariant
                k <= sel@.len(),
                sv == sel@.map_values(|i: usize| i as int),
                sv == hardware_rows_upto(rows@, rows@.len() as int),
                forall|m: int| 0 <= m < sel@.len() ==> sel@[m] < rows@.len(),
                self.wf(),
                self@ == apply_rows(u, rows@, sv, k as int),
                self.macs().len() == self@.len(),
                m0.len() == v0.len(),
                forall|q: int| 0 <= q < self@.len() ==> mac_from(
                    v0,
                    m0,
                    (#[trigger] self@[q]).0,
                    self.macs()[q],
                ),
                forall|q: int| 0 <= q < v0.len() ==> has_name(self@, (#[trigger] v0[q]).0),
            decreases sel@.len() - k,
        {
            let i = sel[k];
            assert(sv[k as int] == i as int);
            match interface_name(&rows[i]) {
                Some(name) => {
                    let ghost b = self@;
                    let ghost mb = self.macs();
                    let ghost known = has_name(b, name@);
                    let ghost nm = name@;
                    self.upsert_row(name, &rows[i]);
                    proof {
                        if known {
                            let w = choose|w: int| 0 <= w < b.len() && (#[trigger] b[w]).0 == nm;
                            assert(self@ == b.update(
                                w,
                                (nm, WinCounters { updated: true, ..rolled_win(b[w].1, rows@[i as int].counters) }),
                            ));
                            assert forall|q: int| 0 <= q < v0.len() implies has_name(self@, (#[trigger] v0[q]).0) by {
                                let t = choose|t: int| 0 <= t < b.len() && (#[trigger] b[t]).0 == v0[q].0;
                                assert(self@[t].0 == b[t].0);
                            }
                            assert forall|q: int| 0 <= q < self@.len() implies mac_from(
                                v0,
                                m0,
                                (#[trigger] self@[q]).0,
                                self.macs()[q],
                            ) by {
                                assert(self@[q].0 == b[q].0);
                            }
                        } else {
                            assert(self@ == b.push((nm, fresh_win(rows@[i as int].luid, rows@[i as int].counters))));
                            assert(!has_name(v0, nm)) by {
                                if has_name(v0, nm) {
                                    let q = choose|q: int| 0 <= q < v0.len() && (#[trigger] v0[q]).0 == nm;
                                    assert(has_name(b, v0[q].0));
                                }
                            }
                            assert forall|q: int| 0 <= q < v0.len() implies has_name(self@, (#[trigger] v0[q]).0) by {
                                let t = choose|t: int| 0 <= t < b.len() && (#[trigger] b[t]).0 == v0[q].0;
                                assert(self@[t].0 == b[t].0);
                            }
                            assert forall|q: int| 0 <= q < self@.len() implies mac_from(
                                v0,
                                m0,
                                (#[trigger] self@[q]).0,
                                self.macs()[q],
                            ) by {
                                if q < b.len() {
                                    assert(self@[q] == b[q]);
                                    assert(self.macs()[q] == mb[q]);
                                } else {
                                    assert(self@[q].0 == nm);
                                    assert(self.macs()[q]@ =~= seq![0u8, 0u8, 0u8, 0u8, 0u8, 0u8]);
                                }
                            }
                        }
                    }
                },
                None => {},
            }
            k = k + 1;
        }
        let ghost b = self@;
        let ghost mb = self.macs();
        self.retain_marked();
        proof {
            assert forall|q: int| 0 <= q < self@.len() implies mac_from(
                v0,
                m0,
                (#[trigger] self@[q]).0,
                self.macs()[q],
            ) by {
                assert(kept_mac(b, mb, self@[q].0, self.macs()[q]));
                let t = choose|t: int| 0 <= t < b.len() && (#[trigger] b[t]).0 == self@[q].0 && mb[t]
                    == self.macs()[q];
                assert(mac_from(v0, m0, b[t].0, mb[t]));
            }
        }
    }

    fn retain_marked(&mut self)
        requires
            old(self).wf(),
        ensures
            final(self).wf(),
            final(self)@ == keep_marked(old(self)@),
            final(self).macs().len() == final(self)@.len(),
            forall|k: int| 0 <= k < final(self)@.len() ==> kept_mac(
                old(self)@,
                old(self).macs(),
                (#[trigger] final(self)@[k]).0,
                final(self).macs()[k],
            ),
    {
        let ghost v0 = self@;
        let ghost m0 = self.macs();
        proof {
            assert forall|k: int| 0 <= k < self@.len() implies kept_mac(
                v0,
                m0,
                (#[trigger] self@[k]).0,
                self.macs()[k],
            ) by {
                assert(v0[k].0 == self@[k].0);
            }
        }
        let n = self.interfaces.len();
        let mut c: usize = 0;
        let mut j: usize = 0;
        while c < n
            invariant
                n == v0.len(),
                j <= c <= v0.len(),
                self@ == keep_marked(v0.take(c as int)) + v0.skip(c as int),
                j == keep_marked(v0.take(c as int)).len(),
                self@.len() == self.interfaces@.len(),
                self.macs().len() == self@.len(),
                m0.len() == v0.len(),
                forall|k: int| 0 <= k < self@.len() ==> kept_mac(
                    v0,
                    m0,
                    (#[trigger] self@[k]).0,
                    self.macs()[k],
                ),
            decreases v0.len() - c,
        {
            proof {
                assert(v0.take(c + 1).drop_last() =~= v0.take(c as int));
                assert(v0.take(c + 1).last() == v0[c as int]);
                assert(self@[j as int] == v0[c as int]);
            }
            let ghost before = self@;
            if self.interfaces[j].1.counters.updated {
                proof {
                    assert(self@ =~= keep_marked(v0.take(c + 1)) + v0.skip(c + 1));
                }
                j = j + 1;
            } else {
                let ghost mb = self.macs();
                let _gone = self.interfaces.remove(j);
                proof {
                    assert(self.macs() =~= mb.remove(j as int));
                    assert forall|k: int| 0 <= k < self@.len() implies kept_mac(
                        v0,
                        m0,
                        (#[trigger] self@[k]).0,
                        self.macs()[k],
                    ) by {
                        if k < j {
                            assert(self@[k] == before[k]);
                        } else {
                            assert(self@[k] == before[k + 1]);
                        }
                    }
                    assert(self@ =~= before.remove(j as int));
                    assert(self@ =~= keep_marked(v0.take(c + 1)) + v0.skip(c + 1));
                }
            }
            c = c + 1;
        }
        proof {
            assert(v0.take(v0.len() as int) =~= v0);
            assert(v0.skip(v0.len() as int) =~= Seq::<NamedWin>::empty());
            assert(self@ =~= keep_marked(v0));
            lemma_keep_marked_distinct(v0);
        }
    }

    /// Rolls the counters of the interfaces with a fresh reading: `readings[i]` is the
    /// reading of the interface at `i`, `None` when it could not be read.
    pub fn refresh(&mut self, readings: &[Option<IfCounters>])
        requires
            old(self).wf(),
            readings@.len() == old(self)@.len(),
        ensures
            final(self).wf(),
            final(self)@.len() == old(self)@.len(),
            forall|i: int|
                0 <= i < old(self)@.len() ==> (#[trigger] final(self)@[i]) == match readings@[i] {
                    Some(c) => (old(self)@[i].0, rolled_win(old(self)@[i].1, c)),
                    None => old(self)@[i],
                },
            final(self).macs() == old(self).macs(),
    {
        let ghost v0 = self@;
        let ghost m0 = self.macs();
        let mut j: usize = 0;
        while j < self.interfaces.len()
            invariant
                j <= self.interfaces@.len() == v0.len(),
                readings@.len() == v0.len(),
                self@.len() == v0.len(),
                names_distinct(v0),
                forall|k: int| 0 <= k < j ==> #[trigger] self@[k] == match readings@[k] {
                    Some(c) => (v0[k].0, rolled_win(v0[k].1, c)),
                    None => v0[k],
                },
                forall|k: int| j <= k < v0.len() ==> #[trigger] self@[k] == v0[k],
                self.macs() == m0,
            decreases v0.len() - j,
        {
            if let Some(c) = readings[j] {
                let ghost before = self@;
                let w = self.interfaces[j].1.counters.rolled(c);
                self.interfaces[j].1.counters = w;
                proof {
                    assert(self.macs() =~= m0);
                    assert(self@ =~= before.update(j as int, (before[j as int].0, w)));
                }
            }
            j = j + 1;
        }
        proof {
            assert forall|a: int, b: int| 0 <= a < b < self@.len() implies self@[a].0 != self@[b].0 by {
                assert(self@[a].0 == v0[a].0 && self@[b].0 == v0[b].0);
            }
        }
    }
}

proof fn lemma_keep_marked_distinct(v: Seq<NamedWin>)
    requires
        names_distinct(v),
    ensures
        names_distinct(keep_marked(v)),
        forall|k: int| 0 <= k < keep_marked(v).len() ==> has_name(v, #[trigger] keep_marked(v)[k].0),
    decreases v.len(),
{
    if v.len() > 0 {
        let w = v.drop_last();
        assert forall|a: int, b: int| 0 <= a < b < w.len() implies w[a].0 != w[b].0 by {
            assert(w[a] == v[a] && w[b] == v[b]);
        }
        lemma_keep_marked_distinct(w);
        let p = keep_marked(w);
        assert forall|k: int| 0 <= k < p.len() implies has_name(v, #[trigger] p[k].0) by {
            let m = choose|m: int| 0 <= m < w.len() && (#[trigger] w[m]).0 == p[k].0;
            assert(v[m] == w[m]);
        }
        if v.last().1.updated {
            let q = p.push(v.last());
            assert forall|a: int, b: int| 0 <= a < b < q.len() implies q[a].0 != q[b].0 by {
                if b == p.len() {
                    let m = choose|m: int| 0 <= m < w.len() && (#[trigger] w[m]).0 == p[a].0;
                    assert(v[m] == w[m]);
                }
            }
            assert forall|k: int| 0 <= k < q.len() implies has_name(v, #[trigger] q[k].0) by {
                if k == p.len() {
                    assert(v[v.len() - 1].0 == q[k].0);
                }
            }
        }
    }
}


/// A refresh that reads `c` keeps, as each counter's previous value, that same counter
/// as it stood before the refresh, takes each counter's new value from `c` (a packet
/// count being the sum of its unicast and non-unicast counts, saturating), and keeps
/// the interface's id and mark.
pub proof fn refresh_rolls_each_win_counter(w: WinCounters, c: IfCounters)
    ensures
        ({
            let r = rolled_win(w, c);
            &&& r.current_out == c.out_octets && r.old_out == w.current_out
            &&& r.current_in == c.in_octets && r.old_in == w.current_in
            &&& r.packets_in == sat_add(c.in_ucast_pkts, c.in_nucast_pkts) && r.old_packets_in == w.packets_in
            &&& r.packets_out == sat_add(c.out_ucast_pkts, c.out_nucast_pkts) && r.old_packets_out == w.packets_out
            &&& r.errors_in == c.in_errors && r.old_errors_in == w.errors_in
            &&& r.errors_out == c.out_errors && r.old_errors_out == w.errors_out
            &&& r.id == w.id && r.updated == w.updated
        }),
{
}

} // verus!
