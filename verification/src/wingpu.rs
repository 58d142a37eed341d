//! The GPUs of Windows: how the adapters that DXGI lists update the list of GPUs.
use vstd::prelude::*;
use crate::illumos::PCI;
use crate::windisk::{nul_from, nul_index, lemma_nul_from};

verus! {

/// The characters that the UTF-16 code units `u` encode, each unpaired surrogate
/// replaced by U+FFFD (what `String::from_utf16_lossy` makes of them).
pub open spec fn utf16_lossy(u: Seq<u16>) -> Seq<char>
    decreases u.len(),
{
    if u.len() == 0 {
        seq![]
    } else if u[0] < 0xd800 || u[0] > 0xdfff {
        seq![u[0] as char] + utf16_lossy(u.drop_first())
    } else if u[0] <= 0xdbff && u.len() >= 2 && 0xdc00 <= u[1] <= 0xdfff {
        let c = 0x10000 + (u[0] - 0xd800) * 0x400 + (u[1] - 0xdc00);
        seq![c as char] + utf16_lossy(u.subrange(2, u.len() as int))
    } else {
        seq!['\u{FFFD}'] + utf16_lossy(u.drop_first())
    }
}

/// `String::from_utf16_lossy`, trusted to give the characters `utf16_lossy(u)`.
#[verifier::external_body]
pub(crate) fn string_from_utf16_lossy(u: &[u16]) -> (r: String)
    ensures
        r@ == utf16_lossy(u@),
{
    String::from_utf16_lossy(u)
}

/// The locally unique id of an adapter: its low and high parts.
#[derive(Clone, Copy, Debug, PartialEq, Eq, Structural)]
pub struct Luid {
    pub low: u32,
    pub high: i32,
}

/// A GPU of Windows.
pub struct WinGpuInner {
    pub luid: Luid,
    pub pci: PCI,
    pub vendor: Option<String>,
    pub model: Option<String>,
    pub total_memory: Option<u64>,
    pub used_memory: Option<u64>,
    pub updated: bool,
}

/// A GPU as plain values.
pub struct WinGpuView {
    pub luid: Luid,
    pub pci: PCI,
    pub vendor: Option<Seq<char>>,
    pub model: Option<Seq<char>>,
    pub total_memory: Option<u64>,
    pub used_memory: Option<u64>,
    pub updated: bool,
}

pub open spec fn opt_text(s: Option<String>) -> Option<Seq<char>> {
    match s {
        Some(t) => Some(t@),
        None => None,
    }
}

pub open spec fn win_gpu_view(g: WinGpuInner) -> WinGpuView {
    WinGpuView {
        luid: g.luid,
        pci: g.pci,
        vendor: opt_text(g.vendor),
        model: opt_text(g.model),
        total_memory: g.total_memory,
        used_memory: g.used_memory,
        updated: g.updated,
    }
}

pub open spec fn win_gpus_view(v: Seq<WinGpuInner>) -> Seq<WinGpuView> {
    v.map_values(|g: WinGpuInner| win_gpu_view(g))
}

/// What DXGI describes of an adapter: its id, the name of its vendor (when the
/// vendor id is known), its description buffer, its dedicated video memory and the
/// memory it uses (when that could be queried).
pub struct AdapterDesc {
    pub luid: Luid,
    pub vendor_name: Option<String>,
    pub description: Vec<u16>,
    pub dedicated: u64,
    pub used: Option<u64>,
}

/// The GPUs of Windows.
pub struct WinGpusInner {
    pub gpus: Vec<WinGpuInner>,
}

/// The index of the first GPU of `g[i..]` with the id `luid`, or the length.
pub open spec fn first_with_luid(g: Seq<WinGpuView>, luid: Luid, i: int) -> int
    decreases g.len() - i,
{
    if i < 0 || i >= g.len() {
        g.len() as int
    } else if g[i].luid == luid {
        i
    } else {
        first_with_luid(g, luid, i + 1)
    }
}

/// The index of the first PCI device of `p[i..]` at the bus, device and function
/// `addr`, or the length.
pub open spec fn first_pci_at(p: Seq<PCI>, addr: (u32, u32, u32), i: int) -> int
    decreases p.len() - i,
{
    if i < 0 || i >= p.len() {
        p.len() as int
    } else if p[i].bus == addr.0 && p[i].device == addr.1 && p[i].function == addr.2 {
        i
    } else {
        first_pci_at(p, addr, i + 1)
    }
}

/// The GPU after an adapter was described: marked updated, its total memory the
/// adapter's dedicated memory, its used memory replaced when it could be queried.
pub open spec fn adapter_applied(g: WinGpuView, a: AdapterDesc) -> WinGpuView {
    WinGpuView {
        updated: true,
        total_memory: Some(a.dedicated),
        used_memory: if a.used is Some { a.used } else { g.used_memory },
        ..g
    }
}

/// The GPUs after an adapter was described. A GPU with its id is updated. Otherwise
/// the adapter becomes a new GPU only when its bus address (`addr`, when it could
/// be queried) is that of one of the PCI devices `pcis`; else nothing changes.
pub open spec fn spec_apply_adapter(
    g: Seq<WinGpuView>,
    a: AdapterDesc,
    addr: Option<(u32, u32, u32)>,
    pcis: Seq<PCI>,
) -> Seq<WinGpuView> {
    let k = first_with_luid(g, a.luid, 0);
    if k < g.len() {
        g.update(k, adapter_applied(g[k], a))
    } else {
        match addr {
            None => g,
            Some(ad) => {
                let j = first_pci_at(pcis, ad, 0);
                if j < pcis.len() {
                    g.push(
                        adapter_applied(
                            WinGpuView {
                                luid: a.luid,
                                pci: pcis[j],
                                vendor: opt_text(a.vendor_name),
                                model: Some(
                                    utf16_lossy(a.description@.subrange(0, nul_from(a.description@, 0))),
                                ),
                                total_memory: None,
                                used_memory: None,
                                updated: true,
                            },
                            a,
                        ),
                    )
                } else {
                    g
                }
            },
        }
    }
}

fn copy_units(u: &[u16], n: usize) -> (r: Vec<u16>)
    requires
        n <= u@.len(),
    ensures
        r@ == u@.subrange(0, n as int),
{
    let mut out: Vec<u16> = Vec::new();
    let mut i: usize = 0;
    while i < n
        invariant
            i <= n <= u@.len(),
            out@ == u@.subrange(0, i as int),
        decreases n - i,
    {
        out.push(u[i]);
        proof {
            assert(out@ =~= u@.subrange(0, i + 1));
        }
        i = i + 1;
    }
    out
}

impl WinGpusInner {
    /// No GPU yet.
    pub fn new() -> (r: WinGpusInner)
        ensures
            r.gpus@.len() == 0,
    {
        WinGpusInner { gpus: Vec::new() }
    }

    /// Takes what DXGI describes of an adapter (see `spec_apply_adapter`).
    pub fn apply_adapter(&mut self, adapter: AdapterDesc, addr: Option<(u32, u32, u32)>, pcis: &[PCI])
        ensures
            win_gpus_view(final(self).gpus@) == spec_apply_adapter(
                win_gpus_view(old(self).gpus@),
                adapter,
                addr,
                pcis@,
            ),
    {
        let ghost g0 = win_gpus_view(self.gpus@);
        let ghost a0 = adapter;
        let mut k: usize = 0;
        while k < self.gpus.len() && !(self.gpus[k].luid == adapter.luid)
            invariant
                k <= self.gpus@.len(),
                g0 == win_gpus_view(self.gpus@),
                first_with_luid(g0, adapter.luid, k as int) == first_with_luid(g0, adapter.luid, 0),
            decreases self.gpus@.len() - k,
        {
            k = k + 1;
        }
        if k < self.gpus.len() {
            let mut g = self.gpus.remove(k);
            g.updated = true;
            g.total_memory = Some(adapter.dedicated);
            if adapter.used.is_some() {
                g.used_memory = adapter.used;
            }
            self.gpus.insert(k, g);
            proof {
                assert(win_gpus_view(self.gpus@) =~= g0.update(k as int, win_gpu_view(g)));
            }
            return;
        }
        let ad = match addr {
            Some(x) => x,
            None => return,
        };
        let mut j: usize = 0;
        while j < pcis.len() && !(pcis[j].bus == ad.0 && pcis[j].device == ad.1 && pcis[j].function == ad.2)
            invariant
                j <= pcis@.len(),
                first_pci_at(pcis@, ad, j as int) == first_pci_at(pcis@, ad, 0),
            decreases pcis@.len() - j,
        {
            j = j + 1;
        }
        if j >= pcis.len() {
            return;
        }
        let n = nul_index(adapter.description.as_slice(), 0);
        proof {
            lemma_nul_from(adapter.description@, 0);
        }
        let units = copy_units(adapter.description.as_slice(), n);
        let model = string_from_utf16_lossy(units.as_slice());
        let g = WinGpuInner {
            luid: adapter.luid,
            pci: pcis[j],
            vendor: adapter.vendor_name,
            model: Some(model),
            total_memory: Some(adapter.dedicated),
            used_memory: adapter.used,
            updated: true,
        };
        self.gpus.push(g);
        proof {
            assert(win_gpus_view(self.gpus@) =~= g0.push(win_gpu_view(g)));
        }
    }
}

/// Whether no two GPUs of `g` have the same id.
pub open spec fn distinct_luids(g: Seq<WinGpuView>) -> bool {
    forall|i: int, j: int| 0 <= i < j < g.len() ==> g[i].luid != g[j].luid
}

proof fn lemma_first_with_luid(g: Seq<WinGpuView>, luid: Luid, i: int)
    requires
        0 <= i <= g.len(),
    ensures
        i <= first_with_luid(g, luid, i) <= g.len(),
        first_with_luid(g, luid, i) < g.len() ==> g[first_with_luid(g, luid, i)].luid == luid,
        forall|j: int| i <= j < first_with_luid(g, luid, i) ==> g[j].luid != luid,
    decreases g.len() - i,
{
    if i < g.len() && g[i].luid != luid {
        lemma_first_with_luid(g, luid, i + 1);
    }
}

proof fn lemma_first_pci_at(p: Seq<PCI>, addr: (u32, u32, u32), i: int)
    requires
        0 <= i <= p.len(),
    ensures
        i <= first_pci_at(p, addr, i) <= p.len(),
    decreases p.len() - i,
{
    if i < p.len() && !(p[i].bus == addr.0 && p[i].device == addr.1 && p[i].function == addr.2) {
        lemma_first_pci_at(p, addr, i + 1);
    }
}

/// An adapter is listed once: a GPU with its id is updated in place, a new GPU is
/// added only for an id not listed yet, at the address of one of the PCI devices
/// given, and the GPUs listed before keep their ids and addresses.
pub proof fn adapter_keeps_gpus(
    g: Seq<WinGpuView>,
    a: AdapterDesc,
    addr: Option<(u32, u32, u32)>,
    pcis: Seq<PCI>,
)
    requires
        distinct_luids(g),
    ensures
        ({
            let r = spec_apply_adapter(g, a, addr, pcis);
            &&& distinct_luids(r)
            &&& g.len() <= r.len() <= g.len() + 1
            &&& forall|i: int| 0 <= i < g.len() ==> (#[trigger] r[i]).luid == g[i].luid && r[i].pci == g[i].pci
            &&& r.len() == g.len() + 1 ==> (exists|j: int| 0 <= j < pcis.len() && #[trigger] pcis[j] == r[g.len() as int].pci)
                && r[g.len() as int].luid == a.luid
        }),
{
    lemma_first_with_luid(g, a.luid, 0);
    let r = spec_apply_adapter(g, a, addr, pcis);
    let k = first_with_luid(g, a.luid, 0);
    if k < g.len() {
        assert forall|i: int| 0 <= i < g.len() implies (#[trigger] r[i]).luid == g[i].luid && r[i].pci == g[i].pci by {
            if i == k {
                assert(r[i] == adapter_applied(g[k], a));
            } else {
                assert(r[i] == g[i]);
            }
        }
        assert forall|i: int, j: int| 0 <= i < j < r.len() implies r[i].luid != r[j].luid by {
            assert(r[i].luid == g[i].luid && r[j].luid == g[j].luid);
        }
    } else if r.len() == g.len() + 1 {
        let ad = addr->0;
        let j = first_pci_at(pcis, ad, 0);
        lemma_first_pci_at(pcis, ad, 0);
        assert(j < pcis.len());
        assert(r[g.len() as int].pci == pcis[j]);
        assert(exists|m: int| 0 <= m < pcis.len() && #[trigger] pcis[m] == r[g.len() as int].pci);
        assert forall|i: int| 0 <= i < g.len() implies (#[trigger] r[i]).luid == g[i].luid && r[i].pci == g[i].pci by {
            assert(r[i] == g[i]);
        }
        assert forall|i: int, m: int| 0 <= i < m < r.len() implies r[i].luid != r[m].luid by {
            if m == g.len() {
                assert(r[i] == g[i]);
            } else {
                assert(r[i] == g[i] && r[m] == g[m]);
            }
        }
    } else {
        assert(r =~= g);
        assert(r.len() == g.len());
    }
}

} // verus!
