//! Looking for partition and file system headers sector by sector.

use vstd::prelude::*;
use crate::numfmt::{dec_digits, push_dec};
use crate::text::{owned, push_str};

verus! {

broadcast use vstd::string::group_string_axioms;

pub const SECTOR_SIZE: u64 = 512;

/// The scan stops once it has read this many sectors (about 50 MB).
pub const MAX_SCAN_SECTORS: u64 = 100000;

/// A header to look for: its bytes, where they lie in a sector.
pub struct PartSig {
    pub name: String,
    pub sig: Vec<u8>,
    pub offset_in_sector: usize,
}

pub struct PartSigModel {
    pub name: Seq<char>,
    pub sig: Seq<u8>,
    pub offset_in_sector: nat,
}

impl View for PartSig {
    type V = PartSigModel;

    open spec fn view(&self) -> PartSigModel {
        PartSigModel { name: self.name@, sig: self.sig@, offset_in_sector: self.offset_in_sector as nat }
    }
}

/// A header found at a sector.
#[derive(Clone)]
pub struct FoundPartition {
    pub offset: u64,
    pub sector: u64,
    pub sig_name: String,
}

pub struct FoundModel {
    pub offset: u64,
    pub sector: u64,
    pub sig_name: Seq<char>,
}

impl View for FoundPartition {
    type V = FoundModel;

    open spec fn view(&self) -> FoundModel {
        FoundModel { offset: self.offset, sector: self.sector, sig_name: self.sig_name@ }
    }
}

pub open spec fn found_view(v: Seq<FoundPartition>) -> Seq<FoundModel> {
    v.map_values(|f: FoundPartition| f@)
}

/// What the scan has reported.
#[derive(Clone)]
pub struct PartitionScanProgress {
    pub sectors_scanned: u64,
    pub total_sectors: u64,
    pub found: Vec<FoundPartition>,
    pub done: bool,
    pub error: Option<String>,
}

/// The partition tab's state.
pub struct PartitionScanState {
    pub device: String,
    pub scanning: bool,
    pub progress: PartitionScanProgress,
}

/// A scan in progress: the next sector to read and what was found.
pub struct SectorScan {
    pub sigs: Vec<PartSig>,
    pub sector: u64,
    pub total_sectors: u64,
    pub found: Vec<FoundPartition>,
}

// ---------------------------------------------------------------------------
// Specification
// ---------------------------------------------------------------------------

/// The headers looked for, in the order they are tried.
pub open spec fn part_sig_table() -> Seq<PartSigModel> {
    seq![
        PartSigModel { name: "GPT Header"@, sig: seq![0x45u8, 0x46, 0x49, 0x20, 0x50, 0x41, 0x52, 0x54], offset_in_sector: 0 },
        PartSigModel { name: "APFS Container (NXSB)"@, sig: seq![0x4Eu8, 0x58, 0x53, 0x42], offset_in_sector: 0 },
        PartSigModel { name: "APFS Volume (APSB)"@, sig: seq![0x41u8, 0x50, 0x53, 0x42], offset_in_sector: 0 },
        PartSigModel { name: "HFS+ (H+)"@, sig: seq![0x48u8, 0x2B], offset_in_sector: 0 },
        PartSigModel { name: "HFS+ (HX)"@, sig: seq![0x48u8, 0x58], offset_in_sector: 0 },
        PartSigModel { name: "exFAT"@, sig: seq![0x45u8, 0x58, 0x46, 0x41, 0x54], offset_in_sector: 0 },
        PartSigModel { name: "FAT32"@, sig: seq![0x4Du8, 0x53, 0x44, 0x4F, 0x53, 0x35, 0x2E, 0x30], offset_in_sector: 0 },
        PartSigModel { name: "NTFS"@, sig: seq![0x4Eu8, 0x54, 0x46, 0x53, 0x20, 0x20, 0x20, 0x20], offset_in_sector: 3 },
    ]
}

/// The header `p` lies in the sector of `data` that starts at byte `base`.
pub open spec fn sig_in_sector(data: Seq<u8>, base: int, p: PartSigModel) -> bool {
    &&& p.offset_in_sector + p.sig.len() <= SECTOR_SIZE
    &&& data.subrange(base + p.offset_in_sector, base + p.offset_in_sector + p.sig.len()) == p.sig
}

/// The headers of the first `k` table entries found in sector `s` of the
/// chunk, which is sector `first + s` of the device.
pub open spec fn sector_finds(
    data: Seq<u8>,
    sigs: Seq<PartSigModel>,
    first: nat,
    s: nat,
    k: int,
) -> Seq<FoundModel>
    decreases k,
{
    if k <= 0 {
        Seq::empty()
    } else {
        let prev = sector_finds(data, sigs, first, s, k - 1);
        let p = sigs[k - 1];
        if sig_in_sector(data, s * SECTOR_SIZE, p) {
            prev.push(
                FoundModel {
                    offset: ((first + s) * SECTOR_SIZE) as u64,
                    sector: (first + s) as u64,
                    sig_name: p.name,
                },
            )
        } else {
            prev
        }
    }
}

/// The headers found in the first `count` whole sectors of a chunk.
pub open spec fn chunk_finds(data: Seq<u8>, sigs: Seq<PartSigModel>, first: nat, count: nat) -> Seq<
    FoundModel,
>
    decreases count,
{
    if count == 0 {
        Seq::empty()
    } else {
        chunk_finds(data, sigs, first, (count - 1) as nat) + sector_finds(
            data,
            sigs,
            first,
            (count - 1) as nat,
            sigs.len() as int,
        )
    }
}

/// Every header found lies at the start of its sector's bytes.
pub proof fn law_found_offsets_are_sector_starts(
    data: Seq<u8>,
    sigs: Seq<PartSigModel>,
    first: nat,
    count: nat,
)
    requires
        (first + count) * SECTOR_SIZE <= u64::MAX,
    ensures
        forall|i: int|
            0 <= i < chunk_finds(data, sigs, first, count).len() ==> {
                let f = #[trigger] chunk_finds(data, sigs, first, count)[i];
                &&& f.offset == f.sector * SECTOR_SIZE
                &&& first <= f.sector < first + count
            },
    decreases count,
{
    if count > 0 {
        law_found_offsets_are_sector_starts(data, sigs, first, (count - 1) as nat);
        lemma_sector_finds(data, sigs, first, (count - 1) as nat, sigs.len() as int);
        let prev = chunk_finds(data, sigs, first, (count - 1) as nat);
        let add = sector_finds(data, sigs, first, (count - 1) as nat, sigs.len() as int);
        assert forall|i: int| 0 <= i < chunk_finds(data, sigs, first, count).len() implies {
            let f = #[trigger] chunk_finds(data, sigs, first, count)[i];
            &&& f.offset == f.sector * SECTOR_SIZE
            &&& first <= f.sector < first + count
        } by {
            if i < prev.len() {
                assert(chunk_finds(data, sigs, first, count)[i] == prev[i]);
            } else {
                assert(chunk_finds(data, sigs, first, count)[i] == add[i - prev.len()]);
            }
        }
    }
}

/// A sector holds a header exactly when every byte of the header lies at the
/// header's place in that sector, and the header fits in the sector.
pub proof fn law_sector_holds_whole_header(data: Seq<u8>, base: int, p: PartSigModel)
    requires
        0 <= base,
        base + SECTOR_SIZE <= data.len(),
    ensures
        sig_in_sector(data, base, p) <==> {
            &&& p.offset_in_sector + p.sig.len() <= SECTOR_SIZE
            &&& forall|j: int| 0 <= j < p.sig.len() ==> data[base + p.offset_in_sector + j] == #[trigger] p.sig[j]
        },
{
    let a = base + p.offset_in_sector;
    if p.offset_in_sector + p.sig.len() <= SECTOR_SIZE {
        if forall|j: int| 0 <= j < p.sig.len() ==> data[base + p.offset_in_sector + j] == #[trigger] p.sig[j] {
            assert(data.subrange(a, a + p.sig.len()) =~= p.sig);
        }
        if sig_in_sector(data, base, p) {
            assert forall|j: int| 0 <= j < p.sig.len() implies data[base + p.offset_in_sector + j]
                == #[trigger] p.sig[j] by {
                assert(data.subrange(a, a + p.sig.len())[j] == data[a + j]);
            }
        }
    }
}

/// Every byte of header `p` lies at its place in the sector of `data` that
/// starts at byte `base`, and the header fits in the sector.
pub open spec fn whole_header_at(data: Seq<u8>, base: int, p: PartSigModel) -> bool {
    &&& p.offset_in_sector + p.sig.len() <= SECTOR_SIZE
    &&& forall|t: int| 0 <= t < p.sig.len() ==> data[base + p.offset_in_sector + t] == #[trigger] p.sig[t]
}

/// Find `f` names one of the first `k` headers, whose every byte lies at
/// its place in the sector at `base`.
pub open spec fn names_whole_header(f: FoundModel, data: Seq<u8>, base: int, sigs: Seq<PartSigModel>, k: int) -> bool {
    exists|j: int| 0 <= j < k && f.sig_name == sigs[j].name && #[trigger] whole_header_at(data, base, sigs[j])
}

/// The finds of one sector, for the first `k` headers: each names a header
/// whose every byte lies at its place in that sector; and every such header
/// is found there, at that sector's offset.
pub proof fn law_sector_finds_are_whole_headers(
    data: Seq<u8>,
    sigs: Seq<PartSigModel>,
    first: nat,
    s: nat,
    k: int,
)
    requires
        0 <= k <= sigs.len(),
        (s + 1) * SECTOR_SIZE <= data.len(),
        (first + s + 1) * SECTOR_SIZE <= u64::MAX,
    ensures
        forall|i: int|
            0 <= i < sector_finds(data, sigs, first, s, k).len() ==> names_whole_header(
                #[trigger] sector_finds(data, sigs, first, s, k)[i],
                data,
                s * SECTOR_SIZE,
                sigs,
                k,
            ),
        forall|j: int|
            0 <= j < k && #[trigger] whole_header_at(data, s * SECTOR_SIZE, sigs[j]) ==> sector_finds(
                data,
                sigs,
                first,
                s,
                k,
            ).contains(
                FoundModel {
                    offset: ((first + s) * SECTOR_SIZE) as u64,
                    sector: (first + s) as u64,
                    sig_name: sigs[j].name,
                },
            ),
    decreases k,
{
    assert(0 <= s * SECTOR_SIZE) by (nonlinear_arith);
    assert(s * SECTOR_SIZE + SECTOR_SIZE <= data.len()) by (nonlinear_arith)
        requires
            (s + 1) * SECTOR_SIZE <= data.len(),
    ;
    let base: int = s * SECTOR_SIZE;
    if k <= 0 {
        assert(sector_finds(data, sigs, first, s, k) =~= Seq::<FoundModel>::empty());
    } else {
        law_sector_finds_are_whole_headers(data, sigs, first, s, k - 1);
        let prev = sector_finds(data, sigs, first, s, k - 1);
        let cur = sector_finds(data, sigs, first, s, k);
        law_sector_holds_whole_header(data, base, sigs[k - 1]);
        assert(sig_in_sector(data, base, sigs[k - 1]) <==> whole_header_at(data, base, sigs[k - 1]));
        assert forall|i: int| 0 <= i < cur.len() implies names_whole_header(
            #[trigger] cur[i],
            data,
            base,
            sigs,
            k,
        ) by {
            if i < prev.len() {
                assert(cur[i] == prev[i]);
                assert(names_whole_header(prev[i], data, base, sigs, k - 1));
                let j = choose|j: int|
                    0 <= j < k - 1 && prev[i].sig_name == sigs[j].name && #[trigger] whole_header_at(
                        data,
                        base,
                        sigs[j],
                    );
                assert(whole_header_at(data, base, sigs[j]));
                assert(cur[i].sig_name == sigs[j].name);
            } else {
                let j = k - 1;
                assert(cur[i].sig_name == sigs[j].name);
                assert(whole_header_at(data, s * SECTOR_SIZE, sigs[j]));
            }
        }
        assert forall|j: int| 0 <= j < k && #[trigger] whole_header_at(data, base, sigs[j]) implies cur.contains(
            FoundModel {
                offset: ((first + s) * SECTOR_SIZE) as u64,
                sector: (first + s) as u64,
                sig_name: sigs[j].name,
            },
        ) by {
            let fm = FoundModel {
                offset: ((first + s) * SECTOR_SIZE) as u64,
                sector: (first + s) as u64,
                sig_name: sigs[j].name,
            };
            if j < k - 1 {
                let i = choose|i: int| 0 <= i < prev.len() && prev[i] == fm;
                assert(cur[i] == fm);
            } else {
                assert(cur[cur.len() - 1] == fm);
            }
        }
    }
}

proof fn lemma_sector_finds(data: Seq<u8>, sigs: Seq<PartSigModel>, first: nat, s: nat, k: int)
    requires
        (first + s + 1) * SECTOR_SIZE <= u64::MAX,
    ensures
        forall|i: int|
            0 <= i < sector_finds(data, sigs, first, s, k).len() ==> {
                let f = #[trigger] sector_finds(data, sigs, first, s, k)[i];
                &&& f.offset == f.sector * SECTOR_SIZE
                &&& f.sector == first + s
            },
    decreases k,
{
    if k > 0 {
        lemma_sector_finds(data, sigs, first, s, k - 1);
        assert((first + s) * SECTOR_SIZE <= u64::MAX) by (nonlinear_arith)
            requires
                (first + s + 1) * SECTOR_SIZE <= u64::MAX,
        ;
        let prev = sector_finds(data, sigs, first, s, k - 1);
        assert forall|i: int| 0 <= i < sector_finds(data, sigs, first, s, k).len() implies {
            let f = #[trigger] sector_finds(data, sigs, first, s, k)[i];
            &&& f.offset == f.sector * SECTOR_SIZE
            &&& f.sector == first + s
        } by {
            if i < prev.len() {
                assert(sector_finds(data, sigs, first, s, k)[i] == prev[i]);
            }
        }
    }
}

// ---------------------------------------------------------------------------
// Scanning
// ---------------------------------------------------------------------------

fn part_sig(name: &str, sig: Vec<u8>, offset_in_sector: usize) -> (p: PartSig)
    ensures
        p@ == (PartSigModel { name: name@, sig: sig@, offset_in_sector: offset_in_sector as nat }),
{
    PartSig { name: owned(name), sig, offset_in_sector }
}

/// The headers looked for.
pub fn part_sigs() -> (v: Vec<PartSig>)
    ensures
        v@.map_values(|p: PartSig| p@) == part_sig_table(),
{
    let mut v: Vec<PartSig> = Vec::new();
    v.push(part_sig("GPT Header", vec![0x45u8, 0x46, 0x49, 0x20, 0x50, 0x41, 0x52, 0x54], 0));
    v.push(part_sig("APFS Container (NXSB)", vec![0x4Eu8, 0x58, 0x53, 0x42], 0));
    v.push(part_sig("APFS Volume (APSB)", vec![0x41u8, 0x50, 0x53, 0x42], 0));
    v.push(part_sig("HFS+ (H+)", vec![0x48u8, 0x2B], 0));
    v.push(part_sig("HFS+ (HX)", vec![0x48u8, 0x58], 0));
    v.push(part_sig("exFAT", vec![0x45u8, 0x58, 0x46, 0x41, 0x54], 0));
    v.push(part_sig("FAT32", vec![0x4Du8, 0x53, 0x44, 0x4F, 0x53, 0x35, 0x2E, 0x30], 0));
    v.push(part_sig("NTFS", vec![0x4Eu8, 0x54, 0x46, 0x53, 0x20, 0x20, 0x20, 0x20], 3));
    assert(v@.map_values(|p: PartSig| p@) =~= part_sig_table());
    v
}

fn bytes_at(data: &[u8], base: usize, pat: &Vec<u8>) -> (b: bool)
    requires
        base + pat@.len() <= data@.len(),
    ensures
        b == (data@.subrange(base as int, base + pat@.len()) == pat@),
{
    let m = pat.len();
    let mut k: usize = 0;
    while k < m
        invariant
            m == pat@.len(),
            base + m <= data.len(),
            k <= m,
            forall|j: int| 0 <= j < k ==> data@[base + j] == pat@[j],
        decreases m - k,
    {
        if data[base + k] != pat[k] {
            assert(data@.subrange(base as int, base + m)[k as int] != pat@[k as int]);
            return false;
        }
        k += 1;
    }
    assert(data@.subrange(base as int, base + m) =~= pat@);
    true
}

impl SectorScan {
    pub open spec fn sig_models(&self) -> Seq<PartSigModel> {
        self.sigs@.map_values(|p: PartSig| p@)
    }

    /// A scan of a device of `total_size` bytes, from its first sector.
    pub fn new(total_size: u64) -> (s: SectorScan)
        ensures
            s.sig_models() == part_sig_table(),
            s.sector == 0,
            s.total_sectors == total_size / SECTOR_SIZE,
            s.found@.len() == 0,
    {
        SectorScan { sigs: part_sigs(), sector: 0, total_sectors: total_size / SECTOR_SIZE, found: Vec::new() }
    }

    /// Reads the next chunk: every whole sector in it is checked for each
    /// header. Returns whether the scan has read enough sectors to stop.
    pub fn feed(&mut self, chunk: &[u8]) -> (stop: bool)
        requires
            (old(self).sector + chunk@.len() / 512 + 1) * SECTOR_SIZE <= u64::MAX,
        ensures
            final(self).sigs@ == old(self).sigs@,
            final(self).total_sectors == old(self).total_sectors,
            final(self).sector == old(self).sector + chunk@.len() / 512,
            found_view(final(self).found@) == found_view(old(self).found@) + chunk_finds(
                chunk@,
                old(self).sig_models(),
                old(self).sector as nat,
                chunk@.len() / 512,
            ),
            stop == (final(self).sector >= MAX_SCAN_SECTORS),
    {
        let ghost sigs = self.sig_models();
        let ghost found0 = found_view(self.found@);
        let first = self.sector;
        let n = chunk.len();
        let count = (n as u64) / SECTOR_SIZE;
        let nsig = self.sigs.len();
        let mut s: u64 = 0;
        while s < count
            invariant
                count == n as u64 / SECTOR_SIZE,
                n == chunk@.len(),
                s <= count,
                first == self.sector,
                (first + count + 1) * SECTOR_SIZE <= u64::MAX,
                sigs == self.sig_models(),
                nsig == self.sigs@.len(),
                self.sigs@ == old(self).sigs@,
                self.total_sectors == old(self).total_sectors,
                found_view(self.found@) == found0 + chunk_finds(chunk@, sigs, first as nat, s as nat),
            decreases count - s,
        {
            assert((s + 1) * SECTOR_SIZE <= count * SECTOR_SIZE) by (nonlinear_arith)
                requires
                    s < count,
            ;
            assert(count * SECTOR_SIZE <= n) by (nonlinear_arith)
                requires
                    count == n as u64 / SECTOR_SIZE,
            ;
            assert((first + s) * SECTOR_SIZE <= u64::MAX) by (nonlinear_arith)
                requires
                    s < count,
                    (first + count + 1) * SECTOR_SIZE <= u64::MAX,
            ;
            let base: usize = (s * SECTOR_SIZE) as usize;
            let offset = (first + s) * SECTOR_SIZE;
            let ghost before = found_view(self.found@);
            let mut k: usize = 0;
            while k < nsig
                invariant
                    nsig == self.sigs@.len(),
                    k <= nsig,
                    sigs == self.sig_models(),
                    self.sigs@ == old(self).sigs@,
                    self.total_sectors == old(self).total_sectors,
                    first == self.sector,
                    base == s * SECTOR_SIZE,
                    base + SECTOR_SIZE <= n,
                    n == chunk@.len(),
                    offset == (first + s) * SECTOR_SIZE,
                    (first + s) * SECTOR_SIZE <= u64::MAX,
                    found_view(self.found@) == before + sector_finds(
                        chunk@,
                        sigs,
                        first as nat,
                        s as nat,
                        k as int,
                    ),
                decreases nsig - k,
            {
                let p = &self.sigs[k];
                assert(p@ == sigs[k as int]);
                let off = p.offset_in_sector;
                let len = p.sig.len();
                let hit = if off <= 512 && len <= 512 - off {
                    bytes_at(chunk, base + off, &p.sig)
                } else {
                    false
                };
                assert(hit == sig_in_sector(chunk@, s * SECTOR_SIZE, sigs[k as int]));
                if hit {
                    let ghost b2 = found_view(self.found@);
                    let f = FoundPartition { offset, sector: first + s, sig_name: p.name.clone() };
                    let ghost fm = f@;
                    self.found.push(f);
                    assert(found_view(self.found@) =~= b2.push(fm));
                }
                k += 1;
            }
            assert(found_view(self.found@) =~= found0 + chunk_finds(
                chunk@,
                sigs,
                first as nat,
                (s + 1) as nat,
            ));
            s += 1;
        }
        self.sector = first + count;
        self.sector >= MAX_SCAN_SECTORS
    }

    /// What the scan has found so far, while it runs.
    pub fn progress(&self) -> (p: PartitionScanProgress)
        ensures
            p.sectors_scanned == self.sector,
            p.total_sectors == self.total_sectors,
            found_view(p.found@) == found_view(self.found@),
            !p.done,
            p.error is None,
    {
        PartitionScanProgress {
            sectors_scanned: self.sector,
            total_sectors: self.total_sectors,
            found: copy_found(&self.found),
            done: false,
            error: None,
        }
    }

    /// The final report: the scan ended, or a read failed with `read_error`.
    pub fn finish(&self, read_error: Option<&str>) -> (p: PartitionScanProgress)
        ensures
            p.sectors_scanned == self.sector,
            p.total_sectors == self.total_sectors,
            found_view(p.found@) == found_view(self.found@),
            p.done,
            match read_error {
                Some(e) => match p.error {
                    Some(m) => m@ == "Read error at sector "@ + dec_digits(self.sector as nat)
                        + ": "@ + e@,
                    None => false,
                },
                None => p.error is None,
            },
    {
        let error = match read_error {
            Some(e) => {
                let mut m = owned("Read error at sector ");
                push_dec(&mut m, self.sector);
                push_str(&mut m, ": ");
                push_str(&mut m, e);
                Some(m)
            },
            None => None,
        };
        PartitionScanProgress {
            sectors_scanned: self.sector,
            total_sectors: self.total_sectors,
            found: copy_found(&self.found),
            done: true,
            error,
        }
    }
}

fn copy_found(v: &Vec<FoundPartition>) -> (r: Vec<FoundPartition>)
    ensures
        found_view(r@) == found_view(v@),
{
    let mut r: Vec<FoundPartition> = Vec::new();
    let n = v.len();
    let mut i: usize = 0;
    while i < n
        invariant
            n == v@.len(),
            i <= n,
            found_view(r@) == found_view(v@).take(i as int),
        decreases n - i,
    {
        let ghost before = found_view(r@);
        let f = FoundPartition { offset: v[i].offset, sector: v[i].sector, sig_name: v[i].sig_name.clone() };
        let ghost fm = f@;
        r.push(f);
        assert(found_view(r@) =~= before.push(fm));
        assert(found_view(v@).take(i + 1) =~= found_view(v@).take(i as int).push(found_view(v@)[i as int]));
        i += 1;
    }
    assert(found_view(v@).take(n as int) =~= found_view(v@));
    r
}

impl PartitionScanProgress {
    /// Nothing scanned yet.
    pub fn empty() -> (p: PartitionScanProgress)
        ensures
            p.sectors_scanned == 0,
            p.total_sectors == 0,
            p.found@.len() == 0,
            !p.done,
            p.error is None,
    {
        PartitionScanProgress { sectors_scanned: 0, total_sectors: 0, found: Vec::new(), done: false, error: None }
    }
}

impl Default for PartitionScanProgress {
    fn default() -> (p: Self)
        ensures
            p.sectors_scanned == 0,
            p.total_sectors == 0,
            p.found@.len() == 0,
            !p.done,
            p.error is None,
    {
        PartitionScanProgress::empty()
    }
}

impl PartitionScanState {
    /// A scan begins: progress is reset and the scan marked running.
    pub fn start(&mut self)
        ensures
            final(self).device@ == old(self).device@,
            final(self).scanning,
            final(self).progress.sectors_scanned == 0,
            final(self).progress.total_sectors == 0,
            final(self).progress.found@.len() == 0,
            !final(self).progress.done,
            final(self).progress.error is None,
    {
        self.scanning = true;
        self.progress = PartitionScanProgress::empty();
    }

    /// Takes in a report from the scan; a final one ends the scan.
    pub fn receive(&mut self, p: PartitionScanProgress)
        ensures
            final(self).device@ == old(self).device@,
            final(self).progress == p,
            final(self).scanning == (old(self).scanning && !p.done),
    {
        let done = p.done;
        self.progress = p;
        if done {
            self.scanning = false;
        }
    }

    /// How many sectors the progress bar counts to: the device's sectors,
    /// but no more than the scan reads.
    pub fn scan_limit(&self) -> (l: u64)
        ensures
            l == (if self.progress.total_sectors < MAX_SCAN_SECTORS {
                self.progress.total_sectors
            } else {
                MAX_SCAN_SECTORS
            }),
    {
        if self.progress.total_sectors < MAX_SCAN_SECTORS {
            self.progress.total_sectors
        } else {
            MAX_SCAN_SECTORS
        }
    }
}

impl Default for PartitionScanState {
    fn default() -> (s: Self)
        ensures
            s.device@.len() == 0,
            !s.scanning,
            s.progress.found@.len() == 0,
            s.progress.sectors_scanned == 0,
            s.progress.total_sectors == 0,
            !s.progress.done,
            s.progress.error is None,
    {
        PartitionScanState { device: String::new(), scanning: false, progress: PartitionScanProgress::empty() }
    }
}


// ---------------------------------------------------------------------------
// The reports of a whole scan
// ---------------------------------------------------------------------------

/// What a report says, as mathematical values.
pub struct ReportModel {
    pub sectors_scanned: u64,
    pub total_sectors: u64,
    pub found: Seq<FoundModel>,
    pub done: bool,
    pub error: Option<Seq<char>>,
}

pub open spec fn opt_text(o: Option<String>) -> Option<Seq<char>> {
    match o {
        Some(s) => Some(s@),
        None => None,
    }
}

impl View for PartitionScanProgress {
    type V = ReportModel;

    open spec fn view(&self) -> ReportModel {
        ReportModel {
            sectors_scanned: self.sectors_scanned,
            total_sectors: self.total_sectors,
            found: found_view(self.found@),
            done: self.done,
            error: opt_text(self.error),
        }
    }
}

/// `a` is the start of `b`.
pub open spec fn prefix_of(a: Seq<FoundModel>, b: Seq<FoundModel>) -> bool {
    a.len() <= b.len() && b.subrange(0, a.len() as int) == a
}

/// A later report has scanned no fewer sectors and extends what was found.
pub open spec fn grows(a: ReportModel, sectors: u64, found: Seq<FoundModel>) -> bool {
    a.sectors_scanned <= sectors && prefix_of(a.found, found)
}

proof fn lemma_prefix_trans(a: Seq<FoundModel>, b: Seq<FoundModel>, c: Seq<FoundModel>)
    requires
        prefix_of(a, b),
        prefix_of(b, c),
    ensures
        prefix_of(a, c),
{
    assert(c.subrange(0, a.len() as int) =~= c.subrange(0, b.len() as int).subrange(0, a.len() as int));
}

/// A partition scan that reports as it goes: `sent` is the reports so far,
/// `over` whether the last one was sent.
pub struct PartitionRun {
    pub scan: SectorScan,
    pub over: bool,
    pub sent: Ghost<Seq<ReportModel>>,
}

impl PartitionRun {
    /// Each report extends the ones before and what the scan holds; only the
    /// last report of a finished run is final.
    pub open spec fn wf(&self) -> bool {
        let s = self.sent@;
        &&& forall|i: int|
            0 <= i < s.len() ==> grows(#[trigger] s[i], self.scan.sector, found_view(self.scan.found@))
        &&& forall|i: int, j: int| 0 <= i < j < s.len() ==> grows(#[trigger] s[i], s[j].sectors_scanned, #[trigger] s[j].found)
        &&& forall|i: int| 0 <= i < s.len() ==> (#[trigger] s[i].done <==> (self.over && i == s.len() - 1))
        &&& (self.over ==> s.len() > 0)
    }

    /// The one report when the device cannot be opened.
    pub fn open_failed(device: &str, cause: &str) -> (p: PartitionScanProgress)
        ensures
            p@ == (ReportModel {
                sectors_scanned: 0,
                total_sectors: 0,
                found: Seq::empty(),
                done: true,
                error: Some("Cannot open "@ + device@ + ": "@ + cause@),
            }),
    {
        let mut p = PartitionScanProgress::empty();
        p.done = true;
        let mut m = owned("Cannot open ");
        push_str(&mut m, device);
        push_str(&mut m, ": ");
        push_str(&mut m, cause);
        p.error = Some(m);
        assert(found_view(p.found@) =~= Seq::<FoundModel>::empty());
        p
    }

    /// A run over a device of `total_size` bytes, before any report.
    pub fn new(total_size: u64) -> (r: PartitionRun)
        ensures
            r.wf(),
            !r.over,
            r.sent@.len() == 0,
            r.scan.sig_models() == part_sig_table(),
            r.scan.sector == 0,
            r.scan.total_sectors == total_size / SECTOR_SIZE,
            r.scan.found@.len() == 0,
    {
        PartitionRun { scan: SectorScan::new(total_size), over: false, sent: Ghost(Seq::empty()) }
    }

    /// Reads a chunk and reports; also says whether the scan should stop.
    pub fn chunk(&mut self, data: &[u8]) -> (r: (PartitionScanProgress, bool))
        requires
            old(self).wf(),
            !old(self).over,
            (old(self).scan.sector + data@.len() / 512 + 1) * SECTOR_SIZE <= u64::MAX,
        ensures
            final(self).wf(),
            !final(self).over,
            final(self).sent@ == old(self).sent@.push(r.0@),
            final(self).scan.sector == old(self).scan.sector + data@.len() / 512,
            found_view(final(self).scan.found@) == found_view(old(self).scan.found@) + chunk_finds(
                data@,
                old(self).scan.sig_models(),
                old(self).scan.sector as nat,
                data@.len() / 512,
            ),
            r.0@.sectors_scanned == final(self).scan.sector,
            r.0@.found == found_view(final(self).scan.found@),
            !r.0@.done,
            r.0@.error is None,
            r.1 == (final(self).scan.sector >= MAX_SCAN_SECTORS),
    {
        let ghost f0 = found_view(self.scan.found@);
        let ghost s0 = self.sent@;
        let stop = self.scan.feed(data);
        let p = self.scan.progress();
        let ghost f1 = found_view(self.scan.found@);
        assert(prefix_of(f0, f1)) by {
            assert(f1.subrange(0, f0.len() as int) =~= f0);
        }
        self.sent = Ghost(s0.push(p@));
        proof {
            assert forall|i: int| 0 <= i < self.sent@.len() implies grows(
                #[trigger] self.sent@[i],
                self.scan.sector,
                found_view(self.scan.found@),
            ) by {
                if i < s0.len() {
                    assert(self.sent@[i] == s0[i]);
                    lemma_prefix_trans(s0[i].found, f0, f1);
                } else {
                    assert(f1.subrange(0, f1.len() as int) =~= f1);
                }
            }
            assert forall|i: int, j: int| 0 <= i < j < self.sent@.len() implies grows(
                #[trigger] self.sent@[i],
                self.sent@[j].sectors_scanned,
                #[trigger] self.sent@[j].found,
            ) by {
                assert(self.sent@[i] == s0[i]);
                if j < s0.len() {
                    assert(self.sent@[j] == s0[j]);
                } else {
                    lemma_prefix_trans(s0[i].found, f0, f1);
                }
            }
            assert forall|i: int| 0 <= i < self.sent@.len() implies (#[trigger] self.sent@[i].done <==> (
            self.over && i == self.sent@.len() - 1)) by {
                if i < s0.len() {
                    assert(self.sent@[i] == s0[i]);
                }
            }
        }
        (p, stop)
    }

    /// The last report: the scan ended, or a read failed with `read_error`.
    pub fn end(&mut self, read_error: Option<&str>) -> (p: PartitionScanProgress)
        requires
            old(self).wf(),
            !old(self).over,
        ensures
            final(self).wf(),
            final(self).over,
            final(self).sent@ == old(self).sent@.push(p@),
            final(self).scan.sector == old(self).scan.sector,
            p@.sectors_scanned == old(self).scan.sector,
            p@.total_sectors == old(self).scan.total_sectors,
            p@.found == found_view(old(self).scan.found@),
            p@.done,
            p@.error == match read_error {
                Some(e) => Some("Read error at sector "@ + dec_digits(old(self).scan.sector as nat) + ": "@ + e@),
                None => None::<Seq<char>>,
            },
    {
        let ghost s0 = self.sent@;
        let ghost f = found_view(self.scan.found@);
        let p = self.scan.finish(read_error);
        self.sent = Ghost(s0.push(p@));
        self.over = true;
        proof {
            assert forall|i: int| 0 <= i < self.sent@.len() implies grows(
                #[trigger] self.sent@[i],
                self.scan.sector,
                found_view(self.scan.found@),
            ) by {
                if i < s0.len() {
                    assert(self.sent@[i] == s0[i]);
                } else {
                    assert(f.subrange(0, f.len() as int) =~= f);
                }
            }
            assert forall|i: int, j: int| 0 <= i < j < self.sent@.len() implies grows(
                #[trigger] self.sent@[i],
                self.sent@[j].sectors_scanned,
                #[trigger] self.sent@[j].found,
            ) by {
                assert(self.sent@[i] == s0[i]);
                if j < s0.len() {
                    assert(self.sent@[j] == s0[j]);
                }
            }
            assert forall|i: int| 0 <= i < self.sent@.len() implies (#[trigger] self.sent@[i].done <==> (
            self.over && i == self.sent@.len() - 1)) by {
                if i < s0.len() {
                    assert(self.sent@[i] == s0[i]);
                }
            }
        }
        p
    }
}

/// The reports of a finished scan: only the last is final, the sectors
/// scanned never go down, and each report's partitions start the next's.
pub proof fn law_reports_only_grow(run: PartitionRun)
    requires
        run.wf(),
        run.over,
    ensures
        ({
            let s = run.sent@;
            &&& s.len() > 0
            &&& s.last().done
            &&& forall|i: int| 0 <= i < s.len() - 1 ==> !(#[trigger] s[i]).done
            &&& forall|i: int, j: int|
                0 <= i < j < s.len() ==> (#[trigger] s[i]).sectors_scanned <= (#[trigger] s[j]).sectors_scanned
                    && prefix_of(s[i].found, s[j].found)
        }),
{
    let s = run.sent@;
    assert(s[s.len() - 1].done);
    assert forall|i: int, j: int|
        0 <= i < j < s.len() implies (#[trigger] s[i]).sectors_scanned <= (#[trigger] s[j]).sectors_scanned
            && prefix_of(s[i].found, s[j].found) by {
        assert(grows(s[i], s[j].sectors_scanned, s[j].found));
    }
}

} // verus!
