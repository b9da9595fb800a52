//! File carving: finding file signatures (magic bytes) in a raw byte
//! stream read chunk by chunk, and deciding which byte ranges become
//! recovered files.

use vstd::prelude::*;
use crate::numfmt::{dec_digits, hex_digits, push_dec_padded, push_hex, zero_pad};
use crate::text::{owned, push_char, push_str};

verus! {

/// Without a footer, a candidate is carved once it spans more than this many bytes.
pub const SIZE_CAP: u64 = 52428800;

/// At most this many recently carved files are remembered.
pub const RECENT_LIMIT: usize = 50;

/// A file signature: the magic bytes a file type starts (and maybe ends) with.
pub struct FileSig {
    pub name: String,
    pub exts: Vec<String>,
    pub header: Vec<u8>,
    pub footer: Option<Vec<u8>>,
    pub min_size: u64,
    pub enabled: bool,
}

/// What a [`FileSig`] holds, as mathematical values.
pub struct SigModel {
    pub name: Seq<char>,
    pub exts: Seq<Seq<char>>,
    pub header: Seq<u8>,
    pub footer: Option<Seq<u8>>,
    pub min_size: u64,
    pub enabled: bool,
}

pub open spec fn opt_bytes(o: Option<Vec<u8>>) -> Option<Seq<u8>> {
    match o {
        Some(v) => Some(v@),
        None => None,
    }
}

pub open spec fn strings_view(v: Seq<String>) -> Seq<Seq<char>> {
    v.map_values(|s: String| s@)
}

impl View for FileSig {
    type V = SigModel;

    open spec fn view(&self) -> SigModel {
        SigModel {
            name: self.name@,
            exts: strings_view(self.exts@),
            header: self.header@,
            footer: opt_bytes(self.footer),
            min_size: self.min_size,
            enabled: self.enabled,
        }
    }
}

/// A carved file as reported to the user.
#[derive(Clone)]
pub struct CarvedFileInfo {
    pub offset: u64,
    pub size: u64,
    pub sig_name: String,
    pub ext: String,
}

pub struct CarvedModel {
    pub offset: u64,
    pub size: u64,
    pub sig_name: Seq<char>,
    pub ext: Seq<char>,
}

impl View for CarvedFileInfo {
    type V = CarvedModel;

    open spec fn view(&self) -> CarvedModel {
        CarvedModel { offset: self.offset, size: self.size, sig_name: self.sig_name@, ext: self.ext@ }
    }
}

pub open spec fn carved_view(v: Seq<CarvedFileInfo>) -> Seq<CarvedModel> {
    v.map_values(|c: CarvedFileInfo| c@)
}

/// What the scan looks for: one enabled signature.
pub struct CarveTarget {
    pub header: Vec<u8>,
    pub footer: Option<Vec<u8>>,
    pub ext: String,
}

pub struct TargetModel {
    pub header: Seq<u8>,
    pub footer: Option<Seq<u8>>,
    pub ext: Seq<char>,
}

impl View for CarveTarget {
    type V = TargetModel;

    open spec fn view(&self) -> TargetModel {
        TargetModel { header: self.header@, footer: opt_bytes(self.footer), ext: self.ext@ }
    }
}

/// A header seen at absolute offset `start`, for the target at index `target`,
/// whose end is not settled yet.
#[derive(Clone, Copy)]
pub struct Candidate {
    pub start: u64,
    pub target: usize,
}

/// A byte range of the source to be written out as a recovered file; `index`
/// counts the files found before it.
pub struct Extraction {
    pub offset: u64,
    pub size: u64,
    pub index: u64,
    pub ext: String,
}

pub struct ExtractionModel {
    pub offset: u64,
    pub size: u64,
    pub index: u64,
    pub ext: Seq<char>,
}

impl View for Extraction {
    type V = ExtractionModel;

    open spec fn view(&self) -> ExtractionModel {
        ExtractionModel { offset: self.offset, size: self.size, index: self.index, ext: self.ext@ }
    }
}

pub open spec fn extractions_view(v: Seq<Extraction>) -> Seq<ExtractionModel> {
    v.map_values(|e: Extraction| e@)
}

/// The state of a carving pass over one source.
///
/// `read` is everything read so far; `tail` holds its last `keep` bytes
/// (all of it while it is shorter), so that a header or footer split across
/// two reads is still found. `opened` is every candidate opened so far,
/// `carved` every one carved so far, in the order of the extractions.
pub struct CarveScan {
    pub targets: Vec<CarveTarget>,
    pub candidates: Vec<Candidate>,
    pub scanned: u64,
    pub files_found: u64,
    pub keep: usize,
    pub tail: Vec<u8>,
    pub read: Ghost<Seq<u8>>,
    pub opened: Ghost<Seq<Candidate>>,
    pub carved: Ghost<Seq<Candidate>>,
}

// ---------------------------------------------------------------------------
// Specification of the carving decisions
// ---------------------------------------------------------------------------

/// The extension a carved file gets: the signature's first one, or `bin`.
pub open spec fn ext_of(exts: Seq<Seq<char>>) -> Seq<char> {
    if exts.len() > 0 {
        exts[0]
    } else {
        "bin"@
    }
}

pub open spec fn target_of(s: SigModel) -> TargetModel {
    TargetModel { header: s.header, footer: s.footer, ext: ext_of(s.exts) }
}

/// The targets of the enabled signatures, in table order.
pub open spec fn targets_for(sigs: Seq<SigModel>) -> Seq<TargetModel>
    decreases sigs.len(),
{
    if sigs.len() == 0 {
        Seq::empty()
    } else {
        let prev = targets_for(sigs.drop_last());
        if sigs.last().enabled {
            prev.push(target_of(sigs.last()))
        } else {
            prev
        }
    }
}

/// The length of a target's footer, or 0 when it has none.
pub open spec fn footer_len(t: TargetModel) -> nat {
    match t.footer {
        Some(f) => f.len(),
        None => 0,
    }
}

/// The longest header or footer among the targets.
pub open spec fn longest_pattern(ts: Seq<TargetModel>) -> nat
    decreases ts.len(),
{
    if ts.len() == 0 {
        0
    } else {
        let prev = longest_pattern(ts.drop_last());
        let h = ts.last().header.len();
        let f = footer_len(ts.last());
        let m = if h < f {
            f
        } else {
            h
        };
        if prev < m {
            m
        } else {
            prev
        }
    }
}

/// `pat` lies in `data` at position `p`.
pub open spec fn matches_at(data: Seq<u8>, pat: Seq<u8>, p: int) -> bool {
    0 <= p && p + pat.len() <= data.len() && data.subrange(p, p + pat.len()) == pat
}

/// The positions below `k` where `pat` lies in `data` and ends after the
/// first `lo` bytes, ascending.
pub open spec fn hits_after(data: Seq<u8>, pat: Seq<u8>, lo: int, k: int) -> Seq<int>
    decreases k,
{
    if k <= 0 {
        Seq::empty()
    } else if matches_at(data, pat, k - 1) && k - 1 + pat.len() > lo {
        hits_after(data, pat, lo, k - 1).push(k - 1)
    } else {
        hits_after(data, pat, lo, k - 1)
    }
}

/// Every position where a (non-empty) header lies in `data` and ends after
/// the first `lo` bytes, ascending.
pub open spec fn header_hits(data: Seq<u8>, hdr: Seq<u8>, lo: int) -> Seq<int> {
    if hdr.len() == 0 {
        Seq::empty()
    } else {
        hits_after(data, hdr, lo, data.len() as int)
    }
}

/// The first position at or after `p` where `pat` lies in `data`.
pub open spec fn first_hit_from(data: Seq<u8>, pat: Seq<u8>, p: int) -> Option<int>
    decreases data.len() + 1 - p,
{
    if p < 0 || p + pat.len() > data.len() {
        None
    } else if matches_at(data, pat, p) {
        Some(p)
    } else {
        first_hit_from(data, pat, p + 1)
    }
}

/// Where the footer of candidate `c` first lies in `data` after its header,
/// for a target that has a non-empty footer.
pub open spec fn footer_at(data: Seq<u8>, c: Candidate, tg: TargetModel) -> Option<int> {
    match tg.footer {
        Some(f) => if f.len() == 0 {
            None
        } else {
            first_hit_from(data, f, c.start + tg.header.len())
        },
        None => None,
    }
}

pub open spec fn hit_to_candidate(t: int) -> spec_fn(int) -> Candidate {
    |p: int| Candidate { start: p as u64, target: t as usize }
}

/// The candidates that the first `t` targets' headers open once `data` has
/// been read, of which the first `lo` bytes were read before: one for each
/// header occurrence that ends after them, target by target, then by position.
pub open spec fn new_candidates(targets: Seq<TargetModel>, data: Seq<u8>, lo: int, t: int) -> Seq<
    Candidate,
>
    decreases t,
{
    if t <= 0 {
        Seq::empty()
    } else {
        new_candidates(targets, data, lo, t - 1) + header_hits(
            data,
            targets[t - 1].header,
            lo,
        ).map_values(hit_to_candidate(t - 1))
    }
}

/// `x + 1` as a `u64` addition that wraps around.
pub open spec fn next_count(x: u64) -> u64 {
    if x == u64::MAX {
        0
    } else {
        (x + 1) as u64
    }
}

/// The size to carve for candidate `c` once `data` has been read, or `None`
/// while it stays open: up to the end of the first footer that follows its
/// header, else everything read from its start once that spans more than
/// [`SIZE_CAP`] bytes.
pub open spec fn settle(c: Candidate, tg: TargetModel, data: Seq<u8>) -> Option<u64> {
    match footer_at(data, c, tg) {
        Some(q) => Some((q + tg.footer->0.len() - c.start) as u64),
        None => if data.len() - c.start > SIZE_CAP {
            Some((data.len() - c.start) as u64)
        } else {
            None
        },
    }
}

/// Settles the candidates in order: the extractions made, the candidates kept
/// open, and the file counter afterwards.
pub open spec fn settle_all(
    cands: Seq<Candidate>,
    targets: Seq<TargetModel>,
    data: Seq<u8>,
    found: u64,
) -> (Seq<ExtractionModel>, Seq<Candidate>, u64)
    decreases cands.len(),
{
    if cands.len() == 0 {
        (Seq::empty(), Seq::empty(), found)
    } else {
        let prev = settle_all(cands.drop_last(), targets, data, found);
        let c = cands.last();
        let tg = targets[c.target as int];
        match settle(c, tg, data) {
            Some(size) => (
                prev.0.push(ExtractionModel { offset: c.start, size, index: prev.2, ext: tg.ext }),
                prev.1,
                next_count(prev.2),
            ),
            None => (prev.0, prev.1.push(c), prev.2),
        }
    }
}

/// What is carved from the candidates still open when the source ends: each
/// spans to the end of what was read, unless it is empty.
pub open spec fn finish_all(
    cands: Seq<Candidate>,
    targets: Seq<TargetModel>,
    scanned: nat,
    found: u64,
) -> (Seq<ExtractionModel>, u64)
    decreases cands.len(),
{
    if cands.len() == 0 {
        (Seq::empty(), found)
    } else {
        let prev = finish_all(cands.drop_last(), targets, scanned, found);
        let c = cands.last();
        let size = scanned - c.start;
        if size > 0 {
            (
                prev.0.push(
                    ExtractionModel {
                        offset: c.start,
                        size: size as u64,
                        index: prev.1,
                        ext: targets[c.target as int].ext,
                    },
                ),
                next_count(prev.1),
            )
        } else {
            prev
        }
    }
}

/// The candidates that [`settle_all`] carves, in order.
pub open spec fn settled_cands(cands: Seq<Candidate>, targets: Seq<TargetModel>, data: Seq<u8>) -> Seq<
    Candidate,
>
    decreases cands.len(),
{
    if cands.len() == 0 {
        Seq::empty()
    } else {
        let prev = settled_cands(cands.drop_last(), targets, data);
        if settle(cands.last(), targets[cands.last().target as int], data) is Some {
            prev.push(cands.last())
        } else {
            prev
        }
    }
}

/// The candidates that [`finish_all`] carves, in order.
pub open spec fn finished_cands(cands: Seq<Candidate>, scanned: nat) -> Seq<Candidate>
    decreases cands.len(),
{
    if cands.len() == 0 {
        Seq::empty()
    } else {
        let prev = finished_cands(cands.drop_last(), scanned);
        if scanned - cands.last().start > 0 {
            prev.push(cands.last())
        } else {
            prev
        }
    }
}

/// The last `k` bytes of `s`, or all of it when it is shorter.
pub open spec fn last_bytes(s: Seq<u8>, k: nat) -> Seq<u8> {
    if s.len() <= k {
        s
    } else {
        s.skip(s.len() - k)
    }
}

/// A candidate still open after `read`: its header lies there and no footer
/// follows it yet.
pub open spec fn open_in(read: Seq<u8>, c: Candidate, tg: TargetModel) -> bool {
    matches_at(read, tg.header, c.start as int) && footer_at(read, c, tg) is None
}

impl CarveScan {
    pub open spec fn target_models(&self) -> Seq<TargetModel> {
        self.targets@.map_values(|t: CarveTarget| t@)
    }

    /// The candidates opened so far are exactly the occurrences of the
    /// targets' (non-empty) headers in everything read.
    pub open spec fn opened_all_headers(&self) -> bool {
        &&& forall|i: int|
            0 <= i < self.opened@.len() ==> (#[trigger] self.opened@[i]).target < self.targets@.len()
        &&& forall|c: Candidate|
            c.target < self.targets@.len() ==> (#[trigger] self.opened@.contains(c) <==> {
                &&& self.targets@[c.target as int]@.header.len() > 0
                &&& matches_at(self.read@, self.targets@[c.target as int]@.header, c.start as int)
            })
    }

    /// `read` has `scanned` bytes and ends with `tail`; `keep` bytes cover
    /// every header and footer; the candidates opened are exactly the headers
    /// read, each opened once, and each of them has been carved once or is
    /// still open, never both; each open candidate names a target, starts at
    /// that target's header and has no footer yet.
    pub open spec fn wf(&self) -> bool {
        &&& self.read@.len() == self.scanned
        &&& self.opened_all_headers()
        &&& forall|c: Candidate|
            #[trigger] self.opened@.contains(c) <==> (self.carved@.contains(c)
                || self.candidates@.contains(c))
        &&& self.opened@.no_duplicates()
        &&& self.carved@.no_duplicates()
        &&& self.candidates@.no_duplicates()
        &&& forall|c: Candidate| #[trigger] self.carved@.contains(c) ==> !self.candidates@.contains(c)
        &&& self.tail@ == last_bytes(self.read@, self.keep as nat)
        &&& forall|t: int|
            0 <= t < self.targets@.len() ==> {
                &&& (#[trigger] self.targets@[t]).header@.len() <= self.keep
                &&& footer_len(self.targets@[t]@) <= self.keep
            }
        &&& forall|i: int|
            0 <= i < self.candidates@.len() ==> {
                &&& (#[trigger] self.candidates@[i]).target < self.targets@.len()
                &&& open_in(
                    self.read@,
                    self.candidates@[i],
                    self.targets@[self.candidates@[i].target as int]@,
                )
            }
    }
}

// ---------------------------------------------------------------------------
// Lemmas
// ---------------------------------------------------------------------------

proof fn lemma_hits_after(data: Seq<u8>, pat: Seq<u8>, lo: int, k: int)
    ensures
        forall|i: int|
            0 <= i < hits_after(data, pat, lo, k).len() ==> {
                &&& 0 <= #[trigger] hits_after(data, pat, lo, k)[i] < k
                &&& matches_at(data, pat, hits_after(data, pat, lo, k)[i])
                &&& hits_after(data, pat, lo, k)[i] + pat.len() > lo
            },
        forall|p: int|
            0 <= p < k && matches_at(data, pat, p) && p + pat.len() > lo ==> hits_after(
                data,
                pat,
                lo,
                k,
            ).contains(p),
    decreases k,
{
    if k > 0 {
        lemma_hits_after(data, pat, lo, k - 1);
        let prev = hits_after(data, pat, lo, k - 1);
        let cur = hits_after(data, pat, lo, k);
        assert forall|i: int| 0 <= i < cur.len() implies {
            &&& 0 <= #[trigger] cur[i] < k
            &&& matches_at(data, pat, cur[i])
            &&& cur[i] + pat.len() > lo
        } by {
            if i < prev.len() {
                assert(cur[i] == prev[i]);
            }
        }
        assert forall|p: int|
            0 <= p < k && matches_at(data, pat, p) && p + pat.len() > lo implies cur.contains(p) by {
            if p < k - 1 {
                let j = choose|j: int| 0 <= j < prev.len() && prev[j] == p;
                assert(cur[j] == p);
            } else {
                assert(cur[cur.len() - 1] == p);
            }
        }
    }
}

proof fn lemma_no_hits_before(data: Seq<u8>, pat: Seq<u8>, lo: int, k: int)
    requires
        k <= 0 || k - 1 + pat.len() <= lo,
    ensures
        hits_after(data, pat, lo, k) == Seq::<int>::empty(),
    decreases k,
{
    if k > 0 {
        lemma_no_hits_before(data, pat, lo, k - 1);
    }
}

proof fn lemma_first_hit_from(data: Seq<u8>, pat: Seq<u8>, p: int)
    ensures
        first_hit_from(data, pat, p) matches Some(k) ==> {
            &&& k >= p
            &&& matches_at(data, pat, k)
            &&& forall|j: int| p <= j < k ==> !matches_at(data, pat, j)
        },
        first_hit_from(data, pat, p) is None && p >= 0 ==> forall|j: int|
            j >= p ==> !matches_at(data, pat, j),
    decreases data.len() + 1 - p,
{
    if p >= 0 && p + pat.len() <= data.len() && !matches_at(data, pat, p) {
        lemma_first_hit_from(data, pat, p + 1);
    }
}

proof fn lemma_skip_matches(s: Seq<u8>, pat: Seq<u8>, b: int, q: int)
    requires
        0 <= b <= s.len(),
        0 <= q,
    ensures
        matches_at(s.skip(b), pat, q) == matches_at(s, pat, b + q),
{
    if q + pat.len() <= s.len() - b {
        assert(s.skip(b).subrange(q, q + pat.len()) =~= s.subrange(b + q, b + q + pat.len()));
    }
}

proof fn lemma_prefix_matches(r: Seq<u8>, c: Seq<u8>, pat: Seq<u8>, p: int)
    ensures
        matches_at(r, pat, p) ==> matches_at(r + c, pat, p),
        p + pat.len() <= r.len() ==> (matches_at(r + c, pat, p) == matches_at(r, pat, p)),
{
    if 0 <= p && p + pat.len() <= r.len() {
        assert((r + c).subrange(p, p + pat.len()) =~= r.subrange(p, p + pat.len()));
    }
}

proof fn lemma_skip_ahead(s: Seq<u8>, pat: Seq<u8>, a: int, b: int)
    requires
        0 <= a <= b,
        forall|p: int| a <= p < b ==> !matches_at(s, pat, p),
    ensures
        first_hit_from(s, pat, a) == first_hit_from(s, pat, b),
    decreases b - a,
{
    if a < b && a + pat.len() <= s.len() {
        lemma_skip_ahead(s, pat, a + 1, b);
    }
}

proof fn lemma_shift(s: Seq<u8>, pat: Seq<u8>, b: int, x: int)
    requires
        0 <= b <= s.len(),
        0 <= x,
    ensures
        first_hit_from(s, pat, x + b) == match first_hit_from(s.skip(b), pat, x) {
            Some(k) => Some(k + b),
            None => None,
        },
    decreases s.len() - b + 1 - x,
{
    if x + pat.len() <= s.len() - b {
        lemma_skip_matches(s, pat, b, x);
        if !matches_at(s, pat, x + b) {
            lemma_shift(s, pat, b, x + 1);
        }
    }
}

/// Looking for a footer from `from` in everything read equals looking in
/// the window that starts `base` bytes in, when no footer lies in the part
/// of `read` before the window.
proof fn lemma_window_search(read: Seq<u8>, chunk: Seq<u8>, f: Seq<u8>, base: int, keep: int, from: int)
    requires
        0 <= base <= read.len(),
        base == 0 || base + keep == read.len(),
        f.len() <= keep,
        0 <= from,
        from >= base || first_hit_from(read, f, from) is None,
    ensures
        ({
            let s2 = read + chunk;
            let fw = if from >= base {
                from - base
            } else {
                0
            };
            first_hit_from(s2, f, from) == match first_hit_from(s2.skip(base), f, fw) {
                Some(k) => Some(k + base),
                None => None,
            }
        }),
{
    let s2 = read + chunk;
    if from >= base {
        lemma_shift(s2, f, base, from - base);
    } else {
        lemma_first_hit_from(read, f, from);
        assert forall|p: int| from <= p < base implies !matches_at(s2, f, p) by {
            lemma_prefix_matches(read, chunk, f, p);
        }
        lemma_skip_ahead(s2, f, from, base);
        lemma_shift(s2, f, base, 0);
    }
}

proof fn lemma_new_candidates(targets: Seq<TargetModel>, data: Seq<u8>, lo: int, t: int)
    requires
        t <= targets.len(),
        t <= usize::MAX,
        data.len() <= u64::MAX,
    ensures
        forall|i: int|
            0 <= i < new_candidates(targets, data, lo, t).len() ==> {
                let c = #[trigger] new_candidates(targets, data, lo, t)[i];
                &&& 0 <= c.target < t
                &&& matches_at(data, targets[c.target as int].header, c.start as int)
                &&& c.start + targets[c.target as int].header.len() > lo
                &&& targets[c.target as int].header.len() > 0
            },
        forall|u: int, p: int|
            0 <= u < t && targets[u].header.len() > 0 && matches_at(data, targets[u].header, p)
                && p + targets[u].header.len() > lo ==> new_candidates(targets, data, lo, t).contains(
                Candidate { start: p as u64, target: u as usize },
            ),
    decreases t,
{
    if t > 0 {
        lemma_new_candidates(targets, data, lo, t - 1);
        let hdr = targets[t - 1].header;
        lemma_hits_after(data, hdr, lo, data.len() as int);
        let prev = new_candidates(targets, data, lo, t - 1);
        let hs = header_hits(data, hdr, lo);
        let add = hs.map_values(hit_to_candidate(t - 1));
        let cur = new_candidates(targets, data, lo, t);
        assert(cur == prev + add);
        assert forall|i: int| 0 <= i < cur.len() implies {
            let c = #[trigger] cur[i];
            &&& 0 <= c.target < t
            &&& matches_at(data, targets[c.target as int].header, c.start as int)
            &&& c.start + targets[c.target as int].header.len() > lo
            &&& targets[c.target as int].header.len() > 0
        } by {
            if i >= prev.len() {
                let j = i - prev.len();
                assert(add[j] == cur[i]);
                assert(0 <= hs[j] < data.len());
                assert(hdr.len() > 0);
            } else {
                assert(prev[i] == cur[i]);
            }
        }
        assert forall|u: int, p: int|
            0 <= u < t && targets[u].header.len() > 0 && matches_at(data, targets[u].header, p)
                && p + targets[u].header.len() > lo implies cur.contains(
            Candidate { start: p as u64, target: u as usize },
        ) by {
            let cp = Candidate { start: p as u64, target: u as usize };
            if u < t - 1 {
                let j = choose|j: int| 0 <= j < prev.len() && prev[j] == cp;
                assert(cur[j] == cp);
            } else {
                assert(hs.contains(p));
                let j = choose|j: int| 0 <= j < hs.len() && hs[j] == p;
                assert(add[j] == cp);
                assert(cur[prev.len() + j] == cp);
            }
        }
    }
}

proof fn lemma_settle_all_kept(
    cands: Seq<Candidate>,
    targets: Seq<TargetModel>,
    data: Seq<u8>,
    found: u64,
)
    ensures
        forall|i: int|
            0 <= i < settle_all(cands, targets, data, found).1.len() ==> {
                &&& cands.contains(#[trigger] settle_all(cands, targets, data, found).1[i])
                &&& settle(
                    settle_all(cands, targets, data, found).1[i],
                    targets[settle_all(cands, targets, data, found).1[i].target as int],
                    data,
                ) is None
            },
    decreases cands.len(),
{
    if cands.len() > 0 {
        lemma_settle_all_kept(cands.drop_last(), targets, data, found);
        let r = settle_all(cands, targets, data, found);
        assert forall|i: int| 0 <= i < r.1.len() implies {
            &&& cands.contains(#[trigger] r.1[i])
            &&& settle(r.1[i], targets[r.1[i].target as int], data) is None
        } by {
            let prev = settle_all(cands.drop_last(), targets, data, found);
            if i < prev.1.len() {
                assert(r.1[i] == prev.1[i]);
                let j = choose|j: int| 0 <= j < cands.drop_last().len() && cands.drop_last()[j] == prev.1[i];
                assert(cands[j] == r.1[i]);
            } else {
                assert(r.1[i] == cands[cands.len() - 1]);
            }
        }
    }
}

/// After a chunk, the candidates opened so far together with those it opens
/// are exactly the header occurrences in everything read.
proof fn lemma_opened_grows(sc: &CarveScan, read: Seq<u8>, chunk: Seq<u8>)
    requires
        sc.opened_all_headers(),
        sc.read@ == read,
        sc.targets@.len() <= usize::MAX,
        read.len() + chunk.len() <= u64::MAX,
    ensures
        ({
            let tms = sc.target_models();
            let opened = sc.opened@ + new_candidates(tms, read + chunk, read.len() as int, tms.len() as int);
            &&& forall|i: int| 0 <= i < opened.len() ==> (#[trigger] opened[i]).target < tms.len()
            &&& forall|c: Candidate|
                c.target < tms.len() ==> (#[trigger] opened.contains(c) <==> {
                    &&& tms[c.target as int].header.len() > 0
                    &&& matches_at(read + chunk, tms[c.target as int].header, c.start as int)
                })
        }),
{
    let tms = sc.target_models();
    let nc = new_candidates(tms, read + chunk, read.len() as int, tms.len() as int);
    let opened = sc.opened@ + nc;
    lemma_new_candidates(tms, read + chunk, read.len() as int, tms.len() as int);
    assert forall|i: int| 0 <= i < opened.len() implies (#[trigger] opened[i]).target < tms.len() by {
        if i < sc.opened@.len() {
            assert(opened[i] == sc.opened@[i]);
        } else {
            assert(opened[i] == nc[i - sc.opened@.len()]);
        }
    }
    assert forall|c: Candidate| c.target < tms.len() implies (#[trigger] opened.contains(c) <==> {
        &&& tms[c.target as int].header.len() > 0
        &&& matches_at(read + chunk, tms[c.target as int].header, c.start as int)
    }) by {
        let h = tms[c.target as int].header;
        assert(tms[c.target as int] == sc.targets@[c.target as int]@);
        lemma_prefix_matches(read, chunk, h, c.start as int);
        if opened.contains(c) {
            let i = choose|i: int| 0 <= i < opened.len() && opened[i] == c;
            if i < sc.opened@.len() {
                assert(sc.opened@[i] == c);
                assert(sc.opened@.contains(c));
            } else {
                assert(nc[i - sc.opened@.len()] == c);
            }
        }
        if h.len() > 0 && matches_at(read + chunk, h, c.start as int) {
            if c.start + h.len() > read.len() {
                assert(nc.contains(Candidate { start: c.start as int as u64, target: c.target as int as usize }));
                let j = choose|j: int| 0 <= j < nc.len() && nc[j] == c;
                assert(opened[sc.opened@.len() + j] == c);
            } else {
                assert(sc.opened@.contains(c));
                let j = choose|j: int| 0 <= j < sc.opened@.len() && sc.opened@[j] == c;
                assert(opened[j] == c);
            }
        }
    }
}

proof fn lemma_contains_concat(a: Seq<Candidate>, b: Seq<Candidate>, c: Candidate)
    ensures
        (a + b).contains(c) <==> (a.contains(c) || b.contains(c)),
{
    if (a + b).contains(c) {
        let i = choose|i: int| 0 <= i < (a + b).len() && (a + b)[i] == c;
        if i < a.len() {
            assert(a[i] == c);
        } else {
            assert(b[i - a.len()] == c);
        }
    }
    if a.contains(c) {
        let i = choose|i: int| 0 <= i < a.len() && a[i] == c;
        assert((a + b)[i] == c);
    }
    if b.contains(c) {
        let i = choose|i: int| 0 <= i < b.len() && b[i] == c;
        assert((a + b)[a.len() + i] == c);
    }
}

/// Settling splits the candidates into those carved and those kept open.
proof fn lemma_settle_partition(cands: Seq<Candidate>, targets: Seq<TargetModel>, data: Seq<u8>, found: u64)
    ensures
        forall|c: Candidate|
            #[trigger] cands.contains(c) <==> (settled_cands(cands, targets, data).contains(c)
                || settle_all(cands, targets, data, found).1.contains(c)),
    decreases cands.len(),
{
    if cands.len() > 0 {
        let init = cands.drop_last();
        lemma_settle_partition(init, targets, data, found);
        assert forall|c: Candidate|
            #[trigger] cands.contains(c) <==> (settled_cands(cands, targets, data).contains(c)
                || settle_all(cands, targets, data, found).1.contains(c)) by {
            assert(cands =~= init.push(cands.last()));
            lemma_contains_concat(init, seq![cands.last()], c);
            lemma_contains_concat(settled_cands(init, targets, data), seq![cands.last()], c);
            lemma_contains_concat(settle_all(init, targets, data, found).1, seq![cands.last()], c);
            assert(init.push(cands.last()) =~= init + seq![cands.last()]);
            assert(settled_cands(init, targets, data).push(cands.last()) =~= settled_cands(
                init,
                targets,
                data,
            ) + seq![cands.last()]);
            assert(settle_all(init, targets, data, found).1.push(cands.last()) =~= settle_all(
                init,
                targets,
                data,
                found,
            ).1 + seq![cands.last()]);
            if seq![cands.last()].contains(c) {
                assert(seq![cands.last()][0] == cands.last());
            }
            if c == cands.last() {
                assert(seq![cands.last()][0] == c);
            }
        }
    }
}

/// When the source ends, every open candidate starts before its end, so
/// all of them are carved.
proof fn lemma_finish_takes_all(cands: Seq<Candidate>, scanned: nat)
    requires
        forall|j: int| 0 <= j < cands.len() ==> (#[trigger] cands[j]).start < scanned,
    ensures
        finished_cands(cands, scanned) == cands,
    decreases cands.len(),
{
    if cands.len() > 0 {
        lemma_finish_takes_all(cands.drop_last(), scanned);
        assert(cands.drop_last().push(cands.last()) =~= cands);
    }
}

/// Two sequences without duplicates and without a common element join into
/// one without duplicates.
proof fn lemma_concat_no_dup(a: Seq<Candidate>, b: Seq<Candidate>)
    requires
        a.no_duplicates(),
        b.no_duplicates(),
        forall|c: Candidate| #[trigger] a.contains(c) ==> !b.contains(c),
    ensures
        (a + b).no_duplicates(),
{
    assert forall|i: int, j: int| 0 <= i < a.len() && 0 <= j < b.len() implies a[i] != b[j] by {
        assert(a.contains(a[i]));
        assert(b.contains(b[j]));
    }
    vstd::seq_lib::lemma_no_dup_in_concat(a, b);
}

proof fn lemma_hits_after_sorted(data: Seq<u8>, pat: Seq<u8>, lo: int, k: int)
    ensures
        forall|i: int, j: int|
            0 <= i < j < hits_after(data, pat, lo, k).len() ==> #[trigger] hits_after(data, pat, lo, k)[i]
                < #[trigger] hits_after(data, pat, lo, k)[j],
    decreases k,
{
    if k > 0 {
        lemma_hits_after_sorted(data, pat, lo, k - 1);
        lemma_hits_after(data, pat, lo, k - 1);
        let prev = hits_after(data, pat, lo, k - 1);
        let cur = hits_after(data, pat, lo, k);
        assert forall|i: int, j: int| 0 <= i < j < cur.len() implies #[trigger] cur[i] < #[trigger] cur[j] by {
            assert(cur[i] == prev[i]);
            if j < prev.len() {
                assert(cur[j] == prev[j]);
            }
        }
    }
}

/// No candidate is opened twice by one chunk.
proof fn lemma_new_candidates_no_dup(targets: Seq<TargetModel>, data: Seq<u8>, lo: int, t: int)
    requires
        t <= targets.len(),
        t <= usize::MAX,
        data.len() <= u64::MAX,
    ensures
        new_candidates(targets, data, lo, t).no_duplicates(),
    decreases t,
{
    if t > 0 {
        lemma_new_candidates_no_dup(targets, data, lo, t - 1);
        lemma_new_candidates(targets, data, lo, t - 1);
        let hdr = targets[t - 1].header;
        lemma_hits_after(data, hdr, lo, data.len() as int);
        lemma_hits_after_sorted(data, hdr, lo, data.len() as int);
        let prev = new_candidates(targets, data, lo, t - 1);
        let hs = header_hits(data, hdr, lo);
        let add = hs.map_values(hit_to_candidate(t - 1));
        assert forall|i: int, j: int| 0 <= i < add.len() && 0 <= j < add.len() && i != j implies add[i]
            != add[j] by {
            assert(0 <= hs[i] < data.len());
            assert(0 <= hs[j] < data.len());
            if i < j {
                assert(hs[i] < hs[j]);
            } else {
                assert(hs[j] < hs[i]);
            }
        }
        assert forall|c: Candidate| #[trigger] prev.contains(c) implies !add.contains(c) by {
            let i = choose|i: int| 0 <= i < prev.len() && prev[i] == c;
            assert(prev[i].target < t - 1);
            if add.contains(c) {
                let j = choose|j: int| 0 <= j < add.len() && add[j] == c;
                assert(add[j].target == t - 1);
            }
        }
        lemma_concat_no_dup(prev, add);
    }
}

/// Settling candidates without duplicates carves and keeps each of them
/// once, never both.
proof fn lemma_settle_no_dup(cands: Seq<Candidate>, targets: Seq<TargetModel>, data: Seq<u8>, found: u64)
    requires
        cands.no_duplicates(),
    ensures
        settled_cands(cands, targets, data).no_duplicates(),
        settle_all(cands, targets, data, found).1.no_duplicates(),
        forall|c: Candidate|
            #[trigger] settled_cands(cands, targets, data).contains(c) ==> !settle_all(
                cands,
                targets,
                data,
                found,
            ).1.contains(c),
    decreases cands.len(),
{
    if cands.len() > 0 {
        let init = cands.drop_last();
        let last = cands.last();
        assert(init.no_duplicates());
        lemma_settle_no_dup(init, targets, data, found);
        lemma_settle_partition(init, targets, data, found);
        let sc0 = settled_cands(init, targets, data);
        let kp0 = settle_all(init, targets, data, found).1;
        assert(!init.contains(last)) by {
            if init.contains(last) {
                let i = choose|i: int| 0 <= i < init.len() && init[i] == last;
                assert(cands[i] == cands[cands.len() - 1]);
            }
        }
        assert(!sc0.contains(last));
        assert(!kp0.contains(last));
        let one = seq![last];
        assert(one.no_duplicates());
        assert forall|c: Candidate| #[trigger] sc0.contains(c) implies !one.contains(c) by {
            if one.contains(c) {
                assert(one[0] == c);
            }
        }
        assert forall|c: Candidate| #[trigger] kp0.contains(c) implies !one.contains(c) by {
            if one.contains(c) {
                assert(one[0] == c);
            }
        }
        lemma_concat_no_dup(sc0, one);
        lemma_concat_no_dup(kp0, one);
        assert(sc0.push(last) =~= sc0 + one);
        assert(kp0.push(last) =~= kp0 + one);
        let sc = settled_cands(cands, targets, data);
        let kp = settle_all(cands, targets, data, found).1;
        assert forall|c: Candidate| #[trigger] sc.contains(c) implies !kp.contains(c) by {
            lemma_contains_concat(sc0, one, c);
            lemma_contains_concat(kp0, one, c);
            if one.contains(c) {
                assert(one[0] == c);
            }
        }
    }
}

proof fn lemma_longest_pattern(ts: Seq<TargetModel>)
    ensures
        forall|t: int|
            0 <= t < ts.len() ==> (#[trigger] ts[t]).header.len() <= longest_pattern(ts)
                && footer_len(ts[t]) <= longest_pattern(ts),
    decreases ts.len(),
{
    if ts.len() > 0 {
        lemma_longest_pattern(ts.drop_last());
        assert forall|t: int| 0 <= t < ts.len() implies (#[trigger] ts[t]).header.len()
            <= longest_pattern(ts) && footer_len(ts[t]) <= longest_pattern(ts) by {
            if t < ts.len() - 1 {
                assert(ts[t] == ts.drop_last()[t]);
            }
        }
    }
}

// ---------------------------------------------------------------------------
// Executable carving
// ---------------------------------------------------------------------------

/// Whether `pat` lies in `data` at position `p`.
pub fn matches_at_exec(data: &[u8], pat: &Vec<u8>, p: usize) -> (b: bool)
    ensures
        b == matches_at(data@, pat@, p as int),
{
    let n = data.len();
    let m = pat.len();
    if p > n || m > n - p {
        return false;
    }
    let mut k: usize = 0;
    while k < m
        invariant
            n == data@.len(),
            m == pat@.len(),
            p + m <= n,
            k <= m,
            forall|j: int| 0 <= j < k ==> data@[p + j] == pat@[j],
        decreases m - k,
    {
        if data[p + k] != pat[k] {
            assert(data@.subrange(p as int, p + m)[k as int] != pat@[k as int]);
            return false;
        }
        k += 1;
    }
    assert(data@.subrange(p as int, p + m) =~= pat@);
    true
}

/// Where `pat` first lies in `data`, searching from position `from`.
pub fn first_hit_from_exec(data: &[u8], pat: &Vec<u8>, from: usize) -> (r: Option<usize>)
    requires
        pat@.len() > 0,
    ensures
        r matches Some(p) ==> first_hit_from(data@, pat@, from as int) == Some(p as int),
        r is None ==> first_hit_from(data@, pat@, from as int) is None,
{
    let n = data.len();
    let m = pat.len();
    if m > n || from > n - m {
        return None;
    }
    let mut p: usize = from;
    while p <= n - m
        invariant
            n == data@.len(),
            m == pat@.len(),
            0 < m <= n,
            from <= p <= n - m + 1,
            first_hit_from(data@, pat@, from as int) == first_hit_from(data@, pat@, p as int),
        decreases n - m + 1 - p,
    {
        if matches_at_exec(data, pat, p) {
            return Some(p);
        }
        p += 1;
    }
    None
}

fn copy_opt_bytes(o: &Option<Vec<u8>>) -> (r: Option<Vec<u8>>)
    ensures
        opt_bytes(r) == opt_bytes(*o),
{
    match o {
        Some(v) => Some(slice_copy(v.as_slice())),
        None => None,
    }
}

/// `a` followed by `b`.
fn join_bytes(a: &Vec<u8>, b: &[u8]) -> (r: Vec<u8>)
    requires
        a@.len() + b@.len() <= usize::MAX,
    ensures
        r@ == a@ + b@,
{
    let mut r = slice_copy(a.as_slice());
    let n = b.len();
    let mut i: usize = 0;
    while i < n
        invariant
            n == b@.len(),
            i <= n,
            r@ == a@ + b@.take(i as int),
        decreases n - i,
    {
        r.push(b[i]);
        assert(b@.take(i + 1) =~= b@.take(i as int).push(b@[i as int]));
        assert(r@ =~= a@ + b@.take(i + 1));
        i += 1;
    }
    assert(b@.take(n as int) =~= b@);
    r
}

/// The bytes of `w` from position `from` on.
fn skip_bytes(w: &Vec<u8>, from: usize) -> (r: Vec<u8>)
    requires
        from <= w@.len(),
    ensures
        r@ == w@.skip(from as int),
{
    let mut r: Vec<u8> = Vec::new();
    let n = w.len();
    let mut i: usize = from;
    while i < n
        invariant
            n == w@.len(),
            from <= i <= n,
            r@ == w@.subrange(from as int, i as int),
        decreases n - i,
    {
        r.push(w[i]);
        assert(w@.subrange(from as int, i + 1) =~= w@.subrange(from as int, i as int).push(
            w@[i as int],
        ));
        i += 1;
    }
    assert(w@.subrange(from as int, n as int) =~= w@.skip(from as int));
    r
}

/// The longest header or footer among `targets`.
fn longest(targets: &Vec<CarveTarget>) -> (r: usize)
    ensures
        r == longest_pattern(targets@.map_values(|t: CarveTarget| t@)),
{
    let ghost tms = targets@.map_values(|t: CarveTarget| t@);
    let n = targets.len();
    let mut r: usize = 0;
    let mut i: usize = 0;
    assert(tms.take(0) =~= Seq::<TargetModel>::empty());
    while i < n
        invariant
            n == targets@.len(),
            i <= n,
            tms == targets@.map_values(|t: CarveTarget| t@),
            r == longest_pattern(tms.take(i as int)),
        decreases n - i,
    {
        assert(tms.take(i + 1).drop_last() =~= tms.take(i as int));
        assert(tms.take(i + 1).last() == targets@[i as int]@);
        let h = targets[i].header.len();
        let f = match &targets[i].footer {
            Some(v) => v.len(),
            None => 0,
        };
        let m = if h < f {
            f
        } else {
            h
        };
        if r < m {
            r = m;
        }
        i += 1;
    }
    assert(tms.take(n as int) =~= tms);
    r
}

/// The size to carve for candidate `c` once `read + chunk` has been read,
/// looking for its footer only in the window `w`, the bytes from `base` on.
fn settle_exec(
    w: &Vec<u8>,
    base: u64,
    c: Candidate,
    tg: &CarveTarget,
    keep: usize,
    Ghost(read): Ghost<Seq<u8>>,
    Ghost(chunk): Ghost<Seq<u8>>,
) -> (r: Option<u64>)
    requires
        w@ == (read + chunk).skip(base as int),
        base <= read.len(),
        base + w@.len() == read.len() + chunk.len(),
        read.len() + chunk.len() <= u64::MAX,
        base == 0 || base + keep == read.len(),
        footer_len(tg@) <= keep,
        matches_at(read + chunk, tg@.header, c.start as int),
        c.start + tg@.header.len() >= base || footer_at(read, c, tg@) is None,
    ensures
        r == settle(c, tg@, read + chunk),
{
    let ghost s2 = read + chunk;
    assert(tg.header@.len() == tg.header.len());
    let from: u64 = c.start + tg.header.len() as u64;
    assert(from <= s2.len());
    assert(w@.len() == w.len());
    let fw: usize = if from >= base {
        (from - base) as usize
    } else {
        0
    };
    match &tg.footer {
        Some(f) => {
            if f.len() > 0 {
                proof {
                    lemma_window_search(read, chunk, f@, base as int, keep as int, from as int);
                }
                match first_hit_from_exec(w.as_slice(), f, fw) {
                    Some(k) => {
                        proof {
                            lemma_first_hit_from(w@, f@, fw as int);
                            assert(f@.len() == f.len());
                        }
                        return Some(base + k as u64 + f.len() as u64 - c.start);
                    },
                    None => {},
                }
            }
        },
        None => {},
    }
    let span = base + w.len() as u64 - c.start;
    if span > SIZE_CAP {
        Some(span)
    } else {
        None
    }
}

/// The target an enabled signature is carved by.
pub fn target_for(sig: &FileSig) -> (t: CarveTarget)
    ensures
        t@ == target_of(sig@),
        t@.header == sig@.header,
        t@.footer == sig@.footer,
        t@.ext == (if sig@.exts.len() > 0 {
            sig@.exts[0]
        } else {
            "bin"@
        }),
{
    let ext = if sig.exts.len() > 0 {
        sig.exts[0].clone()
    } else {
        owned("bin")
    };
    CarveTarget { header: slice_copy(sig.header.as_slice()), footer: copy_opt_bytes(&sig.footer), ext }
}

impl CarveScan {
    /// A scan, before any byte is read, for the enabled signatures of `sigs`.
    pub fn new(sigs: &Vec<FileSig>) -> (s: CarveScan)
        ensures
            s.wf(),
            s.target_models() == targets_for(sigs@.map_values(|f: FileSig| f@)),
            s.candidates@.len() == 0,
            s.scanned == 0,
            s.files_found == 0,
            s.keep == longest_pattern(s.target_models()),
            s.read@.len() == 0,
            s.opened@.len() == 0,
            s.carved@.len() == 0,
    {
        let ghost models = sigs@.map_values(|f: FileSig| f@);
        let mut targets: Vec<CarveTarget> = Vec::new();
        let n = sigs.len();
        let mut i: usize = 0;
        while i < n
            invariant
                n == sigs@.len(),
                i <= n,
                models == sigs@.map_values(|f: FileSig| f@),
                targets@.map_values(|t: CarveTarget| t@) == targets_for(models.take(i as int)),
            decreases n - i,
        {
            let ghost before = targets@.map_values(|t: CarveTarget| t@);
            assert(models.take(i + 1).drop_last() =~= models.take(i as int));
            if sigs[i].enabled {
                let t = target_for(&sigs[i]);
                targets.push(t);
                assert(targets@.map_values(|t: CarveTarget| t@) =~= before.push(
                    target_of(models[i as int]),
                ));
            }
            i += 1;
        }
        assert(models.take(n as int) =~= models);
        let keep = longest(&targets);
        proof {
            let tms = targets@.map_values(|t: CarveTarget| t@);
            lemma_longest_pattern(tms);
            assert forall|t: int| 0 <= t < targets@.len() implies {
                &&& (#[trigger] targets@[t]).header@.len() <= keep
                &&& footer_len(targets@[t]@) <= keep
            } by {
                assert(tms[t] == targets@[t]@);
            }
        }
        let s = CarveScan {
            targets,
            candidates: Vec::new(),
            scanned: 0,
            files_found: 0,
            keep,
            tail: Vec::new(),
            read: Ghost(Seq::empty()),
            opened: Ghost(Seq::empty()),
            carved: Ghost(Seq::empty()),
        };
        assert(s.tail@ =~= last_bytes(s.read@, keep as nat));
        s
    }

    /// Opens a candidate at every header occurrence in the window `w` (the
    /// bytes read so far from `base` on) that ends after the bytes read
    /// before, of which the window's first `tail_len` are the last.
    fn open_candidates(&mut self, w: &Vec<u8>, base: u64, tail_len: usize, Ghost(s2): Ghost<Seq<u8>>)
        requires
            w@ == s2.skip(base as int),
            base + w@.len() == s2.len(),
            s2.len() <= u64::MAX,
            base + tail_len == old(self).scanned,
            tail_len <= w@.len(),
            base == 0 || base + old(self).keep == old(self).scanned,
            forall|t: int|
                0 <= t < old(self).targets@.len() ==> (#[trigger] old(self).targets@[t]).header@.len()
                    <= old(self).keep,
        ensures
            final(self).targets@ == old(self).targets@,
            final(self).scanned == old(self).scanned,
            final(self).files_found == old(self).files_found,
            final(self).keep == old(self).keep,
            final(self).tail@ == old(self).tail@,
            final(self).read@ == old(self).read@,
            final(self).opened@ == old(self).opened@,
            final(self).carved@ == old(self).carved@,
            final(self).candidates@ == old(self).candidates@ + new_candidates(
                old(self).target_models(),
                s2,
                old(self).scanned as int,
                old(self).targets@.len() as int,
            ),
    {
        let ghost tms = self.target_models();
        let ghost old_cands = self.candidates@;
        let ghost lo = self.scanned as int;
        let wn = w.len();
        let nt = self.targets.len();
        let mut t: usize = 0;
        assert(old_cands =~= old_cands + new_candidates(tms, s2, lo, 0));
        while t < nt
            invariant
                nt == self.targets@.len(),
                t <= nt,
                tms == self.target_models(),
                wn == w@.len(),
                w@ == s2.skip(base as int),
                base + wn == s2.len(),
                s2.len() <= u64::MAX,
                base + tail_len == lo,
                lo == self.scanned,
                tail_len <= wn,
                base == 0 || base + self.keep == lo,
                forall|u: int| 0 <= u < nt ==> (#[trigger] self.targets@[u]).header@.len() <= self.keep,
                self.targets@ == old(self).targets@,
                self.scanned == old(self).scanned,
                self.files_found == old(self).files_found,
                self.keep == old(self).keep,
                self.tail@ == old(self).tail@,
                self.read@ == old(self).read@,
                self.opened@ == old(self).opened@,
                self.carved@ == old(self).carved@,
                self.candidates@ == old_cands + new_candidates(tms, s2, lo, t as int),
            decreases nt - t,
        {
            let ghost cands_t = self.candidates@;
            let ghost hdr = tms[t as int].header;
            assert(self.targets@[t as int].header@ == hdr);
            let hlen = self.targets[t].header.len();
            if hlen > 0 {
                proof {
                    lemma_no_hits_before(s2, hdr, lo, base as int);
                }
                assert(self.candidates@ =~= cands_t + hits_after(s2, hdr, lo, base + 0).map_values(
                    hit_to_candidate(t as int),
                ));
                let mut q: usize = 0;
                while q < wn
                    invariant
                        nt == self.targets@.len(),
                        t < nt,
                        tms == self.target_models(),
                        hdr == tms[t as int].header,
                        hlen == hdr.len(),
                        hlen > 0,
                        wn == w@.len(),
                        w@ == s2.skip(base as int),
                        base + wn == s2.len(),
                        s2.len() <= u64::MAX,
                        base + tail_len == lo,
                        lo == self.scanned,
                        q <= wn,
                        self.targets@ == old(self).targets@,
                        self.scanned == old(self).scanned,
                        self.files_found == old(self).files_found,
                        self.keep == old(self).keep,
                        self.tail@ == old(self).tail@,
                        self.read@ == old(self).read@,
                        self.opened@ == old(self).opened@,
                        self.carved@ == old(self).carved@,
                        self.candidates@ == cands_t + hits_after(s2, hdr, lo, base + q).map_values(
                            hit_to_candidate(t as int),
                        ),
                    decreases wn - q,
                {
                    proof {
                        lemma_skip_matches(s2, hdr, base as int, q as int);
                    }
                    assert(self.targets@[t as int].header@ == hdr);
                    if q >= tail_len || tail_len - q < hlen {
                        if matches_at_exec(w.as_slice(), &self.targets[t].header, q) {
                            self.candidates.push(Candidate { start: base + q as u64, target: t });
                            assert(self.candidates@ =~= cands_t + hits_after(
                                s2,
                                hdr,
                                lo,
                                base + q + 1,
                            ).map_values(hit_to_candidate(t as int)));
                        } else {
                            assert(hits_after(s2, hdr, lo, base + q + 1) == hits_after(
                                s2,
                                hdr,
                                lo,
                                base + q,
                            ));
                        }
                    } else {
                        assert(hits_after(s2, hdr, lo, base + q + 1) == hits_after(
                            s2,
                            hdr,
                            lo,
                            base + q,
                        ));
                    }
                    q += 1;
                }
                assert(header_hits(s2, hdr, lo) == hits_after(s2, hdr, lo, base + wn));
            } else {
                assert(header_hits(s2, hdr, lo) =~= Seq::<int>::empty());
            }
            assert(self.candidates@ =~= old_cands + new_candidates(tms, s2, lo, t + 1));
            t += 1;
        }
    }

    /// Settles every candidate, in order, once the window `w` (the bytes read
    /// so far from `base` on, the last of them being `chunk`) has been read.
    #[verifier::rlimit(30)]
    fn settle_candidates(
        &self,
        w: &Vec<u8>,
        base: u64,
        Ghost(read): Ghost<Seq<u8>>,
        Ghost(chunk): Ghost<Seq<u8>>,
    ) -> (r: (Vec<Extraction>, Vec<Candidate>, u64))
        requires
            w@ == (read + chunk).skip(base as int),
            base <= read.len(),
            base + w@.len() == read.len() + chunk.len(),
            read.len() + chunk.len() <= u64::MAX,
            base == 0 || base + self.keep == read.len(),
            forall|t: int| 0 <= t < self.targets@.len() ==> footer_len(#[trigger] self.targets@[t]@) <= self.keep,
            forall|j: int|
                0 <= j < self.candidates@.len() ==> {
                    let c = #[trigger] self.candidates@[j];
                    &&& c.target < self.targets@.len()
                    &&& matches_at(read + chunk, self.targets@[c.target as int]@.header, c.start as int)
                    &&& (c.start + self.targets@[c.target as int]@.header.len() >= base || footer_at(
                        read,
                        c,
                        self.targets@[c.target as int]@,
                    ) is None)
                },
        ensures
            ({
                let s = settle_all(self.candidates@, self.target_models(), read + chunk, self.files_found);
                &&& extractions_view(r.0@) == s.0
                &&& r.1@ == s.1
                &&& r.2 == s.2
            }),
    {
        let ghost tms = self.target_models();
        let ghost all = self.candidates@;
        let ghost s2 = read + chunk;
        let mut kept: Vec<Candidate> = Vec::new();
        let mut out: Vec<Extraction> = Vec::new();
        let mut found = self.files_found;
        let nc = self.candidates.len();
        let mut i: usize = 0;
        assert(all.take(0) =~= Seq::<Candidate>::empty());
        while i < nc
            invariant
                nc == all.len(),
                i <= nc,
                all == self.candidates@,
                tms == self.target_models(),
                s2 == read + chunk,
                w@ == s2.skip(base as int),
                base <= read.len(),
                base + w@.len() == read.len() + chunk.len(),
                read.len() + chunk.len() <= u64::MAX,
                base == 0 || base + self.keep == read.len(),
                forall|t: int| 0 <= t < self.targets@.len() ==> footer_len(#[trigger] self.targets@[t]@) <= self.keep,
                forall|j: int|
                    0 <= j < self.candidates@.len() ==> {
                        let c = #[trigger] self.candidates@[j];
                        &&& c.target < self.targets@.len()
                        &&& matches_at(s2, self.targets@[c.target as int]@.header, c.start as int)
                        &&& (c.start + self.targets@[c.target as int]@.header.len() >= base || footer_at(
                            read,
                            c,
                            self.targets@[c.target as int]@,
                        ) is None)
                    },
                ({
                    let r = settle_all(all.take(i as int), tms, s2, self.files_found);
                    &&& extractions_view(out@) == r.0
                    &&& kept@ == r.1
                    &&& found == r.2
                }),
            decreases nc - i,
        {
            let c = self.candidates[i];
            assert(all.take(i + 1).drop_last() =~= all.take(i as int));
            assert(all.take(i + 1).last() == c);
            let tg = &self.targets[c.target];
            let ghost tm = tms[c.target as int];
            assert(tg@ == tm);
            let settled = settle_exec(w, base, c, tg, self.keep, Ghost(read), Ghost(chunk));
            match settled {
                Some(size) => {
                    let ghost before = extractions_view(out@);
                    out.push(Extraction { offset: c.start, size, index: found, ext: tg.ext.clone() });
                    assert(extractions_view(out@) =~= before.push(
                        ExtractionModel { offset: c.start, size, index: found, ext: tm.ext },
                    ));
                    found = found.wrapping_add(1);
                },
                None => {
                    kept.push(c);
                },
            }
            i += 1;
        }
        assert(all.take(nc as int) =~= all);
        (out, kept, found)
    }

    /// Reads the next chunk of the source: opens a candidate at every header
    /// that ends in it (one begun in the bytes before it is found too), then
    /// settles the open candidates. Returns the byte ranges to carve, in order.
    #[verifier::rlimit(40)]
    pub fn process_chunk(&mut self, chunk: &[u8]) -> (out: Vec<Extraction>)
        requires
            old(self).wf(),
            old(self).scanned + chunk@.len() <= u64::MAX,
            old(self).keep + chunk@.len() <= usize::MAX,
        ensures
            final(self).wf(),
            final(self).targets@ == old(self).targets@,
            final(self).keep == old(self).keep,
            final(self).scanned == old(self).scanned + chunk@.len(),
            final(self).read@ == old(self).read@ + chunk@,
            final(self).opened@ == old(self).opened@ + new_candidates(
                old(self).target_models(),
                old(self).read@ + chunk@,
                old(self).scanned as int,
                old(self).targets@.len() as int,
            ),
            final(self).carved@ == old(self).carved@ + settled_cands(
                old(self).candidates@ + new_candidates(
                    old(self).target_models(),
                    old(self).read@ + chunk@,
                    old(self).scanned as int,
                    old(self).targets@.len() as int,
                ),
                old(self).target_models(),
                old(self).read@ + chunk@,
            ),
            ({
                let data = old(self).read@ + chunk@;
                let all = old(self).candidates@ + new_candidates(
                    old(self).target_models(),
                    data,
                    old(self).scanned as int,
                    old(self).targets@.len() as int,
                );
                let r = settle_all(all, old(self).target_models(), data, old(self).files_found);
                &&& extractions_view(out@) == r.0
                &&& final(self).candidates@ == r.1
                &&& final(self).files_found == r.2
            }),
    {
        let ghost read = self.read@;
        let ghost s2 = read + chunk@;
        let ghost tms = self.target_models();
        let ghost old_cands = self.candidates@;
        let scanned = self.scanned;
        let keep = self.keep;
        let tail_len = self.tail.len();
        let base = scanned - tail_len as u64;
        let w = join_bytes(&self.tail, chunk);
        assert(w@ =~= s2.skip(base as int));
        self.open_candidates(&w, base, tail_len, Ghost(s2));
        let ghost all = self.candidates@;
        let nt = self.targets.len();
        proof {
            lemma_new_candidates(tms, s2, scanned as int, nt as int);
            let nc = new_candidates(tms, s2, scanned as int, nt as int);
            assert forall|j: int| 0 <= j < all.len() implies {
                let c = #[trigger] all[j];
                &&& c.target < nt
                &&& matches_at(s2, self.targets@[c.target as int]@.header, c.start as int)
                &&& (c.start + self.targets@[c.target as int]@.header.len() >= base || footer_at(
                    read,
                    c,
                    self.targets@[c.target as int]@,
                ) is None)
            } by {
                if j < old_cands.len() {
                    let c = old_cands[j];
                    assert(all[j] == c);
                    lemma_prefix_matches(read, chunk@, self.targets@[c.target as int]@.header, c.start as int);
                } else {
                    assert(all[j] == nc[j - old_cands.len()]);
                    assert(tms[all[j].target as int] == self.targets@[all[j].target as int]@);
                }
            }
        }
        let (out, kept, found) = self.settle_candidates(&w, base, Ghost(read), Ghost(chunk@));
        proof {
            lemma_settle_all_kept(all, tms, s2, self.files_found);
        }
        let wn = w.len();
        let new_tail = if wn > keep {
            skip_bytes(&w, wn - keep)
        } else {
            w
        };
        proof {
            if s2.len() > keep {
                assert(new_tail@ =~= s2.skip(s2.len() - keep));
            } else {
                assert(new_tail@ =~= s2);
            }
        }
        proof {
            lemma_opened_grows(self, read, chunk@);
            lemma_settle_partition(all, tms, s2, self.files_found);
        }
        self.tail = new_tail;
        self.read = Ghost(s2);
        self.opened = Ghost(self.opened@ + new_candidates(tms, s2, scanned as int, nt as int));
        self.carved = Ghost(self.carved@ + settled_cands(all, tms, s2));
        self.scanned = scanned + chunk.len() as u64;
        self.candidates = kept;
        self.files_found = found;
        assert forall|i: int| 0 <= i < self.opened@.len() implies (#[trigger] self.opened@[i]).target
            < self.targets@.len() by {
            assert(self.opened@[i] == (old(self).opened@ + new_candidates(tms, s2, scanned as int, nt as int))[i]);
        }
        assert forall|c: Candidate| c.target < self.targets@.len() implies (#[trigger] self.opened@.contains(c) <==> {
            &&& self.targets@[c.target as int]@.header.len() > 0
            &&& matches_at(self.read@, self.targets@[c.target as int]@.header, c.start as int)
        }) by {
            assert(tms[c.target as int] == self.targets@[c.target as int]@);
            assert(self.opened@ == old(self).opened@ + new_candidates(tms, s2, scanned as int, nt as int));
        }
        assert forall|c: Candidate|
            #[trigger] self.opened@.contains(c) <==> (self.carved@.contains(c)
                || self.candidates@.contains(c)) by {
            let nc = new_candidates(tms, s2, scanned as int, nt as int);
            let sc = settled_cands(all, tms, s2);
            lemma_contains_concat(old(self).opened@, nc, c);
            lemma_contains_concat(old(self).carved@, sc, c);
            lemma_contains_concat(old_cands, nc, c);
        }
        assert forall|j: int| 0 <= j < self.candidates@.len() implies {
            &&& (#[trigger] self.candidates@[j]).target < self.targets@.len()
            &&& open_in(self.read@, self.candidates@[j], self.targets@[self.candidates@[j].target as int]@)
        } by {
            let c = self.candidates@[j];
            assert(all.contains(c));
            let k = choose|k: int| 0 <= k < all.len() && all[k] == c;
            assert(tms[c.target as int] == self.targets@[c.target as int]@);
        }
        proof {
            let nc = new_candidates(tms, s2, scanned as int, nt as int);
            let sc = settled_cands(all, tms, s2);
            let o = old(self);
            lemma_new_candidates_no_dup(tms, s2, scanned as int, nt as int);
            assert forall|c: Candidate| #[trigger] o.opened@.contains(c) implies !nc.contains(c) by {
                if nc.contains(c) {
                    let j = choose|j: int| 0 <= j < nc.len() && nc[j] == c;
                    assert(nc[j].target < nt);
                    assert(tms[c.target as int] == o.targets@[c.target as int]@);
                }
            }
            lemma_concat_no_dup(o.opened@, nc);
            assert forall|c: Candidate| #[trigger] old_cands.contains(c) implies !nc.contains(c) by {
                assert(o.opened@.contains(c));
            }
            lemma_concat_no_dup(old_cands, nc);
            assert(all == old_cands + nc);
            lemma_settle_no_dup(all, tms, s2, o.files_found);
            assert forall|c: Candidate| #[trigger] o.carved@.contains(c) implies !sc.contains(c) by {
                if sc.contains(c) {
                    assert(all.contains(c));
                    lemma_contains_concat(old_cands, nc, c);
                    assert(o.opened@.contains(c));
                }
            }
            lemma_concat_no_dup(o.carved@, sc);
            assert forall|c: Candidate| #[trigger] self.carved@.contains(c) implies !self.candidates@.contains(c) by {
                lemma_contains_concat(o.carved@, sc, c);
                if self.candidates@.contains(c) && o.carved@.contains(c) {
                    assert(all.contains(c));
                    lemma_contains_concat(old_cands, nc, c);
                    assert(o.opened@.contains(c));
                }
            }
        }
        out
    }

    /// Ends the scan when the source is exhausted: every candidate still open
    /// is carved up to the end of what was read, unless that is empty.
    pub fn finish(&mut self) -> (out: Vec<Extraction>)
        requires
            old(self).wf(),
        ensures
            final(self).wf(),
            final(self).targets@ == old(self).targets@,
            final(self).scanned == old(self).scanned,
            final(self).keep == old(self).keep,
            final(self).read@ == old(self).read@,
            final(self).opened@ == old(self).opened@,
            final(self).carved@ == old(self).carved@ + finished_cands(
                old(self).candidates@,
                old(self).scanned as nat,
            ),
            final(self).candidates@.len() == 0,
            ({
                let r = finish_all(
                    old(self).candidates@,
                    old(self).target_models(),
                    old(self).scanned as nat,
                    old(self).files_found,
                );
                &&& extractions_view(out@) == r.0
                &&& final(self).files_found == r.1
            }),
    {
        let ghost tms = self.target_models();
        let ghost cands = self.candidates@;
        let scanned = self.scanned;
        let nc = self.candidates.len();
        let mut out: Vec<Extraction> = Vec::new();
        let mut found = self.files_found;
        let mut i: usize = 0;
        assert(cands.take(0) =~= Seq::<Candidate>::empty());
        while i < nc
            invariant
                nc == cands.len(),
                i <= nc,
                cands == self.candidates@,
                tms == self.target_models(),
                scanned == self.scanned,
                self.wf(),
                self.targets@ == old(self).targets@,
                self.files_found == old(self).files_found,
                ({
                    let r = finish_all(cands.take(i as int), tms, scanned as nat, old(self).files_found);
                    &&& extractions_view(out@) == r.0
                    &&& found == r.1
                }),
            decreases nc - i,
        {
            let c = self.candidates[i];
            assert(cands.take(i + 1).drop_last() =~= cands.take(i as int));
            assert(cands.take(i + 1).last() == c);
            let size = scanned - c.start;
            if size > 0 {
                let ghost before = extractions_view(out@);
                let ext = self.targets[c.target].ext.clone();
                assert(ext@ == tms[c.target as int].ext);
                out.push(Extraction { offset: c.start, size, index: found, ext });
                assert(extractions_view(out@) =~= before.push(
                    ExtractionModel { offset: c.start, size, index: found, ext: tms[c.target as int].ext },
                ));
                found = found.wrapping_add(1);
            }
            i += 1;
        }
        assert(cands.take(nc as int) =~= cands);
        proof {
            assert forall|j: int| 0 <= j < cands.len() implies (#[trigger] cands[j]).start < scanned by {
                let c = cands[j];
                assert(self.candidates@[j] == c);
                assert(self.opened@.contains(c));
            }
            lemma_finish_takes_all(cands, scanned as nat);
        }
        self.candidates = Vec::new();
        self.files_found = found;
        proof {
            lemma_concat_no_dup(old(self).carved@, cands);
        }
        self.carved = Ghost(self.carved@ + cands);
        assert forall|c: Candidate|
            #[trigger] self.opened@.contains(c) <==> (self.carved@.contains(c)
                || self.candidates@.contains(c)) by {
            lemma_contains_concat(old(self).carved@, cands, c);
        }
        out
    }
}

/// The name of a carved file: `f{number:09}_{offset:x}.{ext}`.
pub open spec fn carved_name(number: u64, offset: u64, ext: Seq<char>) -> Seq<char> {
    seq!['f'] + zero_pad(dec_digits(number as nat), 9) + seq!['_'] + hex_digits(offset as nat, false)
        + seq!['.'] + ext
}

/// The name a carved file is written under.
pub fn carved_file_name(number: u64, offset: u64, ext: &str) -> (r: String)
    ensures
        r@ == carved_name(number, offset, ext@),
{
    let mut r = String::new();
    push_char(&mut r, 'f');
    push_dec_padded(&mut r, number, 9);
    push_char(&mut r, '_');
    push_hex(&mut r, offset, false);
    push_char(&mut r, '.');
    push_str(&mut r, ext);
    assert(r@ =~= carved_name(number, offset, ext@));
    r
}

impl Extraction {
    /// The file this extraction is written to; files are numbered from one.
    pub fn file_name(&self) -> (r: String)
        ensures
            r@ == carved_name(next_count(self.index), self.offset, self.ext@),
    {
        carved_file_name(self.index.wrapping_add(1), self.offset, self.ext.as_str())
    }

    /// How the carved file is reported once it is written.
    pub fn info(&self) -> (r: CarvedFileInfo)
        ensures
            r@ == (CarvedModel { offset: self.offset, size: self.size, sig_name: "carved"@, ext: self.ext@ }),
    {
        CarvedFileInfo { offset: self.offset, size: self.size, sig_name: owned("carved"), ext: self.ext.clone() }
    }
}

/// The recent list after `info` is added: the newest last, the oldest
/// dropped once it holds more than [`RECENT_LIMIT`] entries.
pub open spec fn recent_after(recent: Seq<CarvedModel>, info: CarvedModel) -> Seq<CarvedModel> {
    if recent.len() + 1 > RECENT_LIMIT {
        recent.push(info).drop_first()
    } else {
        recent.push(info)
    }
}

/// Remembers a carved file in the list of recent ones.
pub fn record_recent(recent: &mut Vec<CarvedFileInfo>, info: CarvedFileInfo)
    ensures
        carved_view(final(recent)@) == recent_after(carved_view(old(recent)@), info@),
{
    let ghost before = carved_view(recent@);
    let ghost m = info@;
    recent.push(info);
    assert(carved_view(recent@) =~= before.push(m));
    if recent.len() > RECENT_LIMIT {
        let ghost pushed = recent@;
        recent.remove(0);
        assert(carved_view(recent@) =~= before.push(m).drop_first()) by {
            assert(recent@ =~= pushed.drop_first());
        }
    }
}


/// Owned copies of extension names.
fn ext_list(names: &[&str]) -> (r: Vec<String>)
    ensures
        strings_view(r@) == names@.map_values(|s: &str| s@),
{
    let mut r: Vec<String> = Vec::new();
    let n = names.len();
    let mut i: usize = 0;
    while i < n
        invariant
            n == names@.len(),
            i <= n,
            strings_view(r@) == names@.take(i as int).map_values(|s: &str| s@),
        decreases n - i,
    {
        let ghost before = strings_view(r@);
        let e = owned(names[i]);
        let ghost ev = e@;
        r.push(e);
        assert(strings_view(r@) =~= before.push(ev));
        assert(names@.take(i + 1).map_values(|s: &str| s@) =~= names@.take(i as int).map_values(
            |s: &str| s@,
        ).push(names@[i as int]@));
        i += 1;
    }
    assert(names@.take(n as int) =~= names@);
    r
}


pub open spec fn sigs_view(v: Seq<FileSig>) -> Seq<SigModel> {
    v.map_values(|f: FileSig| f@)
}

/// The signatures the carver knows, in the order they are tried.
pub open spec fn sig_table() -> Seq<SigModel> {
    seq![
        SigModel {
            name: "ZIP/JAR/APK/AAR"@,
            exts: seq!["zip"@, "jar"@, "apk"@, "aar"@, "war"@, "docx"@, "xlsx"@, "pptx"@, "ipa"@],
            header: seq![0x50u8, 0x4B, 0x03, 0x04],
            footer: Some(seq![0x50u8, 0x4B, 0x05, 0x06]),
            min_size: 256,
            enabled: true,
        },
        SigModel {
            name: "GZip"@,
            exts: seq!["gz"@, "tgz"@],
            header: seq![0x1Fu8, 0x8B],
            footer: None,
            min_size: 32,
            enabled: true,
        },
        SigModel {
            name: "TAR"@,
            exts: seq!["tar"@],
            header: Seq::<u8>::empty(),
            footer: None,
            min_size: 1024,
            enabled: false,
        },
        SigModel {
            name: "7z"@,
            exts: seq!["7z"@],
            header: seq![0x37u8, 0x7A, 0xBC, 0xAF, 0x27, 0x1C],
            footer: None,
            min_size: 128,
            enabled: true,
        },
        SigModel {
            name: "RAR"@,
            exts: seq!["rar"@],
            header: seq![0x52u8, 0x61, 0x72, 0x21, 0x1A, 0x07],
            footer: None,
            min_size: 128,
            enabled: true,
        },
        SigModel {
            name: "Java Class"@,
            exts: seq!["class"@],
            header: seq![0xCAu8, 0xFE, 0xBA, 0xBE],
            footer: None,
            min_size: 64,
            enabled: true,
        },
        SigModel {
            name: "DEX (Dalvik)"@,
            exts: seq!["dex"@],
            header: seq![0x64u8, 0x65, 0x78, 0x0A],
            footer: None,
            min_size: 64,
            enabled: true,
        },
        SigModel {
            name: "JPEG"@,
            exts: seq!["jpg"@, "jpeg"@],
            header: seq![0xFFu8, 0xD8, 0xFF],
            footer: Some(seq![0xFFu8, 0xD9]),
            min_size: 1024,
            enabled: true,
        },
        SigModel {
            name: "PNG"@,
            exts: seq!["png"@],
            header: seq![0x89u8, 0x50, 0x4E, 0x47, 0x0D, 0x0A, 0x1A, 0x0A],
            footer: Some(seq![0x49u8, 0x45, 0x4E, 0x44, 0xAE, 0x42, 0x60, 0x82]),
            min_size: 128,
            enabled: true,
        },
        SigModel {
            name: "GIF"@,
            exts: seq!["gif"@],
            header: seq![0x47u8, 0x49, 0x46, 0x38],
            footer: Some(seq![0x00u8, 0x3B]),
            min_size: 64,
            enabled: true,
        },
        SigModel {
            name: "BMP"@,
            exts: seq!["bmp"@],
            header: seq![0x42u8, 0x4D],
            footer: None,
            min_size: 128,
            enabled: true,
        },
        SigModel {
            name: "PDF"@,
            exts: seq!["pdf"@],
            header: seq![0x25u8, 0x50, 0x44, 0x46],
            footer: Some(seq![0x25u8, 0x25, 0x45, 0x4F, 0x46]),
            min_size: 256,
            enabled: true,
        },
        SigModel {
            name: "RIFF (AVI/WAV)"@,
            exts: seq!["avi"@, "wav"@],
            header: seq![0x52u8, 0x49, 0x46, 0x46],
            footer: None,
            min_size: 128,
            enabled: true,
        },
        SigModel {
            name: "Mach-O (ARM64)"@,
            exts: seq!["bin"@],
            header: seq![0xCFu8, 0xFA, 0xED, 0xFE],
            footer: None,
            min_size: 4096,
            enabled: true,
        },
        SigModel {
            name: "Mach-O (x86_64)"@,
            exts: seq!["bin"@],
            header: seq![0xFEu8, 0xED, 0xFA, 0xCE],
            footer: None,
            min_size: 4096,
            enabled: true,
        },
        SigModel {
            name: "Mach-O (ARM32)"@,
            exts: seq!["bin"@],
            header: seq![0xFEu8, 0xED, 0xFA, 0xCF],
            footer: None,
            min_size: 4096,
            enabled: true,
        },
        SigModel {
            name: "Mach-O (x86_32)"@,
            exts: seq!["bin"@],
            header: seq![0xCEu8, 0xFA, 0xED, 0xFE],
            footer: None,
            min_size: 4096,
            enabled: true,
        },
        SigModel {
            name: "ELF"@,
            exts: seq!["elf"@, "so"@],
            header: seq![0x7Fu8, 0x45, 0x4C, 0x46],
            footer: None,
            min_size: 4096,
            enabled: true,
        },
        SigModel {
            name: "WebAssembly"@,
            exts: seq!["wasm"@],
            header: seq![0x00u8, 0x61, 0x73, 0x6D],
            footer: None,
            min_size: 64,
            enabled: true,
        },
        SigModel {
            name: "SQLite"@,
            exts: seq!["sqlite"@, "db"@, "sqlite3"@],
            header: seq![0x53u8, 0x51, 0x4C, 0x69, 0x74, 0x65, 0x20, 0x66, 0x6F, 0x72, 0x6D, 0x61, 0x74, 0x20, 0x33, 0x00],
            footer: None,
            min_size: 512,
            enabled: true,
        },
        SigModel {
            name: "LevelDB/LMDB"@,
            exts: seq!["ldb"@],
            header: seq![0x00u8, 0x00, 0x00, 0x00, 0x00, 0x00, 0x00, 0x00],
            footer: None,
            min_size: 4096,
            enabled: false,
        },
        SigModel {
            name: "MP4/M4V"@,
            exts: seq!["mp4"@, "m4v"@, "mov"@],
            header: seq![0x00u8, 0x00, 0x00, 0x18, 0x66, 0x74, 0x79, 0x70],
            footer: None,
            min_size: 4096,
            enabled: true,
        },
        SigModel {
            name: "MP3"@,
            exts: seq!["mp3"@],
            header: seq![0x49u8, 0x44, 0x33],
            footer: None,
            min_size: 1024,
            enabled: true,
        },
    ]
}

fn file_sig(
    name: &str,
    exts: &[&str],
    header: &[u8],
    footer: Option<&[u8]>,
    min_size: u64,
    enabled: bool,
) -> (f: FileSig)
    ensures
        f@ == (SigModel {
            name: name@,
            exts: exts@.map_values(|s: &str| s@),
            header: header@,
            footer: match footer {
                Some(b) => Some(b@),
                None => None,
            },
            min_size,
            enabled,
        }),
{
    FileSig {
        name: owned(name),
        exts: ext_list(exts),
        header: slice_copy(header),
        footer: match footer {
            Some(b) => Some(slice_copy(b)),
            None => None,
        },
        min_size,
        enabled,
    }
}

fn slice_copy(b: &[u8]) -> (r: Vec<u8>)
    ensures
        r@ == b@,
{
    let mut r: Vec<u8> = Vec::new();
    let n = b.len();
    let mut i: usize = 0;
    while i < n
        invariant
            n == b@.len(),
            i <= n,
            r@ == b@.take(i as int),
        decreases n - i,
    {
        r.push(b[i]);
        assert(b@.take(i + 1) =~= b@.take(i as int).push(b@[i as int]));
        i += 1;
    }
    assert(b@.take(n as int) =~= b@);
    r
}

/// The signature table, with every type enabled but TAR and LevelDB/LMDB.
#[verifier::rlimit(50)]
pub fn all_sigs() -> (v: Vec<FileSig>)
    ensures
        sigs_view(v@) == sig_table(),
{
    let mut v: Vec<FileSig> = Vec::new();
    {
        let ex: [&str; 9] = ["zip", "jar", "apk", "aar", "war", "docx", "xlsx", "pptx", "ipa"];
        let hd: [u8; 4] = [0x50u8, 0x4Bu8, 0x03u8, 0x04u8];
        let ft: [u8; 4] = [0x50u8, 0x4Bu8, 0x05u8, 0x06u8];
        let f = file_sig("ZIP/JAR/APK/AAR", ex.as_slice(), hd.as_slice(), Some(ft.as_slice()), 256, true);
        assert(f@.exts =~= seq!["zip"@, "jar"@, "apk"@, "aar"@, "war"@, "docx"@, "xlsx"@, "pptx"@, "ipa"@]);
        assert(f@.header =~= seq![0x50u8, 0x4B, 0x03, 0x04]);
        assert(f@.footer->0 =~= seq![0x50u8, 0x4B, 0x05, 0x06]);
        assert(f@ == sig_table()[0]);
        let ghost before = sigs_view(v@);
        let ghost fv = f@;
        v.push(f);
        assert(sigs_view(v@) =~= before.push(fv));
    }
    {
        let ex: [&str; 2] = ["gz", "tgz"];
        let hd: [u8; 2] = [0x1Fu8, 0x8Bu8];
        let f = file_sig("GZip", ex.as_slice(), hd.as_slice(), None, 32, true);
        assert(f@.exts =~= seq!["gz"@, "tgz"@]);
        assert(f@.header =~= seq![0x1Fu8, 0x8B]);
        assert(f@ == sig_table()[1]);
        let ghost before = sigs_view(v@);
        let ghost fv = f@;
        v.push(f);
        assert(sigs_view(v@) =~= before.push(fv));
    }
    {
        let ex: [&str; 1] = ["tar"];
        let hd: [u8; 0] = [];
        let f = file_sig("TAR", ex.as_slice(), hd.as_slice(), None, 1024, false);
        assert(f@.exts =~= seq!["tar"@]);
        assert(f@.header =~= Seq::<u8>::empty());
        assert(f@ == sig_table()[2]);
        let ghost before = sigs_view(v@);
        let ghost fv = f@;
        v.push(f);
        assert(sigs_view(v@) =~= before.push(fv));
    }
    {
        let ex: [&str; 1] = ["7z"];
        let hd: [u8; 6] = [0x37u8, 0x7Au8, 0xBCu8, 0xAFu8, 0x27u8, 0x1Cu8];
        let f = file_sig("7z", ex.as_slice(), hd.as_slice(), None, 128, true);
        assert(f@.exts =~= seq!["7z"@]);
        assert(f@.header =~= seq![0x37u8, 0x7A, 0xBC, 0xAF, 0x27, 0x1C]);
        assert(f@ == sig_table()[3]);
        let ghost before = sigs_view(v@);
        let ghost fv = f@;
        v.push(f);
        assert(sigs_view(v@) =~= before.push(fv));
    }
    {
        let ex: [&str; 1] = ["rar"];
        let hd: [u8; 6] = [0x52u8, 0x61u8, 0x72u8, 0x21u8, 0x1Au8, 0x07u8];
        let f = file_sig("RAR", ex.as_slice(), hd.as_slice(), None, 128, true);
        assert(f@.exts =~= seq!["rar"@]);
        assert(f@.header =~= seq![0x52u8, 0x61, 0x72, 0x21, 0x1A, 0x07]);
        assert(f@ == sig_table()[4]);
        let ghost before = sigs_view(v@);
        let ghost fv = f@;
        v.push(f);
        assert(sigs_view(v@) =~= before.push(fv));
    }
    {
        let ex: [&str; 1] = ["class"];
        let hd: [u8; 4] = [0xCAu8, 0xFEu8, 0xBAu8, 0xBEu8];
        let f = file_sig("Java Class", ex.as_slice(), hd.as_slice(), None, 64, true);
        assert(f@.exts =~= seq!["class"@]);
        assert(f@.header =~= seq![0xCAu8, 0xFE, 0xBA, 0xBE]);
        assert(f@ == sig_table()[5]);
        let ghost before = sigs_view(v@);
        let ghost fv = f@;
        v.push(f);
        assert(sigs_view(v@) =~= before.push(fv));
    }
    {
        let ex: [&str; 1] = ["dex"];
        let hd: [u8; 4] = [0x64u8, 0x65u8, 0x78u8, 0x0Au8];
        let f = file_sig("DEX (Dalvik)", ex.as_slice(), hd.as_slice(), None, 64, true);
        assert(f@.exts =~= seq!["dex"@]);
        assert(f@.header =~= seq![0x64u8, 0x65, 0x78, 0x0A]);
        assert(f@ == sig_table()[6]);
        let ghost before = sigs_view(v@);
        let ghost fv = f@;
        v.push(f);
        assert(sigs_view(v@) =~= before.push(fv));
    }
    {
        let ex: [&str; 2] = ["jpg", "jpeg"];
        let hd: [u8; 3] = [0xFFu8, 0xD8u8, 0xFFu8];
        let ft: [u8; 2] = [0xFFu8, 0xD9u8];
        let f = file_sig("JPEG", ex.as_slice(), hd.as_slice(), Some(ft.as_slice()), 1024, true);
        assert(f@.exts =~= seq!["jpg"@, "jpeg"@]);
        assert(f@.header =~= seq![0xFFu8, 0xD8, 0xFF]);
        assert(f@.footer->0 =~= seq![0xFFu8, 0xD9]);
        assert(f@ == sig_table()[7]);
        let ghost before = sigs_view(v@);
        let ghost fv = f@;
        v.push(f);
        assert(sigs_view(v@) =~= before.push(fv));
    }
    {
        let ex: [&str; 1] = ["png"];
        let hd: [u8; 8] = [0x89u8, 0x50u8, 0x4Eu8, 0x47u8, 0x0Du8, 0x0Au8, 0x1Au8, 0x0Au8];
        let ft: [u8; 8] = [0x49u8, 0x45u8, 0x4Eu8, 0x44u8, 0xAEu8, 0x42u8, 0x60u8, 0x82u8];
        let f = file_sig("PNG", ex.as_slice(), hd.as_slice(), Some(ft.as_slice()), 128, true);
        assert(f@.exts =~= seq!["png"@]);
        assert(f@.header =~= seq![0x89u8, 0x50, 0x4E, 0x47, 0x0D, 0x0A, 0x1A, 0x0A]);
        assert(f@.footer->0 =~= seq![0x49u8, 0x45, 0x4E, 0x44, 0xAE, 0x42, 0x60, 0x82]);
        assert(f@ == sig_table()[8]);
        let ghost before = sigs_view(v@);
        let ghost fv = f@;
        v.push(f);
        assert(sigs_view(v@) =~= before.push(fv));
    }
    {
        let ex: [&str; 1] = ["gif"];
        let hd: [u8; 4] = [0x47u8, 0x49u8, 0x46u8, 0x38u8];
        let ft: [u8; 2] = [0x00u8, 0x3Bu8];
        let f = file_sig("GIF", ex.as_slice(), hd.as_slice(), Some(ft.as_slice()), 64, true);
        assert(f@.exts =~= seq!["gif"@]);
        assert(f@.header =~= seq![0x47u8, 0x49, 0x46, 0x38]);
        assert(f@.footer->0 =~= seq![0x00u8, 0x3B]);
        assert(f@ == sig_table()[9]);
        let ghost before = sigs_view(v@);
        let ghost fv = f@;
        v.push(f);
        assert(sigs_view(v@) =~= before.push(fv));
    }
    {
        let ex: [&str; 1] = ["bmp"];
        let hd: [u8; 2] = [0x42u8, 0x4Du8];
        let f = file_sig("BMP", ex.as_slice(), hd.as_slice(), None, 128, true);
        assert(f@.exts =~= seq!["bmp"@]);
        assert(f@.header =~= seq![0x42u8, 0x4D]);
        assert(f@ == sig_table()[10]);
        let ghost before = sigs_view(v@);
        let ghost fv = f@;
        v.push(f);
        assert(sigs_view(v@) =~= before.push(fv));
    }
    {
        let ex: [&str; 1] = ["pdf"];
        let hd: [u8; 4] = [0x25u8, 0x50u8, 0x44u8, 0x46u8];
        let ft: [u8; 5] = [0x25u8, 0x25u8, 0x45u8, 0x4Fu8, 0x46u8];
        let f = file_sig("PDF", ex.as_slice(), hd.as_slice(), Some(ft.as_slice()), 256, true);
        assert(f@.exts =~= seq!["pdf"@]);
        assert(f@.header =~= seq![0x25u8, 0x50, 0x44, 0x46]);
        assert(f@.footer->0 =~= seq![0x25u8, 0x25, 0x45, 0x4F, 0x46]);
        assert(f@ == sig_table()[11]);
        let ghost before = sigs_view(v@);
        let ghost fv = f@;
        v.push(f);
        assert(sigs_view(v@) =~= before.push(fv));
    }
    {
        let ex: [&str; 2] = ["avi", "wav"];
        let hd: [u8; 4] = [0x52u8, 0x49u8, 0x46u8, 0x46u8];
        let f = file_sig("RIFF (AVI/WAV)", ex.as_slice(), hd.as_slice(), None, 128, true);
        assert(f@.exts =~= seq!["avi"@, "wav"@]);
        assert(f@.header =~= seq![0x52u8, 0x49, 0x46, 0x46]);
        assert(f@ == sig_table()[12]);
        let ghost before = sigs_view(v@);
        let ghost fv = f@;
        v.push(f);
        assert(sigs_view(v@) =~= before.push(fv));
    }
    {
        let ex: [&str; 1] = ["bin"];
        let hd: [u8; 4] = [0xCFu8, 0xFAu8, 0xEDu8, 0xFEu8];
        let f = file_sig("Mach-O (ARM64)", ex.as_slice(), hd.as_slice(), None, 4096, true);
        assert(f@.exts =~= seq!["bin"@]);
        assert(f@.header =~= seq![0xCFu8, 0xFA, 0xED, 0xFE]);
        assert(f@ == sig_table()[13]);
        let ghost before = sigs_view(v@);
        let ghost fv = f@;
        v.push(f);
        assert(sigs_view(v@) =~= before.push(fv));
    }
    {
        let ex: [&str; 1] = ["bin"];
        let hd: [u8; 4] = [0xFEu8, 0xEDu8, 0xFAu8, 0xCEu8];
        let f = file_sig("Mach-O (x86_64)", ex.as_slice(), hd.as_slice(), None, 4096, true);
        assert(f@.exts =~= seq!["bin"@]);
        assert(f@.header =~= seq![0xFEu8, 0xED, 0xFA, 0xCE]);
        assert(f@ == sig_table()[14]);
        let ghost before = sigs_view(v@);
        let ghost fv = f@;
        v.push(f);
        assert(sigs_view(v@) =~= before.push(fv));
    }
    {
        let ex: [&str; 1] = ["bin"];
        let hd: [u8; 4] = [0xFEu8, 0xEDu8, 0xFAu8, 0xCFu8];
        let f = file_sig("Mach-O (ARM32)", ex.as_slice(), hd.as_slice(), None, 4096, true);
        assert(f@.exts =~= seq!["bin"@]);
        assert(f@.header =~= seq![0xFEu8, 0xED, 0xFA, 0xCF]);
        assert(f@ == sig_table()[15]);
        let ghost before = sigs_view(v@);
        let ghost fv = f@;
        v.push(f);
        assert(sigs_view(v@) =~= before.push(fv));
    }
    {
        let ex: [&str; 1] = ["bin"];
        let hd: [u8; 4] = [0xCEu8, 0xFAu8, 0xEDu8, 0xFEu8];
        let f = file_sig("Mach-O (x86_32)", ex.as_slice(), hd.as_slice(), None, 4096, true);
        assert(f@.exts =~= seq!["bin"@]);
        assert(f@.header =~= seq![0xCEu8, 0xFA, 0xED, 0xFE]);
        assert(f@ == sig_table()[16]);
        let ghost before = sigs_view(v@);
        let ghost fv = f@;
        v.push(f);
        assert(sigs_view(v@) =~= before.push(fv));
    }
    {
        let ex: [&str; 2] = ["elf", "so"];
        let hd: [u8; 4] = [0x7Fu8, 0x45u8, 0x4Cu8, 0x46u8];
        let f = file_sig("ELF", ex.as_slice(), hd.as_slice(), None, 4096, true);
        assert(f@.exts =~= seq!["elf"@, "so"@]);
        assert(f@.header =~= seq![0x7Fu8, 0x45, 0x4C, 0x46]);
        assert(f@ == sig_table()[17]);
        let ghost before = sigs_view(v@);
        let ghost fv = f@;
        v.push(f);
        assert(sigs_view(v@) =~= before.push(fv));
    }
    {
        let ex: [&str; 1] = ["wasm"];
        let hd: [u8; 4] = [0x00u8, 0x61u8, 0x73u8, 0x6Du8];
        let f = file_sig("WebAssembly", ex.as_slice(), hd.as_slice(), None, 64, true);
        assert(f@.exts =~= seq!["wasm"@]);
        assert(f@.header =~= seq![0x00u8, 0x61, 0x73, 0x6D]);
        assert(f@ == sig_table()[18]);
        let ghost before = sigs_view(v@);
        let ghost fv = f@;
        v.push(f);
        assert(sigs_view(v@) =~= before.push(fv));
    }
    {
        let ex: [&str; 3] = ["sqlite", "db", "sqlite3"];
        let hd: [u8; 16] = [0x53u8, 0x51u8, 0x4Cu8, 0x69u8, 0x74u8, 0x65u8, 0x20u8, 0x66u8, 0x6Fu8, 0x72u8, 0x6Du8, 0x61u8, 0x74u8, 0x20u8, 0x33u8, 0x00u8];
        let f = file_sig("SQLite", ex.as_slice(), hd.as_slice(), None, 512, true);
        assert(f@.exts =~= seq!["sqlite"@, "db"@, "sqlite3"@]);
        assert(f@.header =~= seq![0x53u8, 0x51, 0x4C, 0x69, 0x74, 0x65, 0x20, 0x66, 0x6F, 0x72, 0x6D, 0x61, 0x74, 0x20, 0x33, 0x00]);
        assert(f@ == sig_table()[19]);
        let ghost before = sigs_view(v@);
        let ghost fv = f@;
        v.push(f);
        assert(sigs_view(v@) =~= before.push(fv));
    }
    {
        let ex: [&str; 1] = ["ldb"];
        let hd: [u8; 8] = [0x00u8, 0x00u8, 0x00u8, 0x00u8, 0x00u8, 0x00u8, 0x00u8, 0x00u8];
        let f = file_sig("LevelDB/LMDB", ex.as_slice(), hd.as_slice(), None, 4096, false);
        assert(f@.exts =~= seq!["ldb"@]);
        assert(f@.header =~= seq![0x00u8, 0x00, 0x00, 0x00, 0x00, 0x00, 0x00, 0x00]);
        assert(f@ == sig_table()[20]);
        let ghost before = sigs_view(v@);
        let ghost fv = f@;
        v.push(f);
        assert(sigs_view(v@) =~= before.push(fv));
    }
    {
        let ex: [&str; 3] = ["mp4", "m4v", "mov"];
        let hd: [u8; 8] = [0x00u8, 0x00u8, 0x00u8, 0x18u8, 0x66u8, 0x74u8, 0x79u8, 0x70u8];
        let f = file_sig("MP4/M4V", ex.as_slice(), hd.as_slice(), None, 4096, true);
        assert(f@.exts =~= seq!["mp4"@, "m4v"@, "mov"@]);
        assert(f@.header =~= seq![0x00u8, 0x00, 0x00, 0x18, 0x66, 0x74, 0x79, 0x70]);
        assert(f@ == sig_table()[21]);
        let ghost before = sigs_view(v@);
        let ghost fv = f@;
        v.push(f);
        assert(sigs_view(v@) =~= before.push(fv));
    }
    {
        let ex: [&str; 1] = ["mp3"];
        let hd: [u8; 3] = [0x49u8, 0x44u8, 0x33u8];
        let f = file_sig("MP3", ex.as_slice(), hd.as_slice(), None, 1024, true);
        assert(f@.exts =~= seq!["mp3"@]);
        assert(f@.header =~= seq![0x49u8, 0x44, 0x33]);
        assert(f@ == sig_table()[22]);
        let ghost before = sigs_view(v@);
        let ghost fv = f@;
        v.push(f);
        assert(sigs_view(v@) =~= before.push(fv));
    }
    assert(sigs_view(v@) =~= sig_table());
    v
}

// ---------------------------------------------------------------------------
// Laws of carving
// ---------------------------------------------------------------------------

/// The candidates a chunk opens are exactly the header occurrences in
/// everything read so far that end inside that chunk: each names a target
/// with a non-empty header that lies at its start, and every such
/// occurrence is opened. A header split across two chunks is opened with the
/// second.
pub proof fn law_chunk_opens_exactly_the_new_headers(
    targets: Seq<TargetModel>,
    read: Seq<u8>,
    chunk: Seq<u8>,
)
    requires
        targets.len() <= usize::MAX,
        read.len() + chunk.len() <= u64::MAX,
    ensures
        ({
            let data = read + chunk;
            let opened = new_candidates(targets, data, read.len() as int, targets.len() as int);
            &&& forall|i: int|
                0 <= i < opened.len() ==> {
                    let c = #[trigger] opened[i];
                    &&& c.target < targets.len()
                    &&& targets[c.target as int].header.len() > 0
                    &&& matches_at(data, targets[c.target as int].header, c.start as int)
                    &&& c.start + targets[c.target as int].header.len() > read.len()
                }
            &&& forall|t: int, p: int|
                0 <= t < targets.len() && targets[t].header.len() > 0 && matches_at(
                    data,
                    targets[t].header,
                    p,
                ) && p + targets[t].header.len() > read.len() ==> opened.contains(
                    Candidate { start: p as u64, target: t as usize },
                )
        }),
{
    lemma_new_candidates(targets, read + chunk, read.len() as int, targets.len() as int);
}

/// A header that lies wholly in what was read before a chunk is not opened
/// again by it.
pub proof fn law_old_headers_are_not_reopened(
    targets: Seq<TargetModel>,
    read: Seq<u8>,
    chunk: Seq<u8>,
    t: int,
    p: int,
)
    requires
        targets.len() <= usize::MAX,
        read.len() + chunk.len() <= u64::MAX,
        0 <= t < targets.len(),
        0 <= p,
        p + targets[t].header.len() <= read.len(),
    ensures
        !new_candidates(targets, read + chunk, read.len() as int, targets.len() as int).contains(
            Candidate { start: p as u64, target: t as usize },
        ),
{
    let opened = new_candidates(targets, read + chunk, read.len() as int, targets.len() as int);
    lemma_new_candidates(targets, read + chunk, read.len() as int, targets.len() as int);
    if opened.contains(Candidate { start: p as u64, target: t as usize }) {
        let i = choose|i: int| 0 <= i < opened.len() && opened[i] == Candidate { start: p as u64, target: t as usize };
        assert(opened[i].start == p);
    }
}

/// Throughout a scan, the candidates opened are exactly the occurrences of
/// the targets' (non-empty) headers in everything read so far, each opened
/// once, and each has been carved once or is still open. Once the source is
/// finished (no candidate is open), the candidates carved are exactly those
/// header occurrences, each carved once.
pub proof fn law_scan_carves_every_header(s: CarveScan)
    requires
        s.wf(),
    ensures
        s.opened@.no_duplicates(),
        s.carved@.no_duplicates(),
        forall|c: Candidate|
            c.target < s.targets@.len() ==> (#[trigger] s.opened@.contains(c) <==> {
                &&& s.targets@[c.target as int]@.header.len() > 0
                &&& matches_at(s.read@, s.targets@[c.target as int]@.header, c.start as int)
            }),
        forall|c: Candidate|
            #![trigger s.carved@.contains(c)]
            #![trigger s.candidates@.contains(c)]
            s.opened@.contains(c) <==> (s.carved@.contains(c) || s.candidates@.contains(c)),
        s.candidates@.len() == 0 ==> forall|c: Candidate|
            c.target < s.targets@.len() ==> (#[trigger] s.carved@.contains(c) <==> {
                &&& s.targets@[c.target as int]@.header.len() > 0
                &&& matches_at(s.read@, s.targets@[c.target as int]@.header, c.start as int)
            }),
{
    assert forall|c: Candidate|
        #![trigger s.carved@.contains(c)]
        #![trigger s.candidates@.contains(c)]
        s.opened@.contains(c) <==> (s.carved@.contains(c) || s.candidates@.contains(c)) by {
        assert(s.opened@.contains(c) <==> (s.carved@.contains(c) || s.candidates@.contains(c)));
    }
    if s.candidates@.len() == 0 {
        assert forall|c: Candidate| c.target < s.targets@.len() implies (#[trigger] s.carved@.contains(c) <==> {
            &&& s.targets@[c.target as int]@.header.len() > 0
            &&& matches_at(s.read@, s.targets@[c.target as int]@.header, c.start as int)
        }) by {
            assert(s.opened@.contains(c) <==> (s.carved@.contains(c) || s.candidates@.contains(c)));
        }
    }
}

/// The extractions of a chunk are its carved candidates, in order: each
/// starts where its candidate does and takes its target's extension.
pub proof fn law_extractions_are_the_carved_candidates(
    cands: Seq<Candidate>,
    targets: Seq<TargetModel>,
    data: Seq<u8>,
    found: u64,
)
    ensures
        ({
            let r = settle_all(cands, targets, data, found);
            let sc = settled_cands(cands, targets, data);
            &&& r.0.len() == sc.len()
            &&& forall|i: int|
                0 <= i < sc.len() ==> {
                    &&& (#[trigger] r.0[i]).offset == sc[i].start
                    &&& r.0[i].ext == targets[sc[i].target as int].ext
                    &&& r.0[i].size == settle(sc[i], targets[sc[i].target as int], data)->0
                }
        }),
    decreases cands.len(),
{
    if cands.len() > 0 {
        law_extractions_are_the_carved_candidates(cands.drop_last(), targets, data, found);
        let r = settle_all(cands, targets, data, found);
        let sc = settled_cands(cands, targets, data);
        let pr = settle_all(cands.drop_last(), targets, data, found);
        let ps = settled_cands(cands.drop_last(), targets, data);
        assert forall|i: int| 0 <= i < sc.len() implies {
            &&& (#[trigger] r.0[i]).offset == sc[i].start
            &&& r.0[i].ext == targets[sc[i].target as int].ext
            &&& r.0[i].size == settle(sc[i], targets[sc[i].target as int], data)->0
        } by {
            if i < ps.len() {
                assert(r.0[i] == pr.0[i]);
                assert(sc[i] == ps[i]);
            }
        }
    }
}

/// When the source ends, every open candidate is carved, in order, from its
/// start to the end of what was read, with its target's extension.
pub proof fn law_finish_carves_every_open_candidate(
    cands: Seq<Candidate>,
    targets: Seq<TargetModel>,
    scanned: nat,
    found: u64,
)
    requires
        scanned <= u64::MAX,
        forall|j: int| 0 <= j < cands.len() ==> (#[trigger] cands[j]).start < scanned,
    ensures
        ({
            let r = finish_all(cands, targets, scanned, found);
            &&& r.0.len() == cands.len()
            &&& forall|i: int|
                0 <= i < cands.len() ==> {
                    &&& (#[trigger] r.0[i]).offset == cands[i].start
                    &&& r.0[i].size == scanned - cands[i].start
                    &&& r.0[i].ext == targets[cands[i].target as int].ext
                }
        }),
    decreases cands.len(),
{
    if cands.len() > 0 {
        assert forall|j: int| 0 <= j < cands.drop_last().len() implies (#[trigger] cands.drop_last()[j]).start
            < scanned by {
            assert(cands.drop_last()[j] == cands[j]);
        }
        law_finish_carves_every_open_candidate(cands.drop_last(), targets, scanned, found);
        let r = finish_all(cands, targets, scanned, found);
        let pr = finish_all(cands.drop_last(), targets, scanned, found);
        assert forall|i: int| 0 <= i < cands.len() implies {
            &&& (#[trigger] r.0[i]).offset == cands[i].start
            &&& r.0[i].size == scanned - cands[i].start
            &&& r.0[i].ext == targets[cands[i].target as int].ext
        } by {
            if i < cands.len() - 1 {
                assert(r.0[i] == pr.0[i]);
                assert(cands[i] == cands.drop_last()[i]);
                assert(cands.drop_last()[i].start < scanned);
            } else {
                assert(cands[cands.len() - 1].start < scanned);
                assert(r.0 == pr.0.push(r.0[i]));
            }
        }
    }
}

/// A signature is carved by its own header and footer: the target made for
/// it has the signature's header, the signature's footer (or none when it
/// has none), and its first extension, or `bin` when it lists none.
pub proof fn law_targets_keep_signatures(s: SigModel)
    ensures
        target_of(s).header == s.header,
        target_of(s).footer == s.footer,
        target_of(s).ext == (if s.exts.len() > 0 {
            s.exts[0]
        } else {
            "bin"@
        }),
{
}

/// For a signature with a footer, a candidate at one of its headers is cut
/// at the end of the first footer after that header: the size is the end of
/// that footer minus the candidate's start.
pub proof fn law_signature_footer_ends_file(c: Candidate, s: SigModel, data: Seq<u8>, q: int)
    requires
        s.footer is Some,
        s.footer->0.len() > 0,
        data.len() <= u64::MAX,
        c.start + s.header.len() <= q,
        matches_at(data, s.footer->0, q),
        forall|j: int| c.start + s.header.len() <= j < q ==> !matches_at(data, s.footer->0, j),
    ensures
        settle(c, target_of(s), data) == Some((q + s.footer->0.len() - c.start) as u64),
        0 < q + s.footer->0.len() - c.start <= data.len() - c.start,
{
    let f = s.footer->0;
    let from = c.start + s.header.len();
    assert forall|j: int| from <= j < q implies !matches_at(data, f, j) by {}
    lemma_first_hit_from_is(data, f, from, q);
}

proof fn lemma_first_hit_from_is(data: Seq<u8>, pat: Seq<u8>, p: int, q: int)
    requires
        0 <= p <= q,
        matches_at(data, pat, q),
        forall|j: int| p <= j < q ==> !matches_at(data, pat, j),
    ensures
        first_hit_from(data, pat, p) == Some(q),
    decreases q - p,
{
    if p < q {
        lemma_first_hit_from_is(data, pat, p + 1, q);
    }
}

/// The targets of a table are its enabled signatures, in order, each with
/// its header and footer unchanged.
pub proof fn law_targets_are_the_enabled_signatures(sigs: Seq<SigModel>)
    ensures
        forall|i: int|
            0 <= i < targets_for(sigs).len() ==> exists|j: int|
                0 <= j < sigs.len() && #[trigger] sigs[j].enabled && (#[trigger] targets_for(sigs)[i]).header
                    == sigs[j].header && targets_for(sigs)[i].footer == sigs[j].footer,
        forall|j: int|
            0 <= j < sigs.len() && #[trigger] sigs[j].enabled ==> exists|i: int|
                0 <= i < targets_for(sigs).len() && (#[trigger] targets_for(sigs)[i]).header
                    == sigs[j].header && targets_for(sigs)[i].footer == sigs[j].footer,
    decreases sigs.len(),
{
    if sigs.len() > 0 {
        let init = sigs.drop_last();
        law_targets_are_the_enabled_signatures(init);
        let prev = targets_for(init);
        let cur = targets_for(sigs);
        assert forall|i: int| 0 <= i < cur.len() implies exists|j: int|
            0 <= j < sigs.len() && #[trigger] sigs[j].enabled && (#[trigger] cur[i]).header
                == sigs[j].header && cur[i].footer == sigs[j].footer by {
            if i < prev.len() {
                assert(cur[i] == prev[i]);
                let j = choose|j: int|
                    0 <= j < init.len() && #[trigger] init[j].enabled && prev[i].header == init[j].header
                        && prev[i].footer == init[j].footer;
                assert(sigs[j] == init[j]);
            } else {
                let j = sigs.len() - 1;
                assert(sigs[j].enabled);
            }
        }
        assert forall|j: int| 0 <= j < sigs.len() && #[trigger] sigs[j].enabled implies exists|i: int|
            0 <= i < cur.len() && (#[trigger] cur[i]).header == sigs[j].header && cur[i].footer
                == sigs[j].footer by {
            if j < sigs.len() - 1 {
                assert(init[j] == sigs[j]);
                assert(init[j].enabled);
                let i = choose|i: int|
                    0 <= i < prev.len() && (#[trigger] prev[i]).header == init[j].header && prev[i].footer
                        == init[j].footer;
                assert(cur[i] == prev[i]);
            } else {
                assert(cur[cur.len() - 1] == target_of(sigs[j]));
            }
        }
    }
}

/// `found + k` on a counter that wraps around.
pub open spec fn count_after(found: u64, k: nat) -> u64
    decreases k,
{
    if k == 0 {
        found
    } else {
        next_count(count_after(found, (k - 1) as nat))
    }
}

/// Settling the candidates accounts for each exactly once: it is either
/// carved or kept open. Carved files are numbered consecutively from the
/// count of files found before, and the count moves on by the number carved.
pub proof fn law_settling_numbers_files_consecutively(
    cands: Seq<Candidate>,
    targets: Seq<TargetModel>,
    data: Seq<u8>,
    found: u64,
)
    ensures
        ({
            let r = settle_all(cands, targets, data, found);
            &&& r.0.len() + r.1.len() == cands.len()
            &&& r.2 == count_after(found, r.0.len())
            &&& forall|i: int| 0 <= i < r.0.len() ==> (#[trigger] r.0[i]).index == count_after(found, i as nat)
        }),
    decreases cands.len(),
{
    if cands.len() > 0 {
        law_settling_numbers_files_consecutively(cands.drop_last(), targets, data, found);
        let prev = settle_all(cands.drop_last(), targets, data, found);
        let r = settle_all(cands, targets, data, found);
        assert forall|i: int| 0 <= i < r.0.len() implies (#[trigger] r.0[i]).index == count_after(found, i as nat) by {
            if i < prev.0.len() {
                assert(r.0[i] == prev.0[i]);
            }
        }
    }
}

/// A candidate whose footer follows its header is carved up to the end of
/// the first such footer: the file is the bytes from its header through that
/// footer, its size is never wrapped, and a footer lying before or inside
/// the header is never used.
pub proof fn law_footer_bounds_carved_file(c: Candidate, tg: TargetModel, data: Seq<u8>)
    requires
        footer_at(data, c, tg) is Some,
        data.len() <= u64::MAX,
    ensures
        ({
            let q = footer_at(data, c, tg)->0;
            let f = tg.footer->0;
            &&& q >= c.start + tg.header.len()
            &&& matches_at(data, f, q)
            &&& forall|j: int| c.start + tg.header.len() <= j < q ==> !matches_at(data, f, j)
            &&& settle(c, tg, data) == Some((q + f.len() - c.start) as u64)
            &&& tg.header.len() + f.len() <= q + f.len() - c.start <= data.len() - c.start
        }),
{
    lemma_first_hit_from(data, tg.footer->0, c.start + tg.header.len());
}

/// Candidates with no footer after their header stay open until they span
/// more than [`SIZE_CAP`] bytes, and are then carved whole.
pub proof fn law_cap_without_footer(c: Candidate, tg: TargetModel, data: Seq<u8>)
    requires
        footer_at(data, c, tg) is None,
        c.start <= data.len(),
        data.len() <= u64::MAX,
    ensures
        settle(c, tg, data) is Some <==> data.len() - c.start > SIZE_CAP,
        settle(c, tg, data) matches Some(size) ==> size == data.len() - c.start,
{
}

/// The list of recent files never grows past [`RECENT_LIMIT`] entries, and
/// always ends with the file just carved.
pub proof fn law_recent_is_bounded(recent: Seq<CarvedModel>, info: CarvedModel)
    requires
        recent.len() <= RECENT_LIMIT,
    ensures
        recent_after(recent, info).len() <= RECENT_LIMIT,
        recent_after(recent, info).last() == info,
        recent_after(recent, info).len() == (if recent.len() == RECENT_LIMIT {
            recent.len()
        } else {
            recent.len() + 1
        }),
{
}

// ---------------------------------------------------------------------------
// Labels and messages
// ---------------------------------------------------------------------------

/// Strings joined with `, ` between them.
pub open spec fn join_comma(v: Seq<Seq<char>>) -> Seq<char>
    decreases v.len(),
{
    if v.len() == 0 {
        Seq::empty()
    } else if v.len() == 1 {
        v[0]
    } else {
        join_comma(v.drop_last()) + ", "@ + v.last()
    }
}

/// How a signature is listed for choosing: `{name} ({ext, ext, ...})`.
pub fn sig_label(sig: &FileSig) -> (r: String)
    ensures
        r@ == sig@.name + " ("@ + join_comma(sig@.exts) + ")"@,
{
    let mut r = sig.name.clone();
    push_str(&mut r, " (");
    let ghost head = r@;
    let ghost ev = strings_view(sig.exts@);
    let n = sig.exts.len();
    let mut i: usize = 0;
    assert(ev.take(0) =~= Seq::<Seq<char>>::empty());
    while i < n
        invariant
            n == sig.exts@.len(),
            ev == strings_view(sig.exts@),
            i <= n,
            r@ == head + join_comma(ev.take(i as int)),
        decreases n - i,
    {
        assert(ev.take(i + 1).drop_last() =~= ev.take(i as int));
        assert(ev.take(i + 1).last() == sig.exts@[i as int]@);
        if i > 0 {
            push_str(&mut r, ", ");
        }
        push_str(&mut r, sig.exts[i].as_str());
        assert(r@ =~= head + join_comma(ev.take(i + 1)));
        i += 1;
    }
    assert(ev.take(n as int) =~= ev);
    push_str(&mut r, ")");
    r
}

/// Where carved files go by default: `carved_files` in the home directory.
pub fn default_output_dir(home: &str) -> (r: String)
    ensures
        r@ == home@ + "/carved_files"@,
{
    let mut r = owned(home);
    push_str(&mut r, "/carved_files");
    r
}

/// The status once the source's size is known: `Scanning {size}...`.
pub fn scanning_status(total: u64) -> (r: String)
    ensures
        r@ == "Scanning "@ + crate::numfmt::size_text(total as nat) + "..."@,
{
    let mut r = owned("Scanning ");
    let size = crate::numfmt::format_size(total);
    push_str(&mut r, size.as_str());
    push_str(&mut r, "...");
    r
}

/// The status when the scan is over: `Done. Recovered {n} files.`.
pub fn done_status(files_found: u64) -> (r: String)
    ensures
        r@ == "Done. Recovered "@ + dec_digits(files_found as nat) + " files."@,
{
    let mut r = owned("Done. Recovered ");
    crate::numfmt::push_dec(&mut r, files_found);
    push_str(&mut r, " files.");
    r
}

/// The error when the source cannot be opened.
pub fn open_error_text(source: &str, cause: &str) -> (r: String)
    ensures
        r@ == "Cannot open "@ + source@ + ": "@ + cause@ + "\nTry: sudo disk-doctor"@,
{
    let mut r = owned("Cannot open ");
    push_str(&mut r, source);
    push_str(&mut r, ": ");
    push_str(&mut r, cause);
    push_str(&mut r, "\nTry: sudo disk-doctor");
    r
}

// ---------------------------------------------------------------------------
// Reports to the window
// ---------------------------------------------------------------------------

/// What the carver reports to the window (its speed, a floating-point
/// display value, travels beside it).
pub struct CarveReport {
    pub bytes_scanned: u64,
    pub total_bytes: u64,
    pub files_found: u64,
    pub recent: Vec<CarvedFileInfo>,
    pub done: bool,
    pub error: Option<String>,
    pub status: String,
}

pub open spec fn opt_text(o: Option<String>) -> Option<Seq<char>> {
    match o {
        Some(s) => Some(s@),
        None => None,
    }
}

impl CarveReport {
    /// A report with only a status: nothing scanned or found yet.
    pub fn with_status(status: &str) -> (r: CarveReport)
        ensures
            r.bytes_scanned == 0,
            r.total_bytes == 0,
            r.files_found == 0,
            r.recent@.len() == 0,
            !r.done,
            r.error is None,
            r.status@ == status@,
    {
        CarveReport {
            bytes_scanned: 0,
            total_bytes: 0,
            files_found: 0,
            recent: Vec::new(),
            done: false,
            error: None,
            status: owned(status),
        }
    }

    /// The one report when the source cannot be opened.
    pub fn open_failed(source: &str, cause: &str) -> (r: CarveReport)
        ensures
            r.bytes_scanned == 0,
            r.total_bytes == 0,
            r.files_found == 0,
            r.recent@.len() == 0,
            r.done,
            opt_text(r.error) == Some("Cannot open "@ + source@ + ": "@ + cause@ + "\nTry: sudo disk-doctor"@),
            r.status@ == "Error"@,
    {
        let mut r = CarveReport::with_status("Error");
        r.done = true;
        r.error = Some(open_error_text(source, cause));
        r
    }

    /// The report once the source's size is known.
    pub fn scanning(total: u64) -> (r: CarveReport)
        ensures
            r.bytes_scanned == 0,
            r.total_bytes == total,
            r.files_found == 0,
            r.recent@.len() == 0,
            !r.done,
            r.error is None,
            r.status@ == "Scanning "@ + crate::numfmt::size_text(total as nat) + "..."@,
    {
        let mut r = CarveReport::with_status("");
        r.total_bytes = total;
        r.status = scanning_status(total);
        r
    }

    /// The report after a chunk: what the scan has read and found.
    pub fn progress(scan: &CarveScan, total: u64, recent: Vec<CarvedFileInfo>, status: String) -> (r: CarveReport)
        ensures
            r.bytes_scanned == scan.scanned,
            r.total_bytes == total,
            r.files_found == scan.files_found,
            r.recent@ == recent@,
            !r.done,
            r.error is None,
            r.status@ == status@,
    {
        CarveReport {
            bytes_scanned: scan.scanned,
            total_bytes: total,
            files_found: scan.files_found,
            recent,
            done: false,
            error: None,
            status,
        }
    }

    /// The last report when reading the source failed with `cause`.
    pub fn read_failed(scan: &CarveScan, total: u64, recent: Vec<CarvedFileInfo>, cause: &str) -> (r: CarveReport)
        ensures
            r.bytes_scanned == scan.scanned,
            r.total_bytes == total,
            r.files_found == scan.files_found,
            r.recent@ == recent@,
            r.done,
            opt_text(r.error) == Some("Read error: "@ + cause@),
            r.status@ == "Error"@,
    {
        let mut m = owned("Read error: ");
        push_str(&mut m, cause);
        CarveReport {
            bytes_scanned: scan.scanned,
            total_bytes: total,
            files_found: scan.files_found,
            recent,
            done: true,
            error: Some(m),
            status: owned("Error"),
        }
    }

    /// The last report when the source is exhausted.
    pub fn finished(scan: &CarveScan, total: u64, recent: Vec<CarvedFileInfo>) -> (r: CarveReport)
        ensures
            r.bytes_scanned == scan.scanned,
            r.total_bytes == total,
            r.files_found == scan.files_found,
            r.recent@ == recent@,
            r.done,
            r.error is None,
            r.status@ == "Done. Recovered "@ + dec_digits(scan.files_found as nat) + " files."@,
    {
        CarveReport {
            bytes_scanned: scan.scanned,
            total_bytes: total,
            files_found: scan.files_found,
            recent,
            done: true,
            error: None,
            status: done_status(scan.files_found),
        }
    }
}

/// What the carver window shows: whether a scan runs, and its last report.
pub struct CarverWindow {
    pub scanning: bool,
    pub report: CarveReport,
}

impl CarverWindow {
    /// A scan begins.
    pub fn start(&mut self)
        ensures
            final(self).scanning,
            final(self).report.bytes_scanned == 0,
            final(self).report.total_bytes == 0,
            final(self).report.files_found == 0,
            final(self).report.recent@.len() == 0,
            !final(self).report.done,
            final(self).report.error is None,
            final(self).report.status@ == "Starting..."@,
    {
        self.scanning = true;
        self.report = CarveReport::with_status("Starting...");
    }

    /// The user stops watching the scan.
    pub fn stop(&mut self)
        ensures
            !final(self).scanning,
            final(self).report == old(self).report,
    {
        self.scanning = false;
    }

    /// Takes in a report; a final one ends the scan.
    pub fn receive(&mut self, r: CarveReport)
        ensures
            final(self).report == r,
            final(self).scanning == (old(self).scanning && !r.done),
    {
        let done = r.done;
        self.report = r;
        if done {
            self.scanning = false;
        }
    }
}

impl Default for CarverWindow {
    fn default() -> (w: Self)
        ensures
            !w.scanning,
            w.report.bytes_scanned == 0,
            w.report.files_found == 0,
            !w.report.done,
            w.report.error is None,
            w.report.status@ == "Ready"@,
    {
        CarverWindow { scanning: false, report: CarveReport::with_status("Ready") }
    }
}

} // verus!
