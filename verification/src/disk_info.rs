//! Disks and partitions as `diskutil list` prints them.

use vstd::prelude::*;
use crate::text::{
    chars_of, copy_chars, contains, contains_exec, lines, push_char, push_str, split_lines,
    split_words, starts_with, starts_with_exec, string_of, trim, trim_exec, trim_start_matches,
    trim_start_matches_exec, words,
};

verus! {

broadcast use vstd::string::group_string_axioms;

/// One disk of the listing, with the lines that describe it.
#[derive(Clone)]
pub struct DiskEntry {
    pub name: String,
    pub identifier: String,
    pub size: String,
    pub internal: bool,
    pub details: Vec<(String, String)>,
}

pub struct DiskModel {
    pub name: Seq<char>,
    pub identifier: Seq<char>,
    pub size: Seq<char>,
    pub internal: bool,
    pub details: Seq<(Seq<char>, Seq<char>)>,
}

pub open spec fn pairs_view(v: Seq<(String, String)>) -> Seq<(Seq<char>, Seq<char>)> {
    v.map_values(|p: (String, String)| (p.0@, p.1@))
}

impl View for DiskEntry {
    type V = DiskModel;

    open spec fn view(&self) -> DiskModel {
        DiskModel {
            name: self.name@,
            identifier: self.identifier@,
            size: self.size@,
            internal: self.internal,
            details: pairs_view(self.details@),
        }
    }
}

pub open spec fn disks_view(v: Seq<DiskEntry>) -> Seq<DiskModel> {
    v.map_values(|d: DiskEntry| d@)
}

/// The disk tab's state.
pub struct DiskInfoState {
    pub disks: Vec<DiskEntry>,
    pub loading: bool,
    pub error: Option<String>,
    pub selected_index: usize,
}

// ---------------------------------------------------------------------------
// Specification of the listing
// ---------------------------------------------------------------------------

/// A line that names a partition scheme carries the disk's size.
pub open spec fn names_scheme(line: Seq<char>) -> bool {
    ||| contains(line, "GUID_partition_scheme"@)
    ||| contains(line, "FDisk_partition_scheme"@)
    ||| contains(line, "Apple_partition_scheme"@)
}

/// A line of a disk that names any partition scheme (GUID, FDisk or Apple)
/// and has at least three words gives the disk its size, the line's second
/// to last word; a line that names none leaves the size as it was.
pub proof fn law_scheme_line_gives_size(d: DiskModel, line: Seq<char>)
    ensures
        (contains(line, "GUID_partition_scheme"@) || contains(line, "FDisk_partition_scheme"@) || contains(
            line,
            "Apple_partition_scheme"@,
        )) && words(line).len() >= 3 ==> disk_line(d, line).size == words(line)[words(line).len() - 2],
        !contains(line, "GUID_partition_scheme"@) && !contains(line, "FDisk_partition_scheme"@)
            && !contains(line, "Apple_partition_scheme"@) ==> disk_line(d, line).size == d.size,
        words(line).len() < 3 ==> disk_line(d, line).size == d.size,
{
}

/// In a listing, a line under an open disk that names any partition scheme
/// and has at least three words sets that disk's size to the line's second
/// to last word; the disks finished before it are left as they were.
pub proof fn law_listing_scheme_line_sets_disk_size(ls: Seq<Seq<char>>)
    requires
        ls.len() > 0,
        !starts_with(ls.last(), "/dev/disk"@),
        contains(ls.last(), "GUID_partition_scheme"@) || contains(ls.last(), "FDisk_partition_scheme"@)
            || contains(ls.last(), "Apple_partition_scheme"@),
        words(ls.last()).len() >= 3,
        disk_fold(ls.drop_last()).1 is Some,
    ensures
        disk_fold(ls).1 is Some,
        disk_fold(ls).1->0.size == words(ls.last())[words(ls.last()).len() - 2],
        disk_fold(ls).0 == disk_fold(ls.drop_last()).0,
{
}

/// The disk that a `/dev/disk...` line opens.
pub open spec fn disk_header(line: Seq<char>) -> DiskModel {
    let parts = words(line);
    let first = if parts.len() > 0 {
        parts[0]
    } else {
        Seq::empty()
    };
    DiskModel {
        name: trim_start_matches(first, "/dev/"@),
        identifier: first,
        size: Seq::empty(),
        internal: contains(line, "internal"@),
        details: Seq::empty(),
    }
}

/// The open disk after one of its lines: the size from a scheme line (the
/// second to last word, when there are at least three), and every non-blank
/// line, trimmed, as a detail.
pub open spec fn disk_line(d: DiskModel, line: Seq<char>) -> DiskModel {
    let parts = words(line);
    let size = if names_scheme(line) && parts.len() >= 3 {
        parts[parts.len() - 2]
    } else {
        d.size
    };
    let t = trim(line);
    let details = if t.len() > 0 {
        d.details.push((Seq::empty(), t))
    } else {
        d.details
    };
    DiskModel { name: d.name, identifier: d.identifier, size, internal: d.internal, details }
}

/// The disks finished so far, and the one still open, after some lines.
pub open spec fn disk_fold(ls: Seq<Seq<char>>) -> (Seq<DiskModel>, Option<DiskModel>)
    decreases ls.len(),
{
    if ls.len() == 0 {
        (Seq::empty(), None)
    } else {
        let st = disk_fold(ls.drop_last());
        let line = ls.last();
        if starts_with(line, "/dev/disk"@) {
            let done = match st.1 {
                Some(d) => st.0.push(d),
                None => st.0,
            };
            (done, Some(disk_header(line)))
        } else {
            match st.1 {
                Some(d) => (st.0, Some(disk_line(d, line))),
                None => st,
            }
        }
    }
}

/// The disks that a listing describes, in order.
pub open spec fn parse_disks(text: Seq<char>) -> Seq<DiskModel> {
    let st = disk_fold(lines(text));
    match st.1 {
        Some(d) => st.0.push(d),
        None => st.0,
    }
}

// ---------------------------------------------------------------------------
// Parsing
// ---------------------------------------------------------------------------

fn disk_from_header(line: &Vec<char>) -> (d: DiskEntry)
    ensures
        d@ == disk_header(line@),
{
    let parts = split_words(line);
    let first: Vec<char> = if parts.len() > 0 {
        copy_chars(&parts[0])
    } else {
        Vec::new()
    };
    assert(parts.deep_view() == words(line@));
    assert(parts.len() > 0 ==> parts@[0]@ == parts.deep_view()[0]);
    let prefix = chars_of("/dev/");
    proof {
        reveal_strlit("/dev/");
    }
    let name = trim_start_matches_exec(&first, &prefix);
    let internal_pat = chars_of("internal");
    proof {
        reveal_strlit("internal");
    }
    let d = DiskEntry {
        name: string_of(&name),
        identifier: string_of(&first),
        size: String::new(),
        internal: contains_exec(line, &internal_pat),
        details: Vec::new(),
    };
    assert(pairs_view(d.details@) =~= Seq::<(Seq<char>, Seq<char>)>::empty());
    d
}

fn line_names_scheme(line: &Vec<char>) -> (b: bool)
    ensures
        b == names_scheme(line@),
{
    let a = chars_of("GUID_partition_scheme");
    let b = chars_of("FDisk_partition_scheme");
    let c = chars_of("Apple_partition_scheme");
    proof {
        reveal_strlit("GUID_partition_scheme");
        reveal_strlit("FDisk_partition_scheme");
        reveal_strlit("Apple_partition_scheme");
    }
    contains_exec(line, &a) || contains_exec(line, &b) || contains_exec(line, &c)
}

fn update_disk(d: &mut DiskEntry, line: &Vec<char>)
    ensures
        final(d)@ == disk_line(old(d)@, line@),
{
    let parts = split_words(line);
    if line_names_scheme(line) && parts.len() >= 3 {
        let w = &parts[parts.len() - 2];
        assert(w@ == words(line@)[parts.len() - 2]) by {
            assert(parts.deep_view()[parts.len() - 2] == w@);
        }
        d.size = string_of(w);
    }
    let t = trim_exec(line);
    if t.len() > 0 {
        let ghost before = pairs_view(d.details@);
        d.details.push((String::new(), string_of(&t)));
        assert(pairs_view(d.details@) =~= before.push((Seq::empty(), t@)));
    }
}

/// The disks that a `diskutil list` output describes: a line starting with
/// `/dev/disk` opens a disk; the lines after it, up to the next such line,
/// describe it.
pub fn parse_diskutil_output(text: &str) -> (disks: Vec<DiskEntry>)
    ensures
        disks_view(disks@) == parse_disks(text@),
{
    let chars = chars_of(text);
    let ls = split_lines(&chars);
    let dev = chars_of("/dev/disk");
    proof {
        reveal_strlit("/dev/disk");
    }
    let ghost lsv = ls.deep_view();
    let mut done: Vec<DiskEntry> = Vec::new();
    let mut current: Option<DiskEntry> = None;
    let n = ls.len();
    let mut i: usize = 0;
    while i < n
        invariant
            n == ls@.len(),
            i <= n,
            lsv == ls.deep_view(),
            dev@ == "/dev/disk"@,
            ({
                let st = disk_fold(lsv.take(i as int));
                &&& disks_view(done@) == st.0
                &&& (match current {
                    Some(d) => st.1 == Some(d@),
                    None => st.1 is None,
                })
            }),
        decreases n - i,
    {
        let line = &ls[i];
        assert(line@ == lsv[i as int]);
        assert(lsv.take(i + 1).drop_last() =~= lsv.take(i as int));
        assert(lsv.take(i + 1).last() == line@);
        if starts_with_exec(line, &dev) {
            let prev = current;
            match prev {
                Some(d) => {
                    let ghost before = disks_view(done@);
                    let ghost dm = d@;
                    done.push(d);
                    assert(disks_view(done@) =~= before.push(dm));
                },
                None => {},
            }
            current = Some(disk_from_header(line));
        } else {
            let prev = current;
            match prev {
                Some(mut d) => {
                    update_disk(&mut d, line);
                    current = Some(d);
                },
                None => {
                    current = None;
                },
            }
        }
        i += 1;
    }
    assert(lsv.take(n as int) =~= lsv);
    match current {
        Some(d) => {
            let ghost before = disks_view(done@);
            let ghost dm = d@;
            done.push(d);
            assert(disks_view(done@) =~= before.push(dm));
        },
        None => {},
    }
    done
}

/// Takes in a fresh listing: the text `diskutil list` printed, or why it
/// could not be run. A listing replaces the disks and clears the error;
/// a failure keeps the disks and records the error. Loading is over
/// either way.
pub fn fetch_disk_info(state: &mut DiskInfoState, listing: Result<&str, String>)
    ensures
        final(state).loading == false,
        final(state).selected_index == old(state).selected_index,
        match listing {
            Ok(text) => {
                &&& disks_view(final(state).disks@) == parse_disks(text@)
                &&& final(state).error is None
            },
            Err(e) => {
                &&& final(state).disks@ == old(state).disks@
                &&& final(state).error == Some(e)
            },
        },
{
    state.loading = true;
    state.error = None;
    match listing {
        Ok(text) => {
            state.disks = parse_diskutil_output(text);
            state.loading = false;
        },
        Err(e) => {
            state.error = Some(e);
            state.loading = false;
        },
    }
}

impl Default for DiskInfoState {
    fn default() -> (s: Self)
        ensures
            s.disks@.len() == 0,
            !s.loading,
            s.error is None,
            s.selected_index == 0,
    {
        DiskInfoState { disks: Vec::new(), loading: false, error: None, selected_index: 0 }
    }
}

/// What "Copy disk info" puts on the clipboard.
pub open spec fn clipboard_text(d: DiskModel) -> Seq<char>
    decreases d.details.len(),
{
    if d.details.len() == 0 {
        "Device: "@ + d.identifier + seq!['\n'] + "Size: "@ + d.size + seq!['\n']
    } else {
        let prev = DiskModel { details: d.details.drop_last(), ..d };
        clipboard_text(prev) + d.details.last().1 + seq!['\n']
    }
}

/// The text that describes a disk for the clipboard: its device, its size,
/// then its detail lines, each ended by a newline.
pub fn disk_clipboard_text(d: &DiskEntry) -> (r: String)
    ensures
        r@ == clipboard_text(d@),
{
    let mut r = String::new();
    push_str(&mut r, "Device: ");
    push_str(&mut r, d.identifier.as_str());
    push_char(&mut r, '\n');
    push_str(&mut r, "Size: ");
    push_str(&mut r, d.size.as_str());
    push_char(&mut r, '\n');
    let ghost dm = d@;
    assert(r@ =~= clipboard_text(DiskModel { details: dm.details.take(0), ..dm }));
    let n = d.details.len();
    let mut i: usize = 0;
    while i < n
        invariant
            n == d.details@.len(),
            i <= n,
            dm == d@,
            r@ == clipboard_text(DiskModel { details: dm.details.take(i as int), ..dm }),
        decreases n - i,
    {
        let ghost prev = DiskModel { details: dm.details.take(i as int), ..dm };
        let ghost next = DiskModel { details: dm.details.take(i + 1), ..dm };
        assert(next.details.drop_last() =~= prev.details);
        assert(next.details.last().1 == d.details@[i as int].1@);
        push_str(&mut r, d.details[i].1.as_str());
        push_char(&mut r, '\n');
        assert(r@ =~= clipboard_text(next));
        i += 1;
    }
    assert(dm.details.take(n as int) =~= dm.details);
    r
}


// ---------------------------------------------------------------------------
// Laws of the listing
// ---------------------------------------------------------------------------

proof fn lemma_header_identifier(line: Seq<char>)
    requires
        starts_with(line, "/dev/disk"@),
    ensures
        starts_with(disk_header(line).identifier, "/dev/disk"@),
{
    reveal_strlit("/dev/disk");
    let p = "/dev/disk"@;
    assert(line.take(9) == p);
    assert forall|i: int| 0 <= i < 9 implies !crate::text::is_ws(#[trigger] line[i]) by {
        assert(line[i] == p[i]);
    }
    assert(crate::text::trim_start(line) == line);
    crate::text::lemma_first_ws(line);
    let k = crate::text::first_ws(line);
    assert(k >= 9) by {
        if k < 9 {
            assert(crate::text::is_ws(line[k]));
        }
    }
    assert(words(line)[0] == line.take(k));
    assert(line.take(k).take(9) =~= line.take(9));
}

pub open spec fn dev_disk_entry(d: DiskModel) -> bool {
    &&& starts_with(d.identifier, "/dev/disk"@)
    &&& d.name == trim_start_matches(d.identifier, "/dev/"@)
}

proof fn lemma_disk_fold_entries(ls: Seq<Seq<char>>)
    ensures
        forall|i: int| 0 <= i < disk_fold(ls).0.len() ==> dev_disk_entry(#[trigger] disk_fold(ls).0[i]),
        disk_fold(ls).1 matches Some(d) ==> dev_disk_entry(d),
    decreases ls.len(),
{
    if ls.len() > 0 {
        lemma_disk_fold_entries(ls.drop_last());
        let st = disk_fold(ls.drop_last());
        let line = ls.last();
        if starts_with(line, "/dev/disk"@) {
            lemma_header_identifier(line);
            let r = disk_fold(ls);
            assert forall|i: int| 0 <= i < r.0.len() implies dev_disk_entry(#[trigger] r.0[i]) by {
                if i < st.0.len() {
                    assert(r.0[i] == st.0[i]);
                }
            }
        }
    }
}

/// Every disk of a listing comes from a `/dev/disk...` line: its identifier
/// starts with `/dev/disk`, and its name is the identifier without `/dev/`.
pub proof fn law_disks_come_from_dev_lines(text: Seq<char>)
    ensures
        forall|i: int| 0 <= i < parse_disks(text).len() ==> dev_disk_entry(#[trigger] parse_disks(text)[i]),
{
    let st = disk_fold(lines(text));
    lemma_disk_fold_entries(lines(text));
    assert forall|i: int| 0 <= i < parse_disks(text).len() implies dev_disk_entry(#[trigger] parse_disks(text)[i]) by {
        if i < st.0.len() {
            assert(parse_disks(text)[i] == st.0[i]);
        }
    }
}

/// How many lines of a listing start with `/dev/disk`.
pub open spec fn dev_line_count(ls: Seq<Seq<char>>) -> nat
    decreases ls.len(),
{
    if ls.len() == 0 {
        0
    } else {
        dev_line_count(ls.drop_last()) + if starts_with(ls.last(), "/dev/disk"@) {
            1nat
        } else {
            0nat
        }
    }
}

proof fn lemma_disk_fold_count(ls: Seq<Seq<char>>)
    ensures
        disk_fold(ls).0.len() + (if disk_fold(ls).1 is Some { 1nat } else { 0nat }) == dev_line_count(ls),
    decreases ls.len(),
{
    if ls.len() > 0 {
        lemma_disk_fold_count(ls.drop_last());
    }
}

/// A listing has exactly one disk per `/dev/disk` line.
pub proof fn law_one_disk_per_dev_line(text: Seq<char>)
    ensures
        parse_disks(text).len() == dev_line_count(lines(text)),
{
    lemma_disk_fold_count(lines(text));
}
} // verus!
