//! Paging through a file or device 64 KiB at a time and showing it as hex.

use vstd::prelude::*;
use crate::numfmt::{dec_digits, digit_char, hex_digits, push_hex_padded, zero_pad};
use crate::text::{chars_of, owned, push_char, push_str, starts_with, trim, trim_exec};

verus! {

broadcast use vstd::string::group_string_axioms;

/// Bytes read per page.
pub const PAGE_SIZE: u64 = 65536;

/// The hex viewer's state.
pub struct HexViewerState {
    pub path: String,
    pub data: Vec<u8>,
    pub offset: u64,
    pub file_size: u64,
    pub loaded: bool,
    pub error: Option<String>,
    pub go_to_offset: String,
    pub bytes_per_row: usize,
}

/// What happened when the page at the current offset was read.
pub enum PageRead {
    /// No read was tried.
    Skipped,
    /// The file could not be opened; the system's message.
    OpenFailed(String),
    /// The file's size is known, but seeking to the offset failed.
    SeekFailed { file_size: u64 },
    /// Reading failed; the system's message.
    ReadFailed { file_size: u64, message: String },
    /// These bytes were read.
    Read { file_size: u64, bytes: Vec<u8> },
}

// ---------------------------------------------------------------------------
// Numbers typed by the user
// ---------------------------------------------------------------------------

/// `char::to_digit(radix)` for `radix <= 36`.
pub open spec fn digit_value(c: char, radix: nat) -> Option<nat> {
    let u = c as u32;
    let d: int = if 48 <= u <= 57 {
        u - 48
    } else if 97 <= u <= 122 {
        u - 87
    } else if 65 <= u <= 90 {
        u - 55
    } else {
        99
    };
    if d < radix {
        Some(d as nat)
    } else {
        None
    }
}

/// The value of a string of digits, if each is a digit of `radix`.
pub open spec fn digits_value(s: Seq<char>, radix: nat) -> Option<nat>
    decreases s.len(),
{
    if s.len() == 0 {
        Some(0)
    } else {
        match (digits_value(s.drop_last(), radix), digit_value(s.last(), radix)) {
            (Some(v), Some(d)) => Some(v * radix + d),
            _ => None,
        }
    }
}

/// `u64::from_str_radix`: an optional `+`, then at least one digit, and a
/// value that fits.
pub open spec fn parse_u64(s: Seq<char>, radix: nat) -> Option<u64> {
    if s.len() == 0 || (s.len() == 1 && (s[0] == '+' || s[0] == '-')) {
        None
    } else {
        let body = if s[0] == '+' {
            s.drop_first()
        } else {
            s
        };
        match digits_value(body, radix) {
            Some(v) => if v <= u64::MAX {
                Some(v as u64)
            } else {
                None
            },
            None => None,
        }
    }
}

/// The offset a user typed: trimmed, hexadecimal after `0x` or `0X`,
/// decimal otherwise; 0 when it is not a number.
pub open spec fn typed_offset(s: Seq<char>) -> u64 {
    let t = trim(s);
    let parsed = if starts_with(t, "0x"@) || starts_with(t, "0X"@) {
        parse_u64(t.skip(2), 16)
    } else {
        parse_u64(t, 10)
    };
    match parsed {
        Some(v) => v,
        None => 0,
    }
}

proof fn lemma_digits_value_grows(s: Seq<char>, radix: nat, i: int)
    requires
        radix >= 1,
        0 <= i <= s.len(),
        digits_value(s, radix) is Some,
    ensures
        digits_value(s.take(i), radix) is Some,
        digits_value(s, radix)->0 >= digits_value(s.take(i), radix)->0,
    decreases s.len(),
{
    if i == s.len() {
        assert(s.take(i) =~= s);
    } else {
        lemma_digits_value_grows(s.drop_last(), radix, i);
        assert(s.drop_last().take(i) =~= s.take(i));
        let v = digits_value(s.drop_last(), radix)->0;
        let d = digit_value(s.last(), radix)->0;
        assert(v * radix + d >= v) by (nonlinear_arith)
            requires
                radix >= 1,
        ;
    }
}

fn digit_value_exec(c: char, radix: u64) -> (r: Option<u64>)
    requires
        radix <= 36,
    ensures
        match digit_value(c, radix as nat) {
            Some(d) => r == Some(d as u64),
            None => r is None,
        },
{
    let u = c as u32;
    let d: u64 = if 48 <= u && u <= 57 {
        (u - 48) as u64
    } else if 97 <= u && u <= 122 {
        (u - 87) as u64
    } else if 65 <= u && u <= 90 {
        (u - 55) as u64
    } else {
        99
    };
    if d < radix {
        Some(d)
    } else {
        None
    }
}

/// `u64::from_str_radix` on the chars `s[from..]`.
fn parse_u64_exec(s: &Vec<char>, from: usize, radix: u64) -> (r: Option<u64>)
    requires
        from <= s@.len(),
        2 <= radix <= 36,
    ensures
        r == parse_u64(s@.skip(from as int), radix as nat),
{
    let ghost t = s@.skip(from as int);
    let n = s.len();
    if from == n {
        return None;
    }
    assert(t[0] == s@[from as int]);
    if n - from == 1 && (s[from] == '+' || s[from] == '-') {
        return None;
    }
    let start = if s[from] == '+' {
        from + 1
    } else {
        from
    };
    let ghost body = s@.skip(start as int);
    assert(body =~= if t[0] == '+' { t.drop_first() } else { t });
    let mut acc: u64 = 0;
    let mut i = start;
    assert(body.take(0) =~= Seq::<char>::empty());
    while i < n
        invariant
            start <= i <= n == s@.len(),
            body == s@.skip(start as int),
            t == s@.skip(from as int),
            t.len() > 0,
            !(t.len() == 1 && (t[0] == '+' || t[0] == '-')),
            body == (if t[0] == '+' { t.drop_first() } else { t }),
            2 <= radix <= 36,
            digits_value(body.take(i - start), radix as nat) == Some(acc as nat),
        decreases n - i,
    {
        let ghost pre = body.take(i - start);
        let ghost next = body.take(i - start + 1);
        assert(next.drop_last() =~= pre);
        assert(next.last() == s@[i as int]);
        match digit_value_exec(s[i], radix) {
            None => {
                proof {
                    assert(digits_value(next, radix as nat) is None);
                    if digits_value(body, radix as nat) is Some {
                        lemma_digits_value_grows(body, radix as nat, i - start + 1);
                    }
                }
                return None;
            },
            Some(d) => {
                let m = acc.checked_mul(radix);
                match m {
                    None => {
                        proof {
                            if digits_value(body, radix as nat) is Some {
                                lemma_digits_value_grows(body, radix as nat, i - start + 1);
                                assert(acc * radix + d >= acc * radix);
                            }
                        }
                        return None;
                    },
                    Some(m) => {
                        match m.checked_add(d) {
                            None => {
                                proof {
                                    if digits_value(body, radix as nat) is Some {
                                        lemma_digits_value_grows(body, radix as nat, i - start + 1);
                                    }
                                }
                                return None;
                            },
                            Some(v) => {
                                acc = v;
                            },
                        }
                    },
                }
            },
        }
        i += 1;
    }
    assert(body.take(n - start) =~= body);
    Some(acc)
}

/// The offset a user typed, as the "Go to offset" box reads it.
pub fn parse_offset(offset_str: &str) -> (r: u64)
    ensures
        r == typed_offset(offset_str@),
{
    let s = chars_of(offset_str);
    let t = trim_exec(&s);
    let hex = t.len() >= 2 && t[0] == '0' && (t[1] == 'x' || t[1] == 'X');
    proof {
        reveal_strlit("0x");
        reveal_strlit("0X");
        if t@.len() >= 2 {
            assert(t@.take(2) =~= seq![t@[0], t@[1]]);
        }
        assert("0x"@ =~= seq!['0', 'x']);
        assert("0X"@ =~= seq!['0', 'X']);
        assert(hex == (starts_with(t@, "0x"@) || starts_with(t@, "0X"@)));
        assert(t@.skip(0) =~= t@);
    }
    let parsed = if hex {
        parse_u64_exec(&t, 2, 16)
    } else {
        parse_u64_exec(&t, 0, 10)
    };
    match parsed {
        Some(v) => v,
        None => 0,
    }
}

// ---------------------------------------------------------------------------
// Paging
// ---------------------------------------------------------------------------

/// How many bytes a page read at `offset` asks for.
pub open spec fn page_len_spec(offset: u64, file_size: u64) -> nat {
    let rest: int = if file_size >= offset {
        file_size - offset
    } else {
        0
    };
    if rest < PAGE_SIZE {
        rest as nat
    } else {
        PAGE_SIZE as nat
    }
}

/// How many bytes to read for the page at `offset`: a page, or what is left
/// of the file.
pub fn page_len(offset: u64, file_size: u64) -> (n: usize)
    ensures
        n == page_len_spec(offset, file_size),
{
    let rest = file_size.saturating_sub(offset);
    if rest < PAGE_SIZE {
        rest as usize
    } else {
        PAGE_SIZE as usize
    }
}

/// `file_size - 1`, or 0 for an empty file: the last offset there is.
pub open spec fn last_offset(file_size: u64) -> u64 {
    if file_size == 0 {
        0
    } else {
        (file_size - 1) as u64
    }
}

/// An offset kept within the file: no further than its last byte.
pub open spec fn clamp_to_file(x: u64, file_size: u64) -> u64 {
    if x < last_offset(file_size) {
        x
    } else {
        last_offset(file_size)
    }
}

/// The viewer never moves past the file's last byte: a clamped offset is at
/// most the last offset, and an offset already within the file stays put.
pub proof fn law_offsets_stay_in_file(x: u64, file_size: u64)
    ensures
        clamp_to_file(x, file_size) <= last_offset(file_size),
        x <= last_offset(file_size) ==> clamp_to_file(x, file_size) == x,
        clamp_to_file(x, file_size) <= x,
{
}

/// `a + b` on `u64` with wrap-around.
pub open spec fn wrapping_sum(a: u64, b: u64) -> u64 {
    if a + b > u64::MAX {
        (a + b - 0x1_0000_0000_0000_0000) as u64
    } else {
        (a + b) as u64
    }
}

impl HexViewerState {
    /// The state's fields other than the page data and messages.
    pub open spec fn same_settings(&self, other: &HexViewerState) -> bool {
        &&& self.path@ == other.path@
        &&& self.go_to_offset@ == other.go_to_offset@
        &&& self.bytes_per_row == other.bytes_per_row
        &&& self.offset == other.offset
    }

    /// Whether a read should be tried: there is a path to read.
    pub fn needs_file(&self) -> (b: bool)
        ensures
            b == (self.path@.len() > 0),
    {
        let v = chars_of(self.path.as_str());
        v.len() > 0
    }

    /// Takes in the outcome of reading the page at the current offset.
    pub fn load(&mut self, read: PageRead)
        ensures
            final(self).same_settings(old(self)),
            old(self).path@.len() == 0 ==> {
                &&& final(self).data@ == old(self).data@
                &&& final(self).file_size == old(self).file_size
                &&& final(self).loaded == old(self).loaded
                &&& opt_text(final(self).error) == Some("No file specified"@)
            },
            old(self).path@.len() > 0 ==> match read {
                PageRead::Skipped => {
                    &&& final(self).data@ == old(self).data@
                    &&& final(self).file_size == old(self).file_size
                    &&& final(self).loaded == old(self).loaded
                    &&& opt_text(final(self).error) == opt_text(old(self).error)
                },
                PageRead::OpenFailed(e) => {
                    &&& final(self).data@ == old(self).data@
                    &&& final(self).file_size == old(self).file_size
                    &&& final(self).loaded == old(self).loaded
                    &&& opt_text(final(self).error) == Some("Cannot open: "@ + e@)
                },
                PageRead::SeekFailed { file_size } => {
                    &&& final(self).data@ == old(self).data@
                    &&& final(self).file_size == file_size
                    &&& final(self).loaded == old(self).loaded
                    &&& opt_text(final(self).error) == Some("Seek failed"@)
                },
                PageRead::ReadFailed { file_size, message } => {
                    &&& final(self).data@ == old(self).data@
                    &&& final(self).file_size == file_size
                    &&& final(self).loaded == old(self).loaded
                    &&& opt_text(final(self).error) == Some("Read error: "@ + message@)
                },
                PageRead::Read { file_size, bytes } => {
                    &&& final(self).data@ == bytes@
                    &&& final(self).file_size == file_size
                    &&& final(self).loaded
                    &&& final(self).error is None
                },
            },
    {
        if !self.needs_file() {
            self.error = Some(owned("No file specified"));
            return;
        }
        match read {
            PageRead::Skipped => {},
            PageRead::OpenFailed(e) => {
                let mut m = owned("Cannot open: ");
                push_str(&mut m, e.as_str());
                self.error = Some(m);
            },
            PageRead::SeekFailed { file_size } => {
                self.file_size = file_size;
                self.error = Some(owned("Seek failed"));
            },
            PageRead::ReadFailed { file_size, message } => {
                self.file_size = file_size;
                let mut m = owned("Read error: ");
                push_str(&mut m, message.as_str());
                self.error = Some(m);
            },
            PageRead::Read { file_size, bytes } => {
                self.file_size = file_size;
                self.data = bytes;
                self.loaded = true;
                self.error = None;
            },
        }
    }

    /// Opening the file named in `path`: back to its first page, not loaded
    /// yet, and the typed offset cleared; the page is read next.
    pub fn open_file(&mut self)
        ensures
            final(self).offset == 0,
            !final(self).loaded,
            final(self).go_to_offset@.len() == 0,
            final(self).path@ == old(self).path@,
            final(self).data@ == old(self).data@,
            final(self).file_size == old(self).file_size,
            opt_text(final(self).error) == opt_text(old(self).error),
            final(self).bytes_per_row == old(self).bytes_per_row,
    {
        self.offset = 0;
        self.loaded = false;
        self.go_to_offset = String::new();
    }

    /// Moves to the offset the user typed, kept within the file; the page
    /// there is read next.
    pub fn go_offset(&mut self, offset_str: &str)
        ensures
            final(self).offset == clamp_to_file(typed_offset(offset_str@), old(self).file_size),
            final(self).file_size == old(self).file_size,
            final(self).data@ == old(self).data@,
            final(self).path@ == old(self).path@,
            final(self).loaded == old(self).loaded,
            opt_text(final(self).error) == opt_text(old(self).error),
            final(self).go_to_offset@ == old(self).go_to_offset@,
            final(self).bytes_per_row == old(self).bytes_per_row,
    {
        let offset = parse_offset(offset_str);
        let last = self.file_size.saturating_sub(1);
        self.offset = if offset < last {
            offset
        } else {
            last
        };
    }

    /// Moves one page back, stopping at the start; the page there is read next.
    pub fn prev_page(&mut self)
        ensures
            final(self).offset == (if old(self).offset >= PAGE_SIZE {
                old(self).offset - PAGE_SIZE
            } else {
                0
            }),
            final(self).file_size == old(self).file_size,
            final(self).data@ == old(self).data@,
            final(self).path@ == old(self).path@,
            final(self).loaded == old(self).loaded,
            opt_text(final(self).error) == opt_text(old(self).error),
            final(self).go_to_offset@ == old(self).go_to_offset@,
            final(self).bytes_per_row == old(self).bytes_per_row,
    {
        self.offset = self.offset.saturating_sub(PAGE_SIZE);
    }

    /// Moves one page on, stopping at the last offset; the page there is read next.
    pub fn next_page(&mut self)
        ensures
            final(self).offset == clamp_to_file(wrapping_sum(old(self).offset, PAGE_SIZE), old(self).file_size),
            final(self).file_size == old(self).file_size,
            final(self).data@ == old(self).data@,
            final(self).path@ == old(self).path@,
            final(self).loaded == old(self).loaded,
            opt_text(final(self).error) == opt_text(old(self).error),
            final(self).go_to_offset@ == old(self).go_to_offset@,
            final(self).bytes_per_row == old(self).bytes_per_row,
    {
        let next = self.offset.wrapping_add(PAGE_SIZE);
        let last = self.file_size.saturating_sub(1);
        self.offset = if next < last {
            next
        } else {
            last
        };
    }

    /// Whether this is the first page.
    pub fn at_start(&self) -> (b: bool)
        ensures
            b == (self.offset == 0),
    {
        self.offset == 0
    }

    /// Whether no page follows this one.
    pub fn at_end(&self) -> (b: bool)
        ensures
            b == (wrapping_sum(self.offset, PAGE_SIZE) >= self.file_size),
    {
        self.offset.wrapping_add(PAGE_SIZE) >= self.file_size
    }

    /// Where the bytes shown end: after the page's data, but not past the file.
    pub fn page_end(&self) -> (e: u64)
        ensures
            e == (if wrapping_sum(self.offset, self.data@.len() as u64) < self.file_size {
                wrapping_sum(self.offset, self.data@.len() as u64)
            } else {
                self.file_size
            }),
    {
        let end = self.offset.wrapping_add(self.data.len() as u64);
        if end < self.file_size {
            end
        } else {
            self.file_size
        }
    }

    /// The number of the current page, counting from one.
    pub fn page_number(&self) -> (n: u64)
        ensures
            n == self.offset / PAGE_SIZE + 1,
    {
        self.offset / PAGE_SIZE + 1
    }

    /// How many pages the file has.
    pub fn page_count(&self) -> (n: u64)
        ensures
            n == wrapping_sum(self.file_size, (PAGE_SIZE - 1) as u64) / PAGE_SIZE,
    {
        self.file_size.wrapping_add(PAGE_SIZE - 1) / PAGE_SIZE
    }
}

pub open spec fn opt_text(o: Option<String>) -> Option<Seq<char>> {
    match o {
        Some(s) => Some(s@),
        None => None,
    }
}

impl Default for HexViewerState {
    fn default() -> (s: Self)
        ensures
            s.path@.len() == 0,
            s.data@.len() == 0,
            s.offset == 0,
            s.file_size == 0,
            !s.loaded,
            s.error is None,
            s.go_to_offset@.len() == 0,
            s.bytes_per_row == 16,
    {
        HexViewerState {
            path: String::new(),
            data: Vec::new(),
            offset: 0,
            file_size: 0,
            loaded: false,
            error: None,
            go_to_offset: String::new(),
            bytes_per_row: 16,
        }
    }
}


// ---------------------------------------------------------------------------
// Rendering
// ---------------------------------------------------------------------------

/// One row of the hex view.
pub struct HexRow {
    /// `0x{offset:08X}  `
    pub label: String,
    /// `{byte:02X} ` for each byte of the row.
    pub cells: Vec<String>,
    /// How many cells are left blank to fill the row.
    pub blanks: usize,
    /// The row's bytes as text.
    pub ascii: String,
}

pub struct RowModel {
    pub label: Seq<char>,
    pub cells: Seq<Seq<char>>,
    pub blanks: nat,
    pub ascii: Seq<char>,
}

impl View for HexRow {
    type V = RowModel;

    open spec fn view(&self) -> RowModel {
        RowModel {
            label: self.label@,
            cells: self.cells@.map_values(|c: String| c@),
            blanks: self.blanks as nat,
            ascii: self.ascii@,
        }
    }
}

/// A byte as the text column shows it: printable ASCII and space as
/// themselves, anything else as `.`.
pub open spec fn ascii_char(b: u8) -> char {
    if (0x21 <= b <= 0x7E) || b == 0x20 {
        b as char
    } else {
        '.'
    }
}

pub open spec fn ascii_text(bytes: Seq<u8>) -> Seq<char> {
    bytes.map_values(|b: u8| ascii_char(b))
}

/// The text column of a row has one character per byte: every printable
/// ASCII byte (space through `~`) as itself, every other byte as `.`.
pub proof fn law_text_column_shows_printable_bytes(bytes: Seq<u8>, abs: u64, bpr: nat)
    ensures
        row_model(bytes, abs, bpr).ascii.len() == bytes.len(),
        forall|i: int|
            0 <= i < bytes.len() && 0x20 <= bytes[i] <= 0x7E ==> (#[trigger] row_model(
                bytes,
                abs,
                bpr,
            ).ascii[i]) as u32 == bytes[i] as u32,
        forall|i: int|
            0 <= i < bytes.len() && !(0x20 <= bytes[i] <= 0x7E) ==> #[trigger] row_model(
                bytes,
                abs,
                bpr,
            ).ascii[i] == '.',
{
}

/// A byte as a hex cell: `{:02X} `.
pub open spec fn hex_cell(b: u8) -> Seq<char> {
    zero_pad(hex_digits(b as nat, true), 2) + seq![' ']
}

/// A row's offset: `0x{:08X}  `.
pub open spec fn row_label(abs: u64) -> Seq<char> {
    "0x"@ + zero_pad(hex_digits(abs as nat, true), 8) + "  "@
}

/// The row that shows `bytes`, which start `abs` bytes into the source, in
/// rows of `bpr` bytes.
pub open spec fn row_model(bytes: Seq<u8>, abs: u64, bpr: nat) -> RowModel {
    RowModel {
        label: row_label(abs),
        cells: bytes.map_values(|b: u8| hex_cell(b)),
        blanks: (bpr - bytes.len()) as nat,
        ascii: ascii_text(bytes),
    }
}

/// A byte as the text column shows it.
pub fn ascii_char_exec(b: u8) -> (c: char)
    ensures
        c == ascii_char(b),
        0x20 <= b <= 0x7E ==> c as u32 == b as u32,
        !(0x20 <= b <= 0x7E) ==> c == '.',
{
    if (0x21 <= b && b <= 0x7E) || b == 0x20 {
        b as char
    } else {
        '.'
    }
}

/// A byte as a hex cell.
pub fn hex_cell_exec(b: u8) -> (r: String)
    ensures
        r@ == hex_cell(b),
{
    let mut r = String::new();
    push_hex_padded(&mut r, b as u64, 2, true);
    push_char(&mut r, ' ');
    assert(r@ =~= hex_cell(b));
    r
}

fn make_row(data: &Vec<u8>, start: usize, end: usize, abs: u64, bpr: usize) -> (row: HexRow)
    requires
        start <= end <= data@.len(),
        end - start <= bpr,
    ensures
        row@ == row_model(data@.subrange(start as int, end as int), abs, bpr as nat),
{
    let ghost bytes = data@.subrange(start as int, end as int);
    let mut label = owned("0x");
    push_hex_padded(&mut label, abs, 8, true);
    push_str(&mut label, "  ");
    let mut cells: Vec<String> = Vec::new();
    let mut ascii = String::new();
    let mut k = start;
    while k < end
        invariant
            start <= k <= end <= data@.len(),
            bytes == data@.subrange(start as int, end as int),
            cells@.map_values(|c: String| c@) == bytes.take(k - start).map_values(|b: u8| hex_cell(b)),
            ascii@ == ascii_text(bytes.take(k - start)),
        decreases end - k,
    {
        let ghost before_c = cells@.map_values(|c: String| c@);
        let b = data[k];
        assert(bytes[k - start] == b);
        assert(bytes.take(k - start + 1) =~= bytes.take(k - start).push(b));
        let cell = hex_cell_exec(b);
        let ghost cv = cell@;
        cells.push(cell);
        push_char(&mut ascii, ascii_char_exec(b));
        assert(cells@.map_values(|c: String| c@) =~= before_c.push(cv));
        assert(bytes.take(k - start + 1).map_values(|b: u8| hex_cell(b)) =~= bytes.take(
            k - start,
        ).map_values(|b: u8| hex_cell(b)).push(hex_cell(b)));
        assert(ascii@ =~= ascii_text(bytes.take(k - start + 1)));
        k += 1;
    }
    assert(bytes.take(end - start) =~= bytes);
    assert(label@ =~= row_label(abs));
    HexRow { label, cells, blanks: bpr - (end - start), ascii }
}

impl HexViewerState {
    /// Bytes per row, at least one.
    pub open spec fn row_width(&self) -> nat {
        if self.bytes_per_row == 0 {
            1
        } else {
            self.bytes_per_row as nat
        }
    }

    /// The column headings over the hex cells: `{:02X} ` of each column number.
    pub fn column_labels(&self) -> (labels: Vec<String>)
        ensures
            labels@.len() == self.row_width(),
            forall|b: int|
                0 <= b < labels@.len() ==> (#[trigger] labels@[b])@ == zero_pad(hex_digits(b as nat, true), 2)
                    + seq![' '],
    {
        let bpr: usize = if self.bytes_per_row == 0 {
            1
        } else {
            self.bytes_per_row
        };
        let mut labels: Vec<String> = Vec::new();
        let mut b: usize = 0;
        while b < bpr
            invariant
                bpr == self.row_width(),
                b <= bpr,
                labels@.len() == b,
                forall|k: int|
                    0 <= k < b ==> (#[trigger] labels@[k])@ == zero_pad(hex_digits(k as nat, true), 2)
                        + seq![' '],
            decreases bpr - b,
        {
            let mut l = String::new();
            push_hex_padded(&mut l, b as u64, 2, true);
            push_char(&mut l, ' ');
            labels.push(l);
            b += 1;
        }
        labels
    }

    /// The rows that show the page: `row_width()` bytes each, the last one
    /// possibly shorter.
    pub fn rows(&self) -> (rows: Vec<HexRow>)
        ensures
            rows@.len() == (self.data@.len() + self.row_width() - 1) / (self.row_width() as int),
            forall|i: int|
                0 <= i < rows@.len() ==> {
                    let start = i * self.row_width();
                    let end = if start + self.row_width() <= self.data@.len() {
                        start + self.row_width()
                    } else {
                        self.data@.len() as int
                    };
                    (#[trigger] rows@[i])@ == row_model(
                        self.data@.subrange(start, end),
                        wrapping_sum(self.offset, start as u64),
                        self.row_width(),
                    )
                },
    {
        let bpr: usize = if self.bytes_per_row == 0 {
            1
        } else {
            self.bytes_per_row
        };
        let ghost w = self.row_width();
        let n = self.data.len();
        let mut rows: Vec<HexRow> = Vec::new();
        let mut start: usize = 0;
        let mut i: usize = 0;
        while start < n
            invariant
                bpr == w,
                w >= 1,
                n == self.data@.len(),
                start <= n,
                start as int == (if i * w < n { i * w } else { n as int }),
                rows@.len() == i,
                i <= n,
                i > 0 ==> (i - 1) * w < n,
                forall|j: int|
                    0 <= j < i ==> {
                        let s0 = j * w;
                        let e0 = if s0 + w <= n {
                            s0 + w
                        } else {
                            n as int
                        };
                        (#[trigger] rows@[j])@ == row_model(
                            self.data@.subrange(s0, e0),
                            wrapping_sum(self.offset, s0 as u64),
                            w,
                        )
                    },
            decreases n - start,
        {
            let end = if bpr <= n - start {
                start + bpr
            } else {
                n
            };
            assert(i <= i * w) by (nonlinear_arith)
                requires
                    w >= 1,
                    i >= 0,
            ;
            let abs = self.offset.wrapping_add(start as u64);
            let row = make_row(&self.data, start, end, abs, bpr);
            rows.push(row);
            assert((i + 1) * w == i * w + w) by (nonlinear_arith);
            start = end;
            i += 1;
        }
        proof {
            if i > 0 {
                assert((i - 1) * w == i * w - w) by (nonlinear_arith);
            }
            let k = (n + w - 1) / (w as int);
            assert(k == i) by (nonlinear_arith)
                requires
                    w >= 1,
                    i * w >= n,
                    i * w < n + w,
                    i > 0 ==> (i - 1) * w < n,
                    k == (n + w - 1) / (w as int),
                    i >= 0,
            ;
        }
        rows
    }
}


// ---------------------------------------------------------------------------
// Laws of typed offsets
// ---------------------------------------------------------------------------

proof fn lemma_dec_digits_value(n: nat)
    ensures
        digits_value(dec_digits(n), 10) == Some(n),
        dec_digits(n).len() > 0,
        forall|i: int| 0 <= i < dec_digits(n).len() ==> 48 <= (#[trigger] dec_digits(n)[i]) as u32 <= 57,
    decreases n,
{
    let s = dec_digits(n);
    if n >= 10 {
        lemma_dec_digits_value(n / 10);
        let p = dec_digits(n / 10);
        assert(s.drop_last() =~= p);
        assert(s.last() == digit_char(n % 10, false));
        assert(digit_value(s.last(), 10) == Some(n % 10));
        assert(digits_value(s, 10) == Some((n / 10) * 10 + n % 10));
        assert forall|i: int| 0 <= i < s.len() implies 48 <= (#[trigger] s[i]) as u32 <= 57 by {
            if i < p.len() {
                assert(s[i] == p[i]);
            }
        }
    } else {
        assert(s.drop_last() =~= Seq::<char>::empty());
        assert(digit_value(s.last(), 10) == Some(n));
        assert(digits_value(s.drop_last(), 10) == Some(0nat));
    }
}

proof fn lemma_hex_digits_value(n: nat, upper: bool)
    ensures
        digits_value(hex_digits(n, upper), 16) == Some(n),
        hex_digits(n, upper).len() > 0,
        forall|i: int|
            0 <= i < hex_digits(n, upper).len() ==> {
                let u = (#[trigger] hex_digits(n, upper)[i]) as u32;
                (48 <= u <= 57) || (97 <= u <= 102) || (65 <= u <= 70)
            },
    decreases n,
{
    let s = hex_digits(n, upper);
    if n >= 16 {
        lemma_hex_digits_value(n / 16, upper);
        let p = hex_digits(n / 16, upper);
        assert(s.drop_last() =~= p);
        assert(s.last() == digit_char(n % 16, upper));
        assert(digit_value(s.last(), 16) == Some(n % 16));
        assert(digits_value(s, 16) == Some((n / 16) * 16 + n % 16));
        assert forall|i: int| 0 <= i < s.len() implies {
            let u = (#[trigger] s[i]) as u32;
            (48 <= u <= 57) || (97 <= u <= 102) || (65 <= u <= 70)
        } by {
            if i < p.len() {
                assert(s[i] == p[i]);
            }
        }
    } else {
        assert(s.drop_last() =~= Seq::<char>::empty());
        assert(digit_value(s.last(), 16) == Some(n));
        assert(digits_value(s.drop_last(), 16) == Some(0nat));
    }
}

proof fn lemma_trim_no_ws(s: Seq<char>)
    requires
        s.len() > 0,
        !crate::text::is_ws(s[0]),
        !crate::text::is_ws(s.last()),
    ensures
        trim(s) == s,
{
}

/// An offset written in decimal reads back as itself.
pub proof fn law_decimal_offset_reads_back(n: u64)
    ensures
        typed_offset(dec_digits(n as nat)) == n,
{
    let s = dec_digits(n as nat);
    lemma_dec_digits_value(n as nat);
    assert(48 <= s[0] as u32 <= 57);
    assert(48 <= s.last() as u32 <= 57);
    lemma_trim_no_ws(s);
    reveal_strlit("0x");
    reveal_strlit("0X");
    if s.len() >= 2 {
        assert(48 <= s[1] as u32 <= 57);
        assert(s.take(2)[1] == s[1]);
    }
    assert(!starts_with(s, "0x"@));
    assert(!starts_with(s, "0X"@));
    assert(s[0] != '+' && s[0] != '-');
}

/// An offset written in hex after `0x` reads back as itself.
pub proof fn law_hex_offset_reads_back(n: u64, upper: bool)
    ensures
        typed_offset("0x"@ + hex_digits(n as nat, upper)) == n,
{
    reveal_strlit("0x");
    let h = hex_digits(n as nat, upper);
    let s = "0x"@ + h;
    lemma_hex_digits_value(n as nat, upper);
    assert(s[0] == '0');
    assert(s.last() == h.last());
    let u = h.last() as u32;
    assert((48 <= u <= 57) || (97 <= u <= 102) || (65 <= u <= 70));
    lemma_trim_no_ws(s);
    assert(s.take(2) =~= "0x"@);
    assert(s.skip(2) =~= h);
    let u0 = h[0] as u32;
    assert((48 <= u0 <= 57) || (97 <= u0 <= 102) || (65 <= u0 <= 70));
    assert(h[0] != '+' && h[0] != '-');
}
} // verus!
