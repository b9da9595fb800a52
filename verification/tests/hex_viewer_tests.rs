use disk_doctor::hex_viewer::{page_len, parse_offset, HexViewerState, PageRead, PAGE_SIZE};

#[test]
fn offsets_typed_by_the_user() {
    assert_eq!(parse_offset("42"), 42);
    assert_eq!(parse_offset("  0x1F \n"), 31);
    assert_eq!(parse_offset("0XfF"), 255);
    assert_eq!(parse_offset("+7"), 7);
    assert_eq!(parse_offset("0x+10"), 16);
    assert_eq!(parse_offset("-1"), 0);
    assert_eq!(parse_offset("+"), 0);
    assert_eq!(parse_offset("0x"), 0);
    assert_eq!(parse_offset(""), 0);
    assert_eq!(parse_offset("12ab"), 0);
    assert_eq!(parse_offset("18446744073709551615"), u64::MAX);
    assert_eq!(parse_offset("18446744073709551616"), 0);
    assert_eq!(parse_offset("0xffffffffffffffff"), u64::MAX);
    assert_eq!(parse_offset("0x10000000000000000"), 0);
}

#[test]
fn offsets_agree_with_std_parsing() {
    for s in ["0", "007", "123456789", "0x0", "0xdeadBEEF", " 99 ", "1_000", "٣", "0x-1", "+"] {
        let t = s.trim();
        let want = if t.starts_with("0x") || t.starts_with("0X") {
            u64::from_str_radix(&t[2..], 16).unwrap_or(0)
        } else {
            t.parse::<u64>().unwrap_or(0)
        };
        assert_eq!(parse_offset(s), want, "input {:?}", s);
    }
}

#[test]
fn written_offsets_read_back() {
    for n in [0u64, 9, 10, 65535, 1 << 40, u64::MAX] {
        assert_eq!(parse_offset(&n.to_string()), n);
        assert_eq!(parse_offset(&format!("0x{:x}", n)), n);
        assert_eq!(parse_offset(&format!("0x{:X}", n)), n);
    }
}

#[test]
fn go_offset_stays_in_the_file() {
    let mut state = HexViewerState::default();
    state.file_size = 1000;
    state.go_offset("0x100");
    assert_eq!(state.offset, 256);
    state.go_offset("5000");
    assert_eq!(state.offset, 999);
    state.file_size = 0;
    state.go_offset("5");
    assert_eq!(state.offset, 0);
}

#[test]
fn pages_move_within_bounds() {
    let mut state = HexViewerState::default();
    state.file_size = 3 * PAGE_SIZE + 10;
    assert!(state.at_start());
    assert_eq!(state.page_count(), 4);
    state.next_page();
    assert_eq!(state.offset, PAGE_SIZE);
    assert_eq!(state.page_number(), 2);
    state.next_page();
    state.next_page();
    assert_eq!(state.offset, 3 * PAGE_SIZE);
    assert!(state.at_end());
    state.next_page();
    assert_eq!(state.offset, 3 * PAGE_SIZE + 9);
    state.prev_page();
    assert_eq!(state.offset, 2 * PAGE_SIZE + 9);
    state.offset = 5;
    state.prev_page();
    assert_eq!(state.offset, 0);
}

#[test]
fn read_length_is_a_page_or_the_rest() {
    assert_eq!(page_len(0, 10), 10);
    assert_eq!(page_len(0, 1 << 20), 65536);
    assert_eq!(page_len(100, 50), 0);
    assert_eq!(page_len(70000, 70010), 10);
}

#[test]
fn loading_outcomes() {
    let mut state = HexViewerState::default();
    state.load(PageRead::Read { file_size: 3, bytes: vec![1, 2, 3] });
    assert_eq!(state.error.as_deref(), Some("No file specified"));
    assert!(!state.loaded);
    state.path = "/dev/disk0".to_string();
    state.load(PageRead::OpenFailed("Permission denied (os error 13)".to_string()));
    assert_eq!(state.error.as_deref(), Some("Cannot open: Permission denied (os error 13)"));
    state.load(PageRead::SeekFailed { file_size: 77 });
    assert_eq!(state.error.as_deref(), Some("Seek failed"));
    assert_eq!(state.file_size, 77);
    state.load(PageRead::ReadFailed { file_size: 78, message: "EIO".to_string() });
    assert_eq!(state.error.as_deref(), Some("Read error: EIO"));
    state.load(PageRead::Read { file_size: 3, bytes: vec![1, 2, 3] });
    assert!(state.loaded);
    assert!(state.error.is_none());
    assert_eq!(state.data, vec![1, 2, 3]);
    assert_eq!(state.file_size, 3);
    state.load(PageRead::Skipped);
    assert_eq!(state.data, vec![1, 2, 3]);
}

#[test]
fn rows_show_hex_and_text() {
    let mut state = HexViewerState::default();
    state.offset = 0x20;
    state.bytes_per_row = 4;
    state.data = vec![0x41, 0x20, 0x7E, 0x7F, 0x00, 0xFF];
    let rows = state.rows();
    assert_eq!(rows.len(), 2);
    assert_eq!(rows[0].label, "0x00000020  ");
    assert_eq!(rows[0].cells, vec!["41 ", "20 ", "7E ", "7F "]);
    assert_eq!(rows[0].blanks, 0);
    assert_eq!(rows[0].ascii, "A ~.");
    assert_eq!(rows[1].label, "0x00000024  ");
    assert_eq!(rows[1].cells, vec!["00 ", "FF "]);
    assert_eq!(rows[1].blanks, 2);
    assert_eq!(rows[1].ascii, "..");
    assert_eq!(state.column_labels(), vec!["00 ", "01 ", "02 ", "03 "]);
    state.bytes_per_row = 0;
    assert_eq!(state.rows().len(), 6);
    assert_eq!(state.column_labels(), vec!["00 "]);
    state.data.clear();
    assert!(state.rows().is_empty());
}

#[test]
fn opening_a_file_starts_at_its_first_page() {
    let mut state = HexViewerState::default();
    state.path = "/tmp/x".to_string();
    state.offset = 4096;
    state.loaded = true;
    state.go_to_offset = "0x1000".to_string();
    state.file_size = 9000;
    state.open_file();
    assert_eq!(state.offset, 0);
    assert!(!state.loaded);
    assert!(state.go_to_offset.is_empty());
    assert_eq!(state.path, "/tmp/x");
    assert_eq!(state.file_size, 9000);
}

#[test]
fn moving_keeps_the_other_fields() {
    let mut state = HexViewerState::default();
    state.file_size = 5000;
    state.data = vec![1, 2, 3];
    state.loaded = true;
    state.go_to_offset = "12".to_string();
    state.go_offset("12");
    state.next_page();
    state.prev_page();
    assert_eq!(state.data, vec![1, 2, 3]);
    assert!(state.loaded);
    assert_eq!(state.go_to_offset, "12");
    assert!(state.error.is_none());
}
