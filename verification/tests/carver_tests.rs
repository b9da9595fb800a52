use disk_doctor::carver::{CarveReport, CarverWindow};
use disk_doctor::carver::{
    all_sigs, carved_file_name, default_output_dir, done_status, open_error_text, record_recent,
    scanning_status, sig_label, CarveScan, CarvedFileInfo, FileSig, SIZE_CAP,
};

fn sig(name: &str, ext: &str, header: &[u8], footer: Option<&[u8]>) -> FileSig {
    FileSig {
        name: name.to_string(),
        exts: vec![ext.to_string()],
        header: header.to_vec(),
        footer: footer.map(|f| f.to_vec()),
        min_size: 0,
        enabled: true,
    }
}

#[test]
fn table_lists_all_signatures() {
    let sigs = all_sigs();
    assert_eq!(sigs.len(), 23);
    assert_eq!(sigs[0].name, "ZIP/JAR/APK/AAR");
    assert_eq!(sigs[0].header, vec![0x50, 0x4B, 0x03, 0x04]);
    assert_eq!(sigs[0].footer, Some(vec![0x50, 0x4B, 0x05, 0x06]));
    assert_eq!(sigs[0].exts.len(), 9);
    let disabled: Vec<&str> = sigs.iter().filter(|s| !s.enabled).map(|s| s.name.as_str()).collect();
    assert_eq!(disabled, vec!["TAR", "LevelDB/LMDB"]);
    let sqlite = sigs.iter().find(|s| s.name == "SQLite").unwrap();
    assert_eq!(sqlite.header, b"SQLite format 3\0".to_vec());
    assert_eq!(sqlite.min_size, 512);
}

#[test]
fn disabled_and_empty_headers_are_not_targets() {
    let scan = CarveScan::new(&all_sigs());
    assert_eq!(scan.targets.len(), 21);
    assert_eq!(scan.targets[0].ext, "zip");
    assert_eq!(scan.keep, 16);
    assert_eq!(scan.scanned, 0);
    assert_eq!(scan.files_found, 0);
}

#[test]
fn header_and_footer_in_one_chunk() {
    let sigs = vec![sig("JPEG", "jpg", &[0xFF, 0xD8, 0xFF], Some(&[0xFF, 0xD9]))];
    let mut scan = CarveScan::new(&sigs);
    let mut chunk = vec![0u8; 64];
    chunk[10] = 0xFF;
    chunk[11] = 0xD8;
    chunk[12] = 0xFF;
    chunk[40] = 0xFF;
    chunk[41] = 0xD9;
    let out = scan.process_chunk(&chunk);
    assert_eq!(out.len(), 1);
    assert_eq!(out[0].offset, 10);
    assert_eq!(out[0].size, 32);
    assert_eq!(out[0].index, 0);
    assert_eq!(out[0].ext, "jpg");
    assert_eq!(out[0].file_name(), "f000000001_a.jpg");
    assert_eq!(scan.files_found, 1);
    assert_eq!(scan.scanned, 64);
    assert!(scan.candidates.is_empty());
}

#[test]
fn candidate_waits_for_a_later_chunk() {
    let sigs = vec![sig("PDF", "pdf", b"%PDF", Some(b"%%EOF"))];
    let mut scan = CarveScan::new(&sigs);
    let mut first = vec![0u8; 100];
    first[20..24].copy_from_slice(b"%PDF");
    let out = scan.process_chunk(&first);
    assert!(out.is_empty());
    assert_eq!(scan.candidates.len(), 1);
    assert_eq!(scan.candidates[0].start, 20);
    let mut second = vec![0u8; 100];
    second[50..55].copy_from_slice(b"%%EOF");
    let out = scan.process_chunk(&second);
    assert_eq!(out.len(), 1);
    assert_eq!(out[0].offset, 20);
    assert_eq!(out[0].size, 100 + 55 - 20);
    assert!(scan.candidates.is_empty());
    assert_eq!(scan.scanned, 200);
}

#[test]
fn headerless_end_is_carved_at_the_cap() {
    let sigs = vec![sig("ELF", "elf", &[0x7F, 0x45, 0x4C, 0x46], None)];
    let mut scan = CarveScan::new(&sigs);
    let mut chunk = vec![0u8; 1 << 20];
    chunk[0..4].copy_from_slice(&[0x7F, 0x45, 0x4C, 0x46]);
    let mut carved = Vec::new();
    let mut rounds = 0;
    while carved.is_empty() {
        carved = scan.process_chunk(&chunk);
        rounds += 1;
        chunk[0..4].copy_from_slice(&[0, 0, 0, 0]);
    }
    assert_eq!(rounds, 51);
    assert_eq!(carved.len(), 1);
    assert_eq!(carved[0].offset, 0);
    assert_eq!(carved[0].size, 51 << 20);
    assert!(carved[0].size > SIZE_CAP);
}

#[test]
fn every_header_occurrence_opens_a_candidate() {
    let sigs = vec![
        sig("GZip", "gz", &[0x1F, 0x8B], None),
        sig("BMP", "bmp", &[0x42, 0x4D], None),
    ];
    let mut scan = CarveScan::new(&sigs);
    let chunk = [0x42, 0x4D, 0x1F, 0x8B, 0x00, 0x1F, 0x8B, 0x42, 0x4D];
    let out = scan.process_chunk(&chunk);
    assert!(out.is_empty());
    let starts: Vec<(u64, usize)> = scan.candidates.iter().map(|c| (c.start, c.target)).collect();
    assert_eq!(starts, vec![(2, 0), (5, 0), (0, 1), (7, 1)]);
    let rest = scan.finish();
    let got: Vec<(u64, u64, u64, String)> =
        rest.iter().map(|e| (e.offset, e.size, e.index, e.ext.clone())).collect();
    assert_eq!(
        got,
        vec![
            (2, 7, 0, "gz".to_string()),
            (5, 4, 1, "gz".to_string()),
            (0, 9, 2, "bmp".to_string()),
            (7, 2, 3, "bmp".to_string()),
        ]
    );
    assert_eq!(scan.files_found, 4);
    assert!(scan.candidates.is_empty());
}

#[test]
fn footer_before_the_header_is_not_used() {
    let sigs = vec![sig("GIF", "gif", b"GIF8", Some(&[0x00, 0x3B]))];
    let mut scan = CarveScan::new(&sigs);
    let mut chunk = vec![0x11u8; 32];
    chunk[2] = 0x00;
    chunk[3] = 0x3B;
    chunk[10..14].copy_from_slice(b"GIF8");
    let out = scan.process_chunk(&chunk);
    assert!(out.is_empty());
    assert_eq!(scan.candidates.len(), 1);
    assert_eq!(scan.candidates[0].start, 10);
    let mut next = vec![0x11u8; 32];
    next[5] = 0x00;
    next[6] = 0x3B;
    let out = scan.process_chunk(&next);
    assert_eq!(out.len(), 1);
    assert_eq!(out[0].offset, 10);
    assert_eq!(out[0].size, 32 + 7 - 10);
}

#[test]
fn footer_inside_the_header_is_not_used() {
    // The footer 0xFF 0xD8 lies at 4 and at 6, both overlapping the header
    // 0xFF 0xD8 0xFF at 4; the first one after the header is at 9.
    let sigs = vec![sig("X", "x", &[0xFF, 0xD8, 0xFF], Some(&[0xFF, 0xD8]))];
    let mut scan = CarveScan::new(&sigs);
    let mut chunk = vec![0u8; 20];
    chunk[4..7].copy_from_slice(&[0xFF, 0xD8, 0xFF]);
    chunk[7] = 0xD8;
    chunk[9] = 0xFF;
    chunk[10] = 0xD8;
    let out = scan.process_chunk(&chunk);
    assert_eq!(out.len(), 1);
    assert_eq!(out[0].offset, 4);
    assert_eq!(out[0].size, 9 + 2 - 4);
}

#[test]
fn header_split_across_chunks_is_found() {
    let sigs = vec![sig("PDF", "pdf", b"%PDF", Some(b"%%EOF"))];
    let mut scan = CarveScan::new(&sigs);
    assert_eq!(scan.keep, 5);
    let mut first = vec![0u8; 100];
    first[98..100].copy_from_slice(b"%P");
    let out = scan.process_chunk(&first);
    assert!(out.is_empty());
    assert!(scan.candidates.is_empty());
    assert_eq!(scan.tail, first[95..].to_vec());
    let mut second = vec![0u8; 100];
    second[0..2].copy_from_slice(b"DF");
    second[50..55].copy_from_slice(b"%%EOF");
    let out = scan.process_chunk(&second);
    assert_eq!(out.len(), 1);
    assert_eq!(out[0].offset, 98);
    assert_eq!(out[0].size, 100 + 55 - 98);
}

#[test]
fn footer_split_across_chunks_is_found() {
    let sigs = vec![sig("JPEG", "jpg", &[0xFF, 0xD8, 0xFF], Some(&[0xFF, 0xD9]))];
    let mut scan = CarveScan::new(&sigs);
    let mut first = vec![0u8; 64];
    first[10..13].copy_from_slice(&[0xFF, 0xD8, 0xFF]);
    first[63] = 0xFF;
    assert!(scan.process_chunk(&first).is_empty());
    let mut second = vec![0u8; 16];
    second[0] = 0xD9;
    let out = scan.process_chunk(&second);
    assert_eq!(out.len(), 1);
    assert_eq!(out[0].offset, 10);
    assert_eq!(out[0].size, 63 + 2 - 10);
}

#[test]
fn header_at_the_end_of_a_chunk_is_opened_once() {
    let sigs = vec![sig("GZip", "gz", &[0x1F, 0x8B], None)];
    let mut scan = CarveScan::new(&sigs);
    let mut first = vec![0u8; 50];
    first[48] = 0x1F;
    first[49] = 0x8B;
    scan.process_chunk(&first);
    assert_eq!(scan.candidates.len(), 1);
    scan.process_chunk(&[0u8; 50]);
    let starts: Vec<u64> = scan.candidates.iter().map(|c| c.start).collect();
    assert_eq!(starts, vec![48]);
}

#[test]
fn short_reads_keep_everything_in_the_tail() {
    let sigs = vec![sig("SQLite", "db", b"SQLite format 3\0", None)];
    let mut scan = CarveScan::new(&sigs);
    assert_eq!(scan.keep, 16);
    for b in b"xxSQLite format 3\0".iter() {
        scan.process_chunk(&[*b]);
    }
    let starts: Vec<u64> = scan.candidates.iter().map(|c| c.start).collect();
    assert_eq!(starts, vec![2]);
    assert_eq!(scan.tail.len(), 16);
    assert_eq!(scan.scanned, 18);
}

#[test]
fn names_of_carved_files() {
    assert_eq!(carved_file_name(1, 0x1a2b, "jpg"), "f000000001_1a2b.jpg");
    assert_eq!(carved_file_name(0, 0, "bin"), "f000000000_0.bin");
    assert_eq!(carved_file_name(1234567890, 255, "zip"), "f1234567890_ff.zip");
    assert_eq!(
        carved_file_name(u64::MAX, u64::MAX, "x"),
        format!("f{:09}_{:x}.{}", u64::MAX, u64::MAX, "x")
    );
}

#[test]
fn recent_list_keeps_the_last_fifty() {
    let mut recent: Vec<CarvedFileInfo> = Vec::new();
    for i in 0..60u64 {
        let info = CarvedFileInfo { offset: i, size: 1, sig_name: "carved".to_string(), ext: "bin".to_string() };
        record_recent(&mut recent, info);
        assert!(recent.len() <= 50);
        assert_eq!(recent.last().unwrap().offset, i);
    }
    assert_eq!(recent.len(), 50);
    assert_eq!(recent[0].offset, 10);
}

#[test]
fn extraction_info_is_marked_carved() {
    let sigs = vec![sig("BMP", "bmp", &[0x42, 0x4D], None)];
    let mut scan = CarveScan::new(&sigs);
    scan.process_chunk(&[0, 0x42, 0x4D, 0]);
    let out = scan.finish();
    let info = out[0].info();
    assert_eq!(info.offset, 1);
    assert_eq!(info.size, 3);
    assert_eq!(info.sig_name, "carved");
    assert_eq!(info.ext, "bmp");
}

#[test]
fn extension_falls_back_to_bin() {
    let mut s = sig("Raw", "x", &[1, 2], None);
    s.exts.clear();
    let scan = CarveScan::new(&vec![s]);
    assert_eq!(scan.targets[0].ext, "bin");
}

#[test]
fn labels_and_messages() {
    let sigs = all_sigs();
    assert_eq!(sig_label(&sigs[1]), "GZip (gz, tgz)");
    assert_eq!(sig_label(&sigs[2]), "TAR (tar)");
    assert_eq!(default_output_dir("/Users/me"), "/Users/me/carved_files");
    assert_eq!(scanning_status(2048), "Scanning 2.0 KB...");
    assert_eq!(done_status(3), "Done. Recovered 3 files.");
    assert_eq!(
        open_error_text("/dev/disk3s5", "Permission denied"),
        "Cannot open /dev/disk3s5: Permission denied\nTry: sudo disk-doctor"
    );
}

#[test]
fn every_header_in_the_source_is_carved_once_whatever_the_chunking() {
    let sigs = vec![
        sig("GZip", "gz", &[0x1F, 0x8B], None),
        sig("PDF", "pdf", b"%PDF", None),
    ];
    let mut data: Vec<u8> = (0..300u32).map(|i| (i * 7 % 13) as u8).collect();
    for &p in &[0usize, 9, 10, 63, 64, 127, 298] {
        data[p] = 0x1F;
        data[p + 1] = 0x8B;
    }
    for &p in &[20usize, 61, 200, 296] {
        data[p..p + 4].copy_from_slice(b"%PDF");
    }
    let mut expected: Vec<(u64, String)> = Vec::new();
    for (hdr, ext) in [(&[0x1Fu8, 0x8B][..], "gz"), (&b"%PDF"[..], "pdf")] {
        for p in 0..=data.len() - hdr.len() {
            if &data[p..p + hdr.len()] == hdr {
                expected.push((p as u64, ext.to_string()));
            }
        }
    }
    expected.sort();
    for step in [1usize, 2, 3, 5, 64, 300] {
        let mut scan = CarveScan::new(&sigs);
        let mut got: Vec<(u64, String)> = Vec::new();
        for c in data.chunks(step) {
            got.extend(scan.process_chunk(c).iter().map(|e| (e.offset, e.ext.clone())));
        }
        got.extend(scan.finish().iter().map(|e| (e.offset, e.ext.clone())));
        got.sort();
        assert_eq!(got, expected, "chunks of {step}");
        assert_eq!(scan.files_found, expected.len() as u64);
    }
}

#[test]
fn carver_reports_and_window() {
    let mut w = CarverWindow::default();
    assert!(!w.scanning);
    assert_eq!(w.report.status, "Ready");
    w.start();
    assert!(w.scanning);
    assert_eq!(w.report.status, "Starting...");
    w.receive(CarveReport::scanning(2048));
    assert!(w.scanning);
    assert_eq!(w.report.status, "Scanning 2.0 KB...");
    assert_eq!(w.report.total_bytes, 2048);
    let sigs = vec![sig("BMP", "bmp", &[0x42, 0x4D], None)];
    let mut scan = CarveScan::new(&sigs);
    scan.process_chunk(&[0, 0x42, 0x4D, 0]);
    let r = CarveReport::progress(&scan, 10, Vec::new(), "Scanning... 40.0%".to_string());
    assert_eq!(r.bytes_scanned, 4);
    assert!(!r.done);
    w.receive(r);
    assert!(w.scanning);
    let failed = CarveReport::read_failed(&scan, 10, Vec::new(), "I/O error");
    assert_eq!(failed.error.as_deref(), Some("Read error: I/O error"));
    assert_eq!(failed.status, "Error");
    scan.finish();
    let done = CarveReport::finished(&scan, 10, Vec::new());
    assert_eq!(done.status, "Done. Recovered 1 files.");
    assert_eq!(done.files_found, 1);
    w.receive(done);
    assert!(!w.scanning);
    assert!(w.report.done);
    let open = CarveReport::open_failed("/dev/x", "Permission denied");
    assert!(open.done);
    assert_eq!(open.status, "Error");
    assert_eq!(open.error.as_deref(), Some("Cannot open /dev/x: Permission denied\nTry: sudo disk-doctor"));
}
