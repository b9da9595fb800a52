use disk_doctor::partition_scanner::PartitionRun;
use disk_doctor::partition_scanner::{part_sigs, PartitionScanState, SectorScan, MAX_SCAN_SECTORS};

#[test]
fn table_of_headers() {
    let sigs = part_sigs();
    assert_eq!(sigs.len(), 8);
    assert_eq!(sigs[0].name, "GPT Header");
    assert_eq!(sigs[0].sig, b"EFI PART".to_vec());
    assert_eq!(sigs[7].name, "NTFS");
    assert_eq!(sigs[7].sig, b"NTFS    ".to_vec());
    assert_eq!(sigs[7].offset_in_sector, 3);
}

#[test]
fn headers_found_per_sector() {
    let mut scan = SectorScan::new(4096 * 512 + 100);
    assert_eq!(scan.total_sectors, 4096);
    let mut chunk = vec![0u8; 3 * 512 + 100];
    chunk[512..520].copy_from_slice(b"EFI PART");
    chunk[1024 + 3..1024 + 11].copy_from_slice(b"NTFS    ");
    chunk[1024..1026].copy_from_slice(b"HX");
    // a header in the trailing partial sector is not looked at
    chunk[1536..1540].copy_from_slice(b"NXSB");
    let stop = scan.feed(&chunk);
    assert!(!stop);
    assert_eq!(scan.sector, 3);
    let found: Vec<(u64, u64, &str)> =
        scan.found.iter().map(|f| (f.offset, f.sector, f.sig_name.as_str())).collect();
    assert_eq!(found, vec![(512, 1, "GPT Header"), (1024, 2, "HFS+ (HX)"), (1024, 2, "NTFS")]);
    let mut second = vec![0u8; 512];
    second[0..4].copy_from_slice(b"APSB");
    scan.feed(&second);
    assert_eq!(scan.found.last().unwrap().sector, 3);
    assert_eq!(scan.found.last().unwrap().offset, 1536);
    assert_eq!(scan.found.last().unwrap().sig_name, "APFS Volume (APSB)");
}

#[test]
fn scan_stops_after_the_limit() {
    let mut scan = SectorScan::new(0);
    let chunk = vec![0u8; 4096 * 512];
    let mut rounds = 0;
    loop {
        rounds += 1;
        if scan.feed(&chunk) {
            break;
        }
    }
    assert_eq!(rounds, 25);
    assert!(scan.sector >= MAX_SCAN_SECTORS);
}

#[test]
fn reports_and_state() {
    let mut scan = SectorScan::new(1024);
    let mut chunk = vec![0u8; 512];
    chunk[0..2].copy_from_slice(b"H+");
    scan.feed(&chunk);
    let p = scan.progress();
    assert_eq!(p.sectors_scanned, 1);
    assert_eq!(p.total_sectors, 2);
    assert_eq!(p.found.len(), 1);
    assert!(!p.done);
    let end = scan.finish(Some("Input/output error (os error 5)"));
    assert!(end.done);
    assert_eq!(end.error.as_deref(), Some("Read error at sector 1: Input/output error (os error 5)"));
    let ok = scan.finish(None);
    assert!(ok.error.is_none());

    let mut state = PartitionScanState::default();
    state.device = "/dev/disk2".to_string();
    state.start();
    assert!(state.scanning);
    state.receive(p);
    assert!(state.scanning);
    assert_eq!(state.scan_limit(), 2);
    state.receive(ok);
    assert!(!state.scanning);
    state.progress.total_sectors = 1 << 30;
    assert_eq!(state.scan_limit(), MAX_SCAN_SECTORS);
}

#[test]
fn a_run_reports_growing_results_and_ends_once() {
    let mut run = PartitionRun::new(10 * 512);
    let mut reports = Vec::new();
    let mut first = vec![0u8; 1024];
    first[512..520].copy_from_slice(b"EFI PART");
    let (r, stop) = run.chunk(&first);
    assert!(!stop);
    reports.push(r);
    let mut second = vec![0u8; 512];
    second[0..4].copy_from_slice(b"NXSB");
    let (r, _) = run.chunk(&second);
    reports.push(r);
    reports.push(run.end(Some("boom")));
    assert_eq!(reports.iter().map(|r| r.sectors_scanned).collect::<Vec<_>>(), vec![2, 3, 3]);
    assert_eq!(reports.iter().map(|r| r.found.len()).collect::<Vec<_>>(), vec![1, 2, 2]);
    assert_eq!(reports.iter().map(|r| r.done).collect::<Vec<_>>(), vec![false, false, true]);
    assert_eq!(reports[1].found[0].sig_name, reports[0].found[0].sig_name);
    assert_eq!(reports[2].error.as_deref(), Some("Read error at sector 3: boom"));
    assert_eq!(reports[2].total_sectors, 10);
}

#[test]
fn a_device_that_cannot_be_opened_gets_one_report() {
    let p = PartitionRun::open_failed("/dev/disk9", "No such file or directory");
    assert!(p.done);
    assert_eq!(p.sectors_scanned, 0);
    assert_eq!(p.total_sectors, 0);
    assert!(p.found.is_empty());
    assert_eq!(p.error.as_deref(), Some("Cannot open /dev/disk9: No such file or directory"));
}
