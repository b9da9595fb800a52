use disk_doctor::disk_info::{
    disk_clipboard_text, fetch_disk_info, parse_diskutil_output, DiskEntry, DiskInfoState,
};

const LISTING: &str = "/dev/disk0 (internal, physical):
   #:                       TYPE NAME                    SIZE       IDENTIFIER
   0:      GUID_partition_scheme                        *500.3 GB   disk0
   1:             Apple_APFS_ISC Container disk1         524.3 MB   disk0s1

/dev/disk3 (synthesized):
   #:                       TYPE NAME                    SIZE       IDENTIFIER
   0:      APFS Container Scheme -                      +494.4 GB   disk3
   1:                APFS Volume Data                    310.2 GB   disk3s5
/dev/disk4 (external, physical):
   0:     FDisk_partition_scheme                        *32.0 GB    disk4
";

#[test]
fn listing_is_split_into_disks() {
    let disks = parse_diskutil_output(LISTING);
    assert_eq!(disks.len(), 3);
    assert_eq!(disks[0].name, "disk0");
    assert_eq!(disks[0].identifier, "/dev/disk0");
    assert!(disks[0].internal);
    // the second to last word of the scheme line
    assert_eq!(disks[0].size, "GB");
    assert_eq!(disks[0].details.len(), 3);
    assert_eq!(disks[0].details[1], ("".to_string(), "0:      GUID_partition_scheme                        *500.3 GB   disk0".to_string()));
    assert_eq!(disks[1].name, "disk3");
    assert!(!disks[1].internal);
    assert_eq!(disks[1].size, "");
    assert_eq!(disks[1].details.len(), 3);
    assert_eq!(disks[2].identifier, "/dev/disk4");
    assert_eq!(disks[2].size, "GB");
    assert!(!disks[2].internal);
}

#[test]
fn lines_before_the_first_disk_are_ignored() {
    let disks = parse_diskutil_output("garbage\n  more\n/dev/disk9 internal\n");
    assert_eq!(disks.len(), 1);
    assert_eq!(disks[0].name, "disk9");
    assert!(disks[0].internal);
    assert!(disks[0].details.is_empty());
    assert!(parse_diskutil_output("").is_empty());
}

#[test]
fn fetch_replaces_disks_or_records_the_error() {
    let mut state = DiskInfoState::default();
    state.selected_index = 2;
    fetch_disk_info(&mut state, Ok(LISTING));
    assert_eq!(state.disks.len(), 3);
    assert!(!state.loading);
    assert!(state.error.is_none());
    assert_eq!(state.selected_index, 2);
    fetch_disk_info(&mut state, Err("diskutil failed: not found".to_string()));
    assert_eq!(state.disks.len(), 3);
    assert!(!state.loading);
    assert_eq!(state.error.as_deref(), Some("diskutil failed: not found"));
    fetch_disk_info(&mut state, Ok(""));
    assert!(state.disks.is_empty());
    assert!(state.error.is_none());
}

#[test]
fn clipboard_text_lists_details() {
    let d = DiskEntry {
        name: "disk4".to_string(),
        identifier: "/dev/disk4".to_string(),
        size: "32.0".to_string(),
        internal: false,
        details: vec![("".to_string(), "a".to_string()), ("".to_string(), "b c".to_string())],
    };
    assert_eq!(disk_clipboard_text(&d), "Device: /dev/disk4\nSize: 32.0\na\nb c\n");
}
