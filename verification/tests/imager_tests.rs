use disk_doctor::imager::{ImageCopy, ImagingWindow};
use disk_doctor::imager::ImageReport;
use disk_doctor::imager::{can_verify, digest_hex, verify_report, Sha256Stream};

#[test]
fn sha256_of_known_inputs() {
    let h = Sha256Stream::new();
    assert_eq!(h.finish_hex(), "e3b0c44298fc1c149afbf4c8996fb92427ae41e4649b934ca495991b7852b855");
    let mut h = Sha256Stream::new();
    h.update(b"abc");
    assert_eq!(h.finish_hex(), "ba7816bf8f01cfea414140de5dae2223b00361a396177a9cb410ff61f20015ad");
}

#[test]
fn chunks_hash_like_the_whole() {
    let data: Vec<u8> = (0..10000u32).map(|i| (i * 31 % 251) as u8).collect();
    let mut whole = Sha256Stream::new();
    whole.update(&data);
    let mut parts = Sha256Stream::new();
    for c in data.chunks(777) {
        parts.update(c);
    }
    assert_eq!(whole.finish_hex(), parts.finish_hex());
}

#[test]
fn digest_bytes_in_lowercase_hex() {
    assert_eq!(digest_hex(&[0x00, 0x0a, 0xff, 0x10]), "000aff10");
    assert_eq!(digest_hex(&[]), "");
}

#[test]
fn verification_verdicts() {
    let same = verify_report(Some("ab".to_string()), Some("ab".to_string()));
    assert_eq!(same.digest_text, "Src: ab\nDst: ab");
    assert_eq!(same.verified, Some(true));
    assert!(same.error.is_none());
    let differ = verify_report(Some("ab".to_string()), Some("cd".to_string()));
    assert_eq!(differ.verified, Some(false));
    let failed = verify_report(None, Some("cd".to_string()));
    assert!(failed.verified.is_none());
    assert_eq!(failed.digest_text, "");
    assert_eq!(failed.error.as_deref(), Some("Verification failed — cannot read one or both files"));
}

#[test]
fn an_unchanged_image_verifies_and_an_altered_one_does_not() {
    let source: Vec<u8> = (0..5000u32).map(|i| (i % 253) as u8).collect();
    let mut image = source.clone();
    let hash = |data: &[u8], step: usize| {
        let mut h = Sha256Stream::new();
        for c in data.chunks(step) {
            h.update(c);
        }
        h.finish_hex()
    };
    let d = hash(&source, 1000);
    let report = verify_report(Some(d.clone()), Some(hash(&image, 333)));
    assert_eq!(report.verified, Some(true));
    assert_eq!(report.digest_text, format!("Src: {d}\nDst: {d}"));
    image[4321] ^= 1;
    let report = verify_report(Some(d), Some(hash(&image, 333)));
    assert_eq!(report.verified, Some(false));
}

#[test]
fn verify_is_offered_after_a_clean_copy() {
    assert!(can_verify(true, 10, &None));
    assert!(!can_verify(false, 10, &None));
    assert!(!can_verify(true, 0, &None));
    assert!(!can_verify(true, 10, &Some("Write error".to_string())));
}

#[test]
fn copy_steps_report_what_was_copied() {
    let mut w = ImagingWindow::default();
    assert!(!w.running);
    w.start();
    let mut copy = ImageCopy::new(6);
    let r = copy.copied_chunk(b"abc");
    assert_eq!((r.bytes_copied, r.total_bytes, r.done), (3, 6, false));
    w.receive(r);
    assert!(w.running);
    assert!(!w.can_verify());
    assert_eq!(copy.cancelled().error.as_deref(), Some("Imaging cancelled by user"));
    assert_eq!(copy.read_failed("bad sector").error.as_deref(), Some("Read error: bad sector"));
    assert_eq!(copy.write_failed("disk full").error.as_deref(), Some("Write error: disk full"));
    assert_eq!(copy.cancelled().bytes_copied, 0);
    copy.copied_chunk(b"");
    let end = copy.finish();
    assert_eq!(end.bytes_copied, 3);
    assert_eq!(end.sha256_digest, "ba7816bf8f01cfea414140de5dae2223b00361a396177a9cb410ff61f20015ad");
    w.receive(end);
    assert!(!w.running);
    assert!(w.can_verify());
    w.start();
    w.stop();
    assert!(!w.running);
}

#[test]
fn a_check_becomes_a_final_report() {
    let r = ImageReport::from_check(verify_report(Some("ab".to_string()), Some("ab".to_string())));
    assert!(r.done);
    assert_eq!(r.verified, Some(true));
    assert_eq!(r.sha256_digest, "Src: ab\nDst: ab");
    assert_eq!(r.bytes_copied, 0);
    let f = ImageReport::failed(7, "Cannot seek source to start".to_string());
    assert_eq!((f.bytes_copied, f.total_bytes, f.done), (0, 7, true));
}
