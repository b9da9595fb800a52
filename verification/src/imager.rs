//! SHA-256 of disk images, computed while they are copied, and the check
//! that an image matches its source.

use vstd::prelude::*;
use crate::numfmt::{hex_digits, push_hex_padded, zero_pad};
use crate::text::{owned, push_str};

verus! {

broadcast use vstd::string::group_string_axioms;

/// A running SHA-256 computation (`sha2::Sha256`); what it has absorbed is
/// named by [`absorbed`].
#[verifier::external_body]
pub struct Sha256Stream {
    inner: sha2::Sha256,
}

/// The bytes a running SHA-256 computation has taken in so far.
pub uninterp spec fn absorbed(h: Sha256Stream) -> Seq<u8>;

/// The SHA-256 digest of a byte sequence.
pub uninterp spec fn sha256(data: Seq<u8>) -> Seq<u8>;

/// `<sha2::Sha256 as Digest>::new`: a computation that has taken in nothing.
#[verifier::external_body]
fn hasher_new() -> (h: Sha256Stream)
    ensures
        absorbed(h) == Seq::<u8>::empty(),
{
    Sha256Stream { inner: <sha2::Sha256 as sha2::Digest>::new() }
}

/// `Digest::update`: the computation takes in `data` after what it had.
#[verifier::external_body]
fn hasher_update(h: &mut Sha256Stream, data: &[u8])
    ensures
        absorbed(*final(h)) == absorbed(*old(h)) + data@,
{
    sha2::Digest::update(&mut h.inner, data)
}

/// `Digest::finalize`: the 32-byte digest of everything taken in.
#[verifier::external_body]
fn hasher_finalize(h: Sha256Stream) -> (d: Vec<u8>)
    ensures
        d@ == sha256(absorbed(h)),
        d@.len() == 32,
{
    sha2::Digest::finalize(h.inner).to_vec()
}

/// Bytes in lowercase hex, two digits each (`format!("{:x}", digest)`).
pub open spec fn hex_bytes(d: Seq<u8>) -> Seq<char>
    decreases d.len(),
{
    if d.len() == 0 {
        Seq::empty()
    } else {
        hex_bytes(d.drop_last()) + zero_pad(hex_digits(d.last() as nat, false), 2)
    }
}

/// A digest in lowercase hex.
pub fn digest_hex(d: &[u8]) -> (r: String)
    ensures
        r@ == hex_bytes(d@),
{
    let mut r = String::new();
    let n = d.len();
    let mut i: usize = 0;
    assert(d@.take(0) =~= Seq::<u8>::empty());
    while i < n
        invariant
            n == d@.len(),
            i <= n,
            r@ == hex_bytes(d@.take(i as int)),
        decreases n - i,
    {
        assert(d@.take(i + 1).drop_last() =~= d@.take(i as int));
        assert(d@.take(i + 1).last() == d@[i as int]);
        push_hex_padded(&mut r, d[i] as u64, 2, false);
        i += 1;
    }
    assert(d@.take(n as int) =~= d@);
    r
}

impl Sha256Stream {
    /// A hash computation that has taken in nothing.
    pub fn new() -> (h: Sha256Stream)
        ensures
            absorbed(h) == Seq::<u8>::empty(),
    {
        hasher_new()
    }

    /// Takes in the next chunk of the data.
    pub fn update(&mut self, chunk: &[u8])
        ensures
            absorbed(*final(self)) == absorbed(*old(self)) + chunk@,
    {
        hasher_update(self, chunk)
    }

    /// The digest of everything taken in, in lowercase hex.
    pub fn finish_hex(self) -> (r: String)
        ensures
            r@ == hex_bytes(sha256(absorbed(self))),
    {
        let d = hasher_finalize(self);
        digest_hex(d.as_slice())
    }
}

/// The outcome of checking an image against its source.
pub struct VerifyReport {
    pub digest_text: String,
    pub verified: Option<bool>,
    pub error: Option<String>,
}

/// The digests shown after a check: the source's, then the image's.
pub open spec fn report_text(s: Seq<char>, d: Seq<char>) -> Seq<char> {
    "Src: "@ + s + "\nDst: "@ + d
}

/// The verdict of a check in which both files were read: a match exactly
/// when the two digests are equal.
pub open spec fn report_verdict(s: Seq<char>, d: Seq<char>) -> Option<bool> {
    Some(s == d)
}

/// The verdict from the two digests, when both files could be read: the
/// image matches when the digests are equal.
pub fn verify_report(src: Option<String>, dst: Option<String>) -> (r: VerifyReport)
    ensures
        match (src, dst) {
            (Some(s), Some(d)) => {
                &&& r.digest_text@ == report_text(s@, d@)
                &&& r.verified == report_verdict(s@, d@)
                &&& r.error is None
            },
            _ => {
                &&& r.digest_text@.len() == 0
                &&& r.verified is None
                &&& match r.error {
                    Some(e) => e@ == "Verification failed — cannot read one or both files"@,
                    None => false,
                }
            },
        },
{
    match (src, dst) {
        (Some(s), Some(d)) => {
            let mut t = owned("Src: ");
            push_str(&mut t, s.as_str());
            push_str(&mut t, "\nDst: ");
            push_str(&mut t, d.as_str());
            let same = s == d;
            VerifyReport { digest_text: t, verified: Some(same), error: None }
        },
        _ => VerifyReport {
            digest_text: String::new(),
            verified: None,
            error: Some(owned("Verification failed — cannot read one or both files")),
        },
    }
}

/// An image whose bytes are those of its source checks as a match: both
/// hash to the same digest, the verdict is a match, and the same digest is
/// shown for each.
pub proof fn law_unchanged_image_verifies(src: Sha256Stream, dst: Sha256Stream)
    requires
        absorbed(src) == absorbed(dst),
    ensures
        ({
            let s = hex_bytes(sha256(absorbed(src)));
            let d = hex_bytes(sha256(absorbed(dst)));
            &&& s == d
            &&& report_verdict(s, d) == Some(true)
            &&& report_text(s, d) == "Src: "@ + s + "\nDst: "@ + s
        }),
{
}

/// Whether the image can be checked against its source: the copy has ended,
/// copied at least one byte, and reported no error.
pub fn can_verify(done: bool, bytes_copied: u64, error: &Option<String>) -> (b: bool)
    ensures
        b == (done && bytes_copied > 0 && error is None),
{
    done && bytes_copied > 0 && error.is_none()
}


/// What an imaging run or a check reports to the window (its speed, a
/// floating-point display value, travels beside it).
pub struct ImageReport {
    pub bytes_copied: u64,
    pub total_bytes: u64,
    pub sha256_digest: String,
    pub done: bool,
    pub error: Option<String>,
    pub verified: Option<bool>,
}

pub open spec fn opt_text(o: Option<String>) -> Option<Seq<char>> {
    match o {
        Some(s) => Some(s@),
        None => None,
    }
}

impl ImageReport {
    /// The final report of a run that failed with `message`.
    pub fn failed(total: u64, message: String) -> (r: ImageReport)
        ensures
            r.bytes_copied == 0,
            r.total_bytes == total,
            r.sha256_digest@.len() == 0,
            r.done,
            opt_text(r.error) == Some(message@),
            r.verified is None,
    {
        ImageReport {
            bytes_copied: 0,
            total_bytes: total,
            sha256_digest: String::new(),
            done: true,
            error: Some(message),
            verified: None,
        }
    }

    /// The report of a check of the image against its source.
    pub fn from_check(check: VerifyReport) -> (r: ImageReport)
        ensures
            r.bytes_copied == 0,
            r.total_bytes == 0,
            r.sha256_digest@ == check.digest_text@,
            r.done,
            opt_text(r.error) == opt_text(check.error),
            r.verified == check.verified,
    {
        ImageReport {
            bytes_copied: 0,
            total_bytes: 0,
            sha256_digest: check.digest_text,
            done: true,
            error: check.error,
            verified: check.verified,
        }
    }
}

/// A copy in progress: what was copied so far, all of it hashed.
pub struct ImageCopy {
    pub hasher: Sha256Stream,
    pub copied: u64,
    pub total: u64,
}

impl ImageCopy {
    /// A copy of a source of `total` bytes, before any byte.
    pub fn new(total: u64) -> (c: ImageCopy)
        ensures
            absorbed(c.hasher) == Seq::<u8>::empty(),
            c.copied == 0,
            c.total == total,
    {
        ImageCopy { hasher: Sha256Stream::new(), copied: 0, total }
    }

    /// A chunk was read: it is hashed and counted, and the report to send
    /// once it is written is returned.
    pub fn copied_chunk(&mut self, chunk: &[u8]) -> (r: ImageReport)
        requires
            old(self).copied + chunk@.len() <= u64::MAX,
        ensures
            absorbed(final(self).hasher) == absorbed(old(self).hasher) + chunk@,
            final(self).copied == old(self).copied + chunk@.len(),
            final(self).total == old(self).total,
            r.bytes_copied == final(self).copied,
            r.total_bytes == old(self).total,
            r.sha256_digest@.len() == 0,
            !r.done,
            r.error is None,
            r.verified is None,
    {
        self.hasher.update(chunk);
        self.copied = self.copied + chunk.len() as u64;
        ImageReport {
            bytes_copied: self.copied,
            total_bytes: self.total,
            sha256_digest: String::new(),
            done: false,
            error: None,
            verified: None,
        }
    }

    /// The user asked to stop: checked before each read.
    pub fn cancelled(&self) -> (r: ImageReport)
        ensures
            r.bytes_copied == 0,
            r.total_bytes == self.total,
            r.done,
            opt_text(r.error) == Some("Imaging cancelled by user"@),
            r.verified is None,
    {
        ImageReport::failed(self.total, owned("Imaging cancelled by user"))
    }

    /// Reading the source failed with `cause`.
    pub fn read_failed(&self, cause: &str) -> (r: ImageReport)
        ensures
            r.bytes_copied == 0,
            r.total_bytes == self.total,
            r.done,
            opt_text(r.error) == Some("Read error: "@ + cause@),
            r.verified is None,
    {
        let mut m = owned("Read error: ");
        push_str(&mut m, cause);
        ImageReport::failed(self.total, m)
    }

    /// Writing the image failed with `cause`.
    pub fn write_failed(&self, cause: &str) -> (r: ImageReport)
        ensures
            r.bytes_copied == 0,
            r.total_bytes == self.total,
            r.done,
            opt_text(r.error) == Some("Write error: "@ + cause@),
            r.verified is None,
    {
        let mut m = owned("Write error: ");
        push_str(&mut m, cause);
        ImageReport::failed(self.total, m)
    }

    /// The source is exhausted: the final report, with the digest of
    /// everything copied.
    pub fn finish(self) -> (r: ImageReport)
        ensures
            r.bytes_copied == self.copied,
            r.total_bytes == self.total,
            r.sha256_digest@ == hex_bytes(sha256(absorbed(self.hasher))),
            r.done,
            r.error is None,
            r.verified is None,
    {
        let copied = self.copied;
        let total = self.total;
        let digest = self.hasher.finish_hex();
        ImageReport { bytes_copied: copied, total_bytes: total, sha256_digest: digest, done: true, error: None, verified: None }
    }
}

/// What the imaging window shows: whether a run or check is going on, and
/// its last report.
pub struct ImagingWindow {
    pub running: bool,
    pub report: ImageReport,
}

impl ImagingWindow {
    /// A run or a check begins.
    pub fn start(&mut self)
        ensures
            final(self).running,
            final(self).report == old(self).report,
    {
        self.running = true;
    }

    /// The user stops the run.
    pub fn stop(&mut self)
        ensures
            !final(self).running,
            final(self).report == old(self).report,
    {
        self.running = false;
    }

    /// Takes in a report; a final one ends the run.
    pub fn receive(&mut self, r: ImageReport)
        ensures
            final(self).report == r,
            final(self).running == (old(self).running && !r.done),
    {
        let done = r.done;
        self.report = r;
        if done {
            self.running = false;
        }
    }

    /// Whether the image can be checked against its source now.
    pub fn can_verify(&self) -> (b: bool)
        ensures
            b == (self.report.done && self.report.bytes_copied > 0 && self.report.error is None),
    {
        can_verify(self.report.done, self.report.bytes_copied, &self.report.error)
    }
}


impl Default for ImageReport {
    fn default() -> (r: Self)
        ensures
            r.bytes_copied == 0,
            r.total_bytes == 0,
            r.sha256_digest@.len() == 0,
            !r.done,
            r.error is None,
            r.verified is None,
    {
        ImageReport {
            bytes_copied: 0,
            total_bytes: 0,
            sha256_digest: String::new(),
            done: false,
            error: None,
            verified: None,
        }
    }
}

impl Default for ImagingWindow {
    fn default() -> (w: Self)
        ensures
            !w.running,
            w.report.bytes_copied == 0,
            w.report.total_bytes == 0,
            !w.report.done,
            w.report.error is None,
            w.report.verified is None,
    {
        ImagingWindow { running: false, report: ImageReport::default() }
    }
}

} // verus!
