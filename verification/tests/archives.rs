use std::io::{Cursor, Error, ErrorKind, Read};

use pytarrs::error::{IoKind, SampleError};
use pytarrs::grouper::GroupBy;
use pytarrs::path::decode_path;
use pytarrs::sample::{Sample, SampleFile};
use tar::{Archive, Builder, Entry, Header};

type Item = Result<SampleFile, IoKind>;

/// The bytes of an archive with the given members.
fn archive(members: &[(&[u8], &[u8])]) -> Vec<u8> {
    let mut builder = Builder::new(Vec::new());
    for (path, body) in members {
        let mut header = Header::new_gnu();
        let name = header.as_old_mut().name.as_mut();
        name[..path.len()].copy_from_slice(path);
        header.set_size(body.len() as u64);
        header.set_mode(0o644);
        header.set_cksum();
        builder.append(&header, *body).unwrap();
    }
    builder.into_inner().unwrap()
}

fn read<R: Read>(mut entry: Entry<'_, R>) -> Item {
    let path = decode_path(entry.path_bytes().into_owned())?;
    let announced = entry.size();
    let mut data = Vec::new();
    match entry.read_to_end(&mut data) {
        Ok(_) => SampleFile::complete(path, announced, data),
        Err(_) => Err(IoKind::ShortBody),
    }
}

/// The members of an archive, as the grouper takes them.
fn entries<R: Read>(source: R) -> Vec<Item> {
    let mut archive = Archive::new(source);
    let mut out = Vec::new();
    for entry in archive.entries().unwrap() {
        match entry {
            Ok(entry) => out.push(read(entry)),
            Err(_) => out.push(Err(IoKind::UnreadableHeader)),
        }
    }
    out
}

fn samples(bytes: Vec<u8>) -> Vec<Result<Sample, SampleError>> {
    GroupBy::new(entries(Cursor::new(bytes)).into_iter()).drain()
}

fn file(path: &str, data: &[u8]) -> Item {
    Ok(SampleFile::new(path.to_string(), data.to_vec()))
}

fn sample(key: &str, frames: &[&[u8]], target: Option<&[u8]>) -> Sample {
    Sample {
        key: key.to_string(),
        frames: frames.iter().map(|f| f.to_vec()).collect(),
        target: target.map(|t| t.to_vec()),
    }
}

/// A source that fails once, at the first read that reaches `fail_at`.
struct Flaky {
    inner: Cursor<Vec<u8>>,
    fail_at: u64,
    failed: bool,
}

impl Read for Flaky {
    fn read(&mut self, into: &mut [u8]) -> std::io::Result<usize> {
        let at = self.inner.position();
        if !self.failed && at <= self.fail_at && self.fail_at < at + into.len() as u64 {
            let before = (self.fail_at - at) as usize;
            if before == 0 {
                self.failed = true;
                return Err(Error::new(ErrorKind::Other, "bad sector"));
            }
            return self.inner.read(&mut into[..before]);
        }
        self.inner.read(into)
    }
}

#[test]
fn members_come_out_in_stored_order() {
    let bytes = archive(&[
        (b"a.frame0", b"zero"),
        (b"a.frame1", b""),
        (b"a.target", b"label"),
    ]);
    assert_eq!(
        entries(Cursor::new(bytes)),
        vec![
            file("a.frame0", b"zero"),
            file("a.frame1", b""),
            file("a.target", b"label"),
        ]
    );
}

#[test]
fn an_archive_of_one_run_gives_one_sample() {
    let bytes = archive(&[
        (b"a.frame0", b"zero"),
        (b"a.frame1", b"one"),
        (b"a.target", b"label"),
    ]);
    assert_eq!(
        samples(bytes),
        vec![Ok(sample("a", &[b"zero", b"one"], Some(b"label")))]
    );
}

#[test]
fn an_archive_with_a_returning_key_gives_three_samples() {
    let bytes = archive(&[
        (b"a.frame0", b"a0"),
        (b"b.frame0", b"b0"),
        (b"b.target", b"bt"),
        (b"a.target", b"at"),
    ]);
    assert_eq!(
        samples(bytes),
        vec![
            Ok(sample("a", &[b"a0"], None)),
            Ok(sample("b", &[b"b0"], Some(b"bt"))),
            Ok(sample("a", &[], Some(b"at"))),
        ]
    );
}

#[test]
fn an_empty_archive_has_no_members_and_no_samples() {
    let bytes = archive(&[]);
    assert_eq!(entries(Cursor::new(bytes.clone())), Vec::new());
    assert_eq!(samples(bytes), Vec::new());
}

#[test]
fn a_long_body_is_read_whole() {
    let body: Vec<u8> = (0..5000u32).map(|i| (i % 251) as u8).collect();
    let bytes = archive(&[(b"big.frame0", &body), (b"big.target", b"t")]);
    assert_eq!(
        samples(bytes),
        vec![Ok(sample("big", &[&body], Some(b"t")))]
    );
}

#[test]
fn a_path_that_is_not_utf8_is_a_fault() {
    let bytes = archive(&[
        (b"a.frame0", b"0"),
        (b"\xff\xfe.frame1", b"1"),
        (b"b.frame0", b"2"),
    ]);
    assert_eq!(
        entries(Cursor::new(bytes.clone())),
        vec![
            file("a.frame0", b"0"),
            Err(IoKind::NonUtf8Path),
            file("b.frame0", b"2"),
        ]
    );
    assert_eq!(
        samples(bytes),
        vec![
            Err(SampleError::Io(IoKind::NonUtf8Path)),
            Ok(sample("b", &[b"2"], None)),
        ]
    );
}

#[test]
fn a_path_without_dot_is_a_fault() {
    let bytes = archive(&[(b"README", b"hello"), (b"a.frame0", b"0")]);
    assert_eq!(
        entries(Cursor::new(bytes.clone())),
        vec![Err(IoKind::MalformedPath), file("a.frame0", b"0")]
    );
    assert_eq!(
        samples(bytes),
        vec![
            Err(SampleError::Io(IoKind::MalformedPath)),
            Ok(sample("a", &[b"0"], None)),
        ]
    );
}

#[test]
fn a_body_cut_short_is_a_fault() {
    let mut bytes = archive(&[(b"a.frame0", b"0"), (b"a.frame1", &[7u8; 2000])]);
    bytes.truncate(512 + 512 + 512 + 700);
    let items = entries(Cursor::new(bytes));
    assert_eq!(items[0], file("a.frame0", b"0"));
    assert_eq!(items[1], Err(IoKind::ShortBody));
    let out = GroupBy::new(items.into_iter()).drain();
    assert_eq!(out.len(), 1);
    assert!(out[0].is_err());
}

#[test]
fn a_damaged_header_is_a_fault() {
    let mut bytes = archive(&[
        (b"a.frame0", b"0"),
        (b"a.target", b"t"),
        (b"b.frame0", b"1"),
    ]);
    bytes[1024 + 150] ^= 0x55;
    let items = entries(Cursor::new(bytes));
    assert_eq!(
        items,
        vec![file("a.frame0", b"0"), Err(IoKind::UnreadableHeader)]
    );
    assert_eq!(
        GroupBy::new(items.into_iter()).drain(),
        vec![Err(SampleError::Io(IoKind::UnreadableHeader))]
    );
}

#[test]
fn one_unreadable_body_among_five_members() {
    let bytes = archive(&[
        (b"a.frame0", b"a0"),
        (b"a.target", b"at"),
        (b"b.frame0", &[1u8; 600]),
        (b"c.frame0", b"c0"),
        (b"c.target", b"ct"),
    ]);
    let third_body = 512 * 5;
    let source = Flaky {
        inner: Cursor::new(bytes),
        fail_at: third_body + 100,
        failed: false,
    };
    let items = entries(source);
    assert_eq!(
        items,
        vec![
            file("a.frame0", b"a0"),
            file("a.target", b"at"),
            Err(IoKind::ShortBody),
            file("c.frame0", b"c0"),
            file("c.target", b"ct"),
        ]
    );
    assert_eq!(
        GroupBy::new(items.into_iter()).drain(),
        vec![
            Err(SampleError::Io(IoKind::ShortBody)),
            Ok(sample("c", &[b"c0"], Some(b"ct"))),
        ]
    );
}
