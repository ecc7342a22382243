use pytarrs::error::{IoKind, SampleError};
use pytarrs::grouper::GroupBy;
use pytarrs::sample::{Record, Sample, SampleFile};

type Upstream = std::vec::IntoIter<Result<SampleFile, IoKind>>;

fn file(path: &str, data: &[u8]) -> SampleFile {
    SampleFile::new(path.to_string(), data.to_vec())
}

#[test]
fn new_entry_keeps_path_and_data() {
    let entry = SampleFile::new("a.frame0".to_string(), vec![1, 2, 3]);
    assert_eq!(entry.path, "a.frame0");
    assert_eq!(entry.data, vec![1, 2, 3]);
}

#[test]
fn path_info_splits_the_path() {
    assert_eq!(
        file("a.frame0", b"x").path_info(),
        Ok(("a".to_string(), "frame0".to_string()))
    );
    assert_eq!(
        file("dir/k.target.png", b"").path_info(),
        Ok(("dir/k".to_string(), "target.png".to_string()))
    );
}

#[test]
fn path_info_refuses_malformed_paths() {
    assert_eq!(file("nodot", b"x").path_info(), Err(IoKind::MalformedPath));
    assert_eq!(file(".hidden", b"x").path_info(), Err(IoKind::MalformedPath));
    assert_eq!(file("", b"x").path_info(), Err(IoKind::MalformedPath));
}

#[test]
fn new_sample_is_empty() {
    let sample = Sample::new("a".to_string());
    assert_eq!(sample.key, "a");
    assert!(sample.frames.is_empty());
    assert_eq!(sample.target, None);
}

#[test]
fn add_sample_appends_in_order() {
    let mut sample = Sample::new("a".to_string());
    sample._add_sample(vec![1]);
    sample._add_sample(vec![]);
    sample._add_sample(vec![2, 3]);
    assert_eq!(sample.frames, vec![vec![1], vec![], vec![2, 3]]);
    assert_eq!(sample.target, None);
    assert_eq!(sample.key, "a");
}

#[test]
fn set_target_sets_once() {
    let mut sample = Sample::new("a".to_string());
    assert_eq!(sample._set_target(vec![9]), Ok(()));
    assert_eq!(sample.target, Some(vec![9]));
    assert_eq!(sample._set_target(vec![8]), Err(SampleError::DuplicateTarget));
    assert_eq!(sample.target, Some(vec![9]));
    assert!(sample.frames.is_empty());
}

#[test]
fn update_appends_frames() {
    let mut sample = Sample::new("a".to_string());
    assert_eq!(sample.update("frame0", vec![1]), Ok(()));
    assert_eq!(sample.update("frame1.png", vec![2]), Ok(()));
    assert_eq!(sample.frames, vec![vec![1], vec![2]]);
    assert_eq!(sample.target, None);
}

#[test]
fn update_sets_the_target() {
    let mut sample = Sample::new("a".to_string());
    assert_eq!(sample.update("target", vec![7]), Ok(()));
    assert_eq!(sample.target, Some(vec![7]));
    assert!(sample.frames.is_empty());
}

#[test]
fn update_refuses_a_second_target() {
    let mut sample = Sample::new("a".to_string());
    assert_eq!(sample.update("frame0", vec![1]), Ok(()));
    assert_eq!(sample.update("target", vec![7]), Ok(()));
    let before = sample.clone();
    assert_eq!(
        sample.update("target.again", vec![8]),
        Err(SampleError::DuplicateTarget)
    );
    assert_eq!(sample, before);
}

#[test]
fn update_passes_over_other_suffixes() {
    let mut sample = Sample::new("a".to_string());
    assert_eq!(sample.update("metadata", vec![1]), Ok(()));
    assert_eq!(sample.update("", vec![2]), Ok(()));
    assert_eq!(sample.update("json.frame", vec![3]), Ok(()));
    assert_eq!(sample, Sample::new("a".to_string()));
}

#[test]
fn into_record_hands_on_key_target_and_frames() {
    let mut sample = Sample::new("k".to_string());
    sample.update("frame0", vec![1]).unwrap();
    sample.update("target", vec![2]).unwrap();
    sample.update("frame1", vec![3]).unwrap();
    assert_eq!(
        sample.into_record(),
        Ok(Record {
            key: "k".to_string(),
            target: vec![2],
            frames: vec![vec![1], vec![3]],
        })
    );
}

#[test]
fn into_record_accepts_a_sample_without_frames() {
    let mut sample = Sample::new("k".to_string());
    sample.update("target", vec![]).unwrap();
    assert_eq!(
        sample.into_record(),
        Ok(Record {
            key: "k".to_string(),
            target: vec![],
            frames: vec![],
        })
    );
}

#[test]
fn into_record_refuses_a_sample_without_target() {
    let mut sample = Sample::new("k".to_string());
    sample.update("frame0", vec![1]).unwrap();
    assert_eq!(sample.into_record(), Err(SampleError::MissingTarget));
    assert_eq!(
        Sample::new("k".to_string()).into_record(),
        Err(SampleError::MissingTarget)
    );
}

#[test]
fn create_sample_applies_the_first_entry() {
    let opened = GroupBy::<Upstream>::create_sample(file("a.frame0", b"f"));
    assert_eq!(
        opened,
        Ok(Sample {
            key: "a".to_string(),
            frames: vec![b"f".to_vec()],
            target: None,
        })
    );
    let opened = GroupBy::<Upstream>::create_sample(file("a.target", b"t"));
    assert_eq!(
        opened,
        Ok(Sample {
            key: "a".to_string(),
            frames: vec![],
            target: Some(b"t".to_vec()),
        })
    );
    let opened = GroupBy::<Upstream>::create_sample(file("a.metadata", b"m"));
    assert_eq!(opened, Ok(Sample::new("a".to_string())));
}

#[test]
fn create_sample_refuses_a_malformed_path() {
    assert_eq!(
        GroupBy::<Upstream>::create_sample(file("frame0", b"f")),
        Err(IoKind::MalformedPath)
    );
    assert_eq!(
        GroupBy::<Upstream>::create_sample(file(".frame0", b"f")),
        Err(IoKind::MalformedPath)
    );
}

#[test]
fn complete_accepts_a_body_of_the_announced_length() {
    assert_eq!(
        SampleFile::complete("a.frame0".to_string(), 3, vec![1, 2, 3]),
        Ok(file("a.frame0", &[1, 2, 3]))
    );
    assert_eq!(
        SampleFile::complete("a.frame0".to_string(), 0, vec![]),
        Ok(file("a.frame0", b""))
    );
}

#[test]
fn complete_refuses_a_body_of_another_length() {
    assert_eq!(
        SampleFile::complete("a.frame0".to_string(), 4, vec![1, 2, 3]),
        Err(IoKind::ShortBody)
    );
    assert_eq!(
        SampleFile::complete("a.frame0".to_string(), 2, vec![1, 2, 3]),
        Err(IoKind::ShortBody)
    );
    assert_eq!(
        SampleFile::complete("a.frame0".to_string(), u64::MAX, vec![]),
        Err(IoKind::ShortBody)
    );
}
