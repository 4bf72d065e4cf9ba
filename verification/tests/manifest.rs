use inverted_index::manifest::{is_safe_file_name, Manifest, ManifestError, SegmentMetadata};
use inverted_index::model::SegmentId;

fn segment(id: u64, file_name: &str, length_bytes: u64) -> SegmentMetadata {
    SegmentMetadata {
        id: SegmentId::new(id).unwrap(),
        file_name: file_name.to_owned(),
        document_count: 10,
        term_count: 5,
        length_bytes,
        checksum: 0,
    }
}

fn manifest_error(segments: Vec<SegmentMetadata>) -> ManifestError {
    match Manifest::new(segments) {
        Ok(_) => panic!("manifest construction unexpectedly succeeded"),
        Err(error) => error,
    }
}

#[test]
fn accepts_empty_and_populated_manifests() {
    let empty = Manifest::new(Vec::new()).unwrap();
    assert!(empty.segments().is_empty());

    let populated = Manifest::new(vec![
        segment(1, "segment-0001.idx", 10),
        segment(2, "segment-0002.idx", 20),
    ])
    .unwrap();
    assert_eq!(populated.segments().len(), 2);
    assert_eq!(populated.segment_count(), 2);
    assert_eq!(populated.total_document_count(), 20);
    assert_eq!(populated.total_segment_bytes(), 30);
    assert_eq!(populated.total_term_entries(), 10);
}

#[test]
fn rejects_duplicate_and_unordered_segment_ids() {
    let duplicate = manifest_error(vec![
        segment(1, "segment-0001.idx", 10),
        segment(1, "segment-0002.idx", 20),
    ]);
    assert!(matches!(
        duplicate,
        ManifestError::SegmentIdsNotStrictlyIncreasing { .. }
    ));

    let unordered = manifest_error(vec![
        segment(2, "segment-0002.idx", 20),
        segment(1, "segment-0001.idx", 10),
    ]);
    assert!(matches!(
        unordered,
        ManifestError::SegmentIdsNotStrictlyIncreasing { .. }
    ));
}

#[test]
fn rejects_duplicate_and_unsafe_file_names() {
    let duplicate = manifest_error(vec![
        segment(1, "segment.idx", 10),
        segment(2, "segment.idx", 20),
    ]);
    assert_eq!(
        duplicate,
        ManifestError::DuplicateFileName("segment.idx".to_owned())
    );

    let unsafe_name = manifest_error(vec![segment(1, "../segment.idx", 10)]);
    assert_eq!(
        unsafe_name,
        ManifestError::UnsafeFileName("../segment.idx".to_owned())
    );
}

#[test]
fn rejects_total_segment_bytes_overflow() {
    let error = manifest_error(vec![
        segment(1, "segment-0001.idx", u64::MAX),
        segment(2, "segment-0002.idx", 1),
    ]);
    assert_eq!(error, ManifestError::TotalSegmentBytesOverflow);
}

#[test]
fn unordered_ids_report_the_offending_pair() {
    let error = manifest_error(vec![
        segment(3, "segment-0003.idx", 1),
        segment(7, "segment-0007.idx", 1),
        segment(5, "segment-0005.idx", 1),
    ]);
    assert_eq!(
        error,
        ManifestError::SegmentIdsNotStrictlyIncreasing {
            previous: SegmentId::new(7).unwrap(),
            current: SegmentId::new(5).unwrap(),
        }
    );
}

#[test]
fn file_name_safety_accepts_only_single_normal_components() {
    assert!(is_safe_file_name("segment-0001.idx"));
    assert!(is_safe_file_name("a"));
    assert!(!is_safe_file_name(""));
    assert!(!is_safe_file_name("."));
    assert!(!is_safe_file_name(".."));
    assert!(!is_safe_file_name("../segment.idx"));
    assert!(!is_safe_file_name("dir/segment.idx"));
    assert!(!is_safe_file_name("/segment.idx"));
    assert!(!is_safe_file_name("./segment.idx"));
    assert!(!is_safe_file_name("../"));
    assert!(!is_safe_file_name("seg/"));
    assert!(!is_safe_file_name("segment.idx/./"));
    assert!(is_safe_file_name("..."));
    assert!(!is_safe_file_name("back\\slash"));
}

#[test]
fn totals_sum_every_segment() {
    let manifest = Manifest::new(vec![
        SegmentMetadata {
            id: SegmentId::new(4).unwrap(),
            file_name: "a.idx".to_owned(),
            document_count: u32::MAX,
            term_count: u32::MAX,
            length_bytes: 7,
            checksum: 1,
        },
        SegmentMetadata {
            id: SegmentId::new(9).unwrap(),
            file_name: "b.idx".to_owned(),
            document_count: 3,
            term_count: 2,
            length_bytes: 11,
            checksum: 2,
        },
    ])
    .unwrap();
    assert_eq!(manifest.total_document_count(), u32::MAX as u64 + 3);
    assert_eq!(manifest.total_term_entries(), u32::MAX as u64 + 2);
    assert_eq!(manifest.total_segment_bytes(), 18);
    assert_eq!(manifest.validate(), Ok(()));
    assert_eq!(manifest.into_segments().len(), 2);
}

#[test]
fn segment_id_rejects_zero() {
    assert_eq!(
        SegmentId::new(0).unwrap_err(),
        "Segment ID LTE to 0 not allowed"
    );
    assert_eq!(SegmentId::new(17).unwrap().value(), 17);
}
