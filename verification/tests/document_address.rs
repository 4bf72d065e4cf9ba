use inverted_index::model::{DocumentAddress, SegmentId};
use std::cmp::Ordering;

#[test]
fn document_addresses_order_by_segment_then_local_document_id() {
    let segment_1 = SegmentId::new(1).unwrap();
    let segment_2 = SegmentId::new(2).unwrap();

    let segment_1_document_1 = DocumentAddress {
        segment_id: segment_1,
        local_document_id: 1,
    };
    let segment_1_document_2 = DocumentAddress {
        segment_id: segment_1,
        local_document_id: 2,
    };
    let segment_2_document_1 = DocumentAddress {
        segment_id: segment_2,
        local_document_id: 1,
    };

    assert!(segment_1_document_1 < segment_1_document_2);
    assert!(segment_1_document_2 < segment_2_document_1);
}

#[test]
fn partial_order_agrees_with_total_order() {
    let a = DocumentAddress {
        segment_id: SegmentId::new(3).unwrap(),
        local_document_id: 9,
    };
    let b = DocumentAddress {
        segment_id: SegmentId::new(4).unwrap(),
        local_document_id: 0,
    };
    assert_eq!(a.partial_cmp(&b), Some(Ordering::Less));
    assert_eq!(b.partial_cmp(&a), Some(Ordering::Greater));
    assert_eq!(a.partial_cmp(&a), Some(Ordering::Equal));
    assert_eq!(a.cmp(&b), Ordering::Less);
}

#[test]
fn segment_ids_compare_by_value() {
    let three = SegmentId::new(3).unwrap();
    let seven = SegmentId::new(7).unwrap();
    assert!(three < seven);
    assert!(!(seven < three));
    assert_eq!(three.partial_cmp(&seven), Some(Ordering::Less));
    assert_eq!(seven.partial_cmp(&three), Some(Ordering::Greater));
    assert_eq!(three.partial_cmp(&SegmentId::new(3).unwrap()), Some(Ordering::Equal));
    assert_eq!(three.cmp(&seven), Ordering::Less);
}
