//! MXF labels.
use oxideav_vc2::mxf::{
    coding_equations_label, color_primaries_label, essence_container_label, picture_element_key,
    sub_descriptor_item_ul, transfer_characteristic_label, SubDescriptorItem, Wrapping,
    PICTURE_ESSENCE_COMPRESSION_LABEL, SUB_DESCRIPTOR_KEY,
};

#[test]
fn identifier_uls_match_the_staged_clauses() {
    assert_eq!(
        picture_element_key(1, Wrapping::Frame, 2),
        [
            0x06, 0x0E, 0x2B, 0x34, 0x01, 0x02, 0x01, 0x01, 0x0D, 0x01, 0x03, 0x01, 0x15, 0x01,
            0x10, 0x02
        ]
    );
    assert_eq!(picture_element_key(1, Wrapping::Clip, 1)[14], 0x11);
    assert_eq!(
        essence_container_label(Wrapping::Frame),
        [
            0x06, 0x0E, 0x2B, 0x34, 0x04, 0x01, 0x01, 0x0D, 0x0D, 0x01, 0x03, 0x01, 0x02, 0x15,
            0x01, 0x00
        ]
    );
    assert_eq!(essence_container_label(Wrapping::Clip)[14], 0x02);
    assert_eq!(
        PICTURE_ESSENCE_COMPRESSION_LABEL,
        [
            0x06, 0x0E, 0x2B, 0x34, 0x04, 0x01, 0x01, 0x0D, 0x04, 0x01, 0x02, 0x02, 0x03, 0x03,
            0x01, 0x00
        ]
    );
    assert_eq!(SUB_DESCRIPTOR_KEY[5], 0x53);
    assert_eq!(SUB_DESCRIPTOR_KEY[14], 0x74);
    for (item, nn) in [
        (SubDescriptorItem::MajorVersion, 0x01),
        (SubDescriptorItem::MinorVersion, 0x02),
        (SubDescriptorItem::Profile, 0x03),
        (SubDescriptorItem::Level, 0x04),
        (SubDescriptorItem::WaveletFilters, 0x05),
        (SubDescriptorItem::SequenceHeadersIdentical, 0x06),
        (SubDescriptorItem::EditUnitsAreCompleteSequences, 0x07),
    ] {
        let ul = sub_descriptor_item_ul(item);
        assert_eq!(
            &ul[..12],
            &[0x06, 0x0E, 0x2B, 0x34, 0x01, 0x01, 0x01, 0x0E, 0x04, 0x01, 0x06, 0x07]
        );
        assert_eq!(ul[12], nn);
        assert_eq!(&ul[13..], &[0x00, 0x00, 0x00]);
    }
}

#[test]
fn annex_b_colour_labels() {
    assert_eq!(
        transfer_characteristic_label(0).unwrap(),
        [
            0x06, 0x0E, 0x2B, 0x34, 0x04, 0x01, 0x01, 0x0E, 0x04, 0x01, 0x01, 0x01, 0x01, 0x09,
            0x00, 0x00
        ]
    );
    assert_eq!(
        transfer_characteristic_label(5).unwrap(),
        [
            0x06, 0x0E, 0x2B, 0x34, 0x04, 0x01, 0x01, 0x0D, 0x04, 0x01, 0x01, 0x01, 0x01, 0x0B,
            0x00, 0x00
        ]
    );
    assert_eq!(transfer_characteristic_label(6), None);
    assert_eq!(
        coding_equations_label(4).unwrap(),
        [
            0x06, 0x0E, 0x2B, 0x34, 0x04, 0x01, 0x01, 0x0D, 0x04, 0x01, 0x01, 0x01, 0x02, 0x06,
            0x00, 0x00
        ]
    );
    assert_eq!(coding_equations_label(5), None);
    assert_eq!(
        color_primaries_label(1).unwrap(),
        [
            0x06, 0x0E, 0x2B, 0x34, 0x04, 0x01, 0x01, 0x06, 0x04, 0x01, 0x01, 0x01, 0x03, 0x01,
            0x00, 0x00
        ]
    );
    assert_eq!(color_primaries_label(5), None);
}
