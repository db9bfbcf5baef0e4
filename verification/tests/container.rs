use meshcodec::container::EncodeObject;

#[test]
fn empty_object_is_all_zero() {
    let o = EncodeObject::empty();
    assert_eq!(o.index_offset, 0);
    assert_eq!(o.index_count, 0);
    assert_eq!(o.material_length, 0);
    assert_eq!(o.reserved, 0);
}

#[test]
fn object_is_plain_data() {
    let o = EncodeObject { index_offset: 12, index_count: 36, material_length: 5, reserved: 0 };
    let copy = o;
    assert_eq!(copy, o);
    assert_eq!(copy.index_offset, 12);
    assert_eq!(copy.index_count, 36);
}
