use rav1e::frame::data::PlaneData;

#[test]
fn new_fills_mid_grey() {
    let pd: PlaneData<u8> = PlaneData::new(5);
    assert_eq!(&*pd, &[128u8; 5][..]);
    let pd16: PlaneData<u16> = PlaneData::new(3);
    assert_eq!(&*pd16, &[128u16; 3][..]);
}

#[test]
fn from_slice_and_clone_copy() {
    let pd = PlaneData::from_slice(&[1u16, 2, 3]);
    let c = pd.clone();
    assert_eq!(&*c, &[1u16, 2, 3][..]);
}

#[test]
fn deref_mut_writes_through() {
    let mut pd: PlaneData<u8> = PlaneData::new(2);
    pd.deref_mut()[1] = 7;
    assert_eq!(&*pd, &[128u8, 7][..]);
}

#[test]
fn empty_plane() {
    let pd: PlaneData<u8> = PlaneData::new(0);
    assert!(pd.is_empty());
}
