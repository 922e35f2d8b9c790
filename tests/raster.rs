use rsstv::raster::Raster;

#[test]
fn new_raster_is_black() {
    let r = Raster::new(4, 3);
    assert_eq!(r.data.len(), 36);
    assert!(r.data.iter().all(|b| *b == 0));
}

#[test]
fn from_rgb_checks_the_length() {
    assert!(Raster::from_rgb(2, 2, vec![0; 12]).is_some());
    assert!(Raster::from_rgb(2, 2, vec![0; 11]).is_none());
    assert!(Raster::from_rgb(2, 2, vec![0; 13]).is_none());
    assert!(Raster::from_rgb(0, 5, vec![]).is_some());
}

#[test]
fn get_channel_reads_row_major_rgb() {
    let data: Vec<u8> = (0..18).collect();
    let r = Raster::from_rgb(3, 2, data).unwrap();
    assert_eq!(r.get_channel(0, 0, 0), 0);
    assert_eq!(r.get_channel(1, 0, 2), 5);
    assert_eq!(r.get_channel(0, 1, 1), 10);
    assert_eq!(r.get_channel(2, 1, 2), 17);
}

#[test]
fn copy_is_equal_and_independent() {
    let mut a = Raster::from_rgb(1, 1, vec![1, 2, 3]).unwrap();
    let b = a.copy();
    a.data[0] = 9;
    assert_eq!(b.data, vec![1, 2, 3]);
    assert_eq!((b.width, b.height), (1, 1));
}
