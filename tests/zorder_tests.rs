use cajal::zorder::{xy_to_z, z_to_xy};

#[test]
fn simple_conversion() {
    for x in 0..100 {
        for y in 0..100 {
            let z = xy_to_z(x, y);
            let (x_r, y_r) = z_to_xy(z);
            assert!((x_r, y_r) == (x, y));
        }
    }
}

#[test]
fn z_pattern() {
    let z = xy_to_z(0, 0);
    assert!(z == 0);
    let z = xy_to_z(1, 0);
    assert!(z == 1);
    let z = xy_to_z(0, 1);
    assert!(z == 2);
    let z = xy_to_z(1, 1);
    assert!(z == 3);

    let z = xy_to_z(2, 0);
    assert!(z == 4);
    let z = xy_to_z(3, 0);
    assert!(z == 5);
    let z = xy_to_z(2, 1);
    assert!(z == 6);
    let z = xy_to_z(3, 1);
    assert!(z == 7);

    let z = xy_to_z(0, 2);
    assert!(z == 8);
    let z = xy_to_z(1, 2);
    assert!(z == 9);
    let z = xy_to_z(0, 3);
    assert!(z == 10);
    let z = xy_to_z(1, 3);
    assert!(z == 11);

    let z = xy_to_z(2, 2);
    assert!(z == 12);
    let z = xy_to_z(3, 2);
    assert!(z == 13);
    let z = xy_to_z(2, 3);
    assert!(z == 14);
    let z = xy_to_z(3, 3);
    assert!(z == 15);
}

#[test]
fn round_trip_full_range() {
    let samples: [u32; 8] = [0, 1, 63, 64, 255, 4096, 40000, 65535];
    for x in samples.iter() {
        for y in samples.iter() {
            assert_eq!(z_to_xy(xy_to_z(*x, *y)), (*x, *y));
        }
    }
    assert_eq!(xy_to_z(65535, 65535), u32::MAX);
    assert_eq!(xy_to_z(63, 63), 4095);
    assert_eq!(xy_to_z(65536 + 5, 3), xy_to_z(5, 3));
}
