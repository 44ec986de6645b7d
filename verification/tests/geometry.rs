use ruwr::color::{rgb_from_hex, rgba_from_hex};
use ruwr::mesh::{polyline_indices, sphere_indices};

#[test]
fn rgb_long_and_short_forms() {
    assert_eq!(rgb_from_hex("#ff8000"), Some((255, 128, 0)));
    assert_eq!(rgb_from_hex("ff8000"), Some((255, 128, 0)));
    assert_eq!(rgb_from_hex("#abc"), Some((0xaa, 0xbb, 0xcc)));
    assert_eq!(rgb_from_hex("#ABC"), rgb_from_hex("#aabbcc"));
    assert_eq!(rgb_from_hex("##abc"), Some((0xaa, 0xbb, 0xcc)));
    assert_eq!(rgb_from_hex("#11223344"), Some((0x11, 0x22, 0x33)));
}

#[test]
fn rgb_refuses_bad_codes() {
    assert_eq!(rgb_from_hex(""), None);
    assert_eq!(rgb_from_hex("#"), None);
    assert_eq!(rgb_from_hex("#abcd"), None);
    assert_eq!(rgb_from_hex("#gg0000"), None);
    assert_eq!(rgb_from_hex("#ééé"), None);
    assert_eq!(rgb_from_hex("#-10000"), None);
}

#[test]
fn rgb_plus_sign_reads_as_from_str_radix() {
    assert_eq!(rgb_from_hex("+f0000"), Some((15, 0, 0)));
    assert_eq!(u8::from_str_radix("+f", 16), Ok(15));
}

#[test]
fn rgba_forms() {
    assert_eq!(rgba_from_hex("#11223344"), Some((0x11, 0x22, 0x33, 0x44)));
    assert_eq!(rgba_from_hex("#112233"), Some((0x11, 0x22, 0x33, 255)));
    assert_eq!(rgba_from_hex("#1234"), Some((0x11, 0x22, 0x33, 0x44)));
    assert_eq!(rgba_from_hex("#123"), None);
    assert_eq!(rgba_from_hex("#1122334"), None);
    assert_eq!(rgba_from_hex("#112233zz"), None);
}

#[test]
fn sphere_indices_one_by_one() {
    assert_eq!(
        sphere_indices(1, 1),
        vec![
            0, 2, 1, 2, 3, 1, //
            1, 3, 2, 3, 4, 2, //
            2, 4, 3, 4, 5, 3, //
            3, 5, 4, 5, 6, 4,
        ]
    );
}

#[test]
fn sphere_indices_length() {
    assert_eq!(sphere_indices(8, 16).len(), 6 * 9 * 17);
    assert_eq!(sphere_indices(0, 0).len(), 6);
    assert_eq!(sphere_indices(0, 0), vec![0, 1, 1, 1, 2, 1]);
}

#[test]
fn polyline_indices_strip() {
    assert_eq!(polyline_indices(2), vec![0, 1, 2, 1, 3, 2]);
    assert_eq!(polyline_indices(3), vec![0, 1, 2, 1, 3, 2, 2, 3, 4, 3, 5, 4]);
    let big = polyline_indices(32768);
    assert_eq!(big.len(), 6 * 32767);
    assert!(big.iter().all(|&i| (i as usize) < 2 * 32768));
}

#[test]
fn rgb_and_rgba_agree_on_long_codes() {
    let (r, g, b, _) = rgba_from_hex("#0a141e28").unwrap();
    assert_eq!(rgb_from_hex("#0a141e28"), Some((r, g, b)));
    let (r, g, b, a) = rgba_from_hex("0a141e").unwrap();
    assert_eq!(a, 255);
    assert_eq!(rgb_from_hex("0a141e"), Some((r, g, b)));
}

#[test]
fn hash_signs_are_ignored() {
    assert_eq!(rgb_from_hex("###0a141e"), rgb_from_hex("0a141e"));
    assert_eq!(rgba_from_hex("##0a141e28"), rgba_from_hex("0a141e28"));
    assert_eq!(rgb_from_hex("#"), None);
    assert_eq!(rgb_from_hex("#a#b#c"), None);
}

#[test]
fn sphere_indices_reach_one_row_past_the_grid() {
    // 2 stacks by 3 slices: 12 grid points, rows 4 apart
    let idx = sphere_indices(2, 3);
    assert_eq!(idx.len(), 6 * 12);
    assert_eq!(*idx.iter().max().unwrap() as u32, 12 + 4 - 1 + 1);
    assert_eq!(&idx[6..12], &[1, 5, 2, 5, 6, 2]);
}
