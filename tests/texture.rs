use raytracer::texture::Texture;

fn two_by_two() -> Texture {
    let pixels: Vec<u8> = vec![
        1, 2, 3, 255, 4, 5, 6, 255, //
        7, 8, 9, 255, 10, 11, 12, 255,
    ];
    Texture::new(pixels, 2, 2)
}

#[test]
fn texture_keeps_its_size() {
    let t = two_by_two();
    assert_eq!(t.width(), 2);
    assert_eq!(t.height(), 2);
}

#[test]
fn texel_reads_red_green_blue_of_the_pixel() {
    let t = two_by_two();
    assert_eq!(t.texel(0, 0), (1, 2, 3));
    assert_eq!(t.texel(1, 0), (4, 5, 6));
    assert_eq!(t.texel(0, 1), (7, 8, 9));
    assert_eq!(t.texel(1, 1), (10, 11, 12));
}

#[test]
fn texel_past_the_row_end_reads_the_next_row() {
    let t = two_by_two();
    assert_eq!(t.texel(2, 0), (7, 8, 9));
}

#[test]
fn empty_texture_is_accepted() {
    let t = Texture::new(Vec::new(), 0, 5);
    assert_eq!(t.width(), 0);
    assert_eq!(t.height(), 5);
}
