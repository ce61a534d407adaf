use rmr::debug::create_debug_image;
use rmr::energy::Pixel;

#[test]
fn debug_image_marks_the_points_in_red() {
    let grey = Pixel::new(7, 7, 7, 200);
    let red = Pixel::new(255, 0, 0, 255);
    let image = vec![vec![grey; 3]; 2];
    let marked = create_debug_image(&image, &[(2, 0), (0, 1), (2, 0)]);
    assert_eq!(
        vec![vec![grey, grey, red], vec![red, grey, grey]],
        marked
    );
    // The original stays as it was.
    assert_eq!(vec![vec![grey; 3]; 2], image);
}

#[test]
fn debug_image_without_points_is_a_copy() {
    let image = vec![
        vec![Pixel::new(1, 2, 3, 4), Pixel::new(5, 6, 7, 8)],
        vec![Pixel::new(9, 10, 11, 12), Pixel::new(13, 14, 15, 16)],
    ];
    assert_eq!(image, create_debug_image(&image, &[]));
}
