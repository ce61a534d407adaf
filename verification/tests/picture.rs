use image::{DynamicImage, GenericImage, GenericImageView, GrayImage, Luma, Rgba};
use rmr::carve::Carver;
use rmr::energy::Pixel;
use rmr::picture::{build_image, read_pixels};

fn sample() -> Vec<Vec<Pixel>> {
    vec![
        vec![Pixel::new(1, 2, 3, 4), Pixel::new(5, 6, 7, 8), Pixel::new(9, 10, 11, 12)],
        vec![Pixel::new(13, 14, 15, 16), Pixel::new(17, 18, 19, 255), Pixel::new(0, 0, 0, 0)],
    ]
}

#[test]
fn picture_read_pixels_row_by_row() {
    let mut image = DynamicImage::new_rgba8(3, 2);
    for (y, row) in sample().iter().enumerate() {
        for (x, pixel) in row.iter().enumerate() {
            image.put_pixel(x as u32, y as u32, Rgba([pixel.r, pixel.g, pixel.b, pixel.a]));
        }
    }
    assert_eq!(sample(), read_pixels(&image));
}

#[test]
fn picture_read_pixels_of_a_grey_image() {
    let mut grey = GrayImage::new(2, 1);
    grey.put_pixel(0, 0, Luma([40]));
    grey.put_pixel(1, 0, Luma([200]));
    let pixels = read_pixels(&DynamicImage::ImageLuma8(grey));
    assert_eq!(
        vec![vec![Pixel::new(40, 40, 40, 255), Pixel::new(200, 200, 200, 255)]],
        pixels
    );
}

#[test]
fn picture_read_pixels_of_an_empty_image() {
    assert!(read_pixels(&DynamicImage::new_rgba8(0, 0)).is_empty());
    assert!(read_pixels(&DynamicImage::new_rgba8(5, 0)).is_empty());
    assert_eq!(vec![Vec::<Pixel>::new(); 3], read_pixels(&DynamicImage::new_rgba8(0, 3)));
}

#[test]
fn picture_build_image_keeps_every_pixel() {
    let image = build_image(&sample()).unwrap();
    assert_eq!((3, 2), image.dimensions());
    assert!(image.as_rgba8().is_some());
    assert_eq!(Rgba([1, 2, 3, 4]), image.get_pixel(0, 0));
    assert_eq!(Rgba([9, 10, 11, 12]), image.get_pixel(2, 0));
    assert_eq!(Rgba([13, 14, 15, 16]), image.get_pixel(0, 1));
    assert_eq!(Rgba([17, 18, 19, 255]), image.get_pixel(1, 1));
    assert_eq!(sample(), read_pixels(&image));
}

#[test]
fn picture_build_image_refuses_ragged_rows() {
    let mut pixels = sample();
    pixels[1].pop();
    assert!(build_image(&pixels).is_none());
}

#[test]
fn picture_build_image_of_nothing() {
    let image = build_image(&vec![]).unwrap();
    assert_eq!((0, 0), image.dimensions());
}

#[test]
fn picture_carver_from_image() {
    let image = build_image(&sample()).unwrap();
    let mut carver = Carver::from_image(&image).unwrap();
    assert_eq!(sample(), carver.rebuild_image());
    let pixels = carver.resize(2, 2);
    let resized = build_image(&pixels).unwrap();
    assert_eq!((2, 2), resized.dimensions());
}

#[test]
fn picture_carver_from_image_refuses_empty_and_huge_images() {
    assert!(Carver::from_image(&DynamicImage::new_rgba8(0, 4)).is_none());
    assert!(Carver::from_image(&DynamicImage::new_rgba8(4, 0)).is_none());
    assert!(Carver::from_image(&DynamicImage::new_luma8(8257, 1)).is_none());
    assert!(Carver::from_image(&DynamicImage::new_luma8(1, 8257)).is_none());
    assert!(Carver::from_image(&DynamicImage::new_luma8(8256, 1)).is_some());
}
