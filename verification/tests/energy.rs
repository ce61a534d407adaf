use rmr::energy::{Pixel, PixelEnergyPoint};

#[test]
fn square_gradient_sums_squared_channel_differences() {
    let a: PixelEnergyPoint = Pixel::new(255, 203, 51, 255).into();
    let b: PixelEnergyPoint = Pixel::new(255, 205, 255, 255).into();
    assert_eq!(41620, a.square_gradient(&b));
    assert_eq!(41620, b.square_gradient(&a));

    let a: PixelEnergyPoint = Pixel::new(255, 255, 153, 255).into();
    let b: PixelEnergyPoint = Pixel::new(255, 153, 153, 255).into();
    assert_eq!(10404, a.square_gradient(&b));
}

#[test]
fn square_gradient_reaches_its_maximum() {
    let a: PixelEnergyPoint = Pixel::new(0, 0, 0, 0).into();
    let b: PixelEnergyPoint = Pixel::new(255, 255, 255, 255).into();
    assert_eq!(260100, a.square_gradient(&b));
    assert_eq!(0, a.square_gradient(&a));
}

#[test]
fn square_gradient_widens_each_channel() {
    // One channel alone: 200 squared does not fit in 8 or 16 bits.
    let a: PixelEnergyPoint = Pixel::new(200, 0, 0, 0).into();
    let b: PixelEnergyPoint = Pixel::new(0, 0, 0, 0).into();
    assert_eq!(40000, a.square_gradient(&b));
}

#[test]
fn average_truncates_the_mean_of_each_channel() {
    let a: PixelEnergyPoint = Pixel::new(255, 0, 1, 10).into();
    let b: PixelEnergyPoint = Pixel::new(255, 1, 2, 20).into();
    let mean = a.average(&b);
    assert_eq!(Pixel::new(255, 0, 1, 15), mean.pixel);
    assert_eq!(0, mean.energy);
    assert_eq!(0, mean.path_cost);
    assert_eq!((0, 0), mean.original_position);
}

#[test]
fn point_from_pixel_starts_empty() {
    let point = PixelEnergyPoint::from(Pixel::new(1, 2, 3, 4));
    assert_eq!(Pixel { r: 1, g: 2, b: 3, a: 4 }, point.pixel);
    assert_eq!(0, point.energy);
    assert_eq!(0, point.path_cost);
    assert_eq!((0, 0), point.original_position);
}
