use rmr::carve::Carver;
use rmr::energy::Pixel;

fn picture(rows: &[&[(u8, u8, u8)]]) -> Vec<Vec<Pixel>> {
    rows.iter()
        .map(|row| row.iter().map(|&(r, g, b)| Pixel::new(r, g, b, 255)).collect())
        .collect()
}

fn small() -> Vec<Vec<Pixel>> {
    picture(&[
        &[(255, 101, 51), (255, 101, 153), (255, 101, 255)],
        &[(255, 153, 51), (255, 153, 153), (255, 153, 255)],
        &[(255, 203, 51), (255, 204, 153), (255, 205, 255)],
        &[(255, 255, 51), (255, 255, 153), (255, 255, 255)],
    ])
}

fn medium() -> Vec<Vec<Pixel>> {
    picture(&[
        &[(78, 209, 79), (63, 118, 247), (92, 175, 95), (243, 73, 183), (210, 109, 104), (252, 101, 119)],
        &[(224, 191, 182), (108, 89, 82), (80, 196, 230), (112, 156, 180), (176, 178, 120), (142, 151, 142)],
        &[(117, 189, 149), (171, 231, 153), (149, 164, 168), (107, 119, 71), (120, 105, 138), (163, 174, 196)],
        &[(163, 222, 132), (187, 117, 183), (92, 145, 69), (158, 143, 79), (220, 75, 222), (189, 73, 214)],
        &[(211, 120, 173), (188, 218, 244), (214, 103, 68), (163, 166, 246), (79, 125, 246), (211, 201, 98)],
    ])
}

fn setup_carver(pixels: Vec<Vec<Pixel>>) -> Carver {
    let mut carver = Carver::new(pixels);
    carver.calculate_all_pixel_energy();
    carver.calculate_energy();
    carver
}

#[test]
fn carver_small_pixel_energy_test() {
    let carver = setup_carver(small());
    let pixel_energy = carver.get_pixel_energy();
    assert_eq!(get_small_pixel_energy(), pixel_energy);
}

#[test]
fn carver_small_path_energy_test() {
    let carver = setup_carver(small());
    let path_energy = carver.get_path_energy();
    assert_eq!(get_small_path_energy(), path_energy);
}

#[test]
fn carver_small_get_path_start_test() {
    let carver = setup_carver(small());
    assert_eq!((0, 3), carver.get_path_start());
}

#[test]
fn carver_small_find_path_test() {
    let carver = setup_carver(small());
    let (x, y) = carver.get_path_start();
    let path = carver.find_seam(x, y);
    assert_eq!(get_small_path(), path);
}

#[test]
fn carver_medium_pixel_energy_test() {
    let carver = setup_carver(medium());
    let pixel_energy = carver.get_pixel_energy();
    assert_eq!(get_medium_pixel_energy(), pixel_energy);
}

#[test]
fn carver_medium_path_energy_test() {
    let carver = setup_carver(medium());
    let path_energy = carver.get_path_energy();
    assert_eq!(get_medium_path_energy(), path_energy);
}

#[test]
fn carver_medium_get_path_start_test() {
    let carver = setup_carver(medium());
    assert_eq!((2, 4), carver.get_path_start());
}

#[test]
fn carver_medium_find_path_test() {
    let carver = setup_carver(medium());
    let (x, y) = carver.get_path_start();
    let path = carver.find_seam(x, y);
    assert_eq!(get_medium_path(), path);
}

fn get_small_pixel_energy() -> Vec<Vec<u32>> {
    vec![
        vec![20808, 52020, 20808],
        vec![20808, 52225, 21220],
        vec![20809, 52024, 20809],
        vec![20808, 52225, 21220],
    ]
}

fn get_small_path_energy() -> Vec<Vec<u32>> {
    vec![
        vec![20808, 52020, 20808],
        vec![41616, 73033, 42028],
        vec![62425, 93640, 62837],
        vec![83233, 114650, 84057],
    ]
}

fn get_small_path() -> Vec<(usize, usize)> {
    vec![(0, 3), (0, 2), (0, 1), (0, 0)]
}

fn get_medium_pixel_energy() -> Vec<Vec<u32>> {
    vec![
        vec![57685, 50893, 91370, 25418, 33055, 37246],
        vec![15421, 56334, 22808, 54796, 11641, 25496],
        vec![12344, 19236, 52030, 17708, 44735, 20663],
        vec![17074, 23678, 30279, 80663, 37831, 45595],
        vec![32337, 30796, 4909, 73334, 40613, 36556],
    ]
}

fn get_medium_path_energy() -> Vec<Vec<u32>> {
    vec![
        vec![57685, 50893, 91370, 25418, 33055, 37246],
        vec![66314, 107227, 48226, 80214, 37059, 58551],
        vec![78658, 67462, 100256, 54767, 81794, 57722],
        vec![84536, 91140, 85046, 135430, 92598, 103317],
        vec![116873, 115332, 89955, 158380, 133211, 129154],
    ]
}

fn get_medium_path() -> Vec<(usize, usize)> {
    vec![(2, 4), (2, 3), (3, 2), (4, 1), (3, 0)]
}

/// A picture of 24 by 16 pixels whose colours vary from cell to cell.
fn input() -> Vec<Vec<Pixel>> {
    let mut state: u32 = 12345;
    let mut rows = vec![];
    for y in 0..16u32 {
        let mut row = vec![];
        for x in 0..24u32 {
            state = state.wrapping_mul(1103515245).wrapping_add(12345);
            let noise = (state >> 16) as u8;
            row.push(Pixel::new(
                (x * 10) as u8 ^ (noise & 0x1f),
                (y * 15) as u8,
                noise,
                255,
            ));
        }
        rows.push(row);
    }
    rows
}

/// Whether `short` is `long` with some cells left out.
fn is_subsequence(short: &[Pixel], long: &[Pixel]) -> bool {
    let mut at = 0;
    for pixel in long {
        if at < short.len() && short[at] == *pixel {
            at += 1;
        }
    }
    at == short.len()
}

fn transpose(pixels: &[Vec<Pixel>]) -> Vec<Vec<Pixel>> {
    (0..pixels[0].len())
        .map(|x| pixels.iter().map(|row| row[x]).collect())
        .collect()
}

fn carve(dw: isize, dh: isize) -> (Vec<Vec<Pixel>>, Vec<Vec<Pixel>>, Vec<(usize, usize)>) {
    let input = input();
    let width = input[0].len();
    let height = input.len();
    let target_width = (width as isize + dw) as usize;
    let target_height = (height as isize + dh) as usize;

    let mut carver = Carver::new(input.clone());
    let output = carver.resize(target_width, target_height);

    assert_eq!(target_height, output.len());
    for row in &output {
        assert_eq!(target_width, row.len());
    }
    assert_eq!(output, carver.rebuild_image());
    (input, output, carver.get_removed_points())
}

#[test]
fn carver_width_minus_five_test() {
    let (input, output, removed) = carve(-5, 0);
    for (before, after) in input.iter().zip(&output) {
        assert!(is_subsequence(after, before));
    }
    assert_eq!(5 * 16, removed.len());
    for y in 0..16 {
        assert_eq!(5, removed.iter().filter(|point| point.1 == y).count());
    }
}

#[test]
fn carver_width_plus_five_test() {
    let (input, output, removed) = carve(5, 0);
    for (before, after) in input.iter().zip(&output) {
        assert!(is_subsequence(before, after));
    }
    assert_eq!(5 * 16, removed.len());
}

#[test]
fn carver_height_minus_five_test() {
    let (input, output, removed) = carve(0, -5);
    for (before, after) in transpose(&input).iter().zip(&transpose(&output)) {
        assert!(is_subsequence(after, before));
    }
    assert_eq!(5 * 24, removed.len());
    for x in 0..24 {
        assert_eq!(5, removed.iter().filter(|point| point.0 == x).count());
    }
}

#[test]
fn carver_height_plus_five_test() {
    let (input, output, removed) = carve(0, 5);
    for (before, after) in transpose(&input).iter().zip(&transpose(&output)) {
        assert!(is_subsequence(before, after));
    }
    assert_eq!(5 * 24, removed.len());
}

#[test]
fn carver_both_minus_five_test() {
    let (_, output, removed) = carve(-5, -5);
    assert_eq!(11, output.len());
    assert_eq!(19, output[0].len());
    assert_eq!(5 * 16 + 5 * 19, removed.len());
}

#[test]
fn carver_both_plus_five_test() {
    let (_, output, removed) = carve(5, 5);
    assert_eq!(21, output.len());
    assert_eq!(29, output[0].len());
    assert_eq!(5 * 16 + 5 * 29, removed.len());
}

#[test]
fn carver_uniform_picture_has_no_energy() {
    let pixels = vec![vec![Pixel::new(9, 80, 200, 255); 5]; 4];
    let carver = setup_carver(pixels);
    assert_eq!(vec![vec![0u32; 5]; 4], carver.get_pixel_energy());
    assert_eq!(vec![vec![0u32; 5]; 4], carver.get_path_energy());
}

#[test]
fn carver_path_start_takes_leftmost_on_tie() {
    let pixels = vec![vec![Pixel::new(9, 80, 200, 255); 5]; 4];
    let carver = setup_carver(pixels);
    assert_eq!((0, 3), carver.get_path_start());
    // Every parent costs the same, so the seam keeps to the left edge.
    assert_eq!(vec![(2, 3), (1, 2), (0, 1), (0, 0)], carver.find_seam(2, 3));
}

#[test]
fn carver_seam_has_one_cell_per_row() {
    let carver = setup_carver(input());
    let (x, y) = carver.get_path_start();
    assert_eq!(15, y);
    let seam = carver.find_seam(x, y);
    assert_eq!(16, seam.len());
    for (k, point) in seam.iter().enumerate() {
        assert_eq!(15 - k, point.1);
        assert!(point.0 < 24);
    }
    for pair in seam.windows(2) {
        assert!(pair[0].0.abs_diff(pair[1].0) <= 1);
    }
}

#[test]
fn carver_path_cost_is_energy_of_seam() {
    let carver = setup_carver(medium());
    let energy = carver.get_pixel_energy();
    let cost = carver.get_path_energy();
    for x in 0..6 {
        let seam = carver.find_seam(x, 4);
        let sum: u32 = seam.iter().map(|&(x, y)| energy[y][x]).sum();
        assert_eq!(cost[4][x], sum);
    }
    assert_eq!(89955, cost[4][2]);
}

#[test]
fn carver_shrink_then_grow_restores_size() {
    let mut carver = Carver::new(input());
    carver.shrink_distance(7);
    assert_eq!(17, carver.rebuild_image()[0].len());
    assert_eq!(16, carver.rebuild_image().len());
    carver.grow_distance(7);
    assert_eq!(24, carver.rebuild_image()[0].len());
    assert_eq!(16, carver.rebuild_image().len());
}

#[test]
fn carver_shrink_removes_the_seam() {
    let mut carver = Carver::new(small());
    carver.shrink_distance(1);
    let pixels = carver.rebuild_image();
    let original = small();
    for y in 0..4 {
        assert_eq!(original[y][1..].to_vec(), pixels[y]);
    }
    assert_eq!(vec![(0, 3), (0, 2), (0, 1), (0, 0)], carver.get_removed_points());
}

#[test]
fn carver_grow_inserts_the_mean() {
    let mut carver = Carver::new(small());
    carver.grow_distance(1);
    let pixels = carver.rebuild_image();
    let original = small();
    for y in 0..4 {
        let left = original[y][0];
        let right = original[y][1];
        assert_eq!(4, pixels[y].len());
        assert_eq!(left, pixels[y][0]);
        assert_eq!(
            Pixel::new(255, ((left.g as u16 + right.g as u16) / 2) as u8, 102, 255),
            pixels[y][1]
        );
        assert_eq!(right, pixels[y][2]);
        assert_eq!(original[y][2], pixels[y][3]);
    }
    assert_eq!(vec![(0, 3), (0, 2), (0, 1), (0, 0)], carver.get_removed_points());
}

#[test]
fn carver_resize_to_same_size_changes_nothing() {
    let mut carver = Carver::new(medium());
    assert_eq!(medium(), carver.resize(6, 5));
    assert_eq!(vec![vec![0u32; 6]; 5], carver.get_pixel_energy());
    assert!(carver.get_removed_points().is_empty());
}

#[test]
fn carver_single_column_has_no_horizontal_energy() {
    let pixels = picture(&[&[(10, 0, 0)], &[(20, 0, 0)], &[(40, 0, 0)]]);
    let carver = setup_carver(pixels);
    // Left and right neighbour are the cell itself; up and down wrap around.
    assert_eq!(vec![vec![400], vec![900], vec![100]], carver.get_pixel_energy());
}

#[test]
fn carver_single_row_has_no_vertical_energy() {
    let pixels = picture(&[&[(10, 0, 0), (20, 0, 0), (40, 0, 0)]]);
    let carver = setup_carver(pixels);
    assert_eq!(vec![vec![400, 900, 100]], carver.get_pixel_energy());
}

#[test]
fn carver_clone_starts_with_an_empty_log() {
    let mut carver = Carver::new(small());
    carver.shrink_distance(1);
    let copy = carver.clone();
    assert_eq!(carver.rebuild_image(), copy.rebuild_image());
    assert!(copy.get_removed_points().is_empty());
    assert_eq!(4, carver.get_removed_points().len());
}

#[test]
fn carver_height_is_carved_like_the_width_of_the_transposed_picture() {
    let input = input();
    for delta in [-3isize, 3] {
        let mut upright = Carver::new(input.clone());
        let tall = upright.resize(24, (16 + delta) as usize);

        let mut lying = Carver::new(transpose(&input));
        let wide = lying.resize((16 + delta) as usize, 24);

        assert_eq!(transpose(&wide), tall);
    }
}

#[test]
fn carver_takes_a_larger_picture() {
    let mut state: u32 = 7;
    let pixels: Vec<Vec<Pixel>> = (0..90)
        .map(|_| {
            (0..120)
                .map(|_| {
                    state = state.wrapping_mul(1664525).wrapping_add(1013904223);
                    Pixel::new((state >> 8) as u8, (state >> 16) as u8, (state >> 24) as u8, 255)
                })
                .collect()
        })
        .collect();
    let mut carver = Carver::new(pixels);
    let output = carver.resize(100, 100);
    assert_eq!(100, output.len());
    assert!(output.iter().all(|row| row.len() == 100));
    assert_eq!(20 * 90 + 10 * 100, carver.get_removed_points().len());
}
