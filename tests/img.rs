use maths::img::functions::{blend_channels, RgbaBuffer};
use maths::img::types::{get_min_dim, DimCover, EdgeDetect, LightCover, MixRule, Mode};

#[test]
fn dim_cover_values() {
    assert_eq!(DimCover::Multiply.mix(255, 255), 255);
    assert_eq!(DimCover::Multiply.mix(128, 2), 1);
    assert_eq!(DimCover::LinearBurn.mix(255, 255), 255);
    assert_eq!(DimCover::LinearBurn.mix(0, 0), 0);
    assert_eq!(DimCover::LinearBurn.mix(100, 100), 100);
    assert_eq!(DimCover::Multiply.name(), "multiply");
    assert_eq!(DimCover::LinearBurn.name(), "linear_burn");
}

#[test]
fn light_cover_values() {
    assert_eq!(LightCover::Screen.mix(0, 0), 0);
    assert_eq!(LightCover::Screen.mix(255, 17), 255);
    assert_eq!(LightCover::Screen.mix(128, 128), 191);
    assert_eq!(LightCover::LinearDodge.mix(200, 100), 255);
    assert_eq!(LightCover::LinearDodge.mix(10, 20), 30);
    assert_eq!(LightCover::Screen.name(), "screen");
    assert_eq!(LightCover::LinearDodge.name(), "linear_dodge");
}

#[test]
fn edge_kernels_and_names() {
    assert_eq!(EdgeDetect::Sobel(Mode::Vertical).get_matrix(), [-1, -2, -1, 0, 0, 0, 1, 2, 1]);
    assert_eq!(EdgeDetect::Robert(Mode::Horizontal).get_matrix(), [0, -1, 0, 1, 0, 0, 0, 0, 0]);
    assert_eq!(EdgeDetect::Prewitt(Mode::Horizontal).name(), "prewitt_horizontal");
}

#[test]
fn min_dim_takes_each_smaller_side() {
    assert_eq!(get_min_dim((3, 8), (5, 2)), (3, 2));
}

#[test]
fn blend_covers_only_the_common_region() {
    let base = RgbaBuffer { width: 2, height: 1, data: vec![10, 20, 30, 40, 50, 60, 70, 80] };
    let cover = RgbaBuffer { width: 1, height: 2, data: vec![1, 2, 3, 4, 5, 6, 7, 8] };
    assert_eq!(blend_channels(&base, &cover, &LightCover::LinearDodge, 3), vec![11, 22, 33]);
    assert_eq!(blend_channels(&base, &cover, &DimCover::Multiply, 4), vec![0, 0, 0, 0]);
}

#[test]
fn blend_walks_rows_then_columns() {
    let base = RgbaBuffer { width: 2, height: 2, data: (0..16).map(|v| v as u8).collect() };
    let cover = RgbaBuffer { width: 2, height: 2, data: vec![100; 16] };
    let out = blend_channels(&base, &cover, &LightCover::LinearDodge, 3);
    assert_eq!(out, vec![100, 101, 102, 104, 105, 106, 108, 109, 110, 112, 113, 114]);
}

#[test]
fn every_edge_kernel_has_its_own_name() {
    let names = [
        EdgeDetect::Robert(Mode::Vertical).name(),
        EdgeDetect::Robert(Mode::Horizontal).name(),
        EdgeDetect::Prewitt(Mode::Vertical).name(),
        EdgeDetect::Prewitt(Mode::Horizontal).name(),
        EdgeDetect::Sobel(Mode::Vertical).name(),
        EdgeDetect::Sobel(Mode::Horizontal).name(),
    ];
    assert_eq!(names[5], "sobel_horizontal");
    for i in 0..6 {
        for j in 0..i {
            assert_ne!(names[i], names[j]);
        }
    }
}
