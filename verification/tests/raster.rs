use sprite_sheet::error::SheetError;
use sprite_sheet::layout::{join_horizontally, stack_vertically};
use sprite_sheet::raster::{Image, Rgba};

const RED: [u8; 4] = [255, 0, 0, 255];
const BLUE: [u8; 4] = [0, 0, 255, 128];
const CLEAR: [u8; 4] = [0, 0, 0, 0];

fn solid(width: u32, height: u32, color: [u8; 4]) -> Image {
    let mut data = Vec::new();
    for _ in 0..(width * height) {
        data.extend_from_slice(&color);
    }
    Image::from_raw(width, height, data).unwrap()
}

fn pixel(image: &Image, x: u32, y: u32) -> [u8; 4] {
    let p = image.get_pixel(x, y).unwrap();
    [p.r, p.g, p.b, p.a]
}

#[test]
fn from_raw_wants_four_samples_per_pixel() {
    assert!(Image::from_raw(2, 3, vec![0; 24]).is_some());
    assert!(Image::from_raw(2, 3, vec![0; 23]).is_none());
    assert!(Image::from_raw(2, 3, vec![0; 25]).is_none());
    assert!(Image::from_raw(0, 0, vec![]).is_some());
    assert!(Image::from_raw(0, 5, vec![]).is_some());
    assert!(Image::from_raw(0, 0, vec![0]).is_none());
}

#[test]
fn from_raw_keeps_size_and_samples() {
    let image = Image::from_raw(2, 1, vec![1, 2, 3, 4, 5, 6, 7, 8]).unwrap();
    assert_eq!(image.width(), 2);
    assert_eq!(image.height(), 1);
    assert_eq!(image.as_raw(), &vec![1, 2, 3, 4, 5, 6, 7, 8]);
}

#[test]
fn get_pixel_reads_rows_from_the_top() {
    let image = Image::from_raw(2, 2, vec![1, 2, 3, 4, 5, 6, 7, 8, 9, 10, 11, 12, 13, 14, 15, 16]).unwrap();
    assert_eq!(image.get_pixel(0, 0), Some(Rgba { r: 1, g: 2, b: 3, a: 4 }));
    assert_eq!(image.get_pixel(1, 0), Some(Rgba { r: 5, g: 6, b: 7, a: 8 }));
    assert_eq!(image.get_pixel(0, 1), Some(Rgba { r: 9, g: 10, b: 11, a: 12 }));
    assert_eq!(image.get_pixel(1, 1), Some(Rgba { r: 13, g: 14, b: 15, a: 16 }));
    assert_eq!(image.get_pixel(2, 0), None);
    assert_eq!(image.get_pixel(0, 2), None);
    assert_eq!(image.alpha_at(1, 1), 16);
}

#[test]
fn to_png_writes_a_png_that_holds_the_pixels() {
    let image = Image::from_raw(2, 1, vec![255, 0, 0, 255, 0, 0, 255, 128]).unwrap();
    let bytes = image.to_png().unwrap();
    assert_eq!(&bytes[..8], &[0x89, b'P', b'N', b'G', 0x0d, 0x0a, 0x1a, 0x0a]);
    let decoded = image::load_from_memory_with_format(&bytes, image::ImageFormat::Png).unwrap().into_rgba8();
    assert_eq!(decoded.width(), 2);
    assert_eq!(decoded.height(), 1);
    assert_eq!(decoded.into_raw(), vec![255, 0, 0, 255, 0, 0, 255, 128]);
}

#[test]
fn from_png_reads_what_a_png_holds() {
    let source = image::RgbaImage::from_raw(1, 2, vec![9, 8, 7, 6, 5, 4, 3, 2]).unwrap();
    let mut bytes: Vec<u8> = Vec::new();
    image::DynamicImage::ImageRgba8(source).write_to(&mut bytes, image::ImageOutputFormat::Png).unwrap();
    let image = Image::from_png(&bytes).unwrap();
    assert_eq!(image.width(), 1);
    assert_eq!(image.height(), 2);
    assert_eq!(image.as_raw(), &vec![9, 8, 7, 6, 5, 4, 3, 2]);
}

#[test]
fn from_png_gives_images_without_alpha_full_alpha() {
    let source = image::RgbImage::from_raw(1, 1, vec![10, 20, 30]).unwrap();
    let mut bytes: Vec<u8> = Vec::new();
    image::DynamicImage::ImageRgb8(source).write_to(&mut bytes, image::ImageOutputFormat::Png).unwrap();
    let image = Image::from_png(&bytes).unwrap();
    assert_eq!(image.as_raw(), &vec![10, 20, 30, 255]);
}

#[test]
fn from_png_rejects_other_bytes() {
    assert_eq!(Image::from_png(&vec![]), Err(SheetError::Decode));
    assert_eq!(Image::from_png(&b"not a png at all".to_vec()), Err(SheetError::Decode));
    let truncated = solid(4, 4, RED).to_png().unwrap()[..20].to_vec();
    assert_eq!(Image::from_png(&truncated), Err(SheetError::Decode));
}

#[test]
fn png_round_trip_gives_the_image_back() {
    let image = Image::from_raw(3, 2, (0..24).collect()).unwrap();
    assert_eq!(Image::from_png(&image.to_png().unwrap()), Ok(image));
}

#[test]
fn join_horizontally_lays_images_out_left_to_right() {
    let images = vec![solid(2, 3, RED), solid(1, 1, BLUE), solid(3, 2, RED)];
    let canvas = join_horizontally(&images).unwrap();
    assert_eq!(canvas.width(), 6);
    assert_eq!(canvas.height(), 3);
    for y in 0..3 {
        for x in 0..6 {
            let expected = if x < 2 {
                RED
            } else if x < 3 {
                if y < 1 {
                    BLUE
                } else {
                    CLEAR
                }
            } else if y < 2 {
                RED
            } else {
                CLEAR
            };
            assert_eq!(pixel(&canvas, x, y), expected);
        }
    }
}

#[test]
fn stack_vertically_lays_images_out_top_to_bottom() {
    let images = vec![solid(2, 1, RED), solid(3, 2, BLUE), solid(1, 1, RED)];
    let canvas = stack_vertically(&images).unwrap();
    assert_eq!(canvas.width(), 3);
    assert_eq!(canvas.height(), 4);
    for y in 0..4 {
        for x in 0..3 {
            let expected = if y < 1 {
                if x < 2 {
                    RED
                } else {
                    CLEAR
                }
            } else if y < 3 {
                BLUE
            } else if x < 1 {
                RED
            } else {
                CLEAR
            };
            assert_eq!(pixel(&canvas, x, y), expected);
        }
    }
}

#[test]
fn joining_nothing_gives_an_empty_canvas() {
    let canvas = join_horizontally(&vec![]).unwrap();
    assert_eq!((canvas.width(), canvas.height()), (0, 0));
    let canvas = stack_vertically(&vec![]).unwrap();
    assert_eq!((canvas.width(), canvas.height()), (0, 0));
}

#[test]
fn joining_fails_when_the_sides_do_not_fit() {
    let wide = vec![Image::from_raw(3_000_000_000, 0, vec![]).unwrap(), Image::from_raw(3_000_000_000, 0, vec![]).unwrap()];
    assert_eq!(join_horizontally(&wide), Err(SheetError::TooLarge));
    let tall = vec![Image::from_raw(0, 3_000_000_000, vec![]).unwrap(), Image::from_raw(0, 3_000_000_000, vec![]).unwrap()];
    assert_eq!(stack_vertically(&tall), Err(SheetError::TooLarge));
}

#[test]
fn joining_keeps_sides_that_just_fit() {
    let wide = vec![Image::from_raw(4_294_967_295, 0, vec![]).unwrap(), Image::from_raw(0, 0, vec![]).unwrap()];
    let canvas = join_horizontally(&wide).unwrap();
    assert_eq!((canvas.width(), canvas.height()), (4_294_967_295, 0));
}
