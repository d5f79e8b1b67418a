use sprite_sheet::error::SheetError;
use sprite_sheet::internal_sheet::{Animation, DirectionalAnimation, Frame, SpriteSheet};
use sprite_sheet::make_sheet::{execute, join_pngs_vertically};
use sprite_sheet::raster::Image;

const RED: [u8; 4] = [255, 0, 0, 255];
const GREEN: [u8; 4] = [0, 255, 0, 255];
const CLEAR: [u8; 4] = [0, 0, 0, 0];

fn solid(width: u32, height: u32, color: [u8; 4]) -> Image {
    let mut data = Vec::new();
    for _ in 0..(width * height) {
        data.extend_from_slice(&color);
    }
    Image::from_raw(width, height, data).unwrap()
}

fn animation(name: &str, frames: Vec<Frame>) -> Animation {
    Animation {
        directional_animations: vec![DirectionalAnimation { direction: 0, frames, start_x_px: 0, start_y_px: 0 }],
        name: name.to_string(),
        start_x_px: 77,
        start_y_px: 77,
    }
}

fn frame(width_px: u32, height_px: u32) -> Frame {
    Frame { width_px, height_px, offset_x_px: 0, offset_y_px: 0, start_x_px: 0, start_y_px: 0 }
}

#[test]
fn new_keeps_its_parts() {
    let sheet = SpriteSheet::new(vec![1, 2, 3], 4, 5, vec![animation("walk", vec![])]);
    assert_eq!(sheet.image_png_bytes, vec![1, 2, 3]);
    assert_eq!(sheet.width_px, 4);
    assert_eq!(sheet.height_px, 5);
    assert_eq!(sheet.animations, vec![animation("walk", vec![])]);
}

#[test]
fn join_pngs_vertically_stacks_images() {
    let image = join_pngs_vertically(&vec![solid(2, 1, RED), solid(1, 2, GREEN)]).unwrap();
    assert_eq!((image.width(), image.height()), (2, 3));
    let expected: Vec<u8> = [RED, RED, GREEN, CLEAR, GREEN, CLEAR].concat();
    assert_eq!(image.as_raw(), &expected);
}

#[test]
fn join_pngs_vertically_wants_pixels() {
    assert_eq!(join_pngs_vertically(&vec![]), Err(SheetError::EmptySheet));
    let empty = Image::from_raw(0, 0, vec![]).unwrap();
    assert_eq!(join_pngs_vertically(&vec![empty.clone(), empty]), Err(SheetError::EmptySheet));
    let flat = Image::from_raw(5, 0, vec![]).unwrap();
    assert_eq!(join_pngs_vertically(&vec![flat]), Err(SheetError::EmptySheet));
    let thin = Image::from_raw(0, 5, vec![]).unwrap();
    assert_eq!(join_pngs_vertically(&vec![thin]), Err(SheetError::EmptySheet));
}

#[test]
fn join_pngs_vertically_fails_when_the_sheet_does_not_fit() {
    let tall = || Image::from_raw(0, 3_000_000_000, vec![]).unwrap();
    assert_eq!(join_pngs_vertically(&vec![tall(), tall()]), Err(SheetError::TooLarge));
}

#[test]
fn execute_stacks_blocks_and_places_animations() {
    let renders = vec![
        (animation("walk", vec![frame(2, 1)]), solid(2, 1, RED)),
        (animation("idle", vec![frame(1, 2)]), solid(1, 2, GREEN)),
        (animation("run", vec![frame(3, 1)]), solid(3, 1, RED)),
    ];
    let (sheet, image_png_bytes) = execute(renders).unwrap();
    assert_eq!(sheet.width_px, 3);
    assert_eq!(sheet.height_px, 4);
    assert_eq!(sheet.image_png_bytes, image_png_bytes);
    let names: Vec<&str> = sheet.animations.iter().map(|a| a.name.as_str()).collect();
    assert_eq!(names, vec!["walk", "idle", "run"]);
    let starts: Vec<(u32, u32)> = sheet.animations.iter().map(|a| (a.start_x_px, a.start_y_px)).collect();
    assert_eq!(starts, vec![(0, 0), (0, 1), (0, 3)]);
    assert_eq!(sheet.animations[1].directional_animations, animation("idle", vec![frame(1, 2)]).directional_animations);

    let decoded = image::load_from_memory_with_format(&image_png_bytes, image::ImageFormat::Png).unwrap().into_rgba8();
    assert_eq!((decoded.width(), decoded.height()), (3, 4));
    let expected: Vec<u8> = [
        RED, RED, CLEAR,
        GREEN, CLEAR, CLEAR,
        GREEN, CLEAR, CLEAR,
        RED, RED, RED,
    ]
    .concat();
    assert_eq!(decoded.into_raw(), expected);
}

#[test]
fn execute_writes_the_png_of_the_stacked_image() {
    let renders = vec![(animation("a", vec![]), solid(2, 2, RED)), (animation("b", vec![]), solid(1, 1, GREEN))];
    let (_, image_png_bytes) = execute(renders).unwrap();
    let stacked = join_pngs_vertically(&vec![solid(2, 2, RED), solid(1, 1, GREEN)]).unwrap();
    assert_eq!(image_png_bytes, stacked.to_png().unwrap());
    assert_eq!(Image::from_png(&image_png_bytes), Ok(stacked));
}

#[test]
fn execute_wants_pixels() {
    assert_eq!(execute(vec![]), Err(SheetError::EmptySheet));
    let empty = Image::from_raw(0, 0, vec![]).unwrap();
    assert_eq!(execute(vec![(animation("walk", vec![]), empty)]), Err(SheetError::EmptySheet));
}

#[test]
fn execute_fails_when_the_sheet_does_not_fit() {
    let tall = || Image::from_raw(0, 3_000_000_000, vec![]).unwrap();
    let renders = vec![(animation("a", vec![]), tall()), (animation("b", vec![]), tall())];
    assert_eq!(execute(renders), Err(SheetError::TooLarge));
}
