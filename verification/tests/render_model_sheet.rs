use sprite_sheet::error::SheetError;
use sprite_sheet::raster::Image;
use sprite_sheet::render_model_sheet::{execute, load, SourceFile};
use sprite_sheet::sheet::{Normalized, SpriteSheet};
use sprite_sheet::sorted_map::SortedMap;
use sprite_sheet::source_imgs::ImgToRender;

const RED: [u8; 4] = [255, 0, 0, 255];
const GREEN: [u8; 4] = [0, 255, 0, 255];
const CLEAR: [u8; 4] = [0, 0, 0, 0];

fn solid(width: u32, height: u32, color: [u8; 4]) -> Image {
    let mut data = Vec::new();
    for _ in 0..(width * height) {
        data.extend_from_slice(&color);
    }
    Image::from_raw(width, height, data).unwrap()
}

/// A `width` by `height` image that is transparent but for a `color`
/// rectangle.
fn boxed(width: u32, height: u32, left: u32, top: u32, right: u32, bottom: u32, color: [u8; 4]) -> Image {
    let mut data = Vec::new();
    for y in 0..height {
        for x in 0..width {
            if left <= x && x <= right && top <= y && y <= bottom {
                data.extend_from_slice(&color);
            } else {
                data.extend_from_slice(&CLEAR);
            }
        }
    }
    Image::from_raw(width, height, data).unwrap()
}

fn png_of(image: &Image) -> Vec<u8> {
    let buffer = image::RgbaImage::from_raw(image.width(), image.height(), image.as_raw().clone()).unwrap();
    let mut bytes: Vec<u8> = Vec::new();
    image::DynamicImage::ImageRgba8(buffer).write_to(&mut bytes, image::ImageOutputFormat::Png).unwrap();
    bytes
}

fn file(directory: &str, file_name: &str, bytes: Vec<u8>) -> SourceFile {
    SourceFile { file_name: file_name.to_string(), path: format!("{}/{}", directory, file_name), bytes }
}

fn pixel(image: &Image, x: u32, y: u32) -> [u8; 4] {
    let p = image.get_pixel(x, y).unwrap();
    [p.r, p.g, p.b, p.a]
}

fn render(files: Vec<SourceFile>) -> Result<(SpriteSheet, Vec<u8>), SheetError> {
    let imgs = load(&files)?;
    execute(sprite_sheet::source_imgs::execute(imgs))
}

/// Checks what must hold of every sheet: frames lie inside the sheet and show
/// what was kept of their sources, and every fraction matches its pixels.
fn check_sheet(sheet: &SpriteSheet, image_png_bytes: &Vec<u8>, sources: &[(&str, usize, usize, &Image)]) {
    assert_eq!(&sheet.png_bytes(), image_png_bytes);
    let atlas = Image::from_png(image_png_bytes).unwrap();
    assert_eq!((atlas.width(), atlas.height()), (sheet.width_px(), sheet.height_px()));
    let across = |px: u32| Normalized { px, of_px: sheet.width_px() };
    let down = |px: u32| Normalized { px, of_px: sheet.height_px() };
    let mut covered = vec![false; (atlas.width() * atlas.height()) as usize];
    for animation in sheet.animations() {
        assert_eq!(animation.start_x_normalized(), across(animation.start_x_px()));
        assert_eq!(animation.start_y_normalized(), down(animation.start_y_px()));
        for (d, direction) in animation.directions().iter().enumerate() {
            assert_eq!(direction.start_x_normalized(), across(direction.start_x_px()));
            assert_eq!(direction.start_y_normalized(), down(direction.start_y_px()));
            for (f, frame) in direction.frames().iter().enumerate() {
                assert_eq!(frame.width_normalized(), across(frame.width_px()));
                assert_eq!(frame.height_normalized(), down(frame.height_px()));
                assert_eq!(frame.offset_x_normalized(), across(frame.offset_x_px()));
                assert_eq!(frame.offset_y_normalized(), down(frame.offset_y_px()));
                assert_eq!(frame.start_x_normalized(), across(frame.start_x_px()));
                assert_eq!(frame.start_y_normalized(), down(frame.start_y_px()));
                assert!(frame.start_x_px() + frame.width_px() <= sheet.width_px());
                assert!(frame.start_y_px() + frame.height_px() <= sheet.height_px());
                let source = sources
                    .iter()
                    .find(|s| s.0 == animation.name() && s.1 == d && s.2 == f)
                    .expect("every frame has a source")
                    .3;
                for j in 0..frame.height_px() {
                    for i in 0..frame.width_px() {
                        let (x, y) = (frame.start_x_px() + i, frame.start_y_px() + j);
                        assert_eq!(pixel(&atlas, x, y), pixel(source, frame.offset_x_px() + i, frame.offset_y_px() + j));
                        assert!(!covered[(y * atlas.width() + x) as usize]);
                        covered[(y * atlas.width() + x) as usize] = true;
                    }
                }
            }
        }
    }
    for y in 0..atlas.height() {
        for x in 0..atlas.width() {
            if !covered[(y * atlas.width() + x) as usize] {
                assert_eq!(pixel(&atlas, x, y), CLEAR);
            }
        }
    }
}

#[test]
fn three_red_squares_and_a_note() {
    let square = solid(10, 10, RED);
    let files = vec![
        file("in", "walk_ESCAPED0_ESCAPED0.png", png_of(&square)),
        file("in", "walk_ESCAPED0_ESCAPED1.png", png_of(&square)),
        file("in", "notes.txt", b"remember to render the run cycle".to_vec()),
        file("in", "walk_ESCAPED1_ESCAPED0.png", png_of(&square)),
    ];
    let (sheet, image_png_bytes) = render(files).unwrap();

    assert_eq!(sheet.animations().len(), 1);
    let walk = sheet.animation("walk").unwrap();
    assert_eq!(walk.name(), "walk");
    assert_eq!(walk.directions().len(), 2);
    let first = walk.direction(0).unwrap();
    let second = walk.direction(1).unwrap();
    assert_eq!(first.direction(), 0);
    assert_eq!(first.frames().len(), 2);
    assert_eq!(second.direction(), 1);
    assert_eq!(second.frames().len(), 1);

    // The sheet is as tall as the two strips together.
    assert_eq!(sheet.height_px(), 10 + 10);
    assert_eq!(sheet.width_px(), 20);
    assert_eq!((first.start_x_px(), first.start_y_px()), (0, 0));
    assert_eq!((second.start_x_px(), second.start_y_px()), (0, 10));

    // Every frame stays 10 by 10 at offset zero.
    for frame in first.frames().iter().chain(second.frames().iter()) {
        assert_eq!((frame.width_px(), frame.height_px()), (10, 10));
        assert_eq!((frame.offset_x_px(), frame.offset_y_px()), (0, 0));
    }
    let starts: Vec<(u32, u32)> = first.frames().iter().map(|f| (f.start_x_px(), f.start_y_px())).collect();
    assert_eq!(starts, vec![(0, 0), (10, 0)]);
    assert_eq!((second.frames()[0].start_x_px(), second.frames()[0].start_y_px()), (0, 10));
    assert_eq!(first.frames()[1].start_x_normalized(), Normalized { px: 10, of_px: 20 });
    assert_eq!(second.frames()[0].start_y_normalized(), Normalized { px: 10, of_px: 20 });
    assert_eq!(second.frames()[0].width_normalized(), Normalized { px: 10, of_px: 20 });

    let atlas = Image::from_png(&image_png_bytes).unwrap();
    for y in 0..20 {
        for x in 0..20 {
            let expected = if y < 10 || x < 10 { RED } else { CLEAR };
            assert_eq!(pixel(&atlas, x, y), expected);
        }
    }
    check_sheet(
        &sheet,
        &image_png_bytes,
        &[("walk", 0, 0, &square), ("walk", 0, 1, &square), ("walk", 1, 0, &square)],
    );
}

#[test]
fn frames_are_ordered_whatever_the_order_of_the_files() {
    let a = boxed(8, 8, 2, 2, 3, 4, RED);
    let b = boxed(8, 8, 0, 0, 7, 0, GREEN);
    let c = boxed(8, 8, 5, 5, 5, 5, RED);
    let d = boxed(6, 4, 1, 1, 4, 2, GREEN);
    let e = solid(3, 3, RED);
    let files = vec![
        file("in/run", "run_ESCAPED1_ESCAPED0.png", png_of(&d)),
        file("in/walk", "walk_ESCAPED2_ESCAPED0.png", png_of(&c)),
        file("in/walk", "walk_ESCAPED0_ESCAPED10.png", png_of(&b)),
        file("in", "README.md", vec![]),
        file("in/run", "run_ESCAPED0_ESCAPED0.png", png_of(&e)),
        file("in/walk", "walk_ESCAPED0_ESCAPED9.png", png_of(&a)),
    ];
    let (sheet, image_png_bytes) = render(files).unwrap();

    let names: Vec<&str> = sheet.animations().iter().map(|a| a.name()).collect();
    assert_eq!(names, vec!["run", "walk"]);
    let run = &sheet.animations()[0];
    let walk = &sheet.animations()[1];
    let run_directions: Vec<usize> = run.directions().iter().map(|d| d.direction()).collect();
    assert_eq!(run_directions, vec![0, 1]);
    let walk_directions: Vec<usize> = walk.directions().iter().map(|d| d.direction()).collect();
    assert_eq!(walk_directions, vec![0, 2]);

    // run: a 3 by 3 strip above a 6 by 4 strip; walk: frames 9 and 10 side by side above frame 0.
    assert_eq!((run.start_x_px(), run.start_y_px()), (0, 0));
    assert_eq!(run.directions()[1].start_y_px(), 3);
    assert_eq!((walk.start_x_px(), walk.start_y_px()), (0, 7));
    let frames = walk.directions()[0].frames();
    assert_eq!((frames[0].width_px(), frames[0].height_px()), (4, 5));
    assert_eq!((frames[0].offset_x_px(), frames[0].offset_y_px()), (1, 1));
    assert_eq!((frames[0].start_x_px(), frames[0].start_y_px()), (0, 7));
    assert_eq!((frames[1].width_px(), frames[1].height_px()), (8, 2));
    assert_eq!((frames[1].offset_x_px(), frames[1].offset_y_px()), (0, 0));
    assert_eq!((frames[1].start_x_px(), frames[1].start_y_px()), (4, 7));
    assert_eq!(walk.directions()[1].start_y_px(), 12);
    assert_eq!(sheet.width_px(), 12);
    assert_eq!(sheet.height_px(), 15);

    check_sheet(
        &sheet,
        &image_png_bytes,
        &[("run", 0, 0, &e), ("run", 1, 0, &d), ("walk", 0, 0, &a), ("walk", 0, 1, &b), ("walk", 1, 0, &c)],
    );

    // Frames, directions and animations start strictly further right or down.
    let mut last = None;
    for animation in sheet.animations() {
        assert!(last < Some(animation.start_y_px()));
        last = Some(animation.start_y_px());
        let mut last = None;
        for direction in animation.directions() {
            assert!(last < Some(direction.start_y_px()));
            last = Some(direction.start_y_px());
            let mut last = None;
            for frame in direction.frames() {
                assert!(last < Some(frame.start_x_px()));
                last = Some(frame.start_x_px());
            }
        }
    }
}

#[test]
fn transparent_frames_keep_their_place_in_the_sheet() {
    let square = solid(4, 4, RED);
    let nothing = solid(10, 10, CLEAR);
    let files = vec![
        file("in", "walk_ESCAPED0_ESCAPED0.png", png_of(&square)),
        file("in", "walk_ESCAPED0_ESCAPED1.png", png_of(&nothing)),
        file("in", "walk_ESCAPED0_ESCAPED2.png", png_of(&square)),
    ];
    let (sheet, image_png_bytes) = render(files).unwrap();
    let frames = sheet.animations()[0].directions()[0].frames();
    assert_eq!(frames.len(), 3);
    assert_eq!((frames[1].width_px(), frames[1].height_px()), (0, 0));
    assert_eq!((frames[1].offset_x_px(), frames[1].offset_y_px()), (0, 0));
    assert_eq!((frames[1].start_x_px(), frames[1].start_y_px()), (4, 0));
    assert_eq!((frames[2].start_x_px(), frames[2].start_y_px()), (4, 0));
    assert_eq!((sheet.width_px(), sheet.height_px()), (8, 4));
    check_sheet(
        &sheet,
        &image_png_bytes,
        &[("walk", 0, 0, &square), ("walk", 0, 1, &nothing), ("walk", 0, 2, &square)],
    );
}

#[test]
fn a_sheet_of_transparent_frames_has_no_pixels() {
    let files = vec![file("in", "walk_ESCAPED0_ESCAPED0.png", png_of(&solid(10, 10, CLEAR)))];
    assert_eq!(render(files), Err(SheetError::EmptySheet));
}

#[test]
fn no_frames_make_no_sheet() {
    assert_eq!(render(vec![]), Err(SheetError::EmptySheet));
    assert_eq!(render(vec![file("in", "notes.txt", b"nothing to see".to_vec())]), Err(SheetError::EmptySheet));
    let empty: SortedMap<String, Vec<(ImgToRender, Image)>> = SortedMap::new();
    assert_eq!(execute(empty), Err(SheetError::EmptySheet));
}

#[test]
fn load_passes_over_files_that_are_no_frames() {
    let square = solid(2, 2, GREEN);
    let files = vec![
        file("in", "notes.txt", b"not an image".to_vec()),
        file("in/a", "walk_ESCAPED3_ESCAPED4.png", png_of(&square)),
        file("in", "walk.png", b"not an image either".to_vec()),
        file("in/b", "idle_ESCAPED0_ESCAPED0.png", png_of(&square)),
    ];
    let imgs = load(&files).unwrap();
    assert_eq!(
        imgs,
        vec![
            (
                ImgToRender {
                    animation: "walk".to_string(),
                    direction: 3,
                    frame: 4,
                    path: "in/a/walk_ESCAPED3_ESCAPED4.png".to_string(),
                },
                square.clone(),
            ),
            (
                ImgToRender {
                    animation: "idle".to_string(),
                    direction: 0,
                    frame: 0,
                    path: "in/b/idle_ESCAPED0_ESCAPED0.png".to_string(),
                },
                square,
            ),
        ]
    );
}

#[test]
fn load_fails_on_a_frame_that_is_no_png() {
    let files = vec![
        file("in", "walk_ESCAPED0_ESCAPED0.png", png_of(&solid(2, 2, RED))),
        file("in", "walk_ESCAPED0_ESCAPED1.png", b"corrupt".to_vec()),
    ];
    assert_eq!(load(&files), Err(SheetError::Decode));
}

#[test]
fn images_without_rows_keep_nothing() {
    let mut map: SortedMap<String, Vec<(ImgToRender, Image)>> = SortedMap::new();
    let frame = |n: u32| ImgToRender { animation: "a".to_string(), direction: 0, frame: n, path: n.to_string() };
    let wide = || Image::from_raw(3_000_000_000, 0, vec![]).unwrap();
    // Images without rows keep nothing when trimmed, so the strip still fits and the sheet is empty.
    map.insert("a".to_string(), vec![(frame(0), wide()), (frame(1), wide())]);
    assert_eq!(execute(map), Err(SheetError::EmptySheet));
}
