use sprite_sheet::error::SheetError;
use sprite_sheet::internal_sheet::{DirectionalAnimation, Frame};
use sprite_sheet::raster::Image;
use sprite_sheet::render_animation::{execute, join_directional_renders, render_frame, render_frames};
use sprite_sheet::source_imgs::ImgToRender;

const RED: [u8; 4] = [255, 0, 0, 255];
const GREEN: [u8; 4] = [0, 255, 0, 255];
const FAINT: [u8; 4] = [7, 8, 9, 1];
const CLEAR: [u8; 4] = [0, 0, 0, 0];

/// An image drawn with one character per pixel: `#` red, `g` green, `f`
/// faint, anything else transparent.
fn draw(rows: &[&str]) -> Image {
    let height = rows.len() as u32;
    let width = if rows.is_empty() { 0 } else { rows[0].len() as u32 };
    let mut data = Vec::new();
    for row in rows {
        assert_eq!(row.len() as u32, width);
        for c in row.chars() {
            let color = match c {
                '#' => RED,
                'g' => GREEN,
                'f' => FAINT,
                _ => CLEAR,
            };
            data.extend_from_slice(&color);
        }
    }
    Image::from_raw(width, height, data).unwrap()
}

fn solid(width: u32, height: u32, color: [u8; 4]) -> Image {
    let mut data = Vec::new();
    for _ in 0..(width * height) {
        data.extend_from_slice(&color);
    }
    Image::from_raw(width, height, data).unwrap()
}

fn pixel(image: &Image, x: u32, y: u32) -> [u8; 4] {
    let p = image.get_pixel(x, y).unwrap();
    [p.r, p.g, p.b, p.a]
}

fn frame(width_px: u32, height_px: u32, offset_x_px: u32, offset_y_px: u32, start_x_px: u32, start_y_px: u32) -> Frame {
    Frame { width_px, height_px, offset_x_px, offset_y_px, start_x_px, start_y_px }
}

fn img(animation: &str, direction: u32, frame: u32) -> ImgToRender {
    ImgToRender {
        animation: animation.to_string(),
        direction,
        frame,
        path: format!("{}_ESCAPED{}_ESCAPED{}.png", animation, direction, frame),
    }
}

#[test]
fn opaque_frame_trims_to_itself() {
    let image = solid(10, 10, RED);
    let (cut, trimmed) = render_frame(&image);
    assert_eq!(trimmed, frame(10, 10, 0, 0, 0, 0));
    assert_eq!(cut, image);
}

#[test]
fn transparent_frame_trims_to_an_empty_frame() {
    let image = solid(10, 10, CLEAR);
    let (cut, trimmed) = render_frame(&image);
    assert_eq!(trimmed, frame(0, 0, 0, 0, 0, 0));
    assert_eq!((cut.width(), cut.height()), (0, 0));
    assert!(cut.as_raw().is_empty());
}

#[test]
fn transparent_color_with_samples_still_counts_as_transparent() {
    let image = solid(3, 3, [200, 100, 50, 0]);
    let (cut, trimmed) = render_frame(&image);
    assert_eq!(trimmed, frame(0, 0, 0, 0, 0, 0));
    assert_eq!((cut.width(), cut.height()), (0, 0));
}

#[test]
fn empty_image_trims_to_an_empty_frame() {
    let image = Image::from_raw(0, 0, vec![]).unwrap();
    let (cut, trimmed) = render_frame(&image);
    assert_eq!(trimmed, frame(0, 0, 0, 0, 0, 0));
    assert_eq!((cut.width(), cut.height()), (0, 0));
}

#[test]
fn trimming_pads_by_one_pixel_on_each_side() {
    let image = draw(&[
        "..........",
        "..........",
        "..........",
        "..........",
        "...###....",
        "..........",
        "..........",
        "..........",
        "..........",
        "..........",
    ]);
    let (cut, trimmed) = render_frame(&image);
    assert_eq!(trimmed, frame(5, 3, 2, 3, 0, 0));
    assert_eq!(cut, draw(&[".....", ".###.", "....."]));
}

#[test]
fn trimming_finds_the_box_of_scattered_pixels() {
    let image = draw(&[
        "........",
        "....#...",
        "........",
        ".g......",
        "......f.",
        "........",
        "........",
    ]);
    let (cut, trimmed) = render_frame(&image);
    assert_eq!(trimmed, frame(8, 6, 0, 0, 0, 0));
    assert_eq!(
        cut,
        draw(&["........", "....#...", "........", ".g......", "......f.", "........"])
    );
}

#[test]
fn padding_stops_at_the_edges_of_the_image() {
    let top_left = draw(&["#...", "....", "....", "...."]);
    let (cut, trimmed) = render_frame(&top_left);
    assert_eq!(trimmed, frame(2, 2, 0, 0, 0, 0));
    assert_eq!(cut, draw(&["#.", ".."]));

    let bottom_right = draw(&["....", "....", "....", "...#"]);
    let (cut, trimmed) = render_frame(&bottom_right);
    assert_eq!(trimmed, frame(2, 2, 2, 2, 0, 0));
    assert_eq!(cut, draw(&["..", ".#"]));
}

#[test]
fn single_pixel_image_trims_to_itself() {
    let image = draw(&["g"]);
    let (cut, trimmed) = render_frame(&image);
    assert_eq!(trimmed, frame(1, 1, 0, 0, 0, 0));
    assert_eq!(cut, image);
}

#[test]
fn faintest_alpha_counts_as_opaque() {
    let image = draw(&["...", ".f.", "..."]);
    let (cut, trimmed) = render_frame(&image);
    assert_eq!(trimmed, frame(3, 3, 0, 0, 0, 0));
    assert_eq!(cut, image);
    let image = draw(&[".....", ".....", "..f..", ".....", "....."]);
    let (cut, trimmed) = render_frame(&image);
    assert_eq!(trimmed, frame(3, 3, 1, 1, 0, 0));
    assert_eq!(pixel(&cut, 1, 1), FAINT);
}

#[test]
fn trimming_again_keeps_everything() {
    let images = vec![
        draw(&["..........", "..........", "....##....", "....#g....", "..........", ".........."]),
        draw(&["#...", "....", "....", "...."]),
        draw(&["....", "....", "....", "...#"]),
        solid(10, 10, RED),
        solid(10, 10, CLEAR),
        draw(&["f"]),
    ];
    for image in images {
        let (cut, trimmed) = render_frame(&image);
        let (again, retrimmed) = render_frame(&cut);
        assert_eq!(retrimmed, frame(trimmed.width_px, trimmed.height_px, 0, 0, 0, 0));
        assert_eq!(again, cut);
    }
}

#[test]
fn render_frames_packs_left_to_right() {
    let sources = vec![
        draw(&["......", "..##..", "..##..", "......", "......", "......"]),
        draw(&["g"]),
        draw(&["....", "....", "...#", "...#"]),
    ];
    let (strip, frames) = render_frames(&sources).unwrap();
    assert_eq!(frames, vec![frame(4, 4, 1, 0, 0, 0), frame(1, 1, 0, 0, 4, 0), frame(2, 3, 2, 1, 5, 0)]);
    assert_eq!(
        strip,
        draw(&[
            "....g..",
            ".##...#",
            ".##...#",
            ".......",
        ])
    );
}

#[test]
fn render_frames_keeps_a_place_for_transparent_frames() {
    let sources = vec![solid(2, 2, RED), solid(5, 5, CLEAR), solid(1, 3, GREEN)];
    let (strip, frames) = render_frames(&sources).unwrap();
    assert_eq!(frames, vec![frame(2, 2, 0, 0, 0, 0), frame(0, 0, 0, 0, 2, 0), frame(1, 3, 0, 0, 2, 0)]);
    assert_eq!(strip, draw(&["##g", "##g", "..g"]));
}

#[test]
fn render_frames_of_nothing_is_an_empty_strip() {
    let (strip, frames) = render_frames(&vec![]).unwrap();
    assert!(frames.is_empty());
    assert_eq!((strip.width(), strip.height()), (0, 0));
}

#[test]
fn join_directional_renders_stacks_top_to_bottom() {
    let first = DirectionalAnimation { direction: 4, frames: vec![frame(2, 1, 0, 0, 0, 0)], start_x_px: 9, start_y_px: 9 };
    let second = DirectionalAnimation { direction: 2, frames: vec![], start_x_px: 9, start_y_px: 9 };
    let third = DirectionalAnimation {
        direction: 7,
        frames: vec![frame(1, 2, 3, 4, 0, 0), frame(2, 2, 0, 0, 1, 0)],
        start_x_px: 9,
        start_y_px: 9,
    };
    let renders = vec![
        (first.clone(), draw(&["##"])),
        (second.clone(), Image::from_raw(0, 0, vec![]).unwrap()),
        (third.clone(), draw(&["g##", "g##"])),
    ];
    let (animation, block) = join_directional_renders("walk".to_string(), renders).unwrap();
    assert_eq!(animation.name, "walk");
    assert_eq!((animation.start_x_px, animation.start_y_px), (0, 0));
    assert_eq!(
        animation.directional_animations,
        vec![
            DirectionalAnimation { start_x_px: 0, start_y_px: 0, ..first },
            DirectionalAnimation { start_x_px: 0, start_y_px: 1, ..second },
            DirectionalAnimation { start_x_px: 0, start_y_px: 1, ..third },
        ]
    );
    assert_eq!(block, draw(&["##.", "g##", "g##"]));
}

#[test]
fn join_directional_renders_fails_when_the_block_does_not_fit() {
    let tall = || Image::from_raw(0, 3_000_000_000, vec![]).unwrap();
    let direction = |d: u32| DirectionalAnimation { direction: d, frames: vec![], start_x_px: 0, start_y_px: 0 };
    let renders = vec![(direction(0), tall()), (direction(1), tall())];
    assert_eq!(join_directional_renders("walk".to_string(), renders), Err(SheetError::TooLarge));
}

#[test]
fn execute_groups_frames_by_direction() {
    let imgs = vec![
        (img("walk", 0, 0), solid(2, 2, RED)),
        (img("walk", 0, 1), solid(3, 1, GREEN)),
        (img("walk", 2, 0), solid(1, 1, RED)),
    ];
    let (animation, block) = execute("walk".to_string(), imgs).unwrap();
    assert_eq!(animation.name, "walk");
    assert_eq!((animation.start_x_px, animation.start_y_px), (0, 0));
    assert_eq!(
        animation.directional_animations,
        vec![
            DirectionalAnimation {
                direction: 0,
                frames: vec![frame(2, 2, 0, 0, 0, 0), frame(3, 1, 0, 0, 2, 0)],
                start_x_px: 0,
                start_y_px: 0,
            },
            DirectionalAnimation { direction: 2, frames: vec![frame(1, 1, 0, 0, 0, 0)], start_x_px: 0, start_y_px: 2 },
        ]
    );
    assert_eq!(block, draw(&["##ggg", "##...", "#...."]));
}

#[test]
fn execute_keeps_directions_in_first_seen_order() {
    let imgs = vec![
        (img("walk", 5, 0), solid(1, 1, RED)),
        (img("walk", 1, 0), solid(1, 2, GREEN)),
        (img("walk", 5, 1), solid(1, 1, GREEN)),
    ];
    let (animation, block) = execute("walk".to_string(), imgs).unwrap();
    let directions: Vec<u32> = animation.directional_animations.iter().map(|d| d.direction).collect();
    assert_eq!(directions, vec![5, 1]);
    assert_eq!(animation.directional_animations[0].frames.len(), 2);
    assert_eq!(animation.directional_animations[1].start_y_px, 1);
    assert_eq!(block, draw(&["#g", "g.", "g."]));
}

#[test]
fn execute_of_no_frames_is_an_empty_block() {
    let (animation, block) = execute("idle".to_string(), vec![]).unwrap();
    assert_eq!(animation.name, "idle");
    assert!(animation.directional_animations.is_empty());
    assert_eq!((block.width(), block.height()), (0, 0));
}
