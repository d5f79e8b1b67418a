use sprite_sheet::error::SheetError;
use sprite_sheet::internal_sheet;
use sprite_sheet::save::{map_animations, map_directional_animations, map_frames, map_internal_to_external, Ctx};
use sprite_sheet::sheet::{Frame, Normalized};

fn part(width_px: u32, height_px: u32, offset_x_px: u32, offset_y_px: u32) -> internal_sheet::Frame {
    internal_sheet::Frame { width_px, height_px, offset_x_px, offset_y_px, start_x_px: 0, start_y_px: 0 }
}

fn direction(direction: u32, frames: Vec<internal_sheet::Frame>) -> internal_sheet::DirectionalAnimation {
    internal_sheet::DirectionalAnimation { direction, frames, start_x_px: 0, start_y_px: 0 }
}

fn across(px: u32) -> Normalized {
    Normalized { px, of_px: 40 }
}

fn down(px: u32) -> Normalized {
    Normalized { px, of_px: 50 }
}

fn sample_sheet() -> internal_sheet::SpriteSheet {
    internal_sheet::SpriteSheet {
        image_png_bytes: vec![1, 2, 3, 4, 5],
        width_px: 40,
        height_px: 50,
        animations: vec![
            internal_sheet::Animation {
                name: "walk".to_string(),
                start_x_px: 0,
                start_y_px: 0,
                directional_animations: vec![
                    direction(0, vec![part(10, 8, 1, 2), part(12, 6, 3, 4)]),
                    direction(4, vec![part(5, 5, 0, 0)]),
                ],
            },
            internal_sheet::Animation {
                name: "idle".to_string(),
                start_x_px: 0,
                start_y_px: 13,
                directional_animations: vec![direction(1, vec![part(40, 37, 9, 9)])],
            },
        ],
    }
}

#[test]
fn map_frames_lays_frames_out_from_the_start() {
    let ctx = Ctx { sheet_w_px: 40, sheet_h_px: 50 };
    let frames = map_frames(&ctx, 3, 7, &vec![part(10, 8, 1, 2), part(12, 6, 3, 4), part(1, 1, 0, 0)]).unwrap();
    assert_eq!(
        frames,
        vec![
            Frame::new(10, 8, across(10), down(8), 1, 2, across(1), down(2), 3, 7, across(3), down(7)),
            Frame::new(12, 6, across(12), down(6), 3, 4, across(3), down(4), 13, 7, across(13), down(7)),
            Frame::new(1, 1, across(1), down(1), 0, 0, across(0), down(0), 25, 7, across(25), down(7)),
        ]
    );
}

#[test]
fn map_frames_fails_beyond_u32() {
    let ctx = Ctx { sheet_w_px: 40, sheet_h_px: 50 };
    assert_eq!(map_frames(&ctx, 4_294_967_290, 0, &vec![part(5, 1, 0, 0), part(1, 1, 0, 0)]), None);
    assert!(map_frames(&ctx, 4_294_967_290, 0, &vec![part(5, 1, 0, 0)]).is_some());
    assert!(map_frames(&ctx, 4_294_967_295, 0, &vec![]).is_some());
}

#[test]
fn map_directional_animations_stacks_strips() {
    let ctx = Ctx { sheet_w_px: 40, sheet_h_px: 50 };
    let sheet = sample_sheet();
    let directions = map_directional_animations(&ctx, 0, 20, &sheet.animations[0]).unwrap();
    assert_eq!(directions.len(), 2);
    assert_eq!(directions[0].direction(), 0);
    assert_eq!((directions[0].start_x_px(), directions[0].start_y_px()), (0, 20));
    assert_eq!(directions[0].start_y_normalized(), down(20));
    assert_eq!(directions[1].direction(), 4);
    assert_eq!((directions[1].start_x_px(), directions[1].start_y_px()), (0, 28));
    assert_eq!(directions[1].start_x_normalized(), across(0));
    assert_eq!(directions[1].start_y_normalized(), down(28));
    assert_eq!(directions[1].frames()[0].start_y_px(), 28);
}

#[test]
fn map_directional_animations_fails_beyond_u32() {
    let ctx = Ctx { sheet_w_px: 40, sheet_h_px: 50 };
    let sheet = sample_sheet();
    assert!(map_directional_animations(&ctx, 0, 4_294_967_290, &sheet.animations[0]).is_none());
    assert!(map_directional_animations(&ctx, 4_294_967_290, 0, &sheet.animations[0]).is_none());
    assert!(map_directional_animations(&ctx, 4_294_967_273, 4_294_967_282, &sheet.animations[0]).is_some());
}

#[test]
fn map_animations_keeps_names_and_starts() {
    let animations = map_animations(&sample_sheet()).unwrap();
    assert_eq!(animations.len(), 2);
    assert_eq!(animations[0].name(), "walk");
    assert_eq!((animations[0].start_x_px(), animations[0].start_y_px()), (0, 0));
    assert_eq!(animations[1].name(), "idle");
    assert_eq!((animations[1].start_x_px(), animations[1].start_y_px()), (0, 13));
    assert_eq!(animations[1].start_x_normalized(), across(0));
    assert_eq!(animations[1].start_y_normalized(), down(13));
}

#[test]
fn map_internal_to_external_gives_every_place_on_the_sheet() {
    let sheet = map_internal_to_external(sample_sheet()).unwrap();
    assert_eq!(sheet.width_px(), 40);
    assert_eq!(sheet.height_px(), 50);
    assert_eq!(sheet.png_bytes(), vec![1, 2, 3, 4, 5]);
    assert_eq!(sheet.image_png_bytes_b64(), "AQIDBAU=");

    let walk = sheet.animation("walk").unwrap();
    assert_eq!(walk.directions().len(), 2);
    let first = walk.direction(0).unwrap();
    assert_eq!(first.direction(), 0);
    assert_eq!(
        first.frames(),
        &vec![
            Frame::new(10, 8, across(10), down(8), 1, 2, across(1), down(2), 0, 0, across(0), down(0)),
            Frame::new(12, 6, across(12), down(6), 3, 4, across(3), down(4), 10, 0, across(10), down(0)),
        ]
    );
    let second = walk.direction(1).unwrap();
    assert_eq!(second.direction(), 4);
    assert_eq!((second.start_x_px(), second.start_y_px()), (0, 8));
    assert_eq!(
        second.frames(),
        &vec![Frame::new(5, 5, across(5), down(5), 0, 0, across(0), down(0), 0, 8, across(0), down(8))]
    );

    let idle = sheet.animation("idle").unwrap();
    assert_eq!((idle.start_x_px(), idle.start_y_px()), (0, 13));
    let only = idle.direction(0).unwrap();
    assert_eq!(only.direction(), 1);
    assert_eq!((only.start_x_px(), only.start_y_px()), (0, 13));
    assert_eq!(
        only.frames(),
        &vec![Frame::new(40, 37, across(40), down(37), 9, 9, across(9), down(9), 0, 13, across(0), down(13))]
    );
}

#[test]
fn map_internal_to_external_keeps_frames_on_a_packed_sheet() {
    let sheet = map_internal_to_external(sample_sheet()).unwrap();
    let mut last_animation: Option<u32> = None;
    for animation in sheet.animations() {
        if let Some(previous) = last_animation {
            assert!(previous < animation.start_y_px());
        }
        last_animation = Some(animation.start_y_px());
        let mut last_direction: Option<u32> = None;
        for direction in animation.directions() {
            if let Some(previous) = last_direction {
                assert!(previous < direction.start_y_px());
            }
            last_direction = Some(direction.start_y_px());
            let mut last_frame: Option<u32> = None;
            for frame in direction.frames() {
                if let Some(previous) = last_frame {
                    assert!(previous < frame.start_x_px());
                }
                last_frame = Some(frame.start_x_px());
                assert!(frame.start_x_px() + frame.width_px() <= sheet.width_px());
                assert!(frame.start_y_px() + frame.height_px() <= sheet.height_px());
                assert_eq!(frame.start_x_normalized(), Normalized { px: frame.start_x_px(), of_px: sheet.width_px() });
                assert_eq!(frame.start_y_normalized(), Normalized { px: frame.start_y_px(), of_px: sheet.height_px() });
                assert_eq!(frame.width_normalized(), Normalized { px: frame.width_px(), of_px: sheet.width_px() });
                assert_eq!(frame.height_normalized(), Normalized { px: frame.height_px(), of_px: sheet.height_px() });
                assert_eq!(frame.offset_x_normalized(), Normalized { px: frame.offset_x_px(), of_px: sheet.width_px() });
                assert_eq!(frame.offset_y_normalized(), Normalized { px: frame.offset_y_px(), of_px: sheet.height_px() });
            }
        }
    }
}

#[test]
fn map_internal_to_external_fails_beyond_u32() {
    let mut sheet = sample_sheet();
    sheet.animations[1].start_y_px = 4_294_967_290;
    assert_eq!(map_internal_to_external(sheet), Err(SheetError::TooLarge));
    let mut sheet = sample_sheet();
    sheet.animations[0].start_x_px = 4_294_967_290;
    assert_eq!(map_internal_to_external(sheet), Err(SheetError::TooLarge));
}

#[test]
fn map_internal_to_external_of_an_empty_sheet() {
    let empty = internal_sheet::SpriteSheet { image_png_bytes: vec![], width_px: 0, height_px: 0, animations: vec![] };
    let sheet = map_internal_to_external(empty).unwrap();
    assert_eq!((sheet.width_px(), sheet.height_px()), (0, 0));
    assert!(sheet.animations().is_empty());
    assert_eq!(sheet.image_png_bytes_b64(), "");
    assert!(sheet.png_bytes().is_empty());
}
