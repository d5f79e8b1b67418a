use sprite_sheet::raster::Image;
use sprite_sheet::source_imgs::{execute, rank_imgs, sort_imgs, ImgToRender, Rank};

fn img(animation: &str, direction: u32, frame: u32, path: &str) -> ImgToRender {
    ImgToRender { animation: animation.to_string(), direction, frame, path: path.to_string() }
}

fn blank() -> Image {
    Image::from_raw(0, 0, vec![]).unwrap()
}

fn keys(imgs: &[(ImgToRender, Image)]) -> Vec<ImgToRender> {
    imgs.iter().map(|pair| pair.0.clone()).collect()
}

#[test]
fn new_reads_animation_direction_and_frame() {
    let parsed = ImgToRender::new("walk_ESCAPED3_ESCAPED12.png", "/in/walk_ESCAPED3_ESCAPED12.png");
    assert_eq!(parsed, Some(img("walk", 3, 12, "/in/walk_ESCAPED3_ESCAPED12.png")));
}

#[test]
fn new_takes_the_animation_verbatim() {
    let parsed = ImgToRender::new("id le.v2-_x_ESCAPED0_ESCAPED1.png", "p");
    assert_eq!(parsed, Some(img("id le.v2-_x", 0, 1, "p")));
    let parsed = ImgToRender::new("läuft_ESCAPED2_ESCAPED0.png", "q");
    assert_eq!(parsed, Some(img("läuft", 2, 0, "q")));
}

#[test]
fn new_accepts_an_empty_animation() {
    assert_eq!(ImgToRender::new("_ESCAPED0_ESCAPED0.png", "p"), Some(img("", 0, 0, "p")));
}

#[test]
fn new_accepts_plus_sign_and_leading_zeros() {
    assert_eq!(ImgToRender::new("a_ESCAPED+7_ESCAPED007.png", "p"), Some(img("a", 7, 7, "p")));
}

#[test]
fn new_accepts_the_largest_number() {
    assert_eq!(
        ImgToRender::new("a_ESCAPED4294967295_ESCAPED0.png", "p"),
        Some(img("a", 4294967295, 0, "p"))
    );
}

#[test]
fn new_rejects_numbers_that_do_not_fit() {
    assert_eq!(ImgToRender::new("a_ESCAPED4294967296_ESCAPED0.png", "p"), None);
    assert_eq!(ImgToRender::new("a_ESCAPED0_ESCAPED99999999999999999999.png", "p"), None);
}

#[test]
fn new_rejects_other_extensions() {
    assert_eq!(ImgToRender::new("notes.txt", "p"), None);
    assert_eq!(ImgToRender::new("walk_ESCAPED0_ESCAPED0.jpg", "p"), None);
    assert_eq!(ImgToRender::new("walk_ESCAPED0_ESCAPED0.PNG", "p"), None);
    assert_eq!(ImgToRender::new("walk_ESCAPED0_ESCAPED0.png.bak", "p"), None);
    assert_eq!(ImgToRender::new("png", "p"), None);
    assert_eq!(ImgToRender::new("", "p"), None);
}

#[test]
fn new_rejects_wrong_token_counts() {
    assert_eq!(ImgToRender::new("walk.png", "p"), None);
    assert_eq!(ImgToRender::new("walk_ESCAPED0.png", "p"), None);
    assert_eq!(ImgToRender::new("walk_ESCAPED0_ESCAPED1_ESCAPED2.png", "p"), None);
    assert_eq!(ImgToRender::new("walk_0_1.png", "p"), None);
}

#[test]
fn new_rejects_tokens_that_are_not_numbers() {
    assert_eq!(ImgToRender::new("walk_ESCAPEDx_ESCAPED0.png", "p"), None);
    assert_eq!(ImgToRender::new("walk_ESCAPED0_ESCAPEDy.png", "p"), None);
    assert_eq!(ImgToRender::new("walk_ESCAPED_ESCAPED0.png", "p"), None);
    assert_eq!(ImgToRender::new("walk_ESCAPED0_ESCAPED.png", "p"), None);
    assert_eq!(ImgToRender::new("walk_ESCAPED-1_ESCAPED0.png", "p"), None);
    assert_eq!(ImgToRender::new("walk_ESCAPED+_ESCAPED0.png", "p"), None);
    assert_eq!(ImgToRender::new("walk_ESCAPED++1_ESCAPED0.png", "p"), None);
    assert_eq!(ImgToRender::new("walk_ESCAPED1 _ESCAPED0.png", "p"), None);
    assert_eq!(ImgToRender::new("walk_ESCAPED1.5_ESCAPED0.png", "p"), None);
}

#[test]
fn new_strips_only_the_ending() {
    assert_eq!(ImgToRender::new("a.png_ESCAPED0_ESCAPED1.png", "p"), Some(img("a.png", 0, 1, "p")));
}

#[test]
fn rank_orders_by_animation_first() {
    assert_eq!(rank_imgs(&img("a", 9, 9, "z"), &img("b", 0, 0, "a")), Rank::Before);
    assert_eq!(rank_imgs(&img("b", 0, 0, "a"), &img("a", 9, 9, "z")), Rank::After);
    assert_eq!(rank_imgs(&img("a", 0, 0, "a"), &img("ab", 0, 0, "a")), Rank::Before);
    assert_eq!(rank_imgs(&img("", 0, 0, "a"), &img("a", 0, 0, "a")), Rank::Before);
}

#[test]
fn rank_orders_by_direction_frame_and_path_next() {
    assert_eq!(rank_imgs(&img("a", 1, 9, "z"), &img("a", 2, 0, "a")), Rank::Before);
    assert_eq!(rank_imgs(&img("a", 1, 2, "z"), &img("a", 1, 10, "a")), Rank::Before);
    assert_eq!(rank_imgs(&img("a", 1, 2, "x/a"), &img("a", 1, 2, "y/a")), Rank::Before);
    assert_eq!(rank_imgs(&img("a", 1, 2, "y/a"), &img("a", 1, 2, "x/a")), Rank::After);
    assert_eq!(rank_imgs(&img("a", 1, 2, "x"), &img("a", 1, 2, "x")), Rank::Same);
}

#[test]
fn rank_agrees_with_the_order_of_strings() {
    let texts = ["", "a", "ab", "b", "B", "é", "z", "日本", "a\u{10000}", "a\u{ffff}"];
    for left in texts {
        for right in texts {
            let expected = match left.cmp(right) {
                std::cmp::Ordering::Less => Rank::Before,
                std::cmp::Ordering::Equal => Rank::Same,
                std::cmp::Ordering::Greater => Rank::After,
            };
            assert_eq!(rank_imgs(&img(left, 0, 0, ""), &img(right, 0, 0, "")), expected);
            assert_eq!(rank_imgs(&img("", 0, 0, left), &img("", 0, 0, right)), expected);
        }
    }
}

#[test]
fn sort_puts_frames_in_order() {
    let mut imgs = vec![
        (img("walk", 1, 0, "c"), blank()),
        (img("walk", 0, 10, "b"), blank()),
        (img("walk", 0, 2, "z"), blank()),
        (img("idle", 7, 7, "a"), blank()),
        (img("walk", 0, 2, "a"), blank()),
    ];
    sort_imgs(&mut imgs);
    assert_eq!(
        keys(&imgs),
        vec![
            img("idle", 7, 7, "a"),
            img("walk", 0, 2, "a"),
            img("walk", 0, 2, "z"),
            img("walk", 0, 10, "b"),
            img("walk", 1, 0, "c"),
        ]
    );
}

#[test]
fn sort_agrees_with_the_derived_order() {
    let mut imgs = vec![
        (img("b", 1, 0, "c"), blank()),
        (img("a", 3, 1, "b"), blank()),
        (img("a", 3, 0, "z"), blank()),
        (img("c", 0, 0, "a"), blank()),
        (img("a", 2, 9, "a"), blank()),
        (img("a", 3, 0, "y"), blank()),
    ];
    let mut expected = keys(&imgs);
    expected.sort();
    sort_imgs(&mut imgs);
    assert_eq!(keys(&imgs), expected);
}

#[test]
fn sort_of_nothing_and_of_one() {
    let mut none: Vec<(ImgToRender, Image)> = vec![];
    sort_imgs(&mut none);
    assert!(none.is_empty());
    let mut one = vec![(img("a", 0, 0, "p"), blank())];
    sort_imgs(&mut one);
    assert_eq!(keys(&one), vec![img("a", 0, 0, "p")]);
}

#[test]
fn execute_groups_by_animation_in_first_seen_order() {
    let imgs = vec![
        (img("walk", 1, 0, "walk/a"), blank()),
        (img("idle", 0, 1, "idle/b"), blank()),
        (img("walk", 0, 1, "walk/c"), blank()),
        (img("idle", 0, 0, "idle/d"), blank()),
        (img("walk", 0, 0, "walk/e"), blank()),
    ];
    let groups = execute(imgs);
    let entries = groups.iter();
    assert_eq!(entries.len(), 2);
    assert_eq!(entries[0].0, "walk");
    assert_eq!(
        keys(&entries[0].1),
        vec![img("walk", 0, 0, "walk/e"), img("walk", 0, 1, "walk/c"), img("walk", 1, 0, "walk/a")]
    );
    assert_eq!(entries[1].0, "idle");
    assert_eq!(keys(&entries[1].1), vec![img("idle", 0, 0, "idle/d"), img("idle", 0, 1, "idle/b")]);
}

#[test]
fn execute_keeps_each_image_with_its_frame() {
    let one = Image::from_raw(1, 1, vec![1, 2, 3, 4]).unwrap();
    let two = Image::from_raw(1, 1, vec![5, 6, 7, 8]).unwrap();
    let imgs = vec![(img("a", 0, 1, "late"), one.clone()), (img("a", 0, 0, "early"), two.clone())];
    let groups = execute(imgs);
    let entries = groups.iter();
    assert_eq!(entries.len(), 1);
    assert_eq!(entries[0].1, vec![(img("a", 0, 0, "early"), two), (img("a", 0, 1, "late"), one)]);
}

#[test]
fn execute_of_nothing_is_empty() {
    let groups = execute(vec![]);
    assert!(groups.iter().is_empty());
}

#[test]
fn sort_keeps_the_order_of_frames_that_rank_the_same() {
    let image = |n: u8| Image::from_raw(1, 1, vec![n, n, n, n]).unwrap();
    let mut imgs = vec![
        (img("a", 1, 0, "p"), image(1)),
        (img("a", 0, 0, "p"), image(2)),
        (img("a", 1, 0, "p"), image(3)),
        (img("a", 0, 0, "p"), image(4)),
        (img("a", 1, 0, "p"), image(5)),
    ];
    sort_imgs(&mut imgs);
    let order: Vec<u8> = imgs.iter().map(|pair| pair.1.as_raw()[0]).collect();
    assert_eq!(order, vec![2, 4, 1, 3, 5]);
}
