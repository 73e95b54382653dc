use wcloud::layout::{next_attempt, Attempt};
use nanorand::WyRand;
use wcloud::{check_font_size, initial_font_size, plan_layout, scale_font_size, LayoutConfig, LayoutError, Occupancy, PlacedWord};

fn config() -> LayoutConfig {
    LayoutConfig {
        min_font_size: 4,
        max_font_size: None,
        font_step: 1,
        word_margin: 2,
        word_rotate_percent: 10,
        relative_font_scaling_percent: 50,
        repeat: false,
    }
}

fn words(list: &[(&str, u64)]) -> Vec<(String, u64)> {
    list.iter().map(|(w, c)| (w.to_string(), *c)).collect()
}

fn run(list: &[(String, u64)], seed: u64) -> Vec<PlacedWord> {
    let canvas = Occupancy::new(100, 100).unwrap();
    let mut rng = WyRand::new_seed(seed);
    let lens: Vec<u32> = list.iter().map(|(w, _)| w.chars().count() as u32).collect();
    let list = list.to_vec();
    plan_layout(&list, canvas, None, &config(), &mut rng, move |i: usize, s: u32| (s * lens[i] / 2, s)).unwrap()
}

fn disjoint(a: &PlacedWord, b: &PlacedWord) -> bool {
    a.position.x + a.rect.width <= b.position.x
        || b.position.x + b.rect.width <= a.position.x
        || a.position.y + a.rect.height <= b.position.y
        || b.position.y + b.rect.height <= a.position.y
}

#[test]
fn font_size_decay_steps() {
    assert_eq!(check_font_size(10, 3, 4), Some(7));
    assert_eq!(check_font_size(7, 3, 4), Some(4));
    assert_eq!(check_font_size(6, 3, 4), None);
    assert_eq!(check_font_size(2, 3, 0), None);
    assert_eq!(check_font_size(3, 3, 0), None);
}

#[test]
fn relative_scaling_formula() {
    assert_eq!(scale_font_size(100, 50, 1, 2), 75);
    assert_eq!(scale_font_size(100, 100, 1, 4), 25);
    assert_eq!(scale_font_size(100, 0, 1, 4), 100);
    assert_eq!(scale_font_size(67, 50, 2, 2), 67);
}

#[test]
fn cat_and_dog() {
    let list = words(&[("cat", 2), ("dog", 1)]);
    let placed = run(&list, 42);
    assert_eq!(placed.len(), 2);
    assert_eq!(placed[0].text, "cat");
    assert_eq!(placed[1].text, "dog");
    assert!(placed[0].font_size >= placed[1].font_size);
    assert!(disjoint(&placed[0], &placed[1]));
    assert_eq!(placed[0].index, 0);
    assert_eq!(placed[1].index, 1);
}

#[test]
fn same_seed_same_layout() {
    let list = words(&[("alpha", 5), ("beta", 4), ("gamma", 3), ("delta", 3), ("epsilon", 1)]);
    let a = run(&list, 9);
    let b = run(&list, 9);
    assert_eq!(a, b);
    assert!(!a.is_empty());
}

#[test]
fn one_word_at_most() {
    let list = words(&[
        ("a1", 10), ("b2", 9), ("c3", 8), ("d4", 7), ("e5", 6), ("f6", 5), ("g7", 4), ("h8", 3), ("i9", 2), ("j0", 1),
    ]);
    let ranked = wcloud::rank::rank_words(&list, 1);
    assert_eq!(ranked.len(), 1);
    let placed = run(&ranked, 3);
    assert!(placed.len() <= 1);
}

#[test]
fn placed_words_never_overlap() {
    let list = words(&[("one", 9), ("two", 8), ("three", 7), ("four", 6), ("five", 5), ("six", 4), ("seven", 3)]);
    let placed = run(&list, 11);
    for a in 0..placed.len() {
        for b in a + 1..placed.len() {
            assert!(disjoint(&placed[a], &placed[b]));
            assert!(placed[a].font_size >= placed[b].font_size);
            assert!(placed[a].rank < placed[b].rank);
        }
    }
}

#[test]
fn empty_list_is_an_error() {
    let canvas = Occupancy::new(10, 10).unwrap();
    let mut rng = WyRand::new_seed(1);
    let r = plan_layout(&Vec::new(), canvas, None, &config(), &mut rng, |_: usize, s: u32| (s, s));
    assert_eq!(r, Err(LayoutError::NoWords));
}

#[test]
fn mask_background_is_never_covered() {
    let (w, h) = (40u32, 40u32);
    let mut pixels = vec![255u8; (w * h) as usize];
    for y in 10..30 {
        for x in 5..35 {
            pixels[(y * w + x) as usize] = 0;
        }
    }
    let skip = wcloud::create_mask_skip_list(&pixels, w as usize);
    let canvas = Occupancy::from_mask(w, h, &pixels).unwrap();
    let mut rng = WyRand::new_seed(5);
    let list = words(&[("ab", 3), ("cd", 2), ("ef", 1)]);
    let placed = plan_layout(&list, canvas, Some(&skip), &config(), &mut rng, |_: usize, s: u32| (s, s)).unwrap();
    assert!(!placed.is_empty());
    for p in &placed {
        for y in p.position.y + 1..=p.position.y + p.rect.height {
            for x in p.position.x + 1..=p.position.x + p.rect.width {
                assert_eq!(pixels[(y * w + x) as usize], 0);
            }
        }
    }
}

#[test]
fn starting_size_heuristic() {
    assert_eq!(initial_font_size(100, 100, 84, 57, 10000, None), 67);
    assert_eq!(initial_font_size(100, 100, 84, 57, 10000, Some(50)), 50);
    assert_eq!(initial_font_size(100, 100, 84, 57, 5000, None), 33);
    assert_eq!(initial_font_size(100, 80, 0, 57, 8000, None), 80);
}

#[test]
fn rotation_follows_the_drawn_byte() {
    assert!(!wcloud::layout::initial_rotated(0, 0));
    assert!(wcloud::layout::initial_rotated(24, 10));
    assert!(!wcloud::layout::initial_rotated(25, 10));
    assert!(wcloud::layout::initial_rotated(255, 100));
}

#[test]
fn reservoir_step() {
    let a = wcloud::Point { x: 1, y: 1 };
    let b = wcloud::Point { x: 2, y: 3 };
    assert_eq!(wcloud::sat::reservoir_pick(None, 0, 0, a), Some(a));
    assert_eq!(wcloud::sat::reservoir_pick(Some(a), 3, 1, b), Some(a));
    assert_eq!(wcloud::sat::reservoir_pick(Some(a), 3, 3, b), Some(b));
}

#[test]
fn search_steps() {
    assert_eq!(next_attempt(10, 12, 1, 4, false, false, true, true), Attempt::Place);
    assert_eq!(
        next_attempt(10, 12, 2, 4, false, false, false, false),
        Attempt::Retry { size: 8, rotated: false, tried_other: false }
    );
    assert_eq!(next_attempt(4, 12, 1, 4, false, false, false, false), Attempt::GiveUp);
    assert_eq!(
        next_attempt(4, 12, 1, 4, true, false, true, false),
        Attempt::Retry { size: 12, rotated: false, tried_other: true }
    );
    assert_eq!(next_attempt(4, 12, 1, 4, false, true, true, false), Attempt::GiveUp);
}
