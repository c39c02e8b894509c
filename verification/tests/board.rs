use std::collections::hash_map::DefaultHasher;
use std::hash::{Hash, Hasher};

use scalarboard::board::{
    export_file_name, overview, sections, slider_width, Board, UiEffect, UiEvent, MAX_INTERVAL,
    MIN_INTERVAL,
};
use scalarboard::cache::SeriesCache;
use scalarboard::color::{color_for_hash, get_color_for_run, Channel};
use scalarboard::data::{ControlMsg, DataStore, ScalarPoint};
use scalarboard::export::{save_screenshot, screenshot_file};

fn reset_of(effect: &UiEffect) -> Option<u32> {
    match &effect.forward {
        Some(ControlMsg::ResetInterval(width)) => Some(*width),
        _ => None,
    }
}

#[test]
fn points_are_passed_on() {
    let mut board = Board::new();
    let effect = board.handle(UiEvent::PointReceived(ScalarPoint {
        run_name: "r".to_string(),
        tag: "t".to_string(),
        step: 3,
        value: 4,
    }));
    match effect.forward {
        Some(ControlMsg::NewPoint(p)) => {
            assert_eq!((p.run_name.as_str(), p.tag.as_str(), p.step, p.value), ("r", "t", 3, 4));
        }
        other => panic!("not passed on: {:?}", other),
    }
    assert!(effect.repaint && !effect.start_processing && effect.screenshot.is_none());
}

#[test]
fn a_busy_worker_keeps_the_window_alive() {
    let mut board = Board::new();
    assert!(board.handle(UiEvent::Busy(true)).repaint);
    assert!(!board.handle(UiEvent::Busy(false)).repaint);
}

#[test]
fn a_new_width_is_sent_when_the_slider_is_let_go() {
    let mut board = Board::new();
    assert_eq!(board.step_interval, 10_000);
    assert!(MIN_INTERVAL <= board.step_interval && board.step_interval <= MAX_INTERVAL);
    let still = board.handle(UiEvent::Slider {
        value: 10_000,
        changed: false,
        dragged: false,
        drag_stopped: false,
    });
    assert!(!still.repaint && still.forward.is_none());
    let moving = board.handle(UiEvent::Slider {
        value: 400,
        changed: true,
        dragged: true,
        drag_stopped: false,
    });
    assert!(moving.repaint && moving.forward.is_none() && !moving.start_processing);
    assert_eq!(board.step_interval, 400);
    let dropped = board.handle(UiEvent::Slider {
        value: 400,
        changed: false,
        dragged: false,
        drag_stopped: true,
    });
    assert!(dropped.repaint && dropped.start_processing);
    assert_eq!(reset_of(&dropped), Some(400));
}

#[test]
fn widths_stay_in_the_range_of_the_slider() {
    for (asked, kept) in [(0, 300), (299, 300), (300, 300), (5_000, 5_000), (100_000, 100_000)] {
        assert_eq!(slider_width(asked), kept);
        let mut board = Board::new();
        let effect = board.handle(UiEvent::Slider {
            value: asked,
            changed: true,
            dragged: false,
            drag_stopped: true,
        });
        assert_eq!(board.step_interval, kept);
        assert_eq!(reset_of(&effect), Some(kept));
    }
    assert_eq!(slider_width(u32::MAX), 100_000);
}

#[test]
fn a_tag_fills_the_window_until_back() {
    let mut board = Board::new();
    assert!(!board.handle(UiEvent::BackClicked).repaint);
    let opened = board.handle(UiEvent::ExpandClicked("train/loss".to_string()));
    assert!(!opened.repaint && opened.forward.is_none());
    assert_eq!(board.maximized_tag.as_deref(), Some("train/loss"));
    assert!(board.handle(UiEvent::BackClicked).repaint);
    assert!(board.maximized_tag.is_none());
    assert_eq!(board.step_interval, 10_000);
}

#[test]
fn exports_are_named_after_the_tag() {
    let mut board = Board::new();
    let nothing = board.handle(UiEvent::ExportClicked);
    assert!(nothing.screenshot.is_none() && !nothing.repaint);
    board.handle(UiEvent::ExpandClicked("train/loss/ß".to_string()));
    let effect = board.handle(UiEvent::ExportClicked);
    assert_eq!(effect.screenshot.as_deref(), Some("train_loss_ß.png"));
    assert!(effect.repaint);
    assert_eq!(export_file_name("//"), "__.png");
    assert_eq!(export_file_name(""), ".png");
    assert_eq!(screenshot_file(), "plot_export.png");
}

#[test]
fn tags_are_grouped_by_section() {
    let tags: Vec<String> = ["train/loss", "eval/reward", "train/acc", "lr", "eval/len"]
        .iter()
        .map(|t| t.to_string())
        .collect();
    let grouped = sections(&tags);
    let listed: Vec<(&str, Vec<&str>)> = grouped
        .entries
        .iter()
        .map(|(name, tags)| (name.as_str(), tags.iter().map(|t| t.as_str()).collect()))
        .collect();
    assert_eq!(
        listed,
        vec![
            ("eval", vec!["eval/reward", "eval/len"]),
            ("lr", vec!["lr"]),
            ("train", vec!["train/loss", "train/acc"]),
        ]
    );
}

#[test]
fn the_overview_lists_the_cache() {
    let mut cache = SeriesCache::new();
    for tag in ["b/x", "a/y", "b/z"] {
        cache.put(tag.to_string(), "r".to_string(), DataStore::fresh(false));
    }
    let grouped = overview(&cache);
    let names: Vec<&str> = grouped.entries.iter().map(|e| e.0.as_str()).collect();
    assert_eq!(names, vec!["a", "b"]);
    let mut last: Vec<String> = grouped.entries[1].1.clone();
    last.sort();
    assert_eq!(last, vec!["b/x", "b/z"]);
}

#[test]
fn hues_fall_into_six_sectors() {
    let (full, mid, least) = (Channel::Full, Channel::Between, Channel::Least);
    let table = [
        (0, full, mid, least),
        (59, full, mid, least),
        (60, mid, full, least),
        (120, least, full, mid),
        (180, least, mid, full),
        (240, mid, least, full),
        (300, full, least, mid),
        (359, full, least, mid),
    ];
    for (hue, red, green, blue) in table {
        for turns in [0u64, 1, 1_000_003] {
            let color = color_for_hash(turns * 360 + hue as u64);
            assert_eq!(color.hue, hue);
            assert_eq!((color.red, color.green, color.blue), (red, green, blue));
        }
    }
}

#[test]
fn sectors_agree_with_sixths_of_the_circle() {
    for hue in 0..360u64 {
        let h = hue as f32 / 360.0;
        let color = color_for_hash(hue);
        let full = if h < 1.0 / 6.0 || h >= 5.0 / 6.0 {
            color.red
        } else if h < 3.0 / 6.0 {
            color.green
        } else {
            color.blue
        };
        assert_eq!(full, Channel::Full);
        assert!(color.red != color.green && color.green != color.blue && color.red != color.blue);
    }
}

#[test]
fn a_run_keeps_its_color() {
    for name in ["", "PPO_1", "größe"] {
        let mut hasher = DefaultHasher::new();
        name.hash(&mut hasher);
        assert_eq!(get_color_for_run(name), color_for_hash(hasher.finish()));
        assert_eq!(get_color_for_run(name), get_color_for_run(name));
    }
}

#[test]
fn screenshots_need_four_bytes_a_pixel() {
    let bytes: Vec<u8> = (0..24).collect();
    let picture = save_screenshot(3, 2, bytes.clone()).unwrap();
    assert_eq!((picture.width, picture.height), (3, 2));
    assert_eq!(picture.bytes, bytes);
    assert!(save_screenshot(3, 3, bytes.clone()).is_none());
    assert!(save_screenshot(2, 2, bytes).is_some());
    assert!(save_screenshot(0, 0, Vec::new()).is_some());
    assert!(save_screenshot(u32::MAX as usize, u32::MAX as usize, Vec::new()).is_none());
}
