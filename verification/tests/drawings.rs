use gliss::midi::bender::{RenderPoint, RenderedBender};
use gliss::midi::drawing::{RenderedBenders, RENDER_WINDOW};

fn drawing(start_time: u64, channel: u8) -> RenderedBender {
    RenderedBender {
        bend: vec![RenderPoint { offset: 0, pitch: 0 }, RenderPoint { offset: 10, pitch: 8192 }],
        hold_pitch: 8192,
        start_time,
        bend_duration: 10,
        hold_duration: 5,
        channel,
    }
}

fn shape(kept: &RenderedBenders) -> Vec<(u64, Vec<u8>)> {
    kept.map
        .iter()
        .map(|(start_time, benders)| (*start_time, benders.iter().map(|b| b.channel).collect()))
        .collect()
}

#[test]
fn new_drawings_are_empty() {
    assert!(RenderedBenders::new().map.is_empty());
    assert!(RenderedBenders::default().map.is_empty());
}

#[test]
fn insert_keeps_by_start_time_in_ascending_order() {
    let mut kept = RenderedBenders::new();
    kept.insert(drawing(30, 2));
    kept.insert(drawing(10, 3));
    kept.insert(drawing(20, 4));
    kept.insert(drawing(10, 5));
    kept.insert(drawing(30, 6));
    kept.insert(drawing(u64::MAX, 7));
    kept.insert(drawing(0, 8));
    assert_eq!(
        shape(&kept),
        vec![
            (0, vec![8]),
            (10, vec![3, 5]),
            (20, vec![4]),
            (30, vec![2, 6]),
            (u64::MAX, vec![7]),
        ]
    );
}

#[test]
fn append_inserts_in_the_order_given() {
    let mut kept = RenderedBenders::new();
    kept.insert(drawing(10, 2));
    kept.append(vec![drawing(20, 3), drawing(10, 4), drawing(5, 5), drawing(20, 6)]);
    assert_eq!(shape(&kept), vec![(5, vec![5]), (10, vec![2, 4]), (20, vec![3, 6])]);
    kept.append(vec![]);
    assert_eq!(kept.map.len(), 3);
}

#[test]
fn retain_forgets_what_begins_beyond_the_window() {
    let mut kept = RenderedBenders::new();
    kept.append(vec![
        drawing(10, 2),
        drawing(100 + RENDER_WINDOW, 3),
        drawing(101 + RENDER_WINDOW, 4),
        drawing(u64::MAX, 5),
    ]);
    kept.retain(100);
    assert_eq!(shape(&kept), vec![(10, vec![2]), (100 + RENDER_WINDOW, vec![3])]);
    kept.retain(0);
    assert_eq!(shape(&kept), vec![(10, vec![2])]);
    kept.insert(drawing(u64::MAX, 6));
    kept.retain(u64::MAX - 1);
    assert_eq!(shape(&kept), vec![(10, vec![2]), (u64::MAX, vec![6])]);
}
