use turbo_audio::color::{pack_colors, unpack_colors, Color};
use turbo_audio::config::{build_strip, LedstripConfig, LedstripEffectConfig};
use turbo_audio::ledstrip::LedStrip;

fn strip_of(size: usize) -> LedStrip {
    let mut s = LedStrip::new();
    s.set_led_count(size);
    s
}

#[test]
fn segment_overflow_rejection() {
    let mut s = strip_of(10);
    assert!(s.add_effect(1, 7));
    assert!(!s.add_effect(2, 4));
    assert!(s.add_effect(3, 3));
    assert_eq!(s.effects().clone(), vec![(1, (0, 6)), (3, (7, 9))]);
    assert_eq!(s.used_led_count(), 10);
}

#[test]
fn overflowing_add_leaves_strip_unchanged() {
    let mut s = strip_of(5);
    assert!(s.add_effect(1, 2));
    let before = s.effects().clone();
    assert!(!s.add_effect(2, 4));
    assert_eq!(s.effects().clone(), before);
    assert_eq!(s.used_led_count(), 2);
    assert_eq!(s.size(), 5);
}

#[test]
fn resize_twice_is_noop() {
    let mut s = strip_of(10);
    assert!(s.add_effect(1, 4));
    assert!(s.add_effect(2, 6));
    s.set_led_count(6);
    let effects = s.effects().clone();
    let colors = s.colors().clone();
    s.set_led_count(6);
    assert_eq!(s.effects().clone(), effects);
    assert_eq!(s.colors().clone(), colors);
    assert_eq!(effects, vec![(1, (0, 3))]);
}

#[test]
fn resize_pads_with_black_and_cuts() {
    let mut s = strip_of(2);
    assert_eq!(s.colors().len(), 2);
    s.write_segment(0, &vec![Color { r: 1, g: 2, b: 3 }, Color { r: 4, g: 5, b: 6 }]);
    s.set_led_count(4);
    assert_eq!(s.colors()[1], Color { r: 4, g: 5, b: 6 });
    assert_eq!(s.colors()[3], Color::new());
    s.set_led_count(1);
    assert_eq!(s.colors().clone(), vec![Color { r: 1, g: 2, b: 3 }]);
}

#[test]
fn segments_fit_and_do_not_overlap() {
    let mut s = strip_of(12);
    assert!(s.add_effect(1, 5));
    assert!(s.add_effect(2, 5));
    assert!(!s.add_effect(3, 5));
    let segs = s.effects().clone();
    let total: usize = segs.iter().map(|(_, (a, b))| b + 1 - a).sum();
    assert!(total <= s.size());
    for i in 0..segs.len() {
        for j in 0..segs.len() {
            if i != j {
                let (a, b) = segs[i].1;
                let (c, d) = segs[j].1;
                assert!(b < c || d < a);
            }
        }
    }
}

#[test]
fn segment_colors_copies_the_range() {
    let mut s = strip_of(4);
    s.write_segment(1, &vec![Color { r: 9, g: 9, b: 9 }, Color { r: 7, g: 7, b: 7 }]);
    assert_eq!(
        s.segment_colors(1, 2),
        vec![Color { r: 9, g: 9, b: 9 }, Color { r: 7, g: 7, b: 7 }]
    );
    assert_eq!(s.segment_colors(0, 0), vec![Color::new()]);
}

#[test]
fn packs_three_bytes_per_led() {
    let c = Color { r: 10, g: 20, b: 30 };
    assert_eq!(
        pack_colors(&vec![c, c, c]),
        vec![0x0A, 0x14, 0x1E, 0x0A, 0x14, 0x1E, 0x0A, 0x14, 0x1E]
    );
    assert_eq!(pack_colors(&vec![]), Vec::<u8>::new());
}

#[test]
fn unpack_reads_back_what_pack_wrote() {
    let colors = vec![Color { r: 1, g: 2, b: 3 }, Color { r: 250, g: 0, b: 7 }];
    let bytes = pack_colors(&colors);
    assert_eq!(unpack_colors(&bytes, 2), Some(colors));
    assert_eq!(unpack_colors(&bytes, 1), None);
    assert_eq!(unpack_colors(&vec![1, 2], 1), None);
    assert_eq!(unpack_colors(&vec![], 0), Some(vec![]));
}

#[test]
fn color_add_saturates() {
    let mut c = Color { r: 200, g: 10, b: 255 };
    c.add(&Color { r: 100, g: 20, b: 1 });
    assert_eq!(c, Color { r: 255, g: 30, b: 255 });
}

#[test]
fn builds_strip_from_config() {
    let cfg = LedstripConfig {
        id: 1,
        connection_id: 2,
        size: 10,
        effects: vec![
            LedstripEffectConfig { effect_id: 5, effect_size: 4 },
            LedstripEffectConfig { effect_id: 6, effect_size: 6 },
        ],
    };
    let s = build_strip(&cfg).unwrap();
    assert_eq!(s.size(), 10);
    assert_eq!(s.effects().clone(), vec![(5, (0, 3)), (6, (4, 9))]);
}

#[test]
fn refuses_config_that_overflows() {
    let cfg = LedstripConfig {
        id: 1,
        connection_id: 2,
        size: 3,
        effects: vec![
            LedstripEffectConfig { effect_id: 5, effect_size: 2 },
            LedstripEffectConfig { effect_id: 6, effect_size: 2 },
        ],
    };
    assert!(build_strip(&cfg).is_none());
    let empty_first = LedstripConfig {
        id: 1,
        connection_id: 2,
        size: 3,
        effects: vec![LedstripEffectConfig { effect_id: 5, effect_size: 0 }],
    };
    assert!(build_strip(&empty_first).is_none());
}
