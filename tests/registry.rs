use turbo_audio::config::{EffectConfig, EffectConfigType, LedstripConfig, LedstripEffectConfig};
use turbo_audio::color::Color;
use turbo_audio::controller::{ConnectionKind, Controller, EffectKind, KindMismatch, TickJob};
use turbo_audio::ledstrip::LedStrip;

fn strip_with(size: usize, effects: &[(usize, usize)]) -> LedStrip {
    let mut s = LedStrip::new();
    s.set_led_count(size);
    for (id, n) in effects {
        assert!(s.add_effect(*id, *n));
    }
    s
}

fn one_strip_controller(kind: EffectKind) -> Controller {
    let mut c = Controller::new();
    c.add_connection(7, ConnectionKind::Tcp);
    c.add_settings(3, kind);
    assert!(c.add_effect(1, &String::from("/fx/solid.so"), kind));
    assert!(c.link_effect_to_settings(1, 3));
    c.add_led_strip(0, strip_with(3, &[(1, 3)]));
    assert!(c.link_led_strip_to_connection(0, 7));
    c
}

#[test]
fn solid_color_effect_frame() {
    let mut c = one_strip_controller(EffectKind::Native);
    assert_eq!(c.find_mismatch(), None);
    let jobs = c.update_led_strips();
    assert_eq!(
        jobs,
        vec![TickJob { strip_id: 0, effect_id: 1, settings_id: 3, first: 0, last: 2, kind: EffectKind::Native }]
    );
    let painted = vec![Color { r: 10, g: 20, b: 30 }; 3];
    assert!(c.write_strip_segment(0, jobs[0].first, &painted));
    let frames = c.send_ledstrip_colors();
    assert_eq!(frames.len(), 1);
    assert_eq!(frames[0].strip_id, 0);
    assert_eq!(frames[0].connection_id, 7);
    assert_eq!(frames[0].bytes, vec![0x0A, 0x14, 0x1E, 0x0A, 0x14, 0x1E, 0x0A, 0x14, 0x1E]);
}

#[test]
fn silent_strip_sends_black() {
    let mut c = one_strip_controller(EffectKind::Native);
    let frames = c.send_ledstrip_colors();
    assert_eq!(frames[0].bytes, vec![0; 9]);
}

#[test]
fn add_connection_twice_is_idempotent() {
    let mut c = one_strip_controller(EffectKind::Native);
    c.add_connection(7, ConnectionKind::Tcp);
    c.add_connection(7, ConnectionKind::Tcp);
    assert!(c.has_connection(7));
    assert_eq!(c.send_ledstrip_colors().len(), 1);
}

#[test]
fn links_need_their_target() {
    let mut c = Controller::new();
    assert!(!c.link_effect_to_settings(1, 9));
    assert!(!c.link_led_strip_to_connection(0, 9));
    c.add_settings(9, EffectKind::Lua);
    c.add_connection(9, ConnectionKind::Usb);
    assert!(c.link_effect_to_settings(1, 9));
    assert!(c.link_led_strip_to_connection(0, 9));
}

#[test]
fn effect_id_taken_is_refused() {
    let mut c = Controller::new();
    let p = String::from("/fx/a.lua");
    assert!(c.add_effect(4, &p, EffectKind::Lua));
    assert!(!c.add_effect(4, &String::from("/fx/b.lua"), EffectKind::Native));
    assert!(c.add_effect(5, &p, EffectKind::Lua));
    assert_eq!(c.effects_for_path(&p), vec![4, 5]);
    assert_eq!(c.effects_for_path(&String::from("/fx/b.lua")), Vec::<usize>::new());
}

#[test]
fn reload_family_by_kinds() {
    let mut c = Controller::new();
    assert!(c.add_effect(1, &String::from("/a"), EffectKind::Lua));
    assert!(c.add_effect(2, &String::from("/a"), EffectKind::Lua));
    assert!(c.add_effect(3, &String::from("/b"), EffectKind::Native));
    assert_eq!(c.reload_family(&vec![1, 2]), Some(EffectKind::Lua));
    assert_eq!(c.reload_family(&vec![3]), Some(EffectKind::Native));
    assert_eq!(c.reload_family(&vec![1, 3]), None);
    assert_eq!(c.reload_family(&vec![1, 99]), None);
}

#[test]
fn mismatched_kinds_fail() {
    let mut c = one_strip_controller(EffectKind::Native);
    c.add_settings(3, EffectKind::Lua);
    assert_eq!(c.find_mismatch(), Some(KindMismatch { strip_id: 0, effect_id: 1 }));
}

#[test]
fn missing_edges_are_skipped() {
    let mut c = Controller::new();
    c.add_settings(3, EffectKind::Lua);
    assert!(c.add_effect(1, &String::from("/a"), EffectKind::Lua));
    c.add_led_strip(0, strip_with(4, &[(1, 2), (2, 2)]));
    // effect 1 has no settings link, effect 2 does not exist
    assert_eq!(c.update_led_strips(), vec![]);
    assert!(c.link_effect_to_settings(1, 3));
    let jobs = c.update_led_strips();
    assert_eq!(jobs.len(), 1);
    assert_eq!((jobs[0].first, jobs[0].last), (0, 1));
}

#[test]
fn failed_send_evicts_connection() {
    let mut c = one_strip_controller(EffectKind::Native);
    c.add_led_strip(1, strip_with(2, &[]));
    assert!(c.link_led_strip_to_connection(1, 7));
    let frames = c.send_ledstrip_colors();
    assert_eq!(frames.iter().map(|f| f.strip_id).collect::<Vec<_>>(), vec![0, 1]);
    c.report_send_failure(0, 7);
    assert!(!c.has_connection(7));
    assert!(c.send_ledstrip_colors().is_empty());
}

#[test]
fn write_outside_strip_is_refused() {
    let mut c = one_strip_controller(EffectKind::Native);
    assert!(!c.write_strip_segment(0, 2, &vec![Color::new(); 2]));
    assert!(!c.write_strip_segment(5, 0, &vec![Color::new()]));
}

#[test]
fn reload_batches_group_by_path() {
    let mut c = Controller::new();
    let a = String::from("/fx/a.so");
    let b = String::from("/fx/b.lua");
    assert!(c.add_effect(1, &a, EffectKind::Native));
    assert!(c.add_effect(2, &a, EffectKind::Native));
    assert!(c.add_effect(3, &b, EffectKind::Lua));
    let batches = c.reload_batches(&vec![
        String::from("/fx/unrelated"),
        a.clone(),
        b.clone(),
        a.clone(),
    ]);
    assert_eq!(batches.len(), 2);
    assert_eq!(batches[0].path, a);
    assert_eq!(batches[0].effect_ids, vec![1, 2]);
    assert_eq!(batches[0].family, Some(EffectKind::Native));
    assert_eq!(batches[1].effect_ids, vec![3]);
    assert_eq!(batches[1].family, Some(EffectKind::Lua));
}

#[test]
fn mixed_families_are_not_reloaded() {
    let mut c = Controller::new();
    let p = String::from("/fx/both");
    assert!(c.add_effect(1, &p, EffectKind::Native));
    assert!(c.add_effect(2, &p, EffectKind::Lua));
    let batches = c.reload_batches(&vec![p.clone()]);
    assert_eq!(batches[0].family, None);
}

#[test]
fn loads_configured_strips() {
    let mut c = Controller::new();
    c.add_connection(2, ConnectionKind::Tcp);
    let ok = vec![LedstripConfig {
        id: 1,
        connection_id: 2,
        size: 4,
        effects: vec![LedstripEffectConfig { effect_id: 9, effect_size: 4 }],
    }];
    assert!(c.load_strips(&ok).is_ok());
    let frames = c.send_ledstrip_colors();
    assert_eq!(frames.len(), 1);
    assert_eq!(frames[0].bytes.len(), 12);
    let unbound = vec![LedstripConfig { id: 3, connection_id: 5, size: 1, effects: vec![] }];
    assert!(c.load_strips(&unbound).is_err());
    let too_big = vec![LedstripConfig {
        id: 4,
        connection_id: 2,
        size: 1,
        effects: vec![LedstripEffectConfig { effect_id: 9, effect_size: 2 }],
    }];
    assert!(c.load_strips(&too_big).is_err());
}

#[test]
fn links_configured_effects() {
    let mut c = Controller::new();
    c.add_settings(1, EffectKind::Lua);
    let good = vec![EffectConfig { effect_id: 4, settings_id: 1, effect: EffectConfigType::Lua(String::from("a.lua")) }];
    assert!(c.link_effects(&good).is_ok());
    let bad = vec![EffectConfig { effect_id: 5, settings_id: 2, effect: EffectConfigType::Native(String::from("b.so")) }];
    assert!(c.link_effects(&bad).is_err());
}
