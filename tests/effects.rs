use turbo_audio::color::Color;
use turbo_audio::lua::{script_colors, LuaEffectsManager};
use turbo_audio::pacing::{TickPacer, TICK_NS};
use turbo_audio::raindrop::{
    drop_raindrops, spread_ripples, update_moody, update_raindrop, RaindropState, RipleDirection,
};

#[test]
fn search_path_appends_package_root() {
    let m = LuaEffectsManager::new(String::from("lua"));
    assert_eq!(m.search_path(&b"./?.lua".to_vec()), b"./?.lua;lua/?.lua".to_vec());
    let slash = LuaEffectsManager::new(String::from("/root/fx/"));
    assert_eq!(slash.search_path(&vec![]), b";/root/fx/?.lua".to_vec());
    assert_eq!(slash.root(), &String::from("/root/fx/"));
}

#[test]
fn script_file_change_keeps_root() {
    let mut m = LuaEffectsManager::new(String::from("lua"));
    m.on_file_changed(&String::from("lua/fx.lua"));
    assert_eq!(m.root(), &String::from("lua"));
}

#[test]
fn script_colors_need_three_bytes_each() {
    assert_eq!(
        script_colors(&vec![1, 2, 3, 4, 5, 6], 2).ok(),
        Some(vec![Color { r: 1, g: 2, b: 3 }, Color { r: 4, g: 5, b: 6 }])
    );
    assert!(script_colors(&vec![1, 2, 3, 4], 2).is_err());
}

#[test]
fn pacer_sleeps_the_rest_of_the_period() {
    let mut p = TickPacer::new();
    assert_eq!(p.begin_tick(0), TICK_NS as u64);
    p.end_tick();
    assert_eq!(p.lag_ns(), -TICK_NS);
    let sleep = p.begin_tick(TICK_NS as u64 + 1_000_000);
    assert_eq!(sleep, TICK_NS as u64 - 1_000_000);
    p.end_tick();
    assert_eq!(p.lag_ns(), 1_000_000 - TICK_NS);
}

#[test]
fn pacer_catches_up_after_overrun() {
    let mut p = TickPacer::new();
    assert_eq!(p.begin_tick(3 * TICK_NS as u64), 0);
    p.end_tick();
    assert_eq!(p.lag_ns(), 2 * TICK_NS);
    assert_eq!(p.begin_tick(0), 0);
    p.end_tick();
    assert_eq!(p.begin_tick(0), 0);
    p.end_tick();
    assert_eq!(p.lag_ns(), 0);
    assert_eq!(p.begin_tick(0), TICK_NS as u64);
}

#[test]
fn ripples_move_and_fade() {
    let mut leds = vec![Color { r: 9, g: 9, b: 9 }; 4];
    let mut state = RaindropState {
        riples: vec![
            (1, Color { r: 100, g: 8, b: 4 }, RipleDirection::Right),
            (0, Color { r: 100, g: 100, b: 100 }, RipleDirection::Left),
            (3, Color { r: 100, g: 100, b: 100 }, RipleDirection::Right),
        ],
    };
    spread_ripples(&mut leds, &mut state);
    assert_eq!(leds[2], Color { r: 75, g: 6, b: 3 });
    assert_eq!(leds[0], Color::new());
    assert_eq!(state.riples, vec![(2, Color { r: 75, g: 6, b: 3 }, RipleDirection::Right)]);
}

#[test]
fn drops_paint_and_start_two_ripples() {
    let mut leds = vec![Color::new(); 3];
    let mut state = RaindropState { riples: vec![] };
    drop_raindrops(&mut leds, &mut state, &vec![(1, 0), (2, 3)]);
    assert_eq!(leds[1], Color { r: 255, g: 0, b: 255 });
    assert_eq!(leds[2], Color { r: 255, g: 255, b: 255 });
    assert_eq!(state.riples.len(), 4);
    assert_eq!(state.riples[1], (1, Color { r: 255, g: 0, b: 255 }, RipleDirection::Right));
}

#[test]
fn rain_adds_two_ripples_per_drop() {
    let mut leds = vec![Color::new(); 5];
    let mut state = RaindropState { riples: vec![] };
    update_raindrop(&mut leds, 3, true, &mut state);
    assert_eq!(state.riples.len(), 6);
    assert!(state.riples.iter().all(|r| r.0 < 5));
    update_raindrop(&mut leds, 3, false, &mut state);
    assert!(state.riples.len() <= 6);
}

#[test]
fn moody_paints_everything() {
    let mut leds = vec![Color::new(); 3];
    update_moody(&mut leds, Color { r: 1, g: 2, b: 3 });
    assert_eq!(leds, vec![Color { r: 1, g: 2, b: 3 }; 3]);
}

#[test]
fn pacer_stays_within_one_period_when_work_is_short() {
    let mut p = TickPacer::new();
    let mut elapsed: i64 = 0;
    let mut sleep: i64 = 0;
    for tick in 0..100i64 {
        let work = (tick * 7_919_993) % TICK_NS;
        let measured = sleep + work;
        elapsed += measured;
        sleep = p.begin_tick(measured as u64) as i64;
        p.end_tick();
        assert!(p.lag_ns() >= -TICK_NS && p.lag_ns() <= 0);
        assert!(((tick + 1) * TICK_NS - elapsed).abs() <= TICK_NS);
    }
}
