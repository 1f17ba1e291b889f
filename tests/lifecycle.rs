use turbo_audio::device_link::{
    advance, next_action, start, LinkAction, LinkEvent, LinkExit, LinkState, CONNECT_ATTEMPTS,
};
use turbo_audio::plugin_host::{HostAction, PluginHost};

#[test]
fn drop_ordering() {
    let mut host = PluginHost::new();
    let path = String::from("/fx/solid.so");
    let (lib, needs_load) = host.acquire(&path);
    assert!(needs_load);
    let inst = host.create_instance(lib);
    let mut events = host.destroy_instance(inst);
    events.extend(host.shutdown());
    assert_eq!(
        events,
        vec![HostAction::Destroy { library: lib, instance: inst }, HostAction::Unload { library: lib }]
    );
}

#[test]
fn library_is_shared_per_path() {
    let mut host = PluginHost::new();
    let path = String::from("/fx/a.so");
    let (lib, first) = host.acquire(&path);
    let (again, second) = host.acquire(&path);
    assert!(first);
    assert!(!second);
    assert_eq!(lib, again);
    let (other, third) = host.acquire(&String::from("/fx/b.so"));
    assert!(third);
    assert_ne!(other, lib);
}

#[test]
fn hot_swap_unloads_once_after_destroys() {
    let mut host = PluginHost::new();
    let path = String::from("/fx/fx.so");
    let (v1, _) = host.acquire(&path);
    let a = host.create_instance(v1);
    let b = host.create_instance(v1);
    let acts = host.begin_reload(&path);
    assert_eq!(
        acts,
        vec![
            HostAction::Destroy { library: v1, instance: a },
            HostAction::Destroy { library: v1, instance: b },
            HostAction::Unload { library: v1 },
        ]
    );
    let (v2, needs_load) = host.acquire(&path);
    assert!(needs_load);
    assert_ne!(v2, v1);
    let c = host.create_instance(v2);
    assert_eq!(
        host.shutdown(),
        vec![HostAction::Destroy { library: v2, instance: c }, HostAction::Unload { library: v2 }]
    );
}

#[test]
fn reload_leaves_other_paths_alone() {
    let mut host = PluginHost::new();
    let (a, _) = host.acquire(&String::from("/a.so"));
    let (b, _) = host.acquire(&String::from("/b.so"));
    let ia = host.create_instance(a);
    let ib = host.create_instance(b);
    let acts = host.begin_reload(&String::from("/a.so"));
    assert_eq!(
        acts,
        vec![HostAction::Destroy { library: a, instance: ia }, HostAction::Unload { library: a }]
    );
    assert_eq!(host.destroy_instance(ib), vec![HostAction::Destroy { library: b, instance: ib }]);
    assert_eq!(host.destroy_instance(ib), vec![]);
}

#[test]
fn failed_load_is_forgotten_without_unload() {
    let mut host = PluginHost::new();
    let path = String::from("/broken.so");
    let (lib, needs_load) = host.acquire(&path);
    assert!(needs_load);
    host.forget(lib);
    let (again, needs_again) = host.acquire(&path);
    assert!(needs_again);
    assert_ne!(again, lib);
    assert_eq!(host.shutdown(), vec![HostAction::Unload { library: again }]);
}

#[test]
fn reconnect_gives_up_after_twenty_attempts() {
    let mut s = start();
    let mut attempts = 0;
    while next_action(s, false) == LinkAction::Connect {
        attempts += 1;
        s = advance(s, LinkEvent::ConnectFailed);
    }
    assert_eq!(attempts, 20);
    assert_eq!(CONNECT_ATTEMPTS, 20);
    assert_eq!(next_action(s, false), LinkAction::Exit(LinkExit::Unreachable { after_loss: false }));
}

#[test]
fn write_failure_reconnects() {
    let mut s = start();
    assert_eq!(next_action(s, false), LinkAction::Connect);
    s = advance(s, LinkEvent::Connected);
    assert_eq!(next_action(s, false), LinkAction::SendNext);
    s = advance(s, LinkEvent::Sent);
    assert_eq!(s, LinkState::Sending);
    s = advance(s, LinkEvent::WriteFailed);
    assert_eq!(s, LinkState::Connecting { failures: 0, after_loss: true });
    assert_eq!(next_action(s, false), LinkAction::Connect);
    for _ in 0..20 {
        s = advance(s, LinkEvent::ConnectFailed);
    }
    assert_eq!(next_action(s, false), LinkAction::Exit(LinkExit::Unreachable { after_loss: true }));
}

#[test]
fn quit_and_close_stop_the_worker() {
    let s = start();
    assert_eq!(next_action(s, true), LinkAction::Exit(LinkExit::EarlyQuit));
    let sending = advance(s, LinkEvent::Connected);
    let done = advance(sending, LinkEvent::QueueClosed);
    assert_eq!(next_action(done, false), LinkAction::Exit(LinkExit::Closed));
    let bad = advance(s, LinkEvent::ConfigureFailed);
    assert_eq!(
        next_action(bad, false),
        LinkAction::Exit(LinkExit::ConfigurationFailed { after_loss: false })
    );
}

#[test]
fn drop_after_release_destroys_then_unloads() {
    let mut host = PluginHost::new();
    let path = String::from("/fx/solid.so");
    let (lib, needs_load) = host.acquire(&path);
    assert!(needs_load);
    let inst = host.create_instance(lib);
    assert_eq!(host.release_path(&path), vec![]);
    assert_eq!(
        host.destroy_instance(inst),
        vec![HostAction::Destroy { library: lib, instance: inst }, HostAction::Unload { library: lib }]
    );
    assert_eq!(host.shutdown(), vec![]);
}

#[test]
fn release_without_instances_unloads_at_once() {
    let mut host = PluginHost::new();
    let path = String::from("/fx/idle.so");
    let (lib, _) = host.acquire(&path);
    assert_eq!(host.release_path(&path), vec![HostAction::Unload { library: lib }]);
    assert_eq!(host.release_path(&path), vec![]);
    let (again, needs_load) = host.acquire(&path);
    assert!(needs_load);
    assert_ne!(again, lib);
}

#[test]
fn released_library_stays_for_its_other_instances() {
    let mut host = PluginHost::new();
    let path = String::from("/fx/two.so");
    let (lib, _) = host.acquire(&path);
    let a = host.create_instance(lib);
    let b = host.create_instance(lib);
    assert_eq!(host.release_path(&path), vec![]);
    assert_eq!(host.destroy_instance(a), vec![HostAction::Destroy { library: lib, instance: a }]);
    assert_eq!(
        host.destroy_instance(b),
        vec![HostAction::Destroy { library: lib, instance: b }, HostAction::Unload { library: lib }]
    );
}
