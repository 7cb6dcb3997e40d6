use std::collections::HashSet;

use drey::config::{Config, DaemonConfig, ServerConfig};
use drey::daemon::backend::{Backend, BackendKey, SharedDoc};
use drey::daemon::registry::{Attachment, Registry, SECOND};
use drey::daemon::Control;
use drey::json::Json;
use drey::text::Text;

fn registry(idle_timeout_secs: u64, max_backends: usize) -> Registry {
    let server = ServerConfig {
        command: "mock".to_string(),
        args: Vec::new(),
        env: Vec::new(),
        root_markers: Vec::new(),
    };
    Registry::new(Config {
        server: vec![("mock".to_string(), server)],
        daemon: DaemonConfig { idle_timeout_secs, max_backends },
    })
}

fn key(roots: &[&str]) -> BackendKey {
    let made = roots.iter().map(|r| format!("/t/{r}")).collect();
    BackendKey::new("mock", made, None)
}

/// Attaches as the daemon does, and gives the handle; a server that has to be started gets
/// the next handle, which is also its process id.
fn attach(reg: &mut Registry, key: BackendKey, next: &mut u64) -> u64 {
    match reg.attach(&key).unwrap() {
        Attachment::Existing(handle) => handle,
        Attachment::Spawn(cfg) => {
            assert_eq!(cfg.command, "mock");
            *next += 1;
            reg.adopt(Backend::new(*next, key, None, Json::Null, *next as u32, *next));
            *next
        }
    }
}

#[test]
fn a_second_client_inside_the_same_workspace_reuses_the_process() {
    let (mut reg, mut next) = (registry(600, 0), 0);
    let first = attach(&mut reg, key(&["w"]), &mut next);
    let second = attach(&mut reg, key(&["w/crates/a"]), &mut next);
    assert_eq!(first, second);
    assert_eq!(reg.list(0).len(), 1);
}

#[test]
fn a_client_outside_the_indexed_roots_gets_its_own_process() {
    let (mut reg, mut next) = (registry(600, 0), 0);
    let first = attach(&mut reg, key(&["w"]), &mut next);
    let other = attach(&mut reg, key(&["elsewhere"]), &mut next);
    assert_ne!(first, other);
    assert_eq!(reg.list(0).len(), 2);
}

#[test]
fn the_tightest_matching_backend_wins() {
    let (mut reg, mut next) = (registry(600, 0), 0);
    let tight = attach(&mut reg, key(&["w"]), &mut next);
    // A wider request cannot reuse the narrow backend, so it spawns.
    let wide = attach(&mut reg, key(&["w", "x", "y"]), &mut next);
    assert_ne!(tight, wide);
    // Both cover /w now; the narrower one is preferred.
    assert_eq!(attach(&mut reg, key(&["w"]), &mut next), tight);
    assert_eq!(attach(&mut reg, key(&["x"]), &mut next), wide);
    // Nor does it matter which of them stands first.
    reg.backends.reverse();
    assert_eq!(attach(&mut reg, key(&["w"]), &mut next), tight);
}

#[test]
fn a_forked_backend_is_private_and_never_shared() {
    let (mut reg, mut next) = (registry(600, 0), 0);
    let shared = attach(&mut reg, key(&["w"]), &mut next);
    assert_eq!(reg.fork(&key(&["w"])).unwrap().command, "mock");
    reg.adopt(Backend::new(50, key(&["w"]), Some(7), Json::Null, 50, 0));
    assert_eq!(reg.backends[1].private_to, Some(7));

    assert_eq!(attach(&mut reg, key(&["w"]), &mut next), shared);
    assert_eq!(reg.list(0).iter().filter(|b| b.private).count(), 1);
}

#[test]
fn an_unknown_server_name_fails_before_anything_is_spawned() {
    let reg = registry(600, 0);
    let bogus = BackendKey::new("nonesuch", vec!["/w".into()], None);
    let err = match reg.attach(&bogus) {
        Err(e) => e,
        Ok(_) => panic!("an unknown server was started"),
    };
    assert_eq!(err.name, "nonesuch");
    assert_eq!(err.known, ["mock"]);
    assert!(reg.fork(&bogus).is_err());
    assert!(reg.list(0).is_empty());
}

#[test]
fn a_dead_backend_is_not_shared() {
    let (mut reg, mut next) = (registry(600, 0), 0);
    let first = attach(&mut reg, key(&["w"]), &mut next);
    reg.backends[0].mark_dead();
    assert_ne!(attach(&mut reg, key(&["w"]), &mut next), first);
}

#[test]
fn gc_releases_a_backend_no_one_is_using() {
    let (mut reg, mut next) = (registry(0, 0), 0);
    attach(&mut reg, key(&["w"]), &mut next);
    // A fresh backend is idle from birth; a zero timeout makes it due.
    let gone = reg.gc(20_000_000);
    assert_eq!(gone.len(), 1);
    let told: Vec<String> = gone[0].farewell.iter().map(|v| v.text()).collect();
    assert_eq!(
        told,
        [
            "{\"id\":\"drey/0\",\"jsonrpc\":\"2.0\",\"method\":\"shutdown\",\"params\":null}",
            "{\"jsonrpc\":\"2.0\",\"method\":\"exit\",\"params\":null}"
        ]
    );
    assert!(reg.list(0).is_empty());
}

#[test]
fn gc_keeps_a_backend_that_still_has_a_client() {
    let (mut reg, mut next) = (registry(0, 0), 0);
    attach(&mut reg, key(&["w"]), &mut next);
    reg.backends[0].state.clients.push(1);
    reg.backends[0].idle_since = None;
    assert_eq!(reg.gc(20_000_000).len(), 0);
    assert_eq!(reg.list(0).len(), 1);
}

#[test]
fn gc_keeps_a_backend_that_is_still_within_its_idle_window() {
    let (mut reg, mut next) = (registry(600, 0), 0);
    attach(&mut reg, key(&["w"]), &mut next);
    assert_eq!(reg.gc(1).len(), 0);
    assert_eq!(reg.gc(1 + 600 * SECOND).len(), 0);
    assert_eq!(reg.gc(2 + 600 * SECOND).len(), 1);
}

#[test]
fn gc_drops_the_dead_without_a_word_and_keeps_the_rest_in_order() {
    let (mut reg, mut next) = (registry(600, 0), 0);
    for root in ["a", "b", "c"] {
        attach(&mut reg, key(&[root]), &mut next);
    }
    reg.backends[1].mark_dead();
    let gone = reg.gc(5);
    assert_eq!(gone.len(), 1);
    assert_eq!(gone[0].backend.handle, 2);
    assert!(gone[0].farewell.is_empty());
    let left: Vec<u64> = reg.backends.iter().map(|b| b.handle).collect();
    assert_eq!(left, [1, 3]);
}

#[test]
fn max_backends_evicts_the_idle_ones_as_new_ones_arrive() {
    let (mut reg, mut next) = (registry(600, 2), 0);
    for root in ["a", "b", "c", "d"] {
        attach(&mut reg, key(&[root]), &mut next);
    }
    assert_eq!(reg.list(0).len(), 2);
    // The longest idle went first.
    let left: Vec<u64> = reg.backends.iter().map(|b| b.handle).collect();
    assert_eq!(left, [3, 4]);
}

#[test]
fn the_cap_yields_rather_than_evict_a_backend_with_clients() {
    let (mut reg, mut next) = (registry(600, 1), 0);
    attach(&mut reg, key(&["a"]), &mut next);
    reg.backends[0].state.clients.push(1);
    reg.backends[0].idle_since = None;

    let new = Backend::new(9, key(&["b"]), None, Json::Null, 9, 0);
    let gone = reg.adopt(new);
    assert_eq!(gone.len(), 1);
    assert_eq!(gone[0].backend.handle, 9);
    assert_eq!(
        gone[0].farewell[0].text(),
        "{\"jsonrpc\":\"2.0\",\"method\":\"exit\",\"params\":null}"
    );
    assert_eq!(gone[0].farewell.len(), 1);
    let live = reg.list(0);
    assert_eq!(live.len(), 1);
    assert_eq!(live[0].clients, 1);
}

#[test]
fn status_reports_what_the_backend_is_holding() {
    let (mut reg, mut next) = (registry(600, 0), 0);
    attach(&mut reg, key(&["w"]), &mut next);
    reg.backends[0].state.docs.push((
        "file:///w/a.rs".to_string(),
        SharedDoc {
            base: Text::new("a".into()),
            loaded: Text::new("a-edited".into()),
            version: 2,
            refs: HashSet::from([1u64]),
        },
    ));
    reg.backends[0].state.generation = 3;

    let info = &reg.list(1 + 5 * SECOND)[0];
    assert_eq!(info.server, "mock");
    assert_eq!(info.roots, ["/t/w"]);
    assert_eq!(info.open_docs, 1);
    assert_eq!(info.dirty_docs, 1);
    assert_eq!(info.swaps, 3);
    assert!(!info.private && !info.dead);
    assert!(info.pid > 0);
    assert_eq!(info.uptime_secs, 5);
    assert_eq!(info.clients, 0);
}

#[test]
fn shutdown_all_empties_the_pool() {
    let (mut reg, mut next) = (registry(600, 0), 0);
    attach(&mut reg, key(&["a"]), &mut next);
    attach(&mut reg, key(&["b"]), &mut next);
    let gone = reg.shutdown_all();
    assert_eq!(gone.len(), 2);
    assert!(gone.iter().all(|e| e.farewell.len() == 2));
    assert_eq!(gone[0].backend.handle, 1);
    assert!(reg.list(0).is_empty());
    assert!(reg.position(1).is_none());
}

#[test]
fn control_questions_are_answered_in_json() {
    let (mut reg, mut next) = (registry(0, 0), 0);
    attach(&mut reg, key(&["w", "a"]), &mut next);
    let status = reg.control(Control::Status, 1 + 2 * SECOND);
    assert_eq!(
        status.reply.text(),
        "[{\"clients\":0,\"dead\":false,\"dirty_docs\":0,\"open_docs\":0,\"pid\":1,\
          \"private\":false,\"roots\":[\"/t/a\",\"/t/w\"],\"server\":\"mock\",\
          \"swaps\":0,\"uptime_secs\":2}]"
    );
    assert!(status.evicted.is_empty() && !status.stop);
    assert_eq!(reg.backends.len(), 1);

    let swept = reg.control(Control::Gc, 5);
    assert_eq!(swept.reply.text(), "{\"released\":1}");
    assert_eq!(swept.evicted.len(), 1);
    assert!(!swept.stop && reg.backends.is_empty());

    attach(&mut reg, key(&["w"]), &mut next);
    let stopped = reg.control(Control::Stop, 5);
    assert_eq!(stopped.reply.text(), "{\"stopped\":true}");
    assert_eq!(stopped.evicted.len(), 1);
    assert!(stopped.stop && reg.backends.is_empty());
}
