use drey::json::Json;
use drey::shim::{start_failed, Waiting};
use drey::status::{gc_line, status_lines};

#[test]
fn pauses_double_up_to_the_longest_until_the_deadline() {
    let mut w = Waiting::new(1_000);
    let mut pauses = Vec::new();
    for now in [1_000, 1_020, 1_060, 1_140, 1_300, 1_620, 2_020] {
        pauses.push(w.next(now).unwrap());
    }
    assert_eq!(pauses, [20, 40, 80, 160, 320, 400, 400]);
    assert_eq!(w.next(10_999), Some(400));
    assert_eq!(w.next(11_000), None);
    assert_eq!(
        start_failed("/r/daemon.log"),
        "daemon did not come up within 10s; see /r/daemon.log"
    );
}

#[test]
fn status_is_a_table() {
    let reply = Json::parse_text(
        "[{ \"server\": \"rust-analyzer\", \"pid\": 41022, \"clients\": 3, \"open_docs\": 7, \
           \"dirty_docs\": 0, \"swaps\": 0, \"uptime_secs\": 412, \"private\": false, \
           \"roots\": [\"/Users/you/Projects/platform\"] }, \
          { \"server\": \"a-server-with-a-long-name\", \"private\": true, \
            \"roots\": [\"/a\", 1, \"/b\"] }]",
    )
    .unwrap();
    assert_eq!(
        status_lines(&reply),
        [
            "SERVER               PID  CLIENTS   DOCS  DIRTY  SWAPS   UPTIME  ROOTS",
            "rust-analyzer      41022        3      7      0      0     412s  /Users/you/Projects/platform",
            "a-server-with-a-long-name       0        0      0      0      0       0s  /a, , /b  (forked)",
        ]
    );
}

#[test]
fn an_empty_status_says_so() {
    assert_eq!(status_lines(&Json::Array(Vec::new())), ["no backends running"]);
    assert_eq!(status_lines(&Json::Null), ["no backends running"]);
}

#[test]
fn a_sweep_says_how_many_it_released() {
    let reply = Json::object().with("released", Json::unsigned(2));
    assert_eq!(gc_line(&reply), "released 2 backend(s)");
    assert_eq!(gc_line(&Json::Null), "released null backend(s)");
}
