use propagation::persistence::ConnectionConfig;
use propagation::routing::{RouteError, Router};

fn router_with(inputs: &[&str], outputs: &[&str]) -> Router {
    let mut r = Router::new();
    for i in inputs {
        assert!(r.add_input(i));
    }
    for o in outputs {
        assert!(r.add_output(o));
    }
    r
}

fn sorted_connections(r: &Router) -> Vec<(String, String, bool)> {
    let mut v: Vec<(String, String, bool)> = r
        .get_all_connections()
        .into_iter()
        .map(|c| (c.input, c.output, c.muted))
        .collect();
    v.sort();
    v
}

#[test]
fn new_router_is_empty() {
    let r = Router::new();
    assert!(!r.has_input("mic"));
    assert!(!r.has_output("speakers"));
    assert!(!r.is_connected("mic", "speakers"));
    assert!(!r.is_muted("mic", "speakers"));
    assert!(r.get_all_connections().is_empty());
}

#[test]
fn add_stream_twice_reports_once() {
    let mut r = Router::new();
    assert!(r.add_input("mic"));
    assert!(!r.add_input("mic"));
    assert!(r.has_input("mic"));
    assert!(!r.has_output("mic"));
    assert!(r.add_output("mic"));
    assert!(r.has_output("mic"));
}

#[test]
fn connect_then_is_connected() {
    let mut r = router_with(&["mic"], &["speakers"]);
    assert_eq!(r.connect("mic", "speakers"), Ok(true));
    assert!(r.is_connected("mic", "speakers"));
    assert!(!r.is_connected("speakers", "mic"));
    assert!(!r.is_muted("mic", "speakers"));
}

#[test]
fn connect_twice_is_connect_once() {
    let mut r = router_with(&["mic"], &["speakers"]);
    assert_eq!(r.connect("mic", "speakers"), Ok(true));
    r.set_muted("mic", "speakers", true);
    assert_eq!(r.connect("mic", "speakers"), Ok(false));
    assert!(r.is_muted("mic", "speakers"));
    assert_eq!(r.get_all_connections().len(), 1);
}

#[test]
fn connect_needs_active_input() {
    let mut r = router_with(&[], &["speakers"]);
    assert_eq!(r.connect("mic", "speakers"), Err(RouteError::InputNotActive));
    assert_eq!(RouteError::InputNotActive.message(), "Input init failed");
    assert!(!r.is_connected("mic", "speakers"));
}

#[test]
fn connect_needs_active_output() {
    let mut r = router_with(&["mic"], &[]);
    assert_eq!(r.connect("mic", "speakers"), Err(RouteError::OutputNotActive));
    assert_eq!(RouteError::OutputNotActive.message(), "Output init failed");
    assert!(r.get_all_connections().is_empty());
}

#[test]
fn missing_input_reported_before_missing_output() {
    let mut r = Router::new();
    assert_eq!(r.connect("mic", "speakers"), Err(RouteError::InputNotActive));
}

#[test]
fn disconnect_undoes_connect() {
    let mut r = router_with(&["mic", "line"], &["speakers", "phones"]);
    assert_eq!(r.connect("line", "phones"), Ok(true));
    let before = sorted_connections(&r);
    assert_eq!(r.connect("mic", "speakers"), Ok(true));
    r.disconnect("mic", "speakers");
    assert!(!r.is_connected("mic", "speakers"));
    assert!(!r.is_muted("mic", "speakers"));
    assert_eq!(sorted_connections(&r), before);
    assert!(r.has_input("mic"));
    assert!(r.has_output("speakers"));
}

#[test]
fn disconnect_unknown_pair_changes_nothing() {
    let mut r = router_with(&["mic"], &["speakers"]);
    assert_eq!(r.connect("mic", "speakers"), Ok(true));
    r.disconnect("mic", "phones");
    r.disconnect("ghost", "speakers");
    assert!(r.is_connected("mic", "speakers"));
}

#[test]
fn set_muted_then_is_muted() {
    let mut r = router_with(&["mic"], &["speakers", "phones"]);
    assert_eq!(r.connect("mic", "speakers"), Ok(true));
    assert_eq!(r.connect("mic", "phones"), Ok(true));
    r.set_muted("mic", "speakers", true);
    assert!(r.is_muted("mic", "speakers"));
    assert!(!r.is_muted("mic", "phones"));
    r.set_muted("mic", "speakers", false);
    assert!(!r.is_muted("mic", "speakers"));
}

#[test]
fn set_muted_without_link_does_nothing() {
    let mut r = router_with(&["mic"], &["speakers"]);
    r.set_muted("mic", "speakers", true);
    assert!(!r.is_connected("mic", "speakers"));
    assert!(!r.is_muted("mic", "speakers"));
    assert_eq!(r.connect("mic", "speakers"), Ok(true));
    assert!(!r.is_muted("mic", "speakers"));
}

#[test]
fn all_connections_lists_each_link_once() {
    let mut r = router_with(&["mic", "line"], &["speakers", "phones"]);
    assert_eq!(r.connect("mic", "speakers"), Ok(true));
    assert_eq!(r.connect("line", "speakers"), Ok(true));
    assert_eq!(r.connect("mic", "phones"), Ok(true));
    r.set_muted("line", "speakers", true);
    assert_eq!(
        sorted_connections(&r),
        vec![
            ("line".to_string(), "speakers".to_string(), true),
            ("mic".to_string(), "phones".to_string(), false),
            ("mic".to_string(), "speakers".to_string(), false),
        ]
    );
}

#[test]
fn restore_rebuilds_routes() {
    let mut r = router_with(&["mic", "line"], &["speakers", "phones"]);
    assert_eq!(r.connect("mic", "speakers"), Ok(true));
    assert_eq!(r.connect("line", "phones"), Ok(true));
    r.set_muted("mic", "speakers", true);
    let saved: Vec<ConnectionConfig> = r.get_all_connections();

    let mut restored = router_with(&["mic", "line"], &["speakers", "phones"]);
    for c in &saved {
        if restored.connect(&c.input, &c.output).is_ok() && c.muted {
            restored.set_muted(&c.input, &c.output, true);
        }
    }
    assert_eq!(sorted_connections(&restored), sorted_connections(&r));
}

#[test]
fn clear_drops_everything() {
    let mut r = router_with(&["mic"], &["speakers"]);
    assert_eq!(r.connect("mic", "speakers"), Ok(true));
    r.clear();
    assert!(!r.has_input("mic"));
    assert!(!r.has_output("speakers"));
    assert!(!r.is_connected("mic", "speakers"));
    assert!(r.get_all_connections().is_empty());
}

#[test]
fn switch_to_same_host_keeps_links() {
    let mut r = router_with(&["mic"], &["speakers"]);
    assert_eq!(r.connect("mic", "speakers"), Ok(true));
    assert!(!r.switch_host("Alsa", "Alsa"));
    assert!(r.is_connected("mic", "speakers"));
}

#[test]
fn switch_to_other_host_drops_links() {
    let mut r = router_with(&["mic"], &["speakers"]);
    assert_eq!(r.connect("mic", "speakers"), Ok(true));
    assert!(r.switch_host("Alsa", "Jack"));
    assert!(!r.is_connected("mic", "speakers"));
    assert!(!r.has_input("mic"));
    assert!(!r.has_output("speakers"));
}
