use propagation::devices::{find_named, named_devices, refreshed_inputs};
use propagation::processes::ProcessEntry;

fn entry(pid: u32, name: &str) -> ProcessEntry {
    ProcessEntry { pid, name: name.to_string() }
}

#[test]
fn refreshed_inputs_uses_listing() {
    let procs = vec![entry(7, "obs")];
    let r = refreshed_inputs(
        vec!["old".to_string()],
        Some(vec!["mic".to_string(), "line".to_string()]),
        &procs,
    );
    assert_eq!(r, vec!["mic".to_string(), "line".to_string(), "[App] obs (7)".to_string()]);
}

#[test]
fn refreshed_inputs_keeps_rows_when_listing_fails() {
    let procs = vec![entry(7, "obs"), entry(8, "vlc")];
    let r = refreshed_inputs(vec!["mic".to_string()], None, &procs);
    assert_eq!(
        r,
        vec!["mic".to_string(), "[App] obs (7)".to_string(), "[App] vlc (8)".to_string()]
    );
}

#[test]
fn named_devices_skips_unreadable() {
    let r = named_devices(vec![Some("mic".to_string()), None, Some("line".to_string()), None]);
    assert_eq!(r, vec!["mic".to_string(), "line".to_string()]);
    assert!(named_devices(vec![None]).is_empty());
}

#[test]
fn find_named_first_readable_match() {
    let names = vec![None, Some("line".to_string()), Some("mic".to_string()), Some("mic".to_string())];
    assert_eq!(find_named(&names, "mic"), Some(2));
    assert_eq!(find_named(&names, "line"), Some(1));
    assert_eq!(find_named(&names, "Mic"), None);
    assert_eq!(find_named(&Vec::new(), "mic"), None);
}
