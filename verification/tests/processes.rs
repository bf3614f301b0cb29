use propagation::processes::{app_input_label, sort_by_name, ProcessEntry};

fn entry(pid: u32, name: &str) -> ProcessEntry {
    ProcessEntry { pid, name: name.to_string() }
}

fn pids(v: &[ProcessEntry]) -> Vec<u32> {
    v.iter().map(|p| p.pid).collect()
}

#[test]
fn sort_ignores_case() {
    // byte order would put "B" before "a"
    let sorted = sort_by_name(vec![entry(1, "B"), entry(2, "a")]);
    assert_eq!(pids(&sorted), vec![2, 1]);
}

#[test]
fn sort_keeps_order_of_equal_names() {
    let sorted = sort_by_name(vec![
        entry(5, "zoom"),
        entry(3, "Chrome"),
        entry(9, "chrome"),
        entry(1, "CHROME"),
        entry(2, "audacity"),
    ]);
    assert_eq!(pids(&sorted), vec![2, 3, 9, 1, 5]);
    assert_eq!(sorted[1].name, "Chrome");
}

#[test]
fn sort_empty_and_single() {
    assert!(sort_by_name(Vec::new()).is_empty());
    assert_eq!(pids(&sort_by_name(vec![entry(4, "x")])), vec![4]);
}

#[test]
fn app_label_format() {
    assert_eq!(app_input_label(&entry(1234, "firefox")), "[App] firefox (1234)");
    assert_eq!(app_input_label(&entry(0, "")), "[App]  (0)");
}

