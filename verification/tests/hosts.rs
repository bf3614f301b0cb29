use propagation::hosts::{preferred_host, saved_host};

fn names(v: &[&str]) -> Vec<String> {
    v.iter().map(|s| s.to_string()).collect()
}

#[test]
fn preferred_host_picks_first_asio() {
    assert_eq!(preferred_host(&names(&["Wasapi", "Asio", "AsioTwo"])), Some(1));
    assert_eq!(preferred_host(&names(&["MyAsioHost"])), Some(0));
}

#[test]
fn preferred_host_none_without_asio() {
    assert_eq!(preferred_host(&names(&["Alsa", "Jack"])), None);
    assert_eq!(preferred_host(&names(&[])), None);
    assert_eq!(preferred_host(&names(&["asio"])), None);
}

#[test]
fn saved_host_exact_name() {
    let hosts = names(&["Alsa", "Jack", "Alsa"]);
    assert_eq!(saved_host(&hosts, &Some("Jack".to_string())), Some(1));
    assert_eq!(saved_host(&hosts, &Some("Alsa".to_string())), Some(0));
    assert_eq!(saved_host(&hosts, &Some("jack".to_string())), None);
    assert_eq!(saved_host(&hosts, &Some("Jac".to_string())), None);
}

#[test]
fn saved_host_absent_or_empty() {
    let hosts = names(&["", "Alsa"]);
    assert_eq!(saved_host(&hosts, &None), None);
    assert_eq!(saved_host(&hosts, &Some(String::new())), None);
}
