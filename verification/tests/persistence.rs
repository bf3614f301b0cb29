use propagation::persistence::{
    add_virtual_endpoint, remove_virtual_endpoint, ConnectionConfig, EndpointType,
    VirtualEndpointConfig,
};

#[test]
fn connection_config_default() {
    let c = ConnectionConfig::default();
    assert_eq!(c.input, "");
    assert_eq!(c.output, "");
    assert!(!c.muted);
}

#[test]
fn add_endpoint_with_name() {
    let mut list: Vec<VirtualEndpointConfig> = Vec::new();
    let mut name = "Stream mix".to_string();
    assert!(add_virtual_endpoint(&mut list, &mut name, 2, EndpointType::Playback));
    assert_eq!(name, "");
    assert_eq!(list.len(), 1);
    assert_eq!(list[0].name, "Stream mix");
    assert_eq!(list[0].channels, 2);
    assert_eq!(list[0].kind, EndpointType::Playback);
}

#[test]
fn add_endpoint_without_name_does_nothing() {
    let mut list: Vec<VirtualEndpointConfig> = Vec::new();
    let mut name = String::new();
    assert!(!add_virtual_endpoint(&mut list, &mut name, 6, EndpointType::Recording));
    assert!(list.is_empty());
}

#[test]
fn remove_endpoint_at_index() {
    let mut list: Vec<VirtualEndpointConfig> = Vec::new();
    for n in ["a", "b", "c"] {
        let mut name = n.to_string();
        add_virtual_endpoint(&mut list, &mut name, 1, EndpointType::Recording);
    }
    remove_virtual_endpoint(&mut list, 1);
    let names: Vec<&str> = list.iter().map(|e| e.name.as_str()).collect();
    assert_eq!(names, vec!["a", "c"]);
}
