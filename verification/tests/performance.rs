use taskman::performance::{
    ResourceEntry, ResourceKind, WindowSpan, disk_subtitle, network_card, selected_key, window_span,
};

fn entry(kind: ResourceKind, key: &str) -> ResourceEntry {
    ResourceEntry {
        kind,
        key: key.to_string(),
        title: key.to_uppercase(),
        subtitle: String::new(),
        value_line: String::new(),
    }
}

#[test]
fn selection_follows_the_stable_key() {
    let entries = vec![entry(ResourceKind::Cpu, "cpu"), entry(ResourceKind::Disk, "C:")];
    assert_eq!(selected_key(&entries, "C:"), "C:");
    assert_eq!(selected_key(&entries, "D:"), "cpu", "a vanished device falls back to the first card");
    let reordered = vec![entry(ResourceKind::Disk, "C:"), entry(ResourceKind::Cpu, "cpu")];
    assert_eq!(selected_key(&reordered, "cpu"), "cpu");
    assert_eq!(selected_key(&[], "mem"), "cpu");
}

#[test]
fn window_label_formats_seconds_and_minutes() {
    assert_eq!(window_span(30), WindowSpan::Seconds(30));
    assert_eq!(window_span(60), WindowSpan::Minutes(1));
    assert_eq!(window_span(120), WindowSpan::Minutes(2));
    assert_eq!(window_span(59), WindowSpan::Seconds(59));
    assert_eq!(window_span(119), WindowSpan::Minutes(1));
}

#[test]
fn adapter_cards_name_the_kind_and_model() {
    assert!(network_card("lo", "Loopback", "").is_none(), "loopback gets no card");
    let wifi = network_card("wlan0", "Wi-Fi", "Intel AX210").unwrap();
    assert_eq!((wifi.title.as_str(), wifi.subtitle.as_str()), ("Wi-Fi", "Intel AX210"));
    let plain = network_card("eth0", "Ethernet", "").unwrap();
    assert_eq!((plain.title.as_str(), plain.subtitle.as_str()), ("Ethernet", "eth0"));
    let unknown = network_card("tun0", "", "").unwrap();
    assert_eq!((unknown.title.as_str(), unknown.subtitle.as_str()), ("tun0", ""));
    assert_eq!(disk_subtitle("SSD", "C:"), "SSD");
    assert_eq!(disk_subtitle("", "C:"), "C:");
}
