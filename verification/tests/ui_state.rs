use taskman::window_state::position_fields;

#[test]
fn position_format_allows_negative_monitor_coordinates() {
    let text = "position=-1920.5,42\n";
    let value = text.lines().find_map(|line| line.strip_prefix("position=")).unwrap();
    let (x, y) = value.split_once(',').unwrap();
    assert_eq!(x.parse::<f32>().unwrap(), -1920.5);
    assert_eq!(y.parse::<f32>().unwrap(), 42.0);
}

fn fields(text: &str) -> Option<(String, String)> {
    position_fields(text)
}

#[test]
fn the_position_line_splits_into_two_coordinates() {
    assert_eq!(fields("position=-1920.5,42\n"), Some(("-1920.5".into(), "42".into())));
    assert_eq!(
        fields("# Native window placement.\r\n  position= 10 , 20 \r\n"),
        Some(("10".into(), "20".into())),
        "the line and both sides are trimmed"
    );
    assert_eq!(fields("size=1,2\nposition=3,4,5"), Some(("3".into(), "4,5".into())), "split at the first comma");
    assert_eq!(fields("position=3;4"), None, "no comma, no position");
    assert_eq!(fields("x position=1,2"), None);
    assert_eq!(fields(""), None);
    assert_eq!(fields("position=1,2\nposition=5,6"), Some(("1".into(), "2".into())), "the first line wins");
}
