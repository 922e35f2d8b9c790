use rsstv::gui::RSSTV;

#[test]
fn default_state_has_no_image_and_half_volume() {
    let s = RSSTV::default();
    assert_eq!(s.image_path, None);
    assert_eq!(s.volume, 50);
}

#[test]
fn last_dropped_file_is_selected() {
    let mut s = RSSTV::default();
    s.take_dropped(&vec!["a.png".to_string(), "b.png".to_string()]);
    assert_eq!(s.image_path.as_deref(), Some("b.png"));
    s.take_dropped(&vec![]);
    assert_eq!(s.image_path.as_deref(), Some("b.png"));
    assert_eq!(s.volume, 50);
}
