use gerard::{after_launch, EntryError, EntryObject};

#[test]
fn new_keeps_name_and_icon() {
    let entry = EntryObject::new("Firefox", "firefox").unwrap();
    assert_eq!(entry.name(), "Firefox");
    assert_eq!(entry.icon(), "firefox");
    assert_eq!(entry.desktop_entry(), None);
    assert_eq!(entry.score(), 0);
}

#[test]
fn new_refuses_an_empty_name() {
    assert!(matches!(EntryObject::new("", "firefox"), Err(EntryError::InvalidEntry)));
}

#[test]
fn new_accepts_an_empty_icon() {
    let entry = EntryObject::new("Files", "").unwrap();
    assert_eq!(entry.icon(), "");
}

#[test]
fn create_keeps_the_launch_target() {
    let entry =
        EntryObject::create("GIMP", "gimp", "/usr/share/applications/gimp.desktop").unwrap();
    assert_eq!(entry.name(), "GIMP");
    assert_eq!(entry.icon(), "gimp");
    assert_eq!(entry.desktop_entry(), Some("/usr/share/applications/gimp.desktop"));
    assert_eq!(entry.score(), 0);
}

#[test]
fn create_refuses_an_empty_name() {
    assert!(matches!(
        EntryObject::create("", "gimp", "/usr/share/applications/gimp.desktop"),
        Err(EntryError::InvalidEntry)
    ));
}

#[test]
fn set_score_changes_the_score_only() {
    let mut entry = EntryObject::create("GIMP", "gimp", "gimp.desktop").unwrap();
    entry.set_score(42);
    assert_eq!(entry.score(), 42);
    entry.set_score(-7);
    assert_eq!(entry.score(), -7);
    entry.set_score(i64::MIN);
    assert_eq!(entry.score(), i64::MIN);
    entry.set_score(i64::MAX);
    assert_eq!(entry.score(), i64::MAX);
    assert_eq!(entry.name(), "GIMP");
    assert_eq!(entry.icon(), "gimp");
    assert_eq!(entry.desktop_entry(), Some("gimp.desktop"));
}

#[test]
fn launch_hands_out_the_target() {
    let entry = EntryObject::create("Files", "nautilus", "org.gnome.Nautilus.desktop").unwrap();
    assert_eq!(entry.launch(), "org.gnome.Nautilus.desktop");
}

#[test]
fn after_launch_exits_on_success() {
    assert_eq!(after_launch(true), Ok(()));
}

#[test]
fn after_launch_reports_a_failed_start() {
    assert_eq!(after_launch(false), Err(EntryError::LaunchFailure));
}
