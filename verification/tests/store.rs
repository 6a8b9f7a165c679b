use background_portal::app::App;
use background_portal::system::{StoreError, System};

fn app(id: &str, autostart: bool, cmd: &[&str], flags: u32) -> App {
    App {
        id: id.to_string(),
        autostart,
        cmd: cmd.iter().map(|w| w.to_string()).collect(),
        flags,
    }
}

#[test]
fn put_then_get_round_trips() {
    let mut sys = System::new("/tmp/autostart".to_string());
    let stored = app("term", true, &["/usr/bin/term", "--quiet"], 9);
    let existed = sys.add_autostart(&stored).expect("write must succeed");
    assert!(!existed);
    let got = sys
        .get_autostart("term")
        .expect("read must succeed")
        .expect("entry must exist");
    assert_eq!(got.id, "term");
    assert!(got.autostart);
    assert_eq!(got.cmd, vec!["/usr/bin/term".to_string(), "--quiet".to_string()]);
    assert_eq!(got.flags, 9);
}

#[test]
fn get_of_unknown_id_is_none() {
    let sys = System::new("/tmp/autostart".to_string());
    assert!(sys.get_autostart("nobody").expect("read must succeed").is_none());
}

#[test]
fn overwrite_is_reported() {
    let mut sys = System::new("/tmp/autostart".to_string());
    assert!(!sys.add_autostart(&app("a", true, &["/bin/true"], 0)).unwrap());
    assert!(sys.add_autostart(&app("a", false, &["/bin/false"], 1)).unwrap());
    let got = sys.get_autostart("a").unwrap().unwrap();
    assert!(!got.autostart);
    assert_eq!(got.cmd, vec!["/bin/false".to_string()]);
}

#[test]
fn malformed_file_is_an_error_on_get() {
    let mut sys = System::new("/tmp/autostart".to_string());
    sys.insert_file("bad.desktop".to_string(), "not an entry".to_string())
        .expect("an unreadable file is stored as it is");
    assert_eq!(sys.get_autostart("bad").err(), Some(StoreError::MalformedEntry));
}

#[test]
fn listing_skips_unreadable_files() {
    let mut sys = System::new("/tmp/autostart".to_string());
    sys.add_autostart(&app("one", true, &["/bin/true"], 0)).unwrap();
    sys.insert_file("bad.desktop".to_string(), "truncated".to_string())
        .unwrap();
    sys.add_autostart(&app("two", false, &["/bin/false"], 3)).unwrap();
    let all = sys.list_apps().expect("listing must succeed");
    assert_eq!(all.len(), 2);
    assert_eq!(all[0].id, "one");
    assert_eq!(all[1].id, "two");
}

#[test]
fn paths_are_built_from_the_directory() {
    let sys = System::new("/home/u/.config/autostart".to_string());
    assert_eq!(sys.autostart_dir(), "/home/u/.config/autostart");
    assert_eq!(sys.app_path("term"), "/home/u/.config/autostart/term.desktop");
}

#[test]
fn entry_file_exposes_path_and_contents() {
    let mut sys = System::new("/d".to_string());
    assert!(sys.entry_file("a").is_none());
    sys.add_autostart(&app("a", true, &["/bin/true"], 0)).unwrap();
    let (path, contents) = sys.entry_file("a").expect("entry file must exist");
    assert_eq!(path, "/d/a.desktop");
    assert_eq!(
        contents,
        "[Desktop Entry]\nType=Application\nName=a\nExec=/bin/true\nAutostart=true\nFlags=0\n"
    );
}

#[test]
fn a_file_whose_entry_belies_its_name_is_refused() {
    let mut sys = System::new("/d".to_string());
    let contents = background_portal::format::render_app(&app("real", true, &["/bin/true"], 0));
    assert_eq!(
        sys.insert_file("imposter.desktop".to_string(), contents),
        Err(StoreError::MalformedEntry)
    );
    assert!(sys.entry_file("real").is_none());
    assert!(sys.entry_file("imposter").is_none());
    assert!(sys.list_apps().unwrap().is_empty());
}
