use background_portal::app::App;
use background_portal::background::{Background, BusFault, Registration};
use background_portal::system::{SpawnError, System};

fn runtime() -> tokio::runtime::Runtime {
    tokio::runtime::Builder::new_multi_thread()
        .worker_threads(1)
        .enable_all()
        .build()
        .expect("runtime must build")
}

fn app(id: &str, autostart: bool, cmd: &[&str], flags: u32) -> App {
    App {
        id: id.to_string(),
        autostart,
        cmd: cmd.iter().map(|w| w.to_string()).collect(),
        flags,
    }
}

fn empty_registry() -> Background {
    Background::new(System::new("/tmp/autostart".to_string()))
}

/// The spawn edge the library hands out: this is what app/ does with a
/// `Registration::Launch` or a startup plan entry.
fn spawn_argv(argv: &[String]) -> Result<tokio::process::Child, SpawnError> {
    match argv.first() {
        None => Err(SpawnError::EmptyCommand),
        Some(exe) => {
            let mut command = tokio::process::Command::new(exe);
            command.args(&argv[1..]);
            command.spawn().map_err(|_| SpawnError::LaunchFailed)
        }
    }
}

/// Registration driven to completion, as app/ drives it.
fn register(
    bg: &mut Background,
    id: &str,
    enable: bool,
    cmd: &[&str],
    flags: u32,
) -> Result<bool, BusFault> {
    let cmd: Vec<String> = cmd.iter().map(|w| w.to_string()).collect();
    match bg.enable_autostart(id.to_string(), enable, cmd, flags)? {
        Registration::AlreadyRegistered => Ok(true),
        Registration::Unlaunchable => Ok(false),
        Registration::Launch(argv) => Ok(bg.launch_outcome(id.to_string(), spawn_argv(&argv))),
    }
}

/// The startup loop, as app/ drives it.
fn boot(bg: &mut Background) {
    let plan = bg.startup_plan().expect("startup listing must succeed");
    for entry in plan {
        let outcome = spawn_argv(&entry.cmd);
        bg.launch_outcome(entry.id.clone(), outcome);
    }
}

#[test]
fn start_rejects_empty_command() {
    let sys = System::new("/tmp/autostart".to_string());
    let entry = app("e", true, &[], 0);
    assert_eq!(sys.start(&entry), Err(SpawnError::EmptyCommand));
}

#[test]
fn start_hands_out_the_argv() {
    let sys = System::new("/tmp/autostart".to_string());
    let entry = app("e", true, &["/bin/echo", "hi"], 0);
    assert_eq!(
        sys.start(&entry),
        Ok(vec!["/bin/echo".to_string(), "hi".to_string()])
    );
}

#[test]
fn launch_outcome_tracks_a_live_child() {
    let rt = runtime();
    let _guard = rt.enter();
    let mut bg = empty_registry();
    let child = spawn_argv(&["/bin/true".to_string()]).expect("spawn must succeed");
    assert!(bg.launch_outcome("term".to_string(), Ok(child)));
    assert!(bg.is_running("term"));
}

#[test]
fn launch_outcome_reports_a_failed_launch() {
    let mut bg = empty_registry();
    assert!(!bg.launch_outcome("term".to_string(), Err(SpawnError::LaunchFailed)));
    assert!(!bg.is_running("term"));
    assert!(!bg.take_running_changed());
}

#[test]
fn enable_autostart_tracks_a_launchable_app() {
    let rt = runtime();
    let _guard = rt.enter();
    let mut bg = empty_registry();
    let r = register(&mut bg, "term", true, &["/bin/true"], 0);
    assert_eq!(r, Ok(true));
    assert!(bg.is_running("term"));
    assert_eq!(bg.running_ids(), vec!["term".to_string()]);
}

#[test]
fn enable_autostart_with_empty_command_still_persists() {
    let mut bg = empty_registry();
    let r = register(&mut bg, "ghost", true, &[], 0);
    assert_eq!(r, Ok(false));
    assert!(!bg.is_running("ghost"));
    let (_, contents) = bg.entry_file("ghost").expect("entry must be persisted");
    assert_eq!(
        contents,
        "[Desktop Entry]\nType=Application\nName=ghost\nExec=\nAutostart=true\nFlags=0\n"
    );
}

#[test]
fn reregistration_keeps_the_first_entry() {
    let rt = runtime();
    let _guard = rt.enter();
    let mut bg = empty_registry();
    assert_eq!(register(&mut bg, "x", true, &["/bin/true"], 4), Ok(true));
    let first = bg.entry_file("x").expect("entry must be persisted");
    assert_eq!(register(&mut bg, "x", false, &["/bin/false"], 9), Ok(true));
    let second = bg.entry_file("x").expect("entry must still exist");
    assert_eq!(first, second);
    assert_eq!(bg.running_ids().len(), 1);
}

#[test]
fn failed_spawn_then_existing_entry_wins() {
    let rt = runtime();
    let _guard = rt.enter();
    let mut bg = empty_registry();
    let first = register(&mut bg, "c", true, &["/nonexistent/binary"], 0);
    assert_eq!(first, Ok(false));
    let stored = bg.entry_file("c").expect("entry must be persisted").1;
    let second = register(&mut bg, "c", true, &["/bin/true"], 0);
    assert_eq!(second, Ok(true));
    assert_eq!(bg.entry_file("c").expect("entry must still exist").1, stored);
    assert!(stored.contains("Exec=/nonexistent/binary"));
    assert!(!bg.is_running("c"));
    assert_eq!(bg.running_ids().len(), 0);
}

#[test]
fn unreadable_entry_is_a_bus_fault() {
    let mut sys = System::new("/tmp/autostart".to_string());
    sys.insert_file("z.desktop".to_string(), "scrambled".to_string())
        .expect("an unreadable file is stored as it is");
    let mut bg = Background::new(sys);
    let r = register(&mut bg, "z", true, &["/bin/true"], 0);
    assert_eq!(r, Err(BusFault::Failed));
    assert!(!bg.is_running("z"));
}

#[test]
fn startup_launches_exactly_the_launchable_autostart_entries() {
    let rt = runtime();
    let _guard = rt.enter();
    let mut sys = System::new("/tmp/autostart".to_string());
    sys.add_autostart(&app("good1", true, &["/bin/true"], 0)).unwrap();
    sys.add_autostart(&app("broken", true, &["/nonexistent/binary"], 0))
        .unwrap();
    sys.add_autostart(&app("idle", false, &["/bin/false"], 0)).unwrap();
    sys.add_autostart(&app("good2", true, &["/bin/true"], 0)).unwrap();
    let mut bg = Background::new(sys);
    boot(&mut bg);
    let running = bg.running_ids();
    assert_eq!(running.len(), 2);
    assert!(running.contains(&"good1".to_string()));
    assert!(running.contains(&"good2".to_string()));
    assert!(!bg.is_running("broken"));
    assert!(!bg.is_running("idle"));
}

#[test]
fn startup_scenario_matches_the_portal_contract() {
    let rt = runtime();
    let _guard = rt.enter();
    let mut sys = System::new("/tmp/autostart".to_string());
    sys.add_autostart(&app("a", true, &["/bin/true"], 0)).unwrap();
    sys.add_autostart(&app("b", false, &["/bin/false"], 0)).unwrap();
    let mut bg = Background::new(sys);
    boot(&mut bg);
    assert_eq!(bg.running_ids(), vec!["a".to_string()]);
    let states = bg.get_app_state().expect("state listing must succeed");
    assert_eq!(states.len(), 2);
    assert!(states.contains(&("a".to_string(), 0)));
    assert!(states.contains(&("b".to_string(), 0)));
}

#[test]
fn startup_plan_holds_the_autostart_entries_in_order() {
    let mut sys = System::new("/tmp/autostart".to_string());
    sys.add_autostart(&app("p", true, &["/bin/true"], 0)).unwrap();
    sys.add_autostart(&app("q", false, &["/bin/false"], 0)).unwrap();
    sys.add_autostart(&app("r", true, &["/bin/true", "-v"], 7)).unwrap();
    let bg = Background::new(sys);
    let plan = bg.startup_plan().expect("startup listing must succeed");
    assert_eq!(plan.len(), 2);
    assert_eq!(plan[0].id, "p");
    assert_eq!(plan[1].id, "r");
    assert_eq!(plan[1].cmd, vec!["/bin/true".to_string(), "-v".to_string()]);
    assert_eq!(plan[1].flags, 7);
}

#[test]
fn app_states_cover_every_entry_whatever_runs() {
    let mut sys = System::new("/tmp/autostart".to_string());
    sys.add_autostart(&app("p", true, &["/bin/true"], 0)).unwrap();
    sys.add_autostart(&app("q", false, &["/bin/false"], 1)).unwrap();
    sys.insert_file("broken.desktop".to_string(), "???".to_string())
        .unwrap();
    sys.add_autostart(&app("r", false, &["/bin/cat"], 2)).unwrap();
    let bg = Background::new(sys);
    let states = bg.list_app_states().expect("state listing must succeed");
    assert_eq!(
        states,
        vec![("p".to_string(), 0), ("q".to_string(), 0), ("r".to_string(), 0)]
    );
}

#[test]
fn notify_background_reports_the_non_granting_code() {
    let bg = empty_registry();
    let (code, details) = bg.notify_background("/request/1", "term", "Terminal");
    assert_eq!(code, 0);
    assert_eq!(details, vec![("result".to_string(), 2)]);
}

#[test]
fn change_notification_is_taken_once() {
    let rt = runtime();
    let _guard = rt.enter();
    let mut bg = empty_registry();
    assert!(!bg.take_running_changed());
    register(&mut bg, "term", true, &["/bin/true"], 0).expect("registration must be processed");
    assert!(bg.take_running_changed());
    assert!(!bg.take_running_changed());
}
