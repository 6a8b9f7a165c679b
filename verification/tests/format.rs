use background_portal::app::App;
use background_portal::format::{dec_to_u32, parse_app, render_app, u32_to_dec};

fn sample() -> App {
    App {
        id: "editor".to_string(),
        autostart: true,
        cmd: vec!["/usr/bin/editor".to_string(), "--daemon".to_string()],
        flags: 5,
    }
}

#[test]
fn render_produces_canonical_text() {
    let text = render_app(&sample());
    assert_eq!(
        text,
        "[Desktop Entry]\nType=Application\nName=editor\nExec=/usr/bin/editor --daemon\nAutostart=true\nFlags=5\n"
    );
}

#[test]
fn render_false_autostart_and_zero_flags() {
    let app = App {
        id: "b".to_string(),
        autostart: false,
        cmd: vec!["/bin/false".to_string()],
        flags: 0,
    };
    assert_eq!(
        render_app(&app),
        "[Desktop Entry]\nType=Application\nName=b\nExec=/bin/false\nAutostart=false\nFlags=0\n"
    );
}

#[test]
fn parse_recovers_rendered_entry() {
    let text = render_app(&sample());
    let back = parse_app(&text).expect("canonical text must parse");
    assert_eq!(back.id, "editor");
    assert!(back.autostart);
    assert_eq!(back.cmd, vec!["/usr/bin/editor".to_string(), "--daemon".to_string()]);
    assert_eq!(back.flags, 5);
}

#[test]
fn parse_round_trips_extreme_flags() {
    let app = App {
        id: "x".to_string(),
        autostart: false,
        cmd: vec!["/bin/true".to_string()],
        flags: u32::MAX,
    };
    let back = parse_app(&render_app(&app)).expect("canonical text must parse");
    assert_eq!(back.flags, u32::MAX);
    assert!(!back.autostart);
}

#[test]
fn parse_rejects_missing_fields() {
    assert!(parse_app("").is_none());
    assert!(parse_app("[Desktop Entry]\n").is_none());
    assert!(parse_app("[Desktop Entry]\nType=Application\nName=a\n").is_none());
    assert!(parse_app(
        "[Desktop Entry]\nType=Application\nName=a\nExec=/bin/true\nAutostart=true\n"
    )
    .is_none());
    assert!(parse_app("garbage").is_none());
}

#[test]
fn parse_rejects_wrong_header_or_values() {
    assert!(parse_app(
        "[Other]\nType=Application\nName=a\nExec=/bin/true\nAutostart=true\nFlags=0\n"
    )
    .is_none());
    assert!(parse_app(
        "[Desktop Entry]\nType=Application\nName=a\nExec=/bin/true\nAutostart=maybe\nFlags=0\n"
    )
    .is_none());
    assert!(parse_app(
        "[Desktop Entry]\nType=Application\nName=a\nExec=/bin/true\nAutostart=true\nFlags=007\n"
    )
    .is_none());
    assert!(parse_app(
        "[Desktop Entry]\nType=Application\nName=a\nExec=/bin/true\nAutostart=true\nFlags=4294967296\n"
    )
    .is_none());
    // trailing bytes after the last line are refused
    assert!(parse_app(
        "[Desktop Entry]\nType=Application\nName=a\nExec=/bin/true\nAutostart=true\nFlags=0\nrest"
    )
    .is_none());
}

#[test]
fn numeral_round_trip() {
    assert_eq!(u32_to_dec(0), "0");
    assert_eq!(u32_to_dec(7), "7");
    assert_eq!(u32_to_dec(305), "305");
    assert_eq!(u32_to_dec(u32::MAX), "4294967295");
    assert_eq!(dec_to_u32("0"), Some(0));
    assert_eq!(dec_to_u32("305"), Some(305));
    assert_eq!(dec_to_u32("4294967295"), Some(u32::MAX));
    assert_eq!(dec_to_u32("4294967296"), None);
    assert_eq!(dec_to_u32(""), None);
    assert_eq!(dec_to_u32("01"), None);
    assert_eq!(dec_to_u32("1a"), None);
}
