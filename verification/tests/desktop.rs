//! The desktop shell.

use kiro_rs::desktop::lightweight::{Lightweight, Schedule};
use kiro_rs::desktop::log_buffer::{LogBuffer, MessageVisitor};
use kiro_rs::desktop::settings::DesktopSettings;
use kiro_rs::desktop::shell::{
    admin_url, asks_for_focus, autostart_after_toggle, autostart_change, check_new_port,
    check_url, control_port, error_page, get_port_status, html_escape, is_ui_process, menu_action,
    prevents_exit, serde_json_escape, sign_in_script, starts_silently, ui_error, ui_port,
    ChildStatus, MenuAction, Resident, UiAction, WatchAction,
};

#[test]
fn a_window_that_was_closed() {
    let mut l = Lightweight::new();
    let generation = match l.schedule_after_close(10) {
        Schedule::Later {
            generation,
            seconds,
        } => {
            assert_eq!(seconds, 600);
            generation
        }
        other => panic!("{other:?}"),
    };
    assert!(l.timer_counts(generation));
    l.exit_and_show();
    assert!(!l.timer_counts(generation));
    assert_eq!(l.schedule_after_close(0), Schedule::DestroyNow);
    assert!(l.in_lightweight);
    assert_eq!(l.schedule_after_close(0), Schedule::Nothing);
    l.destroy_failed();
    assert!(l.enter());
    assert!(!l.enter());
    assert!(matches!(
        Lightweight::new().schedule_after_close(u64::MAX),
        Schedule::Later {
            seconds: u64::MAX,
            ..
        }
    ));
    let mut last = Lightweight {
        in_lightweight: false,
        generation: u64::MAX,
    };
    last.cancel_timer();
    assert_eq!(last.generation, 0);
}

#[test]
fn lines_of_the_log() {
    let mut b = LogBuffer::new();
    assert!(b.is_enabled());
    let mut v = MessageVisitor::new();
    v.record("message", "hello");
    v.record("a", "1");
    v.record("b", "\"x\"");
    b.capture("t1".to_string(), "INFO", "m", &v);
    let mut w = MessageVisitor::new();
    w.record("a", "2");
    b.capture("t2".to_string(), "WARN", "m", &w);
    let lines = b.since(0);
    assert_eq!(lines.len(), 2);
    assert_eq!(lines[0].seq, 1);
    assert_eq!(lines[0].message, "hello a=1 b=\"x\"");
    assert_eq!(lines[1].message, "a=2");
    assert_eq!(b.since(1).len(), 1);
    b.set_enabled(false);
    b.capture("t3".to_string(), "INFO", "m", &v);
    assert_eq!(b.since(0).len(), 2);
    b.clear();
    assert!(b.since(0).is_empty());
    b.set_enabled(true);
    b.capture("t4".to_string(), "INFO", "m", &v);
    assert_eq!(b.since(0)[0].seq, 3);
}

#[test]
fn old_lines_go() {
    let mut b = LogBuffer::new();
    for i in 0..2001 {
        b.push("t".to_string(), "INFO", "m", format!("{i}"));
    }
    let lines = b.since(0);
    assert_eq!(lines.len(), 2000);
    assert_eq!(lines[0].message, "1");
    assert_eq!(b.since(2000).len(), 1);
}

#[test]
fn settings_of_the_shell() {
    assert!(!DesktopSettings::default().silent_start);
    assert!(!DesktopSettings::load(None).silent_start);
    let s = DesktopSettings { silent_start: true };
    assert_eq!(DesktopSettings::load(Some(s)), s);
    assert_eq!(s.save(), "{\n  \"silent_start\": true\n}");
}

#[test]
fn roles_of_a_process() {
    let args = |a: &[&str]| a.iter().map(|s| s.to_string()).collect::<Vec<_>>();
    assert!(is_ui_process(&args(&["x", "--ui"])));
    assert!(!is_ui_process(&args(&["x"])));
    assert!(starts_silently(&args(&["x", "--autostart"]), true));
    assert!(!starts_silently(&args(&["x", "--autostart"]), false));
    assert!(!starts_silently(&args(&["x"]), true));
    assert!(prevents_exit(None));
    assert!(!prevents_exit(Some(0)));
}

#[test]
fn the_window_and_its_process() {
    let mut r = Resident::new();
    assert!(matches!(r.spawn_or_focus_ui(false), UiAction::Wait));
    assert!(r.started(8080, Some("k".to_string()), false));
    match r.spawn_or_focus_ui(false) {
        UiAction::Spawn {
            port,
            admin_key,
            error,
        } => {
            assert_eq!(port, 8080);
            assert_eq!(admin_key.as_deref(), Some("k"));
            assert!(error.is_none());
        }
        other => panic!("{other:?}"),
    }
    r.child_started();
    assert!(matches!(r.spawn_or_focus_ui(true), UiAction::Focus));
    assert_eq!(r.watch_child(ChildStatus::Running), WatchAction::GoOn);
    assert_eq!(
        r.watch_child(ChildStatus::Exited),
        WatchAction::GoToBackground
    );
    assert_eq!(r.watch_child(ChildStatus::Running), WatchAction::Stop);
    r.child_started();
    assert_eq!(r.watch_child(ChildStatus::Unknown), WatchAction::Stop);
    assert!(!r.has_child);
    let mut r = Resident::new();
    r.failed("e".to_string());
    assert!(matches!(
        r.spawn_or_focus_ui(false),
        UiAction::Spawn { error: Some(_), .. }
    ));
}

#[test]
fn the_tray() {
    assert_eq!(menu_action("show"), MenuAction::Show);
    assert_eq!(menu_action("autostart"), MenuAction::ToggleAutostart);
    assert_eq!(menu_action("silent_start"), MenuAction::ToggleSilentStart);
    assert_eq!(menu_action("quit"), MenuAction::Quit);
    assert_eq!(menu_action("x"), MenuAction::Nothing);
    assert!(!autostart_after_toggle(true, true));
    assert!(autostart_after_toggle(true, false));
    assert_eq!(autostart_change(true, false), Some(true));
    assert_eq!(autostart_change(false, false), None);
}

#[test]
fn ports_and_addresses() {
    assert_eq!(control_port(" 8080\n"), Some(8080));
    assert_eq!(control_port("70000"), None);
    assert!(asks_for_focus("focus\n"));
    assert!(!asks_for_focus("close"));
    assert_eq!(ui_port(Some("99")), 99);
    assert_eq!(ui_port(Some("x")), 0);
    assert_eq!(ui_port(None), 0);
    assert_eq!(ui_error(Some(String::new())), None);
    assert_eq!(ui_error(Some("e".to_string())).as_deref(), Some("e"));
    assert!(get_port_status(1, 2).conflicted);
    assert!(!get_port_status(1, 0).conflicted);
    assert!(check_new_port(5, 5, false).is_ok());
    assert_eq!(
        check_new_port(5, 6, false),
        Err("端口 5 已被占用".to_string())
    );
    assert_eq!(check_new_port(0, 6, true), Err("端口不能为 0".to_string()));
    assert!(check_url("https://a").is_ok());
    assert_eq!(
        check_url("file:///a"),
        Err("仅支持 http(s) 链接".to_string())
    );
    assert_eq!(admin_url(80), "http://127.0.0.1:80/admin");
}

#[test]
fn texts_on_a_page() {
    assert_eq!(
        serde_json_escape("a\"\\\n\r\t\u{1}\u{1f}é"),
        "\"a\\\"\\\\\\n\\r\\t\\u0001\\u001fé\""
    );
    for s in ["", "a\"b\\c/", "\n\r\t\u{8}\u{c}\u{1}\u{1f}\u{7f}", "é漢\u{1f600}\\u0041"] {
        let read: String = serde_json::from_str(&serde_json_escape(s)).unwrap();
        assert_eq!(read, s);
    }
    assert_eq!(html_escape("<a & b>"), "&lt;a &amp; b&gt;");
    assert_eq!(
        sign_in_script("k"),
        "try { localStorage.setItem('adminApiKey', \"k\"); } catch (e) {}"
    );
    assert!(error_page("<x>").contains("&lt;x&gt;</pre>"));
}
