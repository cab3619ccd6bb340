use gif_tool::config::{load_config, save_error, Config};
use gif_tool::flow::{flow_start, flow_step, FlowCommand, FlowEvent, FlowKind, FlowState};
use gif_tool::serial::{serial_ports, ListedPort, PortKind};

#[test]
fn test_load_config_from_missing_path_creates_nothing() {
    let loaded = load_config(false, None);
    assert!(loaded.config.project_path.is_none());
    assert!(!loaded.remove_file, "reading a missing config must not create it");
}

#[test]
fn corrupted_config_is_reset() {
    let loaded = load_config(true, None);
    assert!(loaded.remove_file);
    assert!(loaded.config.idf_path.is_none());
    let c = Config { project_path: Some("/test/path".to_string()), idf_path: None, last_serial_port: None };
    let loaded = load_config(true, Some(c));
    assert_eq!(loaded.config.project_path.as_deref(), Some("/test/path"));
    assert_eq!(save_error(true, "x"), "Serialize error: x");
    assert_eq!(save_error(false, "y"), "Write error: y");
}

#[test]
fn serial_ports_drop_tty_duplicates_on_macos() {
    let ports = vec![
        ListedPort { name: "/dev/tty.usb1".to_string(), kind: PortKind::Usb },
        ListedPort { name: "/dev/cu.usb1".to_string(), kind: PortKind::Usb },
        ListedPort { name: "/dev/ttyS0".to_string(), kind: PortKind::Unknown },
    ];
    let shown = serial_ports(&ports, true);
    assert_eq!(shown.len(), 2);
    assert_eq!(shown[0].port_name, "/dev/cu.usb1");
    assert_eq!(shown[0].port_type, "USB");
    assert_eq!(shown[1].port_type, "Unknown");
    assert_eq!(serial_ports(&ports, false).len(), 3);
}

fn answer(c: FlowCommand) -> (bool, String) {
    match c {
        FlowCommand::Finish(Ok(r)) => (r.success, r.message),
        other => panic!("unexpected {:?}", other),
    }
}

#[test]
fn build_and_flash_sequence() {
    let s = flow_start();
    assert!(matches!(s.command, FlowCommand::SyncSdkconfig));
    let s = flow_step(s.state, FlowKind::ReplaceGif, "/dev/cu.x", FlowEvent::Synced(Ok(())));
    assert_eq!(s.logs, vec!["🔨 Starting build (this takes 2-3 minutes)..."]);
    assert!(matches!(s.command, FlowCommand::Build));
    let s = flow_step(s.state, FlowKind::ReplaceGif, "/dev/cu.x", FlowEvent::BuildFinished { success: true, exit_code: 0 });
    assert_eq!(s.logs, vec!["✓ Build succeeded", "⚡ Starting flash to /dev/cu.x..."]);
    assert_eq!(s.state, FlowState::AwaitFlash);
    let s = flow_step(s.state, FlowKind::ReplaceGif, "/dev/cu.x", FlowEvent::FlashFinished { success: true, exit_code: 0 });
    assert_eq!(answer(s.command), (true, "✅ Done! GIF updated on board.".to_string()));
}

#[test]
fn failed_build_is_not_flashed() {
    let s = flow_step(FlowState::AwaitBuild, FlowKind::DefaultEmotion, "/p", FlowEvent::BuildFinished { success: false, exit_code: 2 });
    assert_eq!(s.state, FlowState::Done);
    assert_eq!(answer(s.command), (false, "Build failed with exit code 2".to_string()));
    let s = flow_step(FlowState::AwaitFlash, FlowKind::DefaultEmotion, "/p", FlowEvent::FlashFinished { success: false, exit_code: 1 });
    assert_eq!(answer(s.command), (false, "Flash failed with exit code 1".to_string()));
    let s = flow_step(FlowState::AwaitFlash, FlowKind::DefaultEmotion, "/p", FlowEvent::FlashFinished { success: true, exit_code: 0 });
    assert_eq!(answer(s.command), (true, "✅ Done! Default emotion updated on board.".to_string()));
    let s = flow_step(FlowState::AwaitBuild, FlowKind::Plain, "/p", FlowEvent::BuildTaskError("panic".to_string()));
    assert!(matches!(s.command, FlowCommand::Finish(Err(m)) if m == "Build task error: panic"));
    let s = flow_step(FlowState::AwaitSync, FlowKind::Plain, "/p", FlowEvent::Synced(Err("no".to_string())));
    assert!(matches!(s.command, FlowCommand::Finish(Err(m)) if m == "no"));
}
