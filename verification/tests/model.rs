use pty_sidecar::client::{PTYMessage, PTYMessageType, PTYResizeData};
use pty_sidecar::codec::ControlMessage;
use pty_sidecar::control_plane::{AgentStatus, DevysCommand};
use pty_sidecar::integrations::YaziIntegration;

#[test]
fn yazi_paths_are_fixed() {
    let y = YaziIntegration::new();
    assert_eq!(y.config_path, "~/.config/yazi/yazi.toml");
    assert_eq!(y.context_plugin_path, "~/.config/yazi/plugins/devys-context.yazi/");
}

#[test]
fn client_message_carries_its_fields() {
    let m = PTYMessage::new(
        PTYMessageType::Input,
        "s-1".to_string(),
        "ls\n".to_string(),
        1234,
    );
    assert_eq!(m.message_type, PTYMessageType::Input);
    assert_eq!(m.session_id, "s-1");
    assert_eq!(m.data, "ls\n");
    assert_eq!(m.timestamp, 1234);
}

#[test]
fn resize_payload_matches_the_control_message() {
    let d = PTYResizeData { cols: 120, rows: 40 };
    match d.to_control() {
        ControlMessage::Resize { rows, cols } => {
            assert_eq!(rows, 40);
            assert_eq!(cols, 120);
        }
        _ => panic!("a resize payload must become a resize control message"),
    }
}

#[test]
fn control_plane_values_construct() {
    let st = AgentStatus::Failed("timeout".to_string());
    assert!(matches!(st, AgentStatus::Failed(ref m) if m == "timeout"));
    let cmd = DevysCommand::SwitchModel { model: "sonnet".to_string() };
    assert!(matches!(cmd, DevysCommand::SwitchModel { ref model } if model == "sonnet"));
}
