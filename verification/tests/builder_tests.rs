use gif_tool::builder::{
    build_command, build_result, flash_command, flash_result, known_idf_path, missing_device_error,
    resolve_idf_path, validate_emotion, write_error, BuilderError,
};
use gif_tool::profile::ProfileInfo;

fn profile(emotions: &[&str], path: &str) -> ProfileInfo {
    ProfileInfo {
        profile: "test".to_string(),
        emotions: emotions.iter().map(|s| s.to_string()).collect(),
        symbols: emotions.iter().map(|s| s.to_string()).collect(),
        profile_path: path.to_string(),
    }
}

#[test]
fn test_validate_emotion_rejects_unknown() {
    let profile = profile(&["angry", "happy"], "/tmp/test");
    let result = validate_emotion(&profile, "invalid");
    assert!(matches!(result, Err(BuilderError::InvalidEmotion(_, _))));
}

#[test]
fn test_validate_emotion_accepts_known() {
    let profile = profile(&["angry", "happy"], "/tmp/test_nonexistent");
    assert!(validate_emotion(&profile, "angry").is_ok());
}

#[test]
fn test_validate_emotion_writes_nothing() {
    let profile = profile(&["angry"], "/tmp/gif_tool_validate_emotion_probe");
    let path = std::path::Path::new(&profile.profile_path);
    let existed = path.exists();
    assert!(validate_emotion(&profile, "angry").is_ok());
    assert_eq!(path.exists(), existed, "validate_emotion must not create or write anything");
}

#[test]
fn invalid_emotion_lists_the_valid_ones() {
    let profile = profile(&["angry", "happy"], "/tmp/test");
    let err = validate_emotion(&profile, "sad").unwrap_err();
    assert_eq!(
        err.message(),
        "'sad' is not a valid emotion for this profile.\nValid emotions: angry, happy"
    );
}

#[test]
fn builder_messages() {
    assert_eq!(BuilderError::BuildFailed(-1, "boom".to_string()).message(), "Build failed with exit code -1: boom");
    assert_eq!(BuilderError::WriteError("x".to_string()).message(), "Write error: x");
    assert_eq!(
        BuilderError::PermissionDenied("/p".to_string()).message(),
        "Cannot write to /p. Check file permissions."
    );
    assert_eq!(BuilderError::IdfNotFound("m".to_string()).message(), "ESP-IDF not found. m");
    assert!(matches!(write_error("/p", true, "d"), BuilderError::PermissionDenied(p) if p == "/p"));
    assert!(matches!(write_error("/p", false, "d"), BuilderError::WriteError(m) if m == "/p: d"));
}

#[test]
fn idf_path_prefers_the_known_install() {
    let known = known_idf_path("/home/u");
    assert_eq!(known, "/home/u/esp/esp-idf-v5.5.2");
    assert_eq!(resolve_idf_path(Some(known.clone()), true, Some("/opt/idf".to_string())).unwrap(), known);
    assert_eq!(resolve_idf_path(Some(known.clone()), false, Some("/opt/idf".to_string())).unwrap(), "/opt/idf");
    let err = resolve_idf_path(None, false, None).unwrap_err();
    assert_eq!(
        err.message(),
        "ESP-IDF not found. ESP-IDF v5.5.2 not found. Install it at ~/esp/esp-idf-v5.5.2 or set $IDF_PATH."
    );
}

#[test]
fn commands() {
    assert_eq!(
        build_command("/idf"),
        "unset IDF_PATH IDF_PYTHON_ENV_PATH VIRTUAL_ENV; source /idf/export.sh && idf.py build"
    );
    assert_eq!(
        flash_command("/idf", "/dev/cu.x"),
        "unset IDF_PATH IDF_PYTHON_ENV_PATH VIRTUAL_ENV; source /idf/export.sh && idf.py -p /dev/cu.x flash"
    );
    assert_eq!(
        missing_device_error("/dev/x").message(),
        "Write error: Device not found at /dev/x. Check connection and try: ls /dev/cu.*"
    );
}

#[test]
fn results_combine_output() {
    let r = build_result(true, Some(0), b"out", b"err");
    assert!(r.success);
    assert_eq!(r.exit_code, 0);
    assert_eq!(r.output, "out\nerr");
    let r = build_result(false, None, b"\xffa", b"");
    assert_eq!(r.exit_code, -1);
    assert_eq!(r.output, "\u{fffd}a\n");
}

#[test]
fn flash_failures_get_hints() {
    let r = flash_result(false, Some(2), b"", b"Permission denied");
    assert_eq!(
        r.output,
        "\nPermission denied\n\nHint: Add your user to dialout group: sudo usermod -a -G dialout $USER"
    );
    let r = flash_result(false, Some(2), b"Device or resource busy", b"");
    assert_eq!(
        r.output,
        "Device or resource busy\n\n\nHint: Close any serial monitors (screen, minicom, idf.py monitor)"
    );
    let r = flash_result(true, Some(0), b"ok", b"");
    assert_eq!(r.output, "ok\n");
}
