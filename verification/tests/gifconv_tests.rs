use gif_tool::gifconv::{find_gif2c, gif2c_result, gif2c_spawn_error, probe_gif, GifConvError, EXPECTED_SIZE};

/// A GIF header is 10 bytes: "GIF8?a" + w(2 LE) + h(2 LE).
fn gif_header(version: &[u8; 6], w: u16, h: u16) -> Vec<u8> {
    let mut v = version.to_vec();
    v.extend_from_slice(&w.to_le_bytes());
    v.extend_from_slice(&h.to_le_bytes());
    v
}

#[test]
fn probe_accepts_gif89a_800x480() {
    let probe = probe_gif(&gif_header(b"GIF89a", 800, 480)).unwrap();
    assert_eq!(probe.version, "89a");
    assert_eq!(probe.width, 800);
    assert_eq!(probe.height, 480);
    assert_eq!(probe.bytes, 10);
}

#[test]
fn probe_accepts_gif87a_800x480() {
    assert!(probe_gif(&gif_header(b"GIF87a", 800, 480)).is_ok());
}

#[test]
fn probe_rejects_wrong_size() {
    match probe_gif(&gif_header(b"GIF89a", 400, 240)) {
        Err(GifConvError::WrongSize { found, expected }) => {
            assert_eq!(found, (400, 240));
            assert_eq!(expected, (800, 480));
        }
        other => panic!("expected WrongSize, got {:?}", other),
    }
}

#[test]
fn probe_rejects_short_file() {
    assert!(matches!(probe_gif(b"GIF"), Err(GifConvError::TooShort(3))));
}

#[test]
fn probe_rejects_png() {
    assert!(matches!(
        probe_gif(&[0x89, b'P', b'N', b'G', 0, 0, 0, 0, 0, 0]),
        Err(GifConvError::NotAGif(_))
    ));
}

#[test]
fn find_gif2c_reports_missing_script() {
    match find_gif2c("/tmp/x/tools/gif2c.py", false) {
        Err(GifConvError::Gif2cMissing(p)) => assert!(p.ends_with("tools/gif2c.py")),
        other => panic!("expected Gif2cMissing, got {:?}", other),
    }
}

#[test]
fn find_gif2c_locates_script_when_present() {
    assert_eq!(find_gif2c("/tmp/x/tools/gif2c.py", true).unwrap(), "/tmp/x/tools/gif2c.py");
}

#[test]
fn gif_messages() {
    assert_eq!(
        GifConvError::NotAGif([0x89, b'P', b'N']).message(),
        "Not a GIF file — this looks like a PNG. Drop the original .gif."
    );
    assert_eq!(
        GifConvError::NotAGif([0xff, 0xd8, 0xff]).message(),
        "Not a GIF file — this looks like a JPG. Drop the original .gif."
    );
    assert_eq!(
        GifConvError::NotAGif([1, 2, 3]).message(),
        "Not a GIF file. Drop the original .gif (GIF87a or GIF89a)."
    );
    assert_eq!(
        GifConvError::TooShort(3).message(),
        "File is too short to be a GIF (3 bytes). It may be empty or truncated."
    );
    assert_eq!(
        GifConvError::WrongSize { found: (400, 240), expected: EXPECTED_SIZE }.message(),
        "This GIF is 400x240, but the display is 800x480. A GIF is embedded at its native size, so a smaller one renders in a corner of the screen. Resize to 800x480 and drop it again."
    );
    assert_eq!(
        GifConvError::ConversionFailed { exit_code: 2, output: "bad".to_string() }.message(),
        "gif2c.py failed (exit 2):\nbad"
    );
    assert_eq!(
        GifConvError::Gif2cMissing("/p/tools/gif2c.py".to_string()).message(),
        "Your EmotionDisplay checkout has no /p/tools/gif2c.py . Pull the latest, or drop a pre-made .c file instead."
    );
}

#[test]
fn conversion_outcomes() {
    let ok = gif2c_result(true, Some(0), b"done", b"").unwrap();
    assert!(ok.success);
    assert_eq!(ok.output, "done\n");
    match gif2c_result(false, Some(3), b"", b"oops") {
        Err(GifConvError::ConversionFailed { exit_code, output }) => {
            assert_eq!(exit_code, 3);
            assert_eq!(output, "\noops");
        }
        other => panic!("unexpected {:?}", other),
    }
    assert!(matches!(gif2c_spawn_error(true, "x"), GifConvError::PythonMissing));
    assert!(matches!(gif2c_spawn_error(false, "x"), GifConvError::ReadError(m) if m == "x"));
}

#[test]
fn gif2c_command_line() {
    assert_eq!(gif_tool::gifconv::gif_source_name("angry"), "angry.c");
    assert_eq!(
        gif_tool::gifconv::gif2c_args("/p/tools/gif2c.py", "/tmp/a.gif", "angry", "/p/main/floki/gif/angry.c"),
        vec!["/p/tools/gif2c.py", "/tmp/a.gif", "--name", "angry", "-o", "/p/main/floki/gif/angry.c"]
    );
}
