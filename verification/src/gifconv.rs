//! GIF pre-flight checks on the file header, and the outcome of running the
//! project's `gif2c.py` converter.

use vstd::prelude::*;
use crate::profile::strs;
use crate::builder::{combined_output, command_output, exit_code_of, BuildResult};
use crate::text::{cat, decimal, decimal_exec, from_utf8_lossy, signed_decimal, signed_decimal_exec, string_of, utf8_lossy};

verus! {

/// The EmotionDisplay panel is 800x480; a GIF is embedded at its native
/// size, so anything else renders wrong.
pub const EXPECTED_SIZE: (u16, u16) = (800u16, 480u16);

/// Errors of the GIF checks and the conversion.
#[derive(Debug)]
pub enum GifConvError {
    ReadError(String),
    TooShort(usize),
    NotAGif([u8; 3]),
    WrongSize { found: (u16, u16), expected: (u16, u16) },
    Gif2cMissing(String),
    PythonMissing,
    ConversionFailed { exit_code: i32, output: String },
}

pub open spec fn size_text(w: u16, h: u16) -> Seq<char> {
    decimal(w as nat) + "x"@ + decimal(h as nat)
}

impl GifConvError {
    /// The message shown for this error.
    pub open spec fn text(self) -> Seq<char> {
        match self {
            GifConvError::ReadError(m) => "Cannot read the file: "@ + m@,
            GifConvError::TooShort(len) => "File is too short to be a GIF ("@ + decimal(len as nat)
                + " bytes). It may be empty or truncated."@,
            GifConvError::NotAGif(b) => if b@ == seq![0x89u8, 0x50u8, 0x4eu8] {
                "Not a GIF file — this looks like a PNG. Drop the original .gif."@
            } else if b@ == seq![0xffu8, 0xd8u8, 0xffu8] {
                "Not a GIF file — this looks like a JPG. Drop the original .gif."@
            } else {
                "Not a GIF file. Drop the original .gif (GIF87a or GIF89a)."@
            },
            GifConvError::WrongSize { found, expected } => "This GIF is "@ + size_text(
                found.0,
                found.1,
            ) + ", but the display is "@ + size_text(expected.0, expected.1)
                + ". A GIF is embedded at its native size, so a smaller one renders in a corner of the screen. Resize to "@
                + size_text(expected.0, expected.1) + " and drop it again."@,
            GifConvError::Gif2cMissing(path) => "Your EmotionDisplay checkout has no "@ + path@
                + " . Pull the latest, or drop a pre-made .c file instead."@,
            GifConvError::PythonMissing =>
                "python3 not found. Install Apple's developer tools, or drop a pre-made .c file instead."@,
            GifConvError::ConversionFailed { exit_code, output } => "gif2c.py failed (exit "@
                + signed_decimal(exit_code as int) + "):\n"@ + output@,
        }
    }

    pub fn message(&self) -> (m: String)
        ensures
            m@ == self.text(),
    {
        match self {
            GifConvError::ReadError(m) => cat("Cannot read the file: ", m.as_str()),
            GifConvError::TooShort(len) => {
                let d = string_of(&decimal_exec(*len as u64));
                let a = cat("File is too short to be a GIF (", d.as_str());
                cat(a.as_str(), " bytes). It may be empty or truncated.")
            },
            GifConvError::NotAGif(b) => {
                if b[0] == 0x89u8 && b[1] == 0x50u8 && b[2] == 0x4eu8 {
                    assert(b@ =~= seq![0x89u8, 0x50u8, 0x4eu8]);
                    String::from_str(
                        "Not a GIF file — this looks like a PNG. Drop the original .gif.",
                    )
                } else if b[0] == 0xffu8 && b[1] == 0xd8u8 && b[2] == 0xffu8 {
                    assert(b@ =~= seq![0xffu8, 0xd8u8, 0xffu8]);
                    assert(b@ != seq![0x89u8, 0x50u8, 0x4eu8]) by {
                        assert(b@[0] != 0x89u8);
                    }
                    String::from_str(
                        "Not a GIF file — this looks like a JPG. Drop the original .gif.",
                    )
                } else {
                    assert(b@ != seq![0x89u8, 0x50u8, 0x4eu8]) by {
                        if b@ == seq![0x89u8, 0x50u8, 0x4eu8] {
                            assert(b@[0] == 0x89u8 && b@[1] == 0x50u8 && b@[2] == 0x4eu8);
                        }
                    }
                    assert(b@ != seq![0xffu8, 0xd8u8, 0xffu8]) by {
                        if b@ == seq![0xffu8, 0xd8u8, 0xffu8] {
                            assert(b@[0] == 0xffu8 && b@[1] == 0xd8u8 && b@[2] == 0xffu8);
                        }
                    }
                    String::from_str("Not a GIF file. Drop the original .gif (GIF87a or GIF89a).")
                }
            },
            GifConvError::WrongSize { found, expected } => {
                let f = size_string(found.0, found.1);
                let e = size_string(expected.0, expected.1);
                let a = cat("This GIF is ", f.as_str());
                let b = cat(a.as_str(), ", but the display is ");
                let c = cat(b.as_str(), e.as_str());
                let d = cat(
                    c.as_str(),
                    ". A GIF is embedded at its native size, so a smaller one renders in a corner of the screen. Resize to ",
                );
                let g = cat(d.as_str(), e.as_str());
                cat(g.as_str(), " and drop it again.")
            },
            GifConvError::Gif2cMissing(path) => {
                let a = cat("Your EmotionDisplay checkout has no ", path.as_str());
                cat(a.as_str(), " . Pull the latest, or drop a pre-made .c file instead.")
            },
            GifConvError::PythonMissing => String::from_str(
                "python3 not found. Install Apple's developer tools, or drop a pre-made .c file instead.",
            ),
            GifConvError::ConversionFailed { exit_code, output } => {
                let d = string_of(&signed_decimal_exec(*exit_code as i64));
                let a = cat("gif2c.py failed (exit ", d.as_str());
                let b = cat(a.as_str(), "):\n");
                cat(b.as_str(), output.as_str())
            },
        }
    }
}

fn size_string(w: u16, h: u16) -> (r: String)
    ensures
        r@ == size_text(w, h),
{
    let a = string_of(&decimal_exec(w as u64));
    let b = string_of(&decimal_exec(h as u64));
    let c = cat(a.as_str(), "x");
    cat(c.as_str(), b.as_str())
}

/// What the GIF header says.
#[derive(Debug, Clone)]
pub struct GifProbe {
    pub version: String,
    pub width: u16,
    pub height: u16,
    pub bytes: u64,
}

/// The little-endian 16-bit number at `i`.
pub open spec fn le_u16(d: Seq<u8>, i: int) -> int {
    d[i] + 256 * d[i + 1]
}

/// The pre-flight verdict on the bytes of a GIF file: at least 10 bytes,
/// the `GIF` signature, and the panel's size in the header.
pub open spec fn probe_ok(d: Seq<u8>) -> bool {
    &&& d.len() >= 10
    &&& d.subrange(0, 3) == seq![0x47u8, 0x49u8, 0x46u8]
    &&& le_u16(d, 6) == 800
    &&& le_u16(d, 8) == 480
}

pub open spec fn is_too_short(r: Result<GifProbe, GifConvError>, len: nat) -> bool {
    r matches Err(GifConvError::TooShort(n)) && n == len
}

pub open spec fn is_not_a_gif(r: Result<GifProbe, GifConvError>, d: Seq<u8>) -> bool {
    r matches Err(GifConvError::NotAGif(b)) && b@ == d.subrange(0, 3)
}

pub open spec fn is_wrong_size(r: Result<GifProbe, GifConvError>, w: int, h: int) -> bool {
    r matches Err(GifConvError::WrongSize { found, expected }) && found.0 == w && found.1 == h
        && expected == (800u16, 480u16)
}

/// Reads the 10-byte GIF header: the signature, then width and height as
/// little-endian 16-bit numbers at bytes 6..8 and 8..10.
pub fn probe_gif(data: &[u8]) -> (r: Result<GifProbe, GifConvError>)
    ensures
        data@.len() < 10 ==> is_too_short(r, data@.len()),
        data@.len() >= 10 && data@.subrange(0, 3) != seq![0x47u8, 0x49u8, 0x46u8] ==> is_not_a_gif(
            r,
            data@,
        ),
        data@.len() >= 10 && data@.subrange(0, 3) == seq![0x47u8, 0x49u8, 0x46u8] && !probe_ok(
            data@,
        ) ==> is_wrong_size(r, le_u16(data@, 6), le_u16(data@, 8)),
        probe_ok(data@) ==> (r matches Ok(p) && p.version@ == utf8_lossy(data@.subrange(3, 6))
            && p.width == 800 && p.height == 480 && p.bytes == data@.len()),
        r is Ok <==> (data@.len() >= 10 && data@[0] == 0x47u8 && data@[1] == 0x49u8 && data@[2]
            == 0x46u8 && data@[6] as int + 256 * (data@[7] as int) == 800 && data@[8] as int + 256 * (
        data@[9] as int) == 480),
{
    proof {
        law_probe_accepts_only_panel_size(data@);
    }
    let n = data.len();
    if n < 10 {
        return Err(GifConvError::TooShort(n));
    }
    if !(data[0] == 0x47u8 && data[1] == 0x49u8 && data[2] == 0x46u8) {
        let b: [u8; 3] = [data[0], data[1], data[2]];
        assert(b@ =~= data@.subrange(0, 3));
        assert(data@.subrange(0, 3) != seq![0x47u8, 0x49u8, 0x46u8]) by {
            if data@.subrange(0, 3) == seq![0x47u8, 0x49u8, 0x46u8] {
                assert(data@.subrange(0, 3)[0] == data@[0]);
                assert(data@.subrange(0, 3)[1] == data@[1]);
                assert(data@.subrange(0, 3)[2] == data@[2]);
            }
        }
        return Err(GifConvError::NotAGif(b));
    }
    assert(data@.subrange(0, 3) =~= seq![0x47u8, 0x49u8, 0x46u8]);
    let width: u16 = data[6] as u16 + (data[7] as u16) * 256;
    let height: u16 = data[8] as u16 + (data[9] as u16) * 256;
    if !(width == EXPECTED_SIZE.0 && height == EXPECTED_SIZE.1) {
        return Err(GifConvError::WrongSize { found: (width, height), expected: EXPECTED_SIZE });
    }
    let v: Vec<u8> = vec![data[3], data[4], data[5]];
    assert(v@ =~= data@.subrange(3, 6));
    let version = from_utf8_lossy(v.as_slice());
    Ok(GifProbe { version, width, height, bytes: n as u64 })
}

/// Locates the converter script; `script_is_file` says whether
/// `<project>/tools/gif2c.py` is a file. A missing script means the
/// checkout predates the converter.
pub fn find_gif2c(script: &str, script_is_file: bool) -> (r: Result<String, GifConvError>)
    ensures
        script_is_file ==> (r matches Ok(p) && p@ == script@),
        !script_is_file ==> (r matches Err(GifConvError::Gif2cMissing(p)) && p@ == script@),
{
    if script_is_file {
        Ok(String::from_str(script))
    } else {
        Err(GifConvError::Gif2cMissing(String::from_str(script)))
    }
}

/// The file name of an emotion's image source: `<emotion>.c`.
pub fn gif_source_name(emotion: &str) -> (r: String)
    ensures
        r@ == emotion@ + ".c"@,
{
    cat(emotion, ".c")
}

/// The arguments of `python3` that run the converter `script` on `gif`,
/// naming the image `emotion` and writing it to `out`.
pub fn gif2c_args(script: &str, gif: &str, emotion: &str, out: &str) -> (r: Vec<String>)
    ensures
        strs(r@) == seq![script@, gif@, "--name"@, emotion@, "-o"@, out@],
{
    let mut v: Vec<String> = Vec::new();
    v.push(String::from_str(script));
    v.push(String::from_str(gif));
    v.push(String::from_str("--name"));
    v.push(String::from_str(emotion));
    v.push(String::from_str("-o"));
    v.push(String::from_str(out));
    assert(strs(v@) =~= seq![script@, gif@, "--name"@, emotion@, "-o"@, out@]);
    v
}

/// The error when `python3` could not be started: missing, or another
/// failure described by `detail`.
pub fn gif2c_spawn_error(not_found: bool, detail: &str) -> (r: GifConvError)
    ensures
        not_found ==> r matches GifConvError::PythonMissing,
        !not_found ==> (r matches GifConvError::ReadError(m) && m@ == detail@),
{
    if not_found {
        GifConvError::PythonMissing
    } else {
        GifConvError::ReadError(String::from_str(detail))
    }
}

/// The outcome of a `gif2c.py` run: its output, or the failure with its
/// exit code and output.
pub fn gif2c_result(success: bool, code: Option<i32>, stdout: &[u8], stderr: &[u8]) -> (r: Result<
    BuildResult,
    GifConvError,
>)
    ensures
        success ==> (r matches Ok(b) && b.success && b.exit_code == 0 && b.output@
            == combined_output(stdout@, stderr@)),
        !success ==> (r matches Err(GifConvError::ConversionFailed { exit_code, output })
            && exit_code == exit_code_of(code) && output@ == combined_output(stdout@, stderr@)),
{
    let combined = command_output(stdout, stderr);
    if !success {
        let exit_code = match code {
            Some(c) => c,
            None => -1,
        };
        return Err(GifConvError::ConversionFailed { exit_code, output: combined });
    }
    Ok(BuildResult { success: true, exit_code: 0, output: combined })
}

/// The pre-flight check accepts exactly the GIF headers of the panel's
/// size: at least 10 bytes, starting `GIF`, with width 800 in bytes 6..8 and
/// height 480 in bytes 8..10, both little-endian.
pub proof fn law_probe_accepts_only_panel_size(d: Seq<u8>)
    ensures
        probe_ok(d) <==> (d.len() >= 10 && d[0] == 0x47u8 && d[1] == 0x49u8 && d[2] == 0x46u8
            && d[6] as int + 256 * (d[7] as int) == 800 && d[8] as int + 256 * (d[9] as int) == 480),
{
    if d.len() >= 10 {
        assert(d.subrange(0, 3)[0] == d[0]);
        assert(d.subrange(0, 3)[1] == d[1]);
        assert(d.subrange(0, 3)[2] == d[2]);
        if d[0] == 0x47u8 && d[1] == 0x49u8 && d[2] == 0x46u8 {
            assert(d.subrange(0, 3) =~= seq![0x47u8, 0x49u8, 0x46u8]);
        }
    }
}

} // verus!
