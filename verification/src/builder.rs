//! Replacing GIF sources in a profile, and building and flashing with
//! ESP-IDF: the checks, the commands, and what is reported back.

use vstd::prelude::*;
use crate::profile::{contains_name, strs, ProfileInfo};
use crate::text::{
    cat, chars_of, contains_exec, contains_seq, from_utf8_lossy, join_strings, seq_join,
    signed_decimal, signed_decimal_exec, string_of, utf8_lossy,
};

verus! {

/// Errors of the build and flash operations.
#[derive(Debug, Clone)]
pub enum BuilderError {
    InvalidEmotion(String, Vec<String>),
    WriteError(String),
    PermissionDenied(String),
    IdfNotFound(String),
    BuildFailed(i32, String),
}

impl BuilderError {
    /// The message shown for this error.
    pub open spec fn text(self) -> Seq<char> {
        match self {
            BuilderError::InvalidEmotion(e, valid) => "'"@ + e@
                + "' is not a valid emotion for this profile.\nValid emotions: "@ + seq_join(
                strs(valid@),
                ", "@,
            ),
            BuilderError::WriteError(m) => "Write error: "@ + m@,
            BuilderError::PermissionDenied(p) => "Cannot write to "@ + p@
                + ". Check file permissions."@,
            BuilderError::IdfNotFound(m) => "ESP-IDF not found. "@ + m@,
            BuilderError::BuildFailed(code, m) => "Build failed with exit code "@ + signed_decimal(
                code as int,
            ) + ": "@ + m@,
        }
    }

    pub fn message(&self) -> (m: String)
        ensures
            m@ == self.text(),
    {
        match self {
            BuilderError::InvalidEmotion(e, valid) => {
                let a = cat("'", e.as_str());
                let b = cat(a.as_str(), "' is not a valid emotion for this profile.\nValid emotions: ");
                let j = join_strings(valid, ", ");
                assert(strs(valid@) == valid@.map_values(|v: String| v@));
                cat(b.as_str(), j.as_str())
            },
            BuilderError::WriteError(m) => cat("Write error: ", m.as_str()),
            BuilderError::PermissionDenied(p) => {
                let a = cat("Cannot write to ", p.as_str());
                cat(a.as_str(), ". Check file permissions.")
            },
            BuilderError::IdfNotFound(m) => cat("ESP-IDF not found. ", m.as_str()),
            BuilderError::BuildFailed(code, m) => {
                let d = string_of(&signed_decimal_exec(*code as i64));
                let a = cat("Build failed with exit code ", d.as_str());
                let b = cat(a.as_str(), ": ");
                cat(b.as_str(), m.as_str())
            },
        }
    }
}

/// The outcome of a build, flash or conversion run.
#[derive(Debug, Clone)]
pub struct BuildResult {
    pub success: bool,
    pub exit_code: i32,
    pub output: String,
}

/// Validates that `emotion` is one of the profile's slots.
pub fn validate_emotion(profile: &ProfileInfo, emotion: &str) -> (r: Result<(), BuilderError>)
    ensures
        strs(profile.emotions@).contains(emotion@) ==> r is Ok,
        !strs(profile.emotions@).contains(emotion@) ==> (r matches Err(
            BuilderError::InvalidEmotion(e, valid),
        ) && e@ == emotion@ && strs(valid@) == strs(profile.emotions@)),
{
    if !contains_name(&profile.emotions, emotion) {
        let valid = profile.emotions.clone();
        assert(strs(valid@) =~= strs(profile.emotions@)) by {
            assert forall|k: int| 0 <= k < valid@.len() implies valid@[k]@ == profile.emotions@[k]@ by {
            }
        }
        return Err(BuilderError::InvalidEmotion(String::from_str(emotion), valid));
    }
    Ok(())
}

/// The error for a failed write of a GIF source to `path`.
pub fn write_error(path: &str, permission_denied: bool, detail: &str) -> (r: BuilderError)
    ensures
        permission_denied ==> (r matches BuilderError::PermissionDenied(p) && p@ == path@),
        !permission_denied ==> (r matches BuilderError::WriteError(m) && m@ == path@ + ": "@
            + detail@),
{
    if permission_denied {
        BuilderError::PermissionDenied(String::from_str(path))
    } else {
        let a = cat(path, ": ");
        BuilderError::WriteError(cat(a.as_str(), detail))
    }
}

/// The ESP-IDF install under a home folder that the firmware needs.
pub open spec fn known_idf(home: Seq<char>) -> Seq<char> {
    home + "/esp/esp-idf-v5.5.2"@
}

pub fn known_idf_path(home: &str) -> (r: String)
    ensures
        r@ == known_idf(home@),
{
    cat(home, "/esp/esp-idf-v5.5.2")
}

/// The ESP-IDF install to use: the known v5.5.2 checkout when it has an
/// `export.sh`, else `$IDF_PATH`.
pub fn resolve_idf_path(known: Option<String>, known_has_export: bool, idf_path_env: Option<String>) -> (r:
    Result<String, BuilderError>)
    ensures
        known is Some && known_has_export ==> r == Ok::<String, BuilderError>(known->0),
        !(known is Some && known_has_export) ==> match idf_path_env {
            Some(v) => r == Ok::<String, BuilderError>(v),
            None => (r matches Err(BuilderError::IdfNotFound(m)) && m@
                == "ESP-IDF v5.5.2 not found. Install it at ~/esp/esp-idf-v5.5.2 or set $IDF_PATH."@),
        },
{
    match known {
        Some(k) => if known_has_export {
            return Ok(k);
        },
        None => {},
    }
    match idf_path_env {
        Some(v) => Ok(v),
        None => Err(
            BuilderError::IdfNotFound(
                String::from_str(
                    "ESP-IDF v5.5.2 not found. Install it at ~/esp/esp-idf-v5.5.2 or set $IDF_PATH.",
                ),
            ),
        ),
    }
}

pub open spec fn env_prelude(idf: Seq<char>) -> Seq<char> {
    "unset IDF_PATH IDF_PYTHON_ENV_PATH VIRTUAL_ENV; source "@ + idf + "/export.sh && "@
}

/// The shell command that builds the project with the ESP-IDF at `idf`.
pub fn build_command(idf: &str) -> (r: String)
    ensures
        r@ == env_prelude(idf@) + "idf.py build"@,
{
    let a = cat("unset IDF_PATH IDF_PYTHON_ENV_PATH VIRTUAL_ENV; source ", idf);
    let b = cat(a.as_str(), "/export.sh && ");
    cat(b.as_str(), "idf.py build")
}

/// The shell command that flashes the board on `port`.
pub fn flash_command(idf: &str, port: &str) -> (r: String)
    ensures
        r@ == env_prelude(idf@) + "idf.py -p "@ + port@ + " flash"@,
{
    let a = cat("unset IDF_PATH IDF_PYTHON_ENV_PATH VIRTUAL_ENV; source ", idf);
    let b = cat(a.as_str(), "/export.sh && ");
    let c = cat(b.as_str(), "idf.py -p ");
    let d = cat(c.as_str(), port);
    cat(d.as_str(), " flash")
}

/// The error when the serial device is not there.
pub fn missing_device_error(port: &str) -> (r: BuilderError)
    ensures
        r matches BuilderError::WriteError(m) && m@ == "Device not found at "@ + port@
            + ". Check connection and try: ls /dev/cu.*"@,
{
    let a = cat("Device not found at ", port);
    BuilderError::WriteError(cat(a.as_str(), ". Check connection and try: ls /dev/cu.*"))
}

/// The output of a command: its standard output, a newline, its standard
/// error, each read as UTF-8 with U+FFFD for invalid sequences.
pub open spec fn combined_output(stdout: Seq<u8>, stderr: Seq<u8>) -> Seq<char> {
    utf8_lossy(stdout) + "\n"@ + utf8_lossy(stderr)
}

pub fn command_output(stdout: &[u8], stderr: &[u8]) -> (r: String)
    ensures
        r@ == combined_output(stdout@, stderr@),
{
    let o = from_utf8_lossy(stdout);
    let e = from_utf8_lossy(stderr);
    let a = cat(o.as_str(), "\n");
    cat(a.as_str(), e.as_str())
}

/// The exit code reported for a run: the process's, or -1 when it had none
/// (it was killed by a signal).
pub open spec fn exit_code_of(code: Option<i32>) -> i32 {
    match code {
        Some(c) => c,
        None => -1i32,
    }
}

/// The result of a build run.
pub fn build_result(success: bool, code: Option<i32>, stdout: &[u8], stderr: &[u8]) -> (r: BuildResult)
    ensures
        r.success == success,
        r.exit_code == exit_code_of(code),
        r.output@ == combined_output(stdout@, stderr@),
{
    let exit_code = match code {
        Some(c) => c,
        None => -1,
    };
    BuildResult { success, exit_code, output: command_output(stdout, stderr) }
}

pub open spec fn permission_hint() -> Seq<char> {
    "\n\nHint: Add your user to dialout group: sudo usermod -a -G dialout $USER"@
}

pub open spec fn busy_hint() -> Seq<char> {
    "\n\nHint: Close any serial monitors (screen, minicom, idf.py monitor)"@
}

/// The flash output with a hint for the common serial port failures.
pub open spec fn flash_report(out: Seq<char>) -> Seq<char> {
    if contains_seq(out, "Permission denied"@) {
        out + permission_hint()
    } else if contains_seq(out, "Device or resource busy"@) {
        out + busy_hint()
    } else {
        out
    }
}

/// The result of a flash run, with a hint added to its output for the
/// common serial port failures.
pub fn flash_result(success: bool, code: Option<i32>, stdout: &[u8], stderr: &[u8]) -> (r: BuildResult)
    ensures
        r.success == success,
        r.exit_code == exit_code_of(code),
        r.output@ == flash_report(combined_output(stdout@, stderr@)),
{
    let combined = command_output(stdout, stderr);
    let c = chars_of(combined.as_str());
    let denied = chars_of("Permission denied");
    let busy = chars_of("Device or resource busy");
    let output = if contains_exec(&c, &denied) {
        cat(
            combined.as_str(),
            "\n\nHint: Add your user to dialout group: sudo usermod -a -G dialout $USER",
        )
    } else if contains_exec(&c, &busy) {
        cat(combined.as_str(), "\n\nHint: Close any serial monitors (screen, minicom, idf.py monitor)")
    } else {
        combined
    };
    let exit_code = match code {
        Some(c) => c,
        None => -1,
    };
    BuildResult { success, exit_code, output }
}

} // verus!
