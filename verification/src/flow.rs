//! Building and flashing after a change, as a sequence of steps: sync the
//! generated `sdkconfig`, build, then flash; the decisions between the
//! steps, and the messages reported, are made here.

use vstd::prelude::*;
use crate::text::{cat, signed_decimal, signed_decimal_exec, string_of};

verus! {

/// Which change the build and flash follows; it decides the message on
/// success.
#[derive(Debug, Clone, Copy, PartialEq, Eq, Structural)]
pub enum FlowKind {
    Plain,
    ReplaceGif,
    DefaultEmotion,
}

/// Where a build and flash stands.
#[derive(Debug, Clone, Copy, PartialEq, Eq, Structural)]
pub enum FlowState {
    AwaitSync,
    AwaitBuild,
    AwaitFlash,
    Done,
}

/// What the last step reported.
#[derive(Debug)]
pub enum FlowEvent {
    /// The generated `sdkconfig` was synced, or why not.
    Synced(Result<(), String>),
    /// The build ran to its end.
    BuildFinished { success: bool, exit_code: i32 },
    /// The build could not be run (the error's message).
    BuildError(String),
    /// The build task itself failed (its message).
    BuildTaskError(String),
    /// The flash ran to its end.
    FlashFinished { success: bool, exit_code: i32 },
    /// The flash could not be run (the error's message).
    FlashError(String),
    /// The flash task itself failed (its message).
    FlashTaskError(String),
}

/// The answer given at the end of a build and flash.
#[derive(Debug, Clone)]
pub struct FlowResponse {
    pub success: bool,
    pub message: String,
}

/// What to do next.
#[derive(Debug)]
pub enum FlowCommand {
    SyncSdkconfig,
    Build,
    Flash,
    Finish(Result<FlowResponse, String>),
}

/// The commands without their payload.
#[derive(Debug, Clone, Copy, PartialEq, Eq, Structural)]
pub enum CommandKind {
    SyncSdkconfig,
    Build,
    Flash,
    Finish,
}

/// A step: the new state, the lines to log, and the next command.
#[derive(Debug)]
pub struct FlowStep {
    pub state: FlowState,
    pub logs: Vec<String>,
    pub command: FlowCommand,
}

pub open spec fn command_kind(c: FlowCommand) -> CommandKind {
    match c {
        FlowCommand::SyncSdkconfig => CommandKind::SyncSdkconfig,
        FlowCommand::Build => CommandKind::Build,
        FlowCommand::Flash => CommandKind::Flash,
        FlowCommand::Finish(_) => CommandKind::Finish,
    }
}

/// The events that can follow a state.
pub open spec fn event_fits(state: FlowState, event: FlowEvent) -> bool {
    match state {
        FlowState::AwaitSync => event is Synced,
        FlowState::AwaitBuild => event is BuildFinished || event is BuildError
            || event is BuildTaskError,
        FlowState::AwaitFlash => event is FlashFinished || event is FlashError
            || event is FlashTaskError,
        FlowState::Done => false,
    }
}

/// The state after `event`.
pub open spec fn next_state(state: FlowState, event: FlowEvent) -> FlowState {
    match event {
        FlowEvent::Synced(Ok(_)) => FlowState::AwaitBuild,
        FlowEvent::BuildFinished { success, exit_code } => if success {
            FlowState::AwaitFlash
        } else {
            FlowState::Done
        },
        _ => FlowState::Done,
    }
}

/// The command after `event`.
pub open spec fn next_command(state: FlowState, event: FlowEvent) -> CommandKind {
    match event {
        FlowEvent::Synced(Ok(_)) => CommandKind::Build,
        FlowEvent::BuildFinished { success, exit_code } => if success {
            CommandKind::Flash
        } else {
            CommandKind::Finish
        },
        _ => CommandKind::Finish,
    }
}

pub open spec fn success_message(kind: FlowKind) -> Seq<char> {
    match kind {
        FlowKind::Plain => "✅ Done! Build and flash complete."@,
        FlowKind::ReplaceGif => "✅ Done! GIF updated on board."@,
        FlowKind::DefaultEmotion => "✅ Done! Default emotion updated on board."@,
    }
}

pub open spec fn is_answer(c: FlowCommand, success: bool, message: Seq<char>) -> bool {
    c matches FlowCommand::Finish(Ok(resp)) && resp.success == success && resp.message@ == message
}

pub open spec fn is_failure(c: FlowCommand, message: Seq<char>) -> bool {
    c matches FlowCommand::Finish(Err(m)) && m@ == message
}

pub open spec fn strs_of(v: Seq<String>) -> Seq<Seq<char>> {
    v.map_values(|s: String| s@)
}

/// The first step: sync the generated `sdkconfig`.
pub fn flow_start() -> (r: FlowStep)
    ensures
        r.state == FlowState::AwaitSync,
        r.logs.len() == 0,
        r.command matches FlowCommand::SyncSdkconfig,
{
    FlowStep { state: FlowState::AwaitSync, logs: Vec::new(), command: FlowCommand::SyncSdkconfig }
}

fn success_text(kind: FlowKind) -> (r: String)
    ensures
        r@ == success_message(kind),
{
    match kind {
        FlowKind::Plain => String::from_str("✅ Done! Build and flash complete."),
        FlowKind::ReplaceGif => String::from_str("✅ Done! GIF updated on board."),
        FlowKind::DefaultEmotion => String::from_str("✅ Done! Default emotion updated on board."),
    }
}

fn with_code(prefix: &str, code: i32) -> (r: String)
    ensures
        r@ == prefix@ + signed_decimal(code as int),
{
    let d = string_of(&signed_decimal_exec(code as i64));
    cat(prefix, d.as_str())
}

fn finish(state: FlowState, c: FlowCommand) -> (r: FlowStep)
    ensures
        r.state == state,
        r.logs.len() == 0,
        r.command == c,
{
    FlowStep { state, logs: Vec::new(), command: c }
}

/// The step after `event`, for a flow of `kind` that flashes on `port`.
pub fn flow_step(state: FlowState, kind: FlowKind, port: &str, event: FlowEvent) -> (r: FlowStep)
    requires
        event_fits(state, event),
    ensures
        r.state == next_state(state, event),
        command_kind(r.command) == next_command(state, event),
        match event {
            FlowEvent::Synced(Ok(_)) => strs_of(r.logs@) == seq![
                "🔨 Starting build (this takes 2-3 minutes)..."@,
            ],
            FlowEvent::Synced(Err(e)) => is_failure(r.command, e@) && r.logs.len() == 0,
            FlowEvent::BuildError(e) => is_failure(r.command, e@) && r.logs.len() == 0,
            FlowEvent::BuildTaskError(e) => is_failure(r.command, "Build task error: "@ + e@)
                && r.logs.len() == 0,
            FlowEvent::BuildFinished { success, exit_code } => if success {
                strs_of(r.logs@) == seq![
                    "✓ Build succeeded"@,
                    "⚡ Starting flash to "@ + port@ + "..."@,
                ]
            } else {
                is_answer(
                    r.command,
                    false,
                    "Build failed with exit code "@ + signed_decimal(exit_code as int),
                ) && r.logs.len() == 0
            },
            FlowEvent::FlashError(e) => is_failure(r.command, e@) && r.logs.len() == 0,
            FlowEvent::FlashTaskError(e) => is_failure(r.command, "Flash task error: "@ + e@)
                && r.logs.len() == 0,
            FlowEvent::FlashFinished { success, exit_code } => (if success {
                is_answer(r.command, true, success_message(kind))
            } else {
                is_answer(
                    r.command,
                    false,
                    "Flash failed with exit code "@ + signed_decimal(exit_code as int),
                )
            }) && r.logs.len() == 0,
        },
{
    match event {
        FlowEvent::Synced(Ok(_)) => {
            let mut logs: Vec<String> = Vec::new();
            logs.push(String::from_str("🔨 Starting build (this takes 2-3 minutes)..."));
            assert(strs_of(logs@) =~= seq!["🔨 Starting build (this takes 2-3 minutes)..."@]);
            FlowStep { state: FlowState::AwaitBuild, logs, command: FlowCommand::Build }
        },
        FlowEvent::Synced(Err(e)) => finish(FlowState::Done, FlowCommand::Finish(Err(e))),
        FlowEvent::BuildError(e) => finish(FlowState::Done, FlowCommand::Finish(Err(e))),
        FlowEvent::BuildTaskError(e) => {
            let m = cat("Build task error: ", e.as_str());
            finish(FlowState::Done, FlowCommand::Finish(Err(m)))
        },
        FlowEvent::BuildFinished { success, exit_code } => {
            if success {
                let mut logs: Vec<String> = Vec::new();
                logs.push(String::from_str("✓ Build succeeded"));
                let a = cat("⚡ Starting flash to ", port);
                logs.push(cat(a.as_str(), "..."));
                assert(strs_of(logs@) =~= seq![
                    "✓ Build succeeded"@,
                    "⚡ Starting flash to "@ + port@ + "..."@,
                ]);
                FlowStep { state: FlowState::AwaitFlash, logs, command: FlowCommand::Flash }
            } else {
                let message = with_code("Build failed with exit code ", exit_code);
                finish(
                    FlowState::Done,
                    FlowCommand::Finish(Ok(FlowResponse { success: false, message })),
                )
            }
        },
        FlowEvent::FlashError(e) => finish(FlowState::Done, FlowCommand::Finish(Err(e))),
        FlowEvent::FlashTaskError(e) => {
            let m = cat("Flash task error: ", e.as_str());
            finish(FlowState::Done, FlowCommand::Finish(Err(m)))
        },
        FlowEvent::FlashFinished { success, exit_code } => {
            let message = if success {
                success_text(kind)
            } else {
                with_code("Flash failed with exit code ", exit_code)
            };
            finish(FlowState::Done, FlowCommand::Finish(Ok(FlowResponse { success, message })))
        },
    }
}

/// The board is flashed only right after a build that succeeded.
pub proof fn law_flash_only_after_successful_build(state: FlowState, event: FlowEvent)
    requires
        event_fits(state, event),
    ensures
        next_command(state, event) == CommandKind::Flash ==> state == FlowState::AwaitBuild
            && (event matches FlowEvent::BuildFinished { success, .. } && success),
{
}

/// A build starts only right after the generated `sdkconfig` was synced.
pub proof fn law_build_only_after_sync(state: FlowState, event: FlowEvent)
    requires
        event_fits(state, event),
    ensures
        next_command(state, event) == CommandKind::Build ==> state == FlowState::AwaitSync && (
        event matches FlowEvent::Synced(Ok(_))),
{
}

/// A build that succeeded is followed by flashing the board: the flow
/// moves on to await the flash and asks for it.
pub proof fn law_successful_build_is_flashed(exit_code: i32)
    ensures
        event_fits(FlowState::AwaitBuild, FlowEvent::BuildFinished { success: true, exit_code }),
        next_command(FlowState::AwaitBuild, FlowEvent::BuildFinished { success: true, exit_code })
            == CommandKind::Flash,
        next_state(FlowState::AwaitBuild, FlowEvent::BuildFinished { success: true, exit_code })
            == FlowState::AwaitFlash,
{
}

/// A successful sync is followed by the build, and a failed build or any
/// error ends the flow without flashing.
pub proof fn law_sync_builds_and_failures_end(state: FlowState, event: FlowEvent)
    requires
        event_fits(state, event),
    ensures
        (event matches FlowEvent::Synced(Ok(_))) ==> next_command(state, event) == CommandKind::Build
            && next_state(state, event) == FlowState::AwaitBuild,
        (event matches FlowEvent::BuildFinished { success, .. } && !success) ==> next_command(
            state,
            event,
        ) == CommandKind::Finish && next_state(state, event) == FlowState::Done,
        (event is FlashFinished || event is FlashError || event is FlashTaskError || event is BuildError
            || event is BuildTaskError || event matches FlowEvent::Synced(Err(_))) ==> next_command(
            state,
            event,
        ) == CommandKind::Finish && next_state(state, event) == FlowState::Done,
{
}

} // verus!
