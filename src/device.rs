//! The commands that drive the headset during a capture.
//!
//! The library only says what to run; the caller runs it.
use vstd::prelude::*;

verus! {

pub open spec fn enable_metrics_command() -> Seq<char> {
    "am broadcast -n com.oculus.ovrmonitormetricsservice/.SettingsBroadcastReceiver -a com.oculus.ovrmonitormetricsservice.ENABLE_CSV"@
}

pub open spec fn disable_metrics_command() -> Seq<char> {
    "am broadcast -n com.oculus.ovrmonitormetricsservice/.SettingsBroadcastReceiver -a com.oculus.ovrmonitormetricsservice.DISABLE_CSV"@
}

pub open spec fn stop_command() -> Seq<char> {
    "am force-stop rust.the_station"@
}

pub open spec fn start_command() -> Seq<char> {
    "am start rust.the_station/android.app.NativeActivity"@
}

/// One step of launching the application.
#[derive(Clone, Debug)]
pub enum LaunchStep {
    /// Run this command in the device's shell.
    Shell(String),
    /// Build the application package on the host.
    Build,
    /// Install the built package on the device.
    Install,
}

/// The device shell command that turns the compositor's metrics log on.
pub fn enable_ovr_metrics() -> (r: String)
    ensures
        r@ == enable_metrics_command(),
{
    String::from_str(
        "am broadcast -n com.oculus.ovrmonitormetricsservice/.SettingsBroadcastReceiver -a com.oculus.ovrmonitormetricsservice.ENABLE_CSV",
    )
}

/// The device shell command that turns the compositor's metrics log off.
pub fn disable_ovr_metrics() -> (r: String)
    ensures
        r@ == disable_metrics_command(),
{
    String::from_str(
        "am broadcast -n com.oculus.ovrmonitormetricsservice/.SettingsBroadcastReceiver -a com.oculus.ovrmonitormetricsservice.DISABLE_CSV",
    )
}

/// The device shell command that stops the application.
pub fn kill() -> (r: String)
    ensures
        r@ == stop_command(),
{
    String::from_str("am force-stop rust.the_station")
}

/// The steps that (re)launch the application: stop it, build and install it,
/// then start it.
pub fn launch() -> (r: Vec<LaunchStep>)
    ensures
        r@.len() == 4,
        r@[0] matches LaunchStep::Shell(s) && s@ == stop_command(),
        r@[1] is Build,
        r@[2] is Install,
        r@[3] matches LaunchStep::Shell(s) && s@ == start_command(),
{
    let mut steps: Vec<LaunchStep> = Vec::new();
    steps.push(LaunchStep::Shell(kill()));
    steps.push(LaunchStep::Build);
    steps.push(LaunchStep::Install);
    steps.push(LaunchStep::Shell(String::from_str("am start rust.the_station/android.app.NativeActivity")));
    steps
}

} // verus!
