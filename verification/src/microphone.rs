//! What the options page shows about the microphone: which device is
//! connected, and whether (and with which message) the warning banner
//! stands in for the device picker.
use vstd::prelude::*;

verus! {

/// The state of audio capture.
#[derive(Debug, PartialEq, Eq)]
pub enum MicStatus {
    Connected { device_name: String },
    Failed { reason: String },
    AwaitingPermission,
}

impl MicStatus {
    /// Whether capture is running.
    pub fn is_connected(&self) -> (r: bool)
        ensures
            r == self is Connected,
    {
        match self {
            MicStatus::Connected { .. } => true,
            _ => false,
        }
    }
}

/// The name of the device actually connected right now, or `None` while
/// capture failed or waits for permission — so the picker highlights
/// reality, not a saved preference.
pub fn connected_device_name(status: &MicStatus) -> (name: Option<&str>)
    ensures
        status is Connected <==> name is Some,
        name matches Some(n) ==> n@ == status->device_name@,
{
    match status {
        MicStatus::Connected { device_name } => Some(device_name.as_str()),
        MicStatus::Failed { .. } | MicStatus::AwaitingPermission => None,
    }
}

/// Whether the warning banner (and the picker it stands in for) shows:
/// anything other than a working connection.
pub fn mic_banner_visible(status: &MicStatus) -> (r: bool)
    ensures
        r == !(status is Connected),
{
    !status.is_connected()
}

/// The banner's message key for `status`.
pub open spec fn spec_mic_banner_key(status: MicStatus) -> Option<Seq<char>> {
    match status {
        MicStatus::Connected { .. } => None,
        MicStatus::AwaitingPermission => Some("options-mic-awaiting-permission"@),
        MicStatus::Failed { .. } => Some("options-mic-failed"@),
    }
}

/// Which message key the banner uses, or `None` when connected.
pub fn mic_banner_key(status: &MicStatus) -> (key: Option<&'static str>)
    ensures
        key is None <==> spec_mic_banner_key(*status) is None,
        key matches Some(k) ==> spec_mic_banner_key(*status) == Some(k@),
{
    match status {
        MicStatus::Connected { .. } => None,
        MicStatus::AwaitingPermission => Some("options-mic-awaiting-permission"),
        MicStatus::Failed { .. } => Some("options-mic-failed"),
    }
}

/// The banner is hidden exactly when the microphone works, and every
/// status it shows has a message of its own.
pub proof fn law_the_banner_speaks_whenever_it_shows(status: MicStatus)
    ensures
        !(status is Connected) <==> spec_mic_banner_key(status) is Some,
{
}

} // verus!
