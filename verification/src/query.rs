//! The device query surface this client keeps for itself: the configuration
//! requests it can phrase, the schedule conversion, and the decision that
//! maps a firmware upload's reply onto an error. The HTTP transport, the
//! wire-schema conversion of the requests, and the streaming upload belong
//! to the host around this crate.

use vstd::prelude::*;

verus! {

/// Errors of a firmware upgrade, as the station's reply body names them.
#[derive(Debug, PartialEq, Eq, Structural, Clone, Copy)]
pub enum UpgradeError {
    /// A server-class status with no recognized cause.
    Server,
    /// An unrecognized failure.
    Other,
    /// The station has no storage card.
    SdCardMissing,
    /// The station could not write or replace the file on its card.
    SdCardIo,
    /// The upload's own input could not be read.
    Io,
}

/// The JSON body a firmware upload answers with.
#[derive(Debug)]
pub struct UpgradeBody {
    pub sd_card: Option<bool>,
    pub incomplete: Option<bool>,
    pub length: Option<bool>,
    pub unlink: Option<bool>,
    pub create: Option<bool>,
    pub success: Option<bool>,
    pub hash: Option<String>,
}

impl UpgradeBody {
    /// The error a reply body names: a missing card first, then card
    /// trouble while creating or unlinking, else a plain server error.
    pub fn upgrade_error(&self) -> (r: UpgradeError)
        ensures
            r == (if self.sd_card == Some(true) {
                UpgradeError::SdCardMissing
            } else if self.create == Some(true) {
                UpgradeError::SdCardIo
            } else if self.unlink == Some(true) {
                UpgradeError::SdCardIo
            } else {
                UpgradeError::Server
            }),
    {
        if self.sd_card == Some(true) {
            UpgradeError::SdCardMissing
        } else if self.create == Some(true) {
            UpgradeError::SdCardIo
        } else if self.unlink == Some(true) {
            UpgradeError::SdCardIo
        } else {
            UpgradeError::Server
        }
    }
}

/// What an upload run reports in-band: nothing unless the response carried
/// a server-class status; then the body's error, or a plain server error
/// when no body could be read.
pub fn upload_outcome(server_error: bool, body: Option<&UpgradeBody>) -> (r: Option<UpgradeError>)
    ensures
        !server_error ==> r is None,
        server_error ==> r == Some(
            match body {
                Some(b) => if b.sd_card == Some(true) {
                    UpgradeError::SdCardMissing
                } else if b.create == Some(true) {
                    UpgradeError::SdCardIo
                } else if b.unlink == Some(true) {
                    UpgradeError::SdCardIo
                } else {
                    UpgradeError::Server
                },
                None => UpgradeError::Server,
            },
        ),
{
    if !server_error {
        None
    } else {
        match body {
            Some(b) => Some(b.upgrade_error()),
            None => Some(UpgradeError::Server),
        }
    }
}

/// A schedule this client can phrase: a fixed interval in seconds.
#[derive(Debug, PartialEq, Eq, Structural, Clone, Copy)]
pub enum SimpleSchedule {
    Every(u64),
}

/// A wire schedule this client cannot phrase.
#[derive(Debug, PartialEq, Eq, Structural, Clone, Copy)]
pub enum ScheduleError {
    Unsupported,
}

impl SimpleSchedule {
    /// A wire schedule as a simple one: a positive interval, or nothing
    /// this client understands.
    pub fn try_from_interval(interval: u32) -> (r: Result<SimpleSchedule, ScheduleError>)
        ensures
            interval > 0 ==> r == Ok::<SimpleSchedule, ScheduleError>(
                SimpleSchedule::Every(interval as u64),
            ),
            interval == 0 ==> r == Err::<SimpleSchedule, ScheduleError>(ScheduleError::Unsupported),
    {
        if interval > 0 {
            Ok(SimpleSchedule::Every(interval as u64))
        } else {
            Err(ScheduleError::Unsupported)
        }
    }

    /// The interval the wire schedule carries back.
    pub fn interval_secs(&self) -> (r: u64)
        ensures
            self == SimpleSchedule::Every(r),
    {
        match self {
            SimpleSchedule::Every(secs) => *secs,
        }
    }
}

/// A request to switch Wi-Fi transmission on or off, with an optional
/// upload token, endpoint and cadence.
#[derive(Debug)]
pub struct ConfigureWifiTransmission {
    pub enabled: bool,
    pub token: Option<String>,
    pub url: Option<String>,
    pub schedule: Option<SimpleSchedule>,
}

/// One Wi-Fi network a station may join.
#[derive(Debug)]
pub struct WifiNetwork {
    pub ssid: Option<String>,
    pub password: Option<String>,
    pub preferred: bool,
    pub keeping: bool,
}

/// A request to replace the station's known networks.
#[derive(Debug)]
pub struct ConfigureWifiNetworks {
    pub networks: Vec<WifiNetwork>,
}

/// A request to configure LoRa transmission.
#[derive(Debug)]
pub struct ConfigureLoraTransmission {
    pub enabled: bool,
    pub verify: bool,
    pub app_key: Option<Vec<u8>>,
    pub join_eui: Option<Vec<u8>>,
    pub band: Option<u32>,
    pub schedule: Option<SimpleSchedule>,
}

impl ConfigureLoraTransmission {
    /// The frequency band sent on the wire; the regional default when the
    /// request names none.
    pub fn band_or_default(&self) -> (r: u32)
        ensures
            r == (match self.band {
                Some(b) => b,
                None => 915u32,
            }),
    {
        match self.band {
            Some(b) => b,
            None => 915,
        }
    }
}

/// What a firmware upgrade uploads: the bootloader image, the main image,
/// whether the station swaps banks afterwards, and an optional per-second
/// rate cap (zero meaning none was given).
#[derive(Debug)]
pub struct UpgradeOptions {
    pub bootloader: String,
    pub main: String,
    pub swap: bool,
    pub limited: Option<u32>,
}

/// A reply both raw and decoded, for callers that keep the bytes.
#[derive(Debug)]
pub struct RawAndDecoded<T> {
    pub bytes: Vec<u8>,
    pub decoded: T,
}

/// A marker a host can hold to observe when an upload stream is dropped.
#[derive(Debug)]
pub struct LogDrop {}

/// Progress of a two-file upload: how much of earlier files was already
/// sent, and the total of all files.
#[derive(Debug, Clone, Copy)]
pub struct BaseProgress(pub u64, pub u64);

/// A progress report handed to the upload's listener.
#[derive(Debug, PartialEq, Eq, Structural, Clone, Copy)]
pub struct BytesUploaded {
    pub bytes_uploaded: u64,
    pub total_bytes: u64,
}

impl BaseProgress {
    /// Progress after `bytes` more of the current file went out.
    pub fn uploaded(&self, bytes: u64) -> (r: BytesUploaded)
        requires
            self.0 + bytes <= u64::MAX,
        ensures
            r.bytes_uploaded == self.0 + bytes,
            r.total_bytes == self.1,
    {
        BytesUploaded { bytes_uploaded: bytes + self.0, total_bytes: self.1 }
    }
}

} // verus!
