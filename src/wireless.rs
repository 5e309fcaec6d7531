//! Link details of a network interface and its WiFi signal.

use vstd::prelude::*;

verus! {

/// State of a WiFi link.
#[derive(Debug, Clone)]
pub struct WifiInfo {
    pub ssid: String,
    pub channel: u32,
    /// Signal strength in dBm.
    pub rssi: i32,
    /// Noise level in dBm.
    pub noise: i32,
    /// Transmission rate in Mbps.
    pub tx_rate: u32,
    /// Authentication type, such as WPA2.
    pub auth_type: String,
}

/// Link details of a network interface.
#[derive(Debug, Clone)]
pub struct InterfaceInfo {
    pub interface_type: String,
    pub mac: String,
    pub ipv4: String,
    pub ipv6: String,
    /// Link speed in Mbps.
    pub speed: u64,
    pub status: String,
    pub mtu: u32,
    pub duplex: String,
    pub media_type: String,
    pub supports_ipv6: bool,
    pub wifi_info: Option<WifiInfo>,
}

/// The quality band of a signal strength in dBm.
pub open spec fn quality_of(rssi: i32) -> Seq<char> {
    if rssi >= -50 {
        "Excellent"@
    } else if rssi >= -60 {
        "Good"@
    } else if rssi >= -70 {
        "Fair"@
    } else {
        "Poor"@
    }
}

impl WifiInfo {
    /// The quality band of the signal: at least -50 dBm is excellent, at
    /// least -60 good, at least -70 fair, anything weaker poor.
    pub fn signal_quality(&self) -> (r: &'static str)
        ensures
            r@ == quality_of(self.rssi),
    {
        if self.rssi >= -50 {
            "Excellent"
        } else if self.rssi >= -60 {
            "Good"
        } else if self.rssi >= -70 {
            "Fair"
        } else {
            "Poor"
        }
    }

    /// Signal-to-noise ratio in dB.
    pub fn snr(&self) -> (r: i32)
        requires
            i32::MIN <= self.rssi - self.noise <= i32::MAX,
        ensures
            r == self.rssi - self.noise,
    {
        self.rssi - self.noise
    }
}

} // verus!
