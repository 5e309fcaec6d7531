use node_controller::models::{CpuCoreCount, MemoryInfo, SwapInfo};
use node_controller::system::{HardwareInfo, PowerInfo};
use node_controller::wireless::WifiInfo;

fn wifi(rssi: i32, noise: i32) -> WifiInfo {
    WifiInfo {
        ssid: "net".to_string(),
        channel: 36,
        rssi,
        noise,
        tx_rate: 866,
        auth_type: "WPA2".to_string(),
    }
}

#[test]
fn signal_quality_bands() {
    assert_eq!(wifi(-50, -90).signal_quality(), "Excellent");
    assert_eq!(wifi(-51, -90).signal_quality(), "Good");
    assert_eq!(wifi(-60, -90).signal_quality(), "Good");
    assert_eq!(wifi(-70, -90).signal_quality(), "Fair");
    assert_eq!(wifi(-71, -90).signal_quality(), "Poor");
}

#[test]
fn signal_to_noise() {
    assert_eq!(wifi(-55, -92).snr(), 37);
}

#[test]
fn plain_records_compare_by_fields() {
    let m = MemoryInfo { total: 8, used: 4, active: 2, available: 4, swap: Some(SwapInfo { total: 1, used: 0 }) };
    assert_eq!(m, m.clone());
    assert_ne!(CpuCoreCount { physical: 4, logical: 8 }, CpuCoreCount { physical: 4, logical: 4 });
}

#[test]
fn hardware_and_power_defaults() {
    let h = HardwareInfo::default();
    assert_eq!(h.model_name, "");
    assert_eq!(h.core_count, 0);
    assert!(h.gpu_info.is_empty());
    assert_eq!(h.serial_number, None);
    let p = PowerInfo::default();
    assert_eq!(p.power_source, "Unknown");
    assert!(!p.battery_present);
    assert!(!p.charging);
    assert_eq!(p.time_remaining, None);
}
