//! Hardware description of the machine the agent runs on.

use vstd::prelude::*;
use vstd::string::StringExecFns;

verus! {

/// A graphics processor.
#[derive(Debug, Clone)]
pub struct GpuInfo {
    pub name: String,
    pub vendor: String,
    /// Memory in bytes, when known.
    pub memory_size: Option<u64>,
    pub device_id: String,
}

/// The machine's hardware.
#[derive(Debug, Clone)]
pub struct HardwareInfo {
    pub model_name: String,
    pub model_identifier: String,
    pub processor_name: String,
    pub processor_speed: String,
    pub processor_count: u32,
    pub core_count: u32,
    /// Memory in bytes.
    pub memory_size: u64,
    pub memory_type: String,
    pub gpu_info: Vec<GpuInfo>,
    pub serial_number: Option<String>,
}

/// Power source and battery state.
#[derive(Debug, Clone)]
pub struct PowerInfo {
    pub power_source: String,
    pub battery_present: bool,
    pub battery_cycle_count: Option<u32>,
    /// Battery capacity in percent.
    pub battery_capacity: Option<u32>,
    pub battery_health: Option<String>,
    /// Minutes of battery left.
    pub time_remaining: Option<u32>,
    pub charging: bool,
}

impl Default for HardwareInfo {
    /// Nothing known: empty texts, zero counts, no GPUs.
    fn default() -> (r: Self)
        ensures
            r.model_name@.len() == 0 && r.model_identifier@.len() == 0,
            r.processor_name@.len() == 0 && r.processor_speed@.len() == 0,
            r.processor_count == 0 && r.core_count == 0 && r.memory_size == 0,
            r.memory_type@.len() == 0,
            r.gpu_info@.len() == 0,
            r.serial_number is None,
    {
        HardwareInfo {
            model_name: String::new(),
            model_identifier: String::new(),
            processor_name: String::new(),
            processor_speed: String::new(),
            processor_count: 0,
            core_count: 0,
            memory_size: 0,
            memory_type: String::new(),
            gpu_info: Vec::new(),
            serial_number: None,
        }
    }
}

impl Default for PowerInfo {
    /// An unknown power source and no battery.
    fn default() -> (r: Self)
        ensures
            r.power_source@ == "Unknown"@,
            !r.battery_present && !r.charging,
            r.battery_cycle_count is None && r.battery_capacity is None,
            r.battery_health is None && r.time_remaining is None,
    {
        PowerInfo {
            power_source: String::from_str("Unknown"),
            battery_present: false,
            battery_cycle_count: None,
            battery_capacity: None,
            battery_health: None,
            time_remaining: None,
            charging: false,
        }
    }
}

} // verus!
