//! Records exchanged with the monitoring backend.

use vstd::prelude::*;

verus! {

/// Physical and logical processor core counts.
#[derive(Debug, Clone, Copy, PartialEq, Eq, Structural)]
pub struct CpuCoreCount {
    pub physical: u32,
    pub logical: u32,
}

/// Swap usage in bytes.
#[derive(Debug, Clone, Copy, PartialEq, Eq, Structural)]
pub struct SwapInfo {
    pub total: u64,
    pub used: u64,
}

/// Memory usage in bytes.
#[derive(Debug, Clone, Copy, PartialEq, Eq, Structural)]
pub struct MemoryInfo {
    pub total: u64,
    pub used: u64,
    pub active: u64,
    pub available: u64,
    pub swap: Option<SwapInfo>,
}

/// Video memory in bytes.
#[derive(Debug, Clone, Copy, PartialEq, Eq, Structural)]
pub struct GpuVramInfo {
    pub total: u64,
    pub used: u64,
    pub free: u64,
}

/// A graphics processor.
#[derive(Debug, Clone)]
pub struct GpuInfo {
    pub model: String,
    pub vendor: String,
    pub vram: Option<GpuVramInfo>,
}

/// A fan and its speed in revolutions per minute.
#[derive(Debug, Clone, Copy, PartialEq, Eq, Structural)]
pub struct FanInfo {
    pub speed: u32,
}

/// A mounted file system, sizes in bytes.
#[derive(Debug, Clone)]
pub struct FilesystemInfo {
    pub fs: String,
    /// Kind of file system.
    pub fs_type: String,
    pub size: u64,
    pub used: u64,
    pub available: u64,
    pub mount: String,
}

/// Core counts of an Apple silicon chip.
#[derive(Debug, Clone, Copy, PartialEq, Eq, Structural)]
pub struct AppleSiliconCores {
    pub cpu: u32,
    pub gpu: u32,
    pub neural_engine: u32,
}

/// An Apple silicon chip.
#[derive(Debug, Clone)]
pub struct AppleSiliconChip {
    pub model: String,
    pub cores: AppleSiliconCores,
}

/// Thermal pressure levels of an Apple silicon chip.
#[derive(Debug, Clone, Copy, PartialEq, Eq, Structural)]
pub struct AppleSiliconThermalLevels {
    pub cpu: u32,
    pub gpu: u32,
    pub io: u32,
}

/// Thermal state of an Apple silicon chip.
#[derive(Debug, Clone, Copy, PartialEq, Eq, Structural)]
pub struct AppleSiliconThermal {
    pub levels: AppleSiliconThermalLevels,
}

/// Reply of the backend to a report.
#[derive(Debug, Clone)]
pub struct ApiResponse {
    pub success: bool,
    pub node: String,
}

/// Error reply of the backend.
#[derive(Debug, Clone)]
pub struct ErrorResponse {
    pub code: u32,
    pub message: String,
}

} // verus!
