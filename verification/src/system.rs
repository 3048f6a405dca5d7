//! System-operations boundary types: images, resets, show commands and
//! their responses. Executing any of them happens outside the library.

use vstd::prelude::*;

verus! {

/// Request to download and install a system image.
#[derive(Debug)]
pub struct AddImageRequest {
    pub url: String,
    pub checksum: Option<String>,
    pub checksum_algorithm: Option<String>,
}

/// Request to delete a system image.
#[derive(Debug)]
pub struct DeleteImageRequest {
    pub name: String,
}

/// Request to make an image the default boot image.
#[derive(Debug)]
pub struct SetDefaultImageRequest {
    pub name: String,
}

/// Kind of an image-management operation.
#[derive(Clone, Copy, Debug, PartialEq, Eq, Structural)]
pub enum ImageOperation {
    Add,
    Delete,
    SetDefault,
}

/// A combined image-management request.
#[derive(Debug)]
pub struct ImageManagementRequest {
    pub operation: ImageOperation,
    pub name: Option<String>,
    pub url: Option<String>,
    pub checksum: Option<String>,
    pub checksum_algorithm: Option<String>,
}

/// Request to run a show command.
#[derive(Debug)]
pub struct ShowCommandRequest {
    /// The command, without the leading word `show`.
    pub command: String,
    /// Whether to return configuration-mode commands.
    pub as_config: bool,
}

/// Kind of a configuration reset.
#[derive(Clone, Copy, Debug, PartialEq, Eq, Structural)]
pub enum ResetType {
    /// Back to factory defaults.
    Factory,
    /// Back to the default configuration file.
    Default,
    /// Clear the current configuration only.
    ClearConfig,
}

/// Request to reset the configuration.
#[derive(Debug)]
pub struct ResetConfigRequest {
    pub reset_type: ResetType,
    pub backup_name: Option<String>,
    pub confirmed: bool,
}

/// Response to a configuration-file operation.
#[derive(Debug)]
pub struct ConfigFileResponse {
    pub success: bool,
    pub message: String,
    pub file_path: Option<String>,
}

/// Response to a reset.
#[derive(Debug)]
pub struct ResetResponse {
    pub success: bool,
    pub message: String,
    pub requires_reboot: bool,
}

/// Response to a reboot request.
#[derive(Debug)]
pub struct RebootResponse {
    pub success: bool,
    pub message: String,
    pub delay_seconds: Option<u32>,
}

/// Response to a poweroff request.
#[derive(Debug)]
pub struct PoweroffResponse {
    pub success: bool,
    pub message: String,
}

/// Response to an image operation.
#[derive(Debug)]
pub struct ImageResponse {
    pub success: bool,
    pub message: String,
    pub name: Option<String>,
}

/// One installed system image.
#[derive(Debug)]
pub struct SystemImage {
    pub name: String,
    pub default: bool,
    pub installed: bool,
    pub version: String,
    pub build_date: Option<String>,
}

/// The list of installed images.
#[derive(Debug)]
pub struct ImageListResponse {
    pub success: bool,
    pub images: Vec<SystemImage>,
    pub current_image: String,
}

} // verus!
