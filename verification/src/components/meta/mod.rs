pub mod camera_focus;
pub mod intention;
