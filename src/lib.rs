//! Keeping two persistent settings of the kernel component in step with the
//! kernel: the list of mount points exempt from unmounting, and the
//! registration of the manager application.
pub mod dynamic_manager;
pub mod hash_codec;
pub mod plan;
pub mod umount;
