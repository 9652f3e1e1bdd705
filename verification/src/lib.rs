//! A read-only USB mass-storage device serving a ZX0-compressed FAT image.

pub mod bytes;
pub mod fat;
pub mod image;
pub mod order;
pub mod pack;
pub mod scsi;
pub mod segger;
pub mod store;
pub mod text;
pub mod text_laws;
pub mod vendor;
pub mod zx0;
