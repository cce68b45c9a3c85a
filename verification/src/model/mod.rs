pub mod nmm;
pub mod nms;
