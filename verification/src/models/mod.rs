pub mod agreement;
pub mod decode;
pub mod glm_ocr;
pub mod laws;
pub mod meaning;
pub mod pressure;
