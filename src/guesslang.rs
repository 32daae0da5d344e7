pub mod classification;
pub mod model_downloader;
