//! Download engine: segment planning, the download queue, playlist and
//! manifest parsing, naming rules and the decisions around them.

pub mod browser;
pub mod cancel;
pub mod config;
pub mod convert;
pub mod dash;
pub mod error;
pub mod hls;
pub mod http;
pub mod i18n;
pub mod json;
pub mod manifest;
pub mod markup;
pub mod media;
pub mod model;
pub mod names;
pub mod paths;
pub mod power;
pub mod queue;
pub mod rows;
pub mod schedule;
pub mod segmented;
pub mod speed_limiter;
pub mod store;
pub mod text;
pub mod toolbar;
pub mod update;
pub mod urls;
pub mod video;

pub use cancel::CancelFlag;
pub use config::AppConfig;
pub use error::CcdmError;
pub use model::{Chunk, ChunkState, DownloadEntry, DownloadStatus, SegmentState};
pub use names::Category;
pub use queue::DownloadQueue;
pub use schedule::Schedule;
pub use segmented::plan_segments;
pub use speed_limiter::SpeedLimiter;
pub use store::Store;
