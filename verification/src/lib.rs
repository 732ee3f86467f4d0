//! Heven's verified core: colors, text styles, the scene content model, the
//! glyph atlas (shelf packing, glyph masks, signed distance fields) and the
//! redraw bookkeeping of the application loop.

pub mod atlas;
pub mod clock;
pub mod color;
pub mod order;
mod outside;
pub mod present;
pub mod raster;
pub mod scene;
pub mod schedule;
pub mod sdf;
pub mod shaping;
pub mod text;
pub mod upload;

pub use atlas::{AtlasEntry, GlyphAtlas, GlyphImage, ATLAS_SIZE, GLYPH_PADDING, SDF_SCALE};
pub use color::{rgb, rgba, LinearRGB};
pub use text::{text_signature, TextSpan, TextStyle};
pub use clock::{FrameClock, FrameReport, RenderStatus, NANOS_PER_SECOND};
pub use schedule::{LoopAction, RedrawSchedule, REDRAW_BACKOFF};
pub use scene::Scene;
pub use order::{depth_key, draw_order};
pub use upload::{SurfaceContent, SurfaceUpload, UploadPlan, UploadState, UploadedSurface};
pub use raster::{blit, downsample, padded_mask};
pub use sdf::{sdf, SdfLevels, SDF_FAR, SDF_RADIUS};
pub use shaping::ShapingCache;
pub use present::{acquisition_step, size_drawable, FrameStep, TextureAcquisition};
