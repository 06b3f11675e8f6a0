//! Simulation-and-render core of a small flight demo: an RGBA raster with
//! verified drawing primitives, the integer stages of the wireframe scene, and
//! the rules that turn one frame's input events into forces and commands.
pub mod input;
pub mod line;
pub mod pixel_buffer;
pub mod scene;

pub use input::{collect_controls, CameraMode, DroneCommand, FrameControls, InputEvent};
pub use pixel_buffer::{Color, PixelBuffer};
pub use scene::{cube_corners, draw_drone_marker, draw_wireframe_cube, rasterize_frame, reference_cube_centers};
