//! Point-and-click navigation: exact integer geometry, walkable regions with
//! a static visibility graph, per-query temporary edges and an A* search,
//! and the pixel helpers used to draw them.

pub mod pathfinding;
pub mod point;
pub mod polygon;
pub mod render;
pub mod segment;
pub mod walkbox;

pub use pathfinding::{astar, Graph, ShortestPath};
pub use point::{point, vector, Point, Vector};
pub use polygon::Polygon;
pub use render::{
    advance_frame, composit_pixel, point_in, rect, Bitmap, Error, LineType, Rect, StaticImage,
    TextObject,
};
pub use segment::{line_segment, line_through, Line, LineSegment};
pub use walkbox::WalkBox;
