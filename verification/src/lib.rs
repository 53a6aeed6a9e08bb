//! Exact 2D ray casting against line-segment walls.
//!
//! A scene is a set of opaque, colored line-segment walls with integer
//! endpoints. A ray is given by an origin and a direction vector. The library
//! finds the nearest wall a ray strikes, and traces a bounded number of
//! specular reflections, blending the traveling color toward each struck
//! wall's color. All geometry is computed exactly: intersection points are
//! rational, and every tolerance of an approximate implementation becomes an
//! exact sign test here.

pub mod cast;
pub mod color;
pub mod geom;
pub mod num;
pub mod trace;
pub mod wall;

pub use cast::CastConfig;
pub use cast::CastError;
pub use cast::cast_ray;
pub use cast::intersect;
pub use color::Rgb;
pub use color::mix_colors;
pub use geom::Point;
pub use geom::point_eq;
pub use trace::Segment;
pub use trace::trace_ray;
pub use wall::Wall;
