pub mod line_with_data;
pub mod point_with_data;
pub mod rectangle;

pub use line_with_data::LineWithData;
pub use point_with_data::PointWithData;
pub use rectangle::Rectangle;
