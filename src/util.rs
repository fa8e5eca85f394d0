pub mod string_segment;

pub use string_segment::BytesSegment;
