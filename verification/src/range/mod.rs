//! The argument checks of the date and datetime range expressions.

pub mod datetime_range;
