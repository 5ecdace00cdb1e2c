//! Rolling arg-min / arg-max kernels, a binary-view array builder and the
//! argument checks of the date-range expressions, with their contracts.

pub mod min_max;
pub mod rolling;
pub mod binview;
pub mod range;
