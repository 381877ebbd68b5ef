//! The transform engine: the mathematical model, the root table, and the
//! forward and backward transforms.

pub mod backward;
pub mod bit_reverse;
pub mod butterfly;
pub mod convolution;
pub mod forward;
pub mod laws;
pub mod lengths;
pub mod model;
pub mod network;
pub mod roots;
pub mod table;

pub use backward::backward_fft;
pub use butterfly::pointwise_mul;
pub use convolution::convolve_scaled;
pub use forward::forward_fft;
pub use table::{inverse_root, roots_of_unity_table};
