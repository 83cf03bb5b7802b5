pub mod answer;
pub mod decimal;
pub mod floatizable;
pub mod linear;
pub mod matrix;
pub mod random;
pub mod supplier;
