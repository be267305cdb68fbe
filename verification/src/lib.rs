#![allow(non_snake_case)]

pub mod list;
pub mod wheel_math;
pub mod HashedWheelTimer;
