pub mod intcode;
pub mod solutions;
