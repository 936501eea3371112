//! The decision-making core of a handheld compass.
pub mod crash;
pub mod data;
pub mod date;
pub mod device;
pub mod gps;
pub mod leds;
pub mod locations;
pub mod logger;
pub mod text;
pub mod ui;
pub mod wait;
