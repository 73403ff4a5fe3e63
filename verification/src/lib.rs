//! Coinbath holds a sous vide bath at temperature with the waste
//! heat of a Bitcoin miner.

pub mod adc;
pub mod address;
pub mod api;
pub mod calibration;
pub mod config;
pub mod control;
pub mod display;
pub mod document;
pub mod double;
pub mod history;
pub mod ieee;
pub mod image;
pub mod mujina;
pub mod number;
pub mod order;
pub mod paint;
pub mod probes;
pub mod report;
pub mod rounding;
pub mod screen;
pub mod sim;
pub mod single;
pub mod squares;
pub mod state;
pub mod text;
pub mod thermistor;
pub mod touch;
pub mod wording;
