//! Backlight brightness control: a model of one backlight device, exact
//! percentage arithmetic on its brightness count, the change-token grammar
//! and the decisions of the command-line front end.
pub mod number;
pub mod change;
pub mod device;
pub mod cli;
