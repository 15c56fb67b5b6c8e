//! The logic of wayzoom, a view-only screen magnifier for Wayland.
//!
//! A fullscreen overlay grabs a single frozen frame of an output and lets it be panned
//! and zoomed with the mouse. This library takes every decision on the way; talking to
//! the compositor is left to the program around it.
//!
//! * [`state`] holds the overlay, and with [`input`] and [`screencopy`] says what to do
//!   about every event; [`conduct`] and [`pointing`] are about what each event does,
//!   [`course`] and [`history`] about whole sequences of them.
//! * [`zoom`] follows the wheel and [`wheel`] is about what it does; [`easing`] and
//!   [`stepping`] are about the animation as a whole.
//! * [`axis`] and [`crop`] compute which part of the frame is shown.
//! * [`image`], [`capture`] and [`border`] handle pixels; [`render`] scales them, and
//!   [`fidelity`], [`interpolation`] and [`view`] are about the result.
//! * [`args`] reads the command line.
//! * [`number`] is the floating-point arithmetic that the geometry is computed with.
pub mod args;
pub mod axis;
pub mod border;
pub mod capture;
pub mod conduct;
pub mod course;
pub mod crop;
pub mod easing;
pub mod fidelity;
pub mod history;
pub mod image;
pub mod input;
pub mod interpolation;
pub mod number;
pub mod pointing;
pub mod render;
pub mod screencopy;
pub mod state;
pub mod stepping;
pub mod view;
pub mod wheel;
pub mod zoom;
