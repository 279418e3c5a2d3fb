//! ShadowCatch: capture settings and pipeline logic for viewing a ShadowCast
//! 3 Pro capture device. The library reads what the system reports about
//! devices and capture modes, orders and selects the choices, describes the
//! GStreamer pipeline and decides what a starting capture does.

pub mod capture;
pub mod devices;
pub mod formats;
pub mod order;
pub mod sets;
pub mod text;
pub mod ui;
