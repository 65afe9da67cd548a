//! A disk-backed wallpaper slideshow core: an ordered image set, adjacent-pair
//! cross-fade transitions cached by pair key, watch-event reaction with cache
//! invalidation, and a timed playback scheduler.
//!
//! The library holds the logic alone; reading directories, decoding images and
//! driving the output sink are left to the surrounding program.
pub mod cache;
pub mod config;
pub mod filesystem;
pub mod order;
pub mod playback;
pub mod processing;
pub mod video;
pub mod wallpaper;
