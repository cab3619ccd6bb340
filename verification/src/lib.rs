//! Verified core of the LVGL GIF replacer: the text grammars of LVGL image
//! sources, `gif_profile.h` headers and ESP-IDF sdkconfig files, the profile
//! naming rules, GIF header checks and the build/flash sequencing.

pub mod text;
pub mod parser;
pub mod header;
pub mod profile;
pub mod sdkconfig;
pub mod builder;
pub mod gifconv;
pub mod config;
pub mod serial;
pub mod flow;
