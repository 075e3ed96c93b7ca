//! osu!mania difficulty and performance: the verified core.

pub mod args;
pub mod attributes;
pub mod beatmap;
pub mod binary64;
pub mod calculation;
pub mod codec;
pub mod conversion;
pub mod crossing;
pub mod holds;
pub mod input_state;
pub mod interpolate;
pub mod mirror;
pub mod mods;
pub mod notes;
pub mod objects;
pub mod order;
pub mod plan;
pub mod ranking;
pub mod score;
pub mod search;
pub mod segments;
pub mod slides;
pub mod strain;
pub mod surface;
pub mod timeline;
pub mod usage;
pub mod variety;
pub mod windows;
