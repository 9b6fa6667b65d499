//! A small library for computing the next semantic-version tag of a
//! repository: a tag domain model with ordering and increment rules, a
//! discovery parser that turns raw tag-store listings into an ordered
//! collection of tags, and the interactive / quiet decision flow that
//! produces and records exactly one new tag.

pub mod error;

pub mod digits;

pub mod version;

pub mod tag;

pub mod git;

pub mod cli;
