//! Entities of the data set and the keyed tables that hold them.

use rustc_hash::FxHashMap;
use vstd::prelude::*;

verus! {

/// Identifier of a tag.
#[derive(Debug, Clone, Copy, PartialEq, Eq, Structural, Hash, PartialOrd, Ord)]
pub struct TagId(pub u32);

/// Identifier of a post.
#[derive(Debug, Clone, Copy, PartialEq, Eq, Structural, Hash, PartialOrd, Ord)]
pub struct PostId(pub u32);

/// A tag record as decoded from a shard, before filtering.
#[derive(Debug, Clone)]
pub struct RawTag {
    pub id: u32,
    pub name: String,
    pub category: u8,
    pub post_count: u32,
}

/// A post record as decoded from a shard, before normalization.
#[derive(Debug, Clone)]
pub struct RawPost {
    pub id: Option<u32>,
    pub tag_string: String,
    pub score: i32,
    pub up_score: i32,
    pub down_score: i32,
    pub rating: String,
    pub created_at: String,
}

/// A retained tag. Its `post_count` is at least one.
#[derive(Debug, Clone)]
pub struct Tag {
    pub id: TagId,
    pub name: String,
    pub category: u8,
    pub post_count: u32,
}

/// A retained post with its tag names resolved to identifiers.
#[derive(Debug, Clone)]
pub struct Post {
    pub id: PostId,
    pub tags: Vec<TagId>,
    /// Reported independently of `up_score` and `down_score`.
    pub score: i32,
    pub up_score: u32,
    /// Stored as a magnitude.
    pub down_score: u32,
    pub rating: char,
    pub created_at: String,
}

/// Tags keyed by the number of their identifier.
pub type Tags = FxHashMap<u32, Tag>;

/// Tag names to tag identifiers.
pub type TagNamesToIds = FxHashMap<String, TagId>;

/// Posts keyed by the number of their identifier.
pub type Posts = FxHashMap<u32, Post>;

/// For each referenced tag, the posts that carry it, one entry per occurrence.
pub type TagPosts = FxHashMap<u32, Vec<PostId>>;

} // verus!
