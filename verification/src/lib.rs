//! Groups text records by the MinHash similarity of their character shingles.
//!
//! A record's text is cut into shingles (`hash::shingle_string`), the shingles are hashed
//! (`hash::token_hashes`) and reduced to a MinHash signature (`hash::compute_hash`), and the
//! signatures are compared slot by slot (`hash::compare_hash`). Records are then grouped,
//! either in a tree whose right spine holds the group leaders (`tree`) or in a vector of
//! groups (`vectortree`).
pub mod hash;
pub mod noise;
pub mod record;
pub mod score;
pub mod tree;
pub mod vectortree;
pub mod writer;
