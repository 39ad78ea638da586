//! Algorithms on strings and graphs: a Burrows-Wheeler / move-to-front
//! compression front end, circular suffix arrays, directed-graph search and
//! the WordNet queries built on it, a Boggle solver over a trie, seam
//! finding for content-aware image resizing, and baseball elimination.

pub mod circular_suffix_array;
pub mod burrows_wheeler_transform;
pub mod move_to_front;
pub mod digraph;
pub mod bfdp;
pub mod sap;
pub mod wordnet;
pub mod outcast;
pub mod trie;
pub mod boggle;
pub mod carving;
pub mod seam_removal;
pub mod baseball;
pub mod text;
pub mod round_trip;
