//! Word-cloud layout: frequency analysis of text and greedy placement of
//! words on a canvas, with overlap queries answered by a summed-area table.

pub mod freq;
pub mod layout;
pub mod occupancy;
pub mod order;
pub mod rank;
pub mod rng;
pub mod sat;
pub mod tokenizer;

pub use layout::{check_font_size, initial_font_size, plan_layout, scale_font_size, LayoutConfig, LayoutError, PlacedWord};
pub use occupancy::{create_mask_skip_list, Occupancy};
pub use sat::{find_space_for_rect, find_space_for_rect_masked, region_is_empty, to_summed_area_table, Point, Rect};
pub use tokenizer::ChineseTokenizer;
