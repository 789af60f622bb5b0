//! Editing images and converting between them.
pub mod action_laws;
pub mod append;
pub mod append_laws;
pub mod args;
pub mod args_laws;
pub mod blocks;
pub mod cluster_laws;
pub mod convert;
pub mod dir_laws;
pub mod edit;
pub mod edit_laws;
pub mod edited_images;
pub mod edited_trees;
pub mod erofs_laws;
pub mod ext4_arrive;
pub mod ext4_bitmap_laws;
pub mod ext4_build;
pub mod ext4_count_laws;
pub mod ext4_groups;
pub mod ext4_image_laws;
pub mod ext4_images;
pub mod ext4_inode;
pub mod ext4_laws;
pub mod ext4_layout;
pub mod ext4_length_laws;
pub mod ext4_link_laws;
pub mod ext4_place;
pub mod ext4_plan;
pub mod ext4_read_back;
pub mod ext4_share_laws;
pub mod ext4_shared_images;
pub mod ext4_source;
pub mod ext4_space;
pub mod ext4_space_laws;
pub mod ext4_tree_laws;
pub mod extent_laws;
pub mod fresh;
pub mod fresh_laws;
pub mod image_laws;
pub mod in_place;
pub mod index_laws;
pub mod layout;
pub mod node;
pub mod overlay;
pub mod overlay_images;
pub mod overlay_laws;
pub mod overlay_numbers;
pub mod overlay_read_back;
pub mod pack_laws;
pub mod packed;
pub mod packed_images;
pub mod packed_laws;
pub mod patch;
pub mod range_laws;
pub mod read_back;
pub mod rebuild;
pub mod repacked_laws;
pub mod retouch_laws;
pub mod round_trip;
pub mod route;
pub mod serve_laws;
pub mod source;
pub mod store;
pub mod super_laws;
pub mod tree_laws;
pub mod unpack_laws;
