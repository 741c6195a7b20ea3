//! Splitting of point clouds into areas of neighbouring chunks, with the
//! bookkeeping around it: field lookup, record collection, area queries,
//! merging and the viewer's area navigation.
pub mod util;
pub mod point_reader;
pub mod main_file_splitter;
pub mod point_writer;
pub mod viewer;
pub mod get_points;
