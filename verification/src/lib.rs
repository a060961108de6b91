//! Crops of the objects of an annotated image dataset.
//!
//! Annotations come in two dialects, PASCAL VOC (`pascal`) and YOLO (`yolo`), and are
//! brought to one form (`annotation`): an image with labelled boxes in pixels, sorted by
//! label. A run gathers the annotations of a dataset (`batch`), filtered by label, sums
//! them up (`summary`), shares them out to workers (`partition`), and has each worker
//! plan, cut and count its crops (`crops`, `imaging`, `tally`).
pub mod annotation;
pub mod batch;
pub mod crops;
pub mod decimal;
pub mod imaging;
pub mod partition;
pub mod pascal;
pub mod paths;
pub mod report;
pub mod summary;
pub mod tally;
pub mod text;
pub mod yolo;
