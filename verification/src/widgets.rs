//! The state of the viewer's widgets: the gallery selection and the tag
//! panel. Rendering belongs to the host; the state and its transitions are
//! verified here.

pub mod gallery;
pub mod tag;
pub mod tags;
