//! Label sets of the datasets the classifier has been used on, and the rules
//! by which their text columns are read.

pub mod breast_cancer;
pub mod phones;
pub mod subtitles;
