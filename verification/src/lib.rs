//! An in-process, dynamically typed tabular data engine: tagged scalar
//! values, row keys, key-indexed columns and tables of aligned columns.

pub mod csv;
pub mod datapoint;
pub mod flexdata;
pub mod flexdatapoint;
pub mod flexdatavector;
pub mod flexseries;
pub mod flextable;
pub mod float;
pub mod globals;
pub mod helper;
pub mod keyindex;
pub mod laws;
pub mod roundtrip;
pub mod series;
pub mod text;

pub use self::flexdata::{FlexData, FlexDataType};
pub use self::float::FloatOps;
pub use self::globals::{FlexIndex, FlexIndexType};
pub use self::datapoint::DataPoint;
pub use self::series::Series;
pub use self::flexdatapoint::FlexDataPoint;
pub use self::flexdatavector::FlexDataVector;
pub use self::flexseries::FlexSeries;
pub use self::flextable::FlexTable;
pub use self::keyindex::KeyIndex;
