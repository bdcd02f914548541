//! Facial-landmark shape predictor: the model's wire-format decoder, the
//! regression-tree evaluator, the integer parts of the prediction cascade and
//! a cache format that reads back exactly what it wrote.
mod alignment;
mod cache;
mod decoder;
mod features;
mod model;
mod tree;

pub use decoder::{
    anchor, checked_shape_predictor, dlib_float, dlib_int, matrix, matrix_dimensions,
    parse_shape_predictor, regression_tree, shape_predictor, split_feature, vector2, version,
};
pub use cache::{deserialize, serialize};
pub use alignment::{reflection_correction, Flip, Sign};
pub use features::{sample_feature_values, LumaImage};
pub use model::{
    power_of_two, Error, Matrix, Real, RegressionTree, ShapePredictor, SplitFeature, Vector2,
};
pub use tree::exceeds;
