use vstd::prelude::*;

verus! {

/// Rows of fixed-point features, with an optional class label per row and a name per
/// feature.
pub struct Dataset {
    pub rows: Vec<Vec<i64>>,
    pub class_labels: Vec<String>,
    pub feature_names: Vec<String>,
}

impl Dataset {
    pub fn new(rows: Vec<Vec<i64>>, feature_names: Vec<String>, class_labels: Vec<String>) -> (r:
        Dataset)
        ensures
            r.rows == rows,
            r.feature_names == feature_names,
            r.class_labels == class_labels,
    {
        Dataset { rows, feature_names, class_labels }
    }

    /// Number of rows and number of features: the length of the first row, or the number
    /// of feature names when there is no row.
    pub fn shape(&self) -> (r: (usize, usize))
        ensures
            r.0 == self.rows@.len(),
            r.1 == if self.rows@.len() == 0 {
                self.feature_names@.len()
            } else {
                self.rows@[0]@.len()
            },
    {
        if self.rows.len() == 0 {
            return (0, self.feature_names.len());
        }
        (self.rows.len(), self.rows[0].len())
    }
}

} // verus!
