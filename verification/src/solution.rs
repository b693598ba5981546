//! The solution model: a sequence of colors to apply in order.

use vstd::prelude::*;

use crate::problem::Color;

verus! {

/// A solution to a problem, encoded as the sequence of colors that the
/// moves pick, in application order.
#[derive(Clone)]
pub struct Solution {
    /// The sequence of colors that solves a specific problem.
    pub colors: Vec<Color>,
}

impl From<Vec<Color>> for Solution {
    fn from(colors: Vec<Color>) -> (r: Solution) {
        Solution { colors }
    }
}

impl vstd::std_specs::convert::FromSpecImpl<Vec<Color>> for Solution {
    open spec fn obeys_from_spec() -> bool {
        true
    }

    open spec fn from_spec(colors: Vec<Color>) -> Solution {
        Solution { colors }
    }
}

} // verus!
