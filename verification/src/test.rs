use vstd::prelude::*;

verus! {

/// Builds the sample equation used to exercise the expression front end.
pub fn test_equation_strip() {
    let _equation: String = "y = mx + b".to_owned();
}

} // verus!
