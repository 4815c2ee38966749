//! Library entry points that do not compute on measurements.
use vstd::prelude::*;
use crate::constants::{peq_config_names, peq_config_name_list};

verus! {

/// Names of the available parametric equaliser configurations.
pub fn get_available_configs() -> (v: Vec<&'static str>)
    ensures
        v@.map_values(|s: &str| s@) == peq_config_names(),
{
    peq_config_name_list()
}

} // verus!
