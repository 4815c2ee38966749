//! Data of the HTTP interface.
use vstd::prelude::*;

verus! {

/// Response of the graphic equaliser endpoint.
pub struct GraphicEqResponse {
    pub graphic_eq: String,
}

/// Response of the configuration listing endpoint.
pub struct ConfigsResponse {
    pub configs: Vec<&'static str>,
}

/// Measurement name used when a request gives none.
pub fn default_name() -> (s: String)
    ensures
        s@ == "headphone"@,
{
    String::from_str("headphone")
}

/// Configuration used when a request names none.
pub fn default_peq_config() -> (s: String)
    ensures
        s@ == "8_PEAKING_WITH_SHELVES"@,
{
    String::from_str("8_PEAKING_WITH_SHELVES")
}

} // verus!
