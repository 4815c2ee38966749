use autoeq::api::get_available_configs;
use autoeq::constants::{choose_config, get_default_filter_type, resolve_config_name, ConfigChoice};
use autoeq::server::{default_name, default_peq_config, ConfigsResponse, GraphicEqResponse};
use autoeq::FilterType;

#[test]
fn available_configs_are_the_built_in_ones() {
    let mut c = get_available_configs();
    assert_eq!(c.len(), 16);
    c.sort();
    let mut d = c.clone();
    d.dedup();
    assert_eq!(c, d);
    for name in ["8_PEAKING_WITH_SHELVES", "10_PEAKING", "QUDELIX_5K", "31_BAND_GRAPHIC_EQ", "SPOTIFY"] {
        assert!(c.contains(&name));
    }
}

#[test]
fn config_names_resolve() {
    assert_eq!(resolve_config_name("QUDELIX_5K"), "QUDELIX_5K");
    assert_eq!(resolve_config_name("qudelix_5k"), "8_PEAKING_WITH_SHELVES");
    assert_eq!(resolve_config_name(""), "8_PEAKING_WITH_SHELVES");
    assert_eq!(choose_config("AUTO", None), ConfigChoice::Auto(8));
    assert_eq!(choose_config("AUTO", Some(1)), ConfigChoice::Auto(2));
    assert_eq!(choose_config("AUTO", Some(12)), ConfigChoice::Auto(12));
    assert_eq!(choose_config("SPOTIFY", Some(3)), ConfigChoice::Named("SPOTIFY"));
    assert_eq!(choose_config("nope", None), ConfigChoice::Named("8_PEAKING_WITH_SHELVES"));
}

#[test]
fn default_filter_type_order() {
    assert_eq!(get_default_filter_type(Some(FilterType::LowShelf), Some(FilterType::HighShelf)), FilterType::LowShelf);
    assert_eq!(get_default_filter_type(None, Some(FilterType::HighShelf)), FilterType::HighShelf);
    assert_eq!(get_default_filter_type(None, None), FilterType::Peaking);
}

#[test]
fn server_defaults() {
    assert_eq!(default_name(), "headphone");
    assert_eq!(default_peq_config(), "8_PEAKING_WITH_SHELVES");
    let r = GraphicEqResponse { graphic_eq: "GraphicEQ: 20 0.0".to_string() };
    assert!(r.graphic_eq.starts_with("GraphicEQ"));
    let c = ConfigsResponse { configs: get_available_configs() };
    assert_eq!(c.configs.len(), 16);
}

#[test]
fn resolution_is_stable_and_built_in() {
    let all = get_available_configs();
    for name in ["QUDELIX_5K", "unknown", "", "AUTO", "10_PEAKING"] {
        let r = resolve_config_name(name);
        assert!(all.contains(&r));
        assert_eq!(resolve_config_name(r), r);
    }
}
