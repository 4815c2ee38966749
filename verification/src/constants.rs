//! Names of the parametric equaliser configurations and filter kinds.
use vstd::prelude::*;
use crate::text::str_eq;

verus! {

/// Kind of a parametric equaliser band.
#[derive(Debug, Clone, Copy, PartialEq, Eq, Structural)]
pub enum FilterType {
    Peaking,
    LowShelf,
    HighShelf,
}

/// The configuration used when a requested one is unknown.
pub const DEFAULT_PEQ_CONFIG: &'static str = "8_PEAKING_WITH_SHELVES";

/// Name that selects evenly spaced peaking filters instead of a fixed configuration.
pub const AUTO_CONFIG: &'static str = "AUTO";

/// Names of the built-in parametric equaliser configurations.
pub open spec fn peq_config_names() -> Seq<Seq<char>> {
    seq![
        "10_BAND_GRAPHIC_EQ"@,
        "31_BAND_GRAPHIC_EQ"@,
        "10_PEAKING"@,
        "8_PEAKING_WITH_SHELVES"@,
        "4_PEAKING_WITH_SHELVES"@,
        "4_PEAKING_WITH_LOW_SHELF"@,
        "4_PEAKING_WITH_HIGH_SHELF"@,
        "AUNBANDEQ"@,
        "MINIDSP_2X4HD"@,
        "MINIDSP_IL_DSP"@,
        "MOONDROP_FREE_DSP"@,
        "NEUTRON_MUSIC_PLAYER"@,
        "POWERAMP_EQUALIZER"@,
        "QUDELIX_5K"@,
        "SPOTIFY"@,
        "USB_AUDIO_PLAYER_PRO"@,
    ]
}

/// The names of the built-in configurations, in a fixed order.
pub fn peq_config_name_list() -> (v: Vec<&'static str>)
    ensures
        v@.map_values(|s: &str| s@) == peq_config_names(),
{
    let v = vec![
        "10_BAND_GRAPHIC_EQ",
        "31_BAND_GRAPHIC_EQ",
        "10_PEAKING",
        "8_PEAKING_WITH_SHELVES",
        "4_PEAKING_WITH_SHELVES",
        "4_PEAKING_WITH_LOW_SHELF",
        "4_PEAKING_WITH_HIGH_SHELF",
        "AUNBANDEQ",
        "MINIDSP_2X4HD",
        "MINIDSP_IL_DSP",
        "MOONDROP_FREE_DSP",
        "NEUTRON_MUSIC_PLAYER",
        "POWERAMP_EQUALIZER",
        "QUDELIX_5K",
        "SPOTIFY",
        "USB_AUDIO_PLAYER_PRO",
    ];
    assert(v@.map_values(|s: &str| s@) =~= peq_config_names());
    v
}

/// The configuration actually used for a requested name: the name itself when
/// it is built in, else the default configuration.
pub open spec fn resolved_config(name: Seq<char>) -> Seq<char> {
    if peq_config_names().contains(name) {
        name
    } else {
        DEFAULT_PEQ_CONFIG@
    }
}

/// A requested configuration always resolves to a built-in one, and resolving
/// the resolved name again keeps it.
pub proof fn lemma_resolved_config_is_built_in(name: Seq<char>)
    ensures
        peq_config_names().contains(resolved_config(name)),
        resolved_config(resolved_config(name)) == resolved_config(name),
{
    assert(peq_config_names()[3] == DEFAULT_PEQ_CONFIG@);
}

/// The configuration table holds exactly these sixteen configurations: a
/// request for any of them gets that configuration, and a request for any
/// other name gets `8_PEAKING_WITH_SHELVES`.
pub proof fn lemma_built_in_config_names(name: Seq<char>)
    ensures
        ({
            ||| name == "10_BAND_GRAPHIC_EQ"@
            ||| name == "31_BAND_GRAPHIC_EQ"@
            ||| name == "10_PEAKING"@
            ||| name == "8_PEAKING_WITH_SHELVES"@
            ||| name == "4_PEAKING_WITH_SHELVES"@
            ||| name == "4_PEAKING_WITH_LOW_SHELF"@
            ||| name == "4_PEAKING_WITH_HIGH_SHELF"@
            ||| name == "AUNBANDEQ"@
            ||| name == "MINIDSP_2X4HD"@
            ||| name == "MINIDSP_IL_DSP"@
            ||| name == "MOONDROP_FREE_DSP"@
            ||| name == "NEUTRON_MUSIC_PLAYER"@
            ||| name == "POWERAMP_EQUALIZER"@
            ||| name == "QUDELIX_5K"@
            ||| name == "SPOTIFY"@
            ||| name == "USB_AUDIO_PLAYER_PRO"@
        }) ==> resolved_config(name) == name,
        !({
            ||| name == "10_BAND_GRAPHIC_EQ"@
            ||| name == "31_BAND_GRAPHIC_EQ"@
            ||| name == "10_PEAKING"@
            ||| name == "8_PEAKING_WITH_SHELVES"@
            ||| name == "4_PEAKING_WITH_SHELVES"@
            ||| name == "4_PEAKING_WITH_LOW_SHELF"@
            ||| name == "4_PEAKING_WITH_HIGH_SHELF"@
            ||| name == "AUNBANDEQ"@
            ||| name == "MINIDSP_2X4HD"@
            ||| name == "MINIDSP_IL_DSP"@
            ||| name == "MOONDROP_FREE_DSP"@
            ||| name == "NEUTRON_MUSIC_PLAYER"@
            ||| name == "POWERAMP_EQUALIZER"@
            ||| name == "QUDELIX_5K"@
            ||| name == "SPOTIFY"@
            ||| name == "USB_AUDIO_PLAYER_PRO"@
        }) ==> resolved_config(name) == "8_PEAKING_WITH_SHELVES"@,
{
    let names = peq_config_names();
    if names.contains(name) {
        let i = choose|i: int| 0 <= i < names.len() && names[i] == name;
        assert(names[i] == name);
    }
    assert(names[0] == "10_BAND_GRAPHIC_EQ"@);
    assert(names[1] == "31_BAND_GRAPHIC_EQ"@);
    assert(names[2] == "10_PEAKING"@);
    assert(names[3] == "8_PEAKING_WITH_SHELVES"@);
    assert(names[4] == "4_PEAKING_WITH_SHELVES"@);
    assert(names[5] == "4_PEAKING_WITH_LOW_SHELF"@);
    assert(names[6] == "4_PEAKING_WITH_HIGH_SHELF"@);
    assert(names[7] == "AUNBANDEQ"@);
    assert(names[8] == "MINIDSP_2X4HD"@);
    assert(names[9] == "MINIDSP_IL_DSP"@);
    assert(names[10] == "MOONDROP_FREE_DSP"@);
    assert(names[11] == "NEUTRON_MUSIC_PLAYER"@);
    assert(names[12] == "POWERAMP_EQUALIZER"@);
    assert(names[13] == "QUDELIX_5K"@);
    assert(names[14] == "SPOTIFY"@);
    assert(names[15] == "USB_AUDIO_PLAYER_PRO"@);
}

/// Looks up a configuration name, falling back to the default configuration.
pub fn resolve_config_name(name: &str) -> (r: &'static str)
    ensures
        r@ == resolved_config(name@),
{
    let names = peq_config_name_list();
    let ghost views = names@.map_values(|s: &str| s@);
    let mut i: usize = 0;
    while i < names.len()
        invariant
            i <= names.len(),
            views == names@.map_values(|s: &str| s@),
            views == peq_config_names(),
            forall|k: int| 0 <= k < i ==> views[k] != name@,
        decreases names.len() - i,
    {
        if str_eq(names[i], name) {
            assert(views[i as int] == name@);
            return names[i];
        }
        i = i + 1;
    }
    assert(!views.contains(name@));
    DEFAULT_PEQ_CONFIG
}

/// The configuration a parametric equaliser optimisation runs with.
#[derive(Debug, Clone, Copy, PartialEq, Eq)]
pub enum ConfigChoice {
    /// A built-in configuration, by name.
    Named(&'static str),
    /// Peaking filters at log-spaced fixed frequencies, this many of them.
    Auto(usize),
}

/// `AUTO` with `n_filters` filters requested (8 when unspecified, at least 2);
/// any other name resolved to a built-in configuration.
pub open spec fn chosen_config(name: Seq<char>, n_filters: Option<usize>) -> (Option<Seq<char>>, int) {
    if name == AUTO_CONFIG@ {
        let n = match n_filters {
            Some(n) => n as int,
            None => 8,
        };
        (None, if n < 2 { 2 } else { n })
    } else {
        (Some(resolved_config(name)), 0)
    }
}

/// `AUTO` always runs with at least two filters, and any other name runs a
/// built-in configuration.
pub proof fn lemma_chosen_config_is_runnable(name: Seq<char>, n_filters: Option<usize>)
    ensures
        chosen_config(name, n_filters).0 matches Some(c) ==> peq_config_names().contains(c),
        chosen_config(name, n_filters).0 is None ==> chosen_config(name, n_filters).1 >= 2,
{
    lemma_resolved_config_is_built_in(name);
}

/// Chooses the configuration for a requested name and filter count.
pub fn choose_config(name: &str, n_filters: Option<usize>) -> (r: ConfigChoice)
    ensures
        match r {
            ConfigChoice::Named(s) => chosen_config(name@, n_filters) == (Some(s@), 0int),
            ConfigChoice::Auto(n) => chosen_config(name@, n_filters) == (None::<Seq<char>>, n as int),
        },
{
    if str_eq(name, AUTO_CONFIG) {
        let n = match n_filters {
            Some(n) => n,
            None => 8,
        };
        ConfigChoice::Auto(if n < 2 { 2 } else { n })
    } else {
        ConfigChoice::Named(resolve_config_name(name))
    }
}

/// The filter kind of a band: its own, else the configuration's default kind,
/// else peaking. `default_type` is the kind given by the configuration's
/// filter defaults, if it has any.
pub fn get_default_filter_type(filter_type: Option<FilterType>, default_type: Option<FilterType>) -> (r: FilterType)
    ensures
        r == match filter_type {
            Some(t) => t,
            None => match default_type {
                Some(t) => t,
                None => FilterType::Peaking,
            },
        },
{
    if let Some(ft) = filter_type {
        return ft;
    }
    if let Some(ft) = default_type {
        return ft;
    }
    FilterType::Peaking
}

} // verus!
