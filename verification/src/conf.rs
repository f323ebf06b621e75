//! Pin settings: one `PinConfig` per configuration section, filled in key by
//! key, plus the automatic counterpart triggers that pair a lone high or low
//! trigger with one at the other level.
use vstd::prelude::*;
use crate::decimal::{
    all_digits, digits_value, parse_i32, parse_u8, signed_decimal, spec_parse_i32, spec_parse_u8,
    unsigned_part,
};
use crate::document::{
    Document, IniSection, SectionView, find_surrogate_escape, has_surrogate_escape, ini_document,
    lists_document, load_ini, section_name, section_views,
};
use crate::utils::{
    check_is_url, keeps_query, make_safe_url, plain_query_at, spec_is_url, text_equals, url_is_valid,
    url_serialization,
};

verus! {

/// The converted settings of one configuration section, with the countdown
/// used while the pin waits in its trigger state.
#[derive(Debug)]
pub struct PinConfig {
    /// Body sent by a POST request.
    pub data: String,
    /// Milliseconds the pin must stay in the trigger state before the action runs.
    pub delay: i32,
    /// The section's name.
    pub label: String,
    /// A URL to request or a program to run.
    pub location: String,
    /// 0 none, 1 get, 2 post, 3 exec.
    pub method: u8,
    /// BCM number of the pin.
    pub pin: u8,
    /// Initial level: 0 low, 1 high, 254 read it from the pin.
    pub state: u8,
    /// Level that fires the action: 0 low, 1 high.
    pub trigger: u8,
    /// Countdown until the trigger fires.
    pub timeout: i32,
}

/// The mathematical value of a `PinConfig`: its strings as character sequences.
pub struct PinSpec {
    pub data: Seq<char>,
    pub delay: i32,
    pub label: Seq<char>,
    pub location: Seq<char>,
    pub method: u8,
    pub pin: u8,
    pub state: u8,
    pub trigger: u8,
    pub timeout: i32,
}

impl View for PinConfig {
    type V = PinSpec;

    open spec fn view(&self) -> PinSpec {
        PinSpec {
            data: self.data@,
            delay: self.delay,
            label: self.label@,
            location: self.location@,
            method: self.method,
            pin: self.pin,
            state: self.state,
            trigger: self.trigger,
            timeout: self.timeout,
        }
    }
}

/// The views of a sequence of configurations.
pub open spec fn pin_views(v: Seq<PinConfig>) -> Seq<PinSpec> {
    v.map_values(|c: PinConfig| c@)
}

/// A configuration before any key is applied.
pub open spec fn default_pin() -> PinSpec {
    PinSpec {
        data: Seq::empty(),
        delay: 0,
        label: Seq::empty(),
        location: Seq::empty(),
        method: 0,
        pin: 255,
        state: 254,
        trigger: 0,
        timeout: 0,
    }
}

/// The values a configuration can hold for its coded fields.
pub open spec fn pin_well_formed(p: PinSpec) -> bool {
    &&& p.trigger <= 1
    &&& p.method <= 3
    &&& (p.state == 0 || p.state == 1 || p.state == 254)
}

impl Default for PinConfig {
    fn default() -> (r: PinConfig)
        ensures
            r@ == default_pin(),
    {
        PinConfig {
            data: String::new(),
            delay: 0,
            label: String::new(),
            location: String::new(),
            method: 0,
            pin: 255,
            state: 254,
            trigger: 0,
            timeout: 0,
        }
    }
}

pub open spec fn spec_set_data(p: PinSpec, v: Seq<char>) -> PinSpec {
    if v.len() > 0 {
        PinSpec { data: v, ..p }
    } else {
        p
    }
}

pub open spec fn spec_set_delay(p: PinSpec, v: Seq<char>) -> PinSpec {
    PinSpec { delay: spec_parse_i32(v)->0, ..p }
}

/// The stored form of a location: a URL is normalised, a file path is kept.
pub open spec fn stored_location(v: Seq<char>) -> Seq<char> {
    if spec_is_url(v) {
        url_serialization(v)->0
    } else {
        v
    }
}

pub open spec fn spec_set_location(p: PinSpec, v: Seq<char>) -> PinSpec {
    if v.len() > 0 {
        PinSpec { location: stored_location(v), ..p }
    } else {
        p
    }
}

pub open spec fn method_code(v: Seq<char>) -> Option<u8> {
    if v == "none"@ {
        Some(0u8)
    } else if v == "get"@ {
        Some(1u8)
    } else if v == "post"@ {
        Some(2u8)
    } else if v == "exec"@ {
        Some(3u8)
    } else {
        None
    }
}

pub open spec fn spec_set_method(p: PinSpec, v: Seq<char>) -> PinSpec {
    if v.len() > 0 {
        PinSpec { method: method_code(v)->0, ..p }
    } else {
        p
    }
}

pub open spec fn state_code(v: Seq<char>) -> Option<u8> {
    if v == "high"@ {
        Some(1u8)
    } else if v == "low"@ {
        Some(0u8)
    } else if v == "auto"@ {
        Some(254u8)
    } else {
        None
    }
}

pub open spec fn spec_set_state(p: PinSpec, v: Seq<char>) -> PinSpec {
    if v.len() > 0 {
        PinSpec { state: state_code(v)->0, ..p }
    } else {
        p
    }
}

pub open spec fn trigger_code(v: Seq<char>) -> Option<u8> {
    if v == "high"@ {
        Some(1u8)
    } else if v == "low"@ {
        Some(0u8)
    } else {
        None
    }
}

pub open spec fn spec_set_trigger(p: PinSpec, v: Seq<char>) -> PinSpec {
    if v.len() > 0 {
        PinSpec { trigger: trigger_code(v)->0, ..p }
    } else {
        p
    }
}

pub open spec fn spec_set_pin_label(p: PinSpec, v: Seq<char>) -> PinSpec {
    if v.len() > 0 {
        PinSpec { label: v, ..p }
    } else {
        p
    }
}

pub open spec fn spec_set_pin_number(p: PinSpec, v: Seq<char>) -> PinSpec {
    PinSpec { pin: spec_parse_u8(v)->0, ..p }
}

/// The data item is copied as is; an empty value leaves it unchanged.
pub fn set_data(pininfo: &mut PinConfig, value: String)
    ensures
        final(pininfo)@ == spec_set_data(old(pininfo)@, value@),
{
    if !value.as_str().is_empty() {
        pininfo.data = value;
    }
}

/// The delay in milliseconds. The value must be a decimal `i32`.
pub fn set_delay(pininfo: &mut PinConfig, value: String)
    requires
        spec_parse_i32(value@) is Some,
    ensures
        final(pininfo)@ == spec_set_delay(old(pininfo)@, value@),
{
    match parse_i32(value.as_str()) {
        Some(v) => {
            pininfo.delay = v;
        },
        None => {},
    }
}

/// A URL or a file path. A URL is stored in its normalised form and must
/// parse; a file path is stored as given (whether the file exists is for
/// the caller to check). An empty value leaves the location unchanged.
pub fn set_location(pininfo: &mut PinConfig, value: String)
    requires
        value@.len() > 0 && spec_is_url(value@) ==> url_serialization(value@) is Some,
    ensures
        final(pininfo)@ == spec_set_location(old(pininfo)@, value@),
        value@.len() > 0 && spec_is_url(value@) ==> forall|i: int|
            #[trigger] plain_query_at(value@, i) ==> keeps_query(value@, i, final(pininfo).location@),
        value@.len() > 0 && !spec_is_url(value@) ==> final(pininfo).location@ == value@,
{
    if !value.as_str().is_empty() {
        let is_url = check_is_url(&value);
        let val = if is_url {
            make_safe_url(&value)
        } else {
            value
        };
        pininfo.location = val;
    }
}

/// One of `none`, `get`, `post` or `exec`; an empty value leaves the method
/// unchanged. Any other value is a configuration error.
pub fn set_method(pininfo: &mut PinConfig, value: String)
    requires
        value@.len() > 0 ==> method_code(value@) is Some,
    ensures
        final(pininfo)@ == spec_set_method(old(pininfo)@, value@),
{
    if !value.as_str().is_empty() {
        if text_equals(value.as_str(), "none") {
            pininfo.method = 0;
        } else if text_equals(value.as_str(), "get") {
            pininfo.method = 1;
        } else if text_equals(value.as_str(), "post") {
            pininfo.method = 2;
        } else {
            pininfo.method = 3;
        }
    }
}

/// The initial state: `high`, `low` or `auto` (read the pin at start-up).
pub fn set_state(pininfo: &mut PinConfig, value: String)
    requires
        value@.len() > 0 ==> state_code(value@) is Some,
    ensures
        final(pininfo)@ == spec_set_state(old(pininfo)@, value@),
{
    if !value.as_str().is_empty() {
        if text_equals(value.as_str(), "high") {
            pininfo.state = 1;
        } else if text_equals(value.as_str(), "low") {
            pininfo.state = 0;
        } else {
            pininfo.state = 254;
        }
    }
}

/// The level that, held for `delay` milliseconds, fires the action.
pub fn set_trigger(pininfo: &mut PinConfig, value: String)
    requires
        value@.len() > 0 ==> trigger_code(value@) is Some,
    ensures
        final(pininfo)@ == spec_set_trigger(old(pininfo)@, value@),
{
    if !value.as_str().is_empty() {
        if text_equals(value.as_str(), "high") {
            pininfo.trigger = 1;
        } else {
            pininfo.trigger = 0;
        }
    }
}

/// The label that identifies the section; an empty value leaves it unchanged.
pub fn set_pin_label(pininfo: &mut PinConfig, value: String)
    ensures
        final(pininfo)@ == spec_set_pin_label(old(pininfo)@, value@),
{
    if !value.as_str().is_empty() {
        pininfo.label = value;
    }
}

/// The pin number; the value must be a decimal `u8`.
pub fn set_pin_number(pininfo: &mut PinConfig, value: String)
    requires
        spec_parse_u8(value@) is Some,
    ensures
        final(pininfo)@ == spec_set_pin_number(old(pininfo)@, value@),
{
    match parse_u8(value.as_str()) {
        Some(v) => {
            pininfo.pin = v;
        },
        None => {},
    }
}

/// Why a configuration is refused.
#[derive(Debug, Clone, Copy, PartialEq, Eq, Structural)]
pub enum ConfError {
    /// The text holds, in a section name, key or value, a `\x` escape that
    /// names a surrogate, which the INI parser cannot decode.
    InvalidEscape,
    /// The text is not an INI document.
    Parse,
    /// The document has no section.
    NoSections,
    /// A key stands before the first section header.
    UnnamedSection,
    /// A key other than pin, data, delay, location, method, state, trigger.
    UnknownKey,
    /// A pin number that is not a decimal `u8`.
    InvalidPin,
    /// A delay that is not a decimal `i32`.
    InvalidDelay,
    /// A location that holds `://` but does not parse as a URL.
    InvalidUrl,
    /// A method other than none, get, post, exec.
    InvalidMethod,
    /// A state other than high, low, auto.
    InvalidState,
    /// A trigger other than high, low.
    InvalidTrigger,
}

/// What is wrong with one key and value of a section, if anything.
pub open spec fn setting_error(key: Seq<char>, value: Seq<char>) -> Option<ConfError> {
    if key == "pin"@ {
        if spec_parse_u8(value) is Some { None } else { Some(ConfError::InvalidPin) }
    } else if key == "data"@ {
        None
    } else if key == "delay"@ {
        if spec_parse_i32(value) is Some { None } else { Some(ConfError::InvalidDelay) }
    } else if key == "location"@ {
        if value.len() > 0 && spec_is_url(value) && url_serialization(value) is None {
            Some(ConfError::InvalidUrl)
        } else {
            None
        }
    } else if key == "method"@ {
        if value.len() == 0 || method_code(value) is Some { None } else { Some(ConfError::InvalidMethod) }
    } else if key == "state"@ {
        if value.len() == 0 || state_code(value) is Some { None } else { Some(ConfError::InvalidState) }
    } else if key == "trigger"@ {
        if value.len() == 0 || trigger_code(value) is Some { None } else { Some(ConfError::InvalidTrigger) }
    } else {
        Some(ConfError::UnknownKey)
    }
}

/// The configuration after one key of a section has been applied.
pub open spec fn spec_apply_setting(p: PinSpec, key: Seq<char>, value: Seq<char>) -> PinSpec {
    if key == "pin"@ {
        spec_set_pin_number(p, value)
    } else if key == "data"@ {
        spec_set_data(p, value)
    } else if key == "delay"@ {
        spec_set_delay(p, value)
    } else if key == "location"@ {
        spec_set_location(p, value)
    } else if key == "method"@ {
        spec_set_method(p, value)
    } else if key == "state"@ {
        spec_set_state(p, value)
    } else {
        spec_set_trigger(p, value)
    }
}

/// What is wrong with a key and its value, if anything.
pub fn check_setting(key: &str, value: &String) -> (r: Option<ConfError>)
    ensures
        r == setting_error(key@, value@),
        key@ == "delay"@ ==> (r is None <==> (signed_decimal(value@) matches Some(n) && i32::MIN <= n
            <= i32::MAX)),
        key@ == "method"@ ==> (r is None <==> (value@.len() == 0 || value@ == "none"@ || value@
            == "get"@ || value@ == "post"@ || value@ == "exec"@)),
{
    proof {
        lemma_accepted_settings(key@, value@);
    }
    if text_equals(key, "pin") {
        match parse_u8(value.as_str()) {
            Some(_) => None,
            None => Some(ConfError::InvalidPin),
        }
    } else if text_equals(key, "data") {
        None
    } else if text_equals(key, "delay") {
        match parse_i32(value.as_str()) {
            Some(_) => None,
            None => Some(ConfError::InvalidDelay),
        }
    } else if text_equals(key, "location") {
        if !value.as_str().is_empty() && check_is_url(value) && !url_is_valid(value) {
            Some(ConfError::InvalidUrl)
        } else {
            None
        }
    } else if text_equals(key, "method") {
        if value.as_str().is_empty() || text_equals(value.as_str(), "none") || text_equals(
            value.as_str(),
            "get",
        ) || text_equals(value.as_str(), "post") || text_equals(value.as_str(), "exec") {
            None
        } else {
            Some(ConfError::InvalidMethod)
        }
    } else if text_equals(key, "state") {
        if value.as_str().is_empty() || text_equals(value.as_str(), "high") || text_equals(
            value.as_str(),
            "low",
        ) || text_equals(value.as_str(), "auto") {
            None
        } else {
            Some(ConfError::InvalidState)
        }
    } else if text_equals(key, "trigger") {
        if value.as_str().is_empty() || text_equals(value.as_str(), "high") || text_equals(
            value.as_str(),
            "low",
        ) {
            None
        } else {
            Some(ConfError::InvalidTrigger)
        }
    } else {
        Some(ConfError::UnknownKey)
    }
}

/// Applies one key of a section to the configuration by calling the
/// setter of that key. The key and value must be valid.
pub fn apply_setting(pininfo: &mut PinConfig, key: &str, value: String)
    requires
        setting_error(key@, value@) is None,
    ensures
        final(pininfo)@ == spec_apply_setting(old(pininfo)@, key@, value@),
{
    if text_equals(key, "pin") {
        set_pin_number(pininfo, value);
    } else if text_equals(key, "data") {
        set_data(pininfo, value);
    } else if text_equals(key, "delay") {
        set_delay(pininfo, value);
    } else if text_equals(key, "location") {
        set_location(pininfo, value);
    } else if text_equals(key, "method") {
        set_method(pininfo, value);
    } else if text_equals(key, "state") {
        set_state(pininfo, value);
    } else {
        set_trigger(pininfo, value);
    }
}

/// The configuration after the given keys have been applied in order.
pub open spec fn spec_apply_entries(p: PinSpec, es: Seq<(Seq<char>, Seq<char>)>) -> PinSpec
    decreases es.len(),
{
    if es.len() == 0 {
        p
    } else {
        spec_apply_setting(spec_apply_entries(p, es.drop_last()), es.last().0, es.last().1)
    }
}

/// The configuration a section describes: its keys applied to the default,
/// then its name as the label.
pub open spec fn section_config(s: SectionView) -> PinSpec {
    spec_set_pin_label(spec_apply_entries(default_pin(), s.1), section_name(s))
}

/// A section is accepted: it has a name and every key and value is valid.
pub open spec fn section_valid(s: SectionView) -> bool {
    &&& s.0 is Some
    &&& forall|j: int| 0 <= j < s.1.len() ==> setting_error(#[trigger] s.1[j].0, s.1[j].1) is None
}

/// A list of sections is accepted: it is not empty and every section is.
pub open spec fn sections_valid(ss: Seq<SectionView>) -> bool {
    &&& ss.len() > 0
    &&& forall|i: int| 0 <= i < ss.len() ==> section_valid(#[trigger] ss[i])
}

pub open spec fn section_configs(ss: Seq<SectionView>) -> Seq<PinSpec> {
    ss.map_values(|s: SectionView| section_config(s))
}

/// For each pin, the delay of the last configuration that triggers it at
/// the high level (`high`) or at the low level (`!high`).
pub open spec fn trigger_delays(cs: Seq<PinSpec>, high: bool) -> Map<u8, i32>
    decreases cs.len(),
{
    if cs.len() == 0 {
        Map::empty()
    } else {
        let m = trigger_delays(cs.drop_last(), high);
        let c = cs.last();
        if (c.trigger == 1) == high {
            m.insert(c.pin, c.delay)
        } else {
            m
        }
    }
}

/// The configuration added for a pin that has a trigger at one level only.
pub open spec fn counterpart_pin(pin: u8, trigger: u8, delay: i32) -> PinSpec {
    PinSpec { pin: pin, trigger: trigger, delay: delay, ..default_pin() }
}

/// A counterpart is due for `pin`: it is in `own` and not in `other`.
pub open spec fn counterpart_due(own: Map<u8, i32>, other: Map<u8, i32>, pin: u8) -> bool {
    own.contains_key(pin) && !other.contains_key(pin)
}

/// The counterparts with trigger `trigger` for the pins below `n`, in
/// ascending pin order.
pub open spec fn counterparts(own: Map<u8, i32>, other: Map<u8, i32>, trigger: u8, n: nat) -> Seq<
    PinSpec,
>
    decreases n,
{
    if n == 0 {
        Seq::empty()
    } else {
        let prev = counterparts(own, other, trigger, (n - 1) as nat);
        let p = (n - 1) as u8;
        if counterpart_due(own, other, p) {
            prev.push(counterpart_pin(p, trigger, own[p]))
        } else {
            prev
        }
    }
}

/// All pin settings of a list of sections: one configuration per section,
/// in order, then a low-level counterpart for each pin triggered only at
/// the high level, then a high-level counterpart for each pin triggered
/// only at the low level. A counterpart takes the delay of the pin's last
/// trigger, so every pin ends up with a trigger at both levels.
pub open spec fn spec_pin_settings(ss: Seq<SectionView>) -> Seq<PinSpec> {
    let cs = section_configs(ss);
    let high = trigger_delays(cs, true);
    let low = trigger_delays(cs, false);
    cs + counterparts(high, low, 0, 256) + counterparts(low, high, 1, 256)
}

pub open spec fn delay_slot(m: Map<u8, i32>, p: u8) -> Option<i32> {
    if m.contains_key(p) {
        Some(m[p])
    } else {
        None
    }
}

/// The configuration one section describes.
pub fn section_to_config(section: &IniSection) -> (r: PinConfig)
    requires
        section_valid(section@),
    ensures
        r@ == section_config(section@),
{
    let mut pininfo = PinConfig::default();
    let n = section.entries.len();
    let ghost es = section@.1;
    let mut j: usize = 0;
    while j < n
        invariant
            n == section.entries.len(),
            es == section@.1,
            section_valid(section@),
            j <= n,
            pininfo@ == spec_apply_entries(default_pin(), es.take(j as int)),
        decreases n - j,
    {
        let entry = &section.entries[j];
        assert(es[j as int] == entry@);
        assert(setting_error(es[j as int].0, es[j as int].1) is None);
        apply_setting(&mut pininfo, entry.key.as_str(), entry.value.clone());
        proof {
            assert(es.take(j + 1).drop_last() =~= es.take(j as int));
        }
        j = j + 1;
    }
    assert(es.take(n as int) =~= es);
    let label = match &section.name {
        Some(name) => name.clone(),
        None => String::new(),
    };
    set_pin_label(&mut pininfo, label);
    pininfo
}

/// Builds the pin settings from the sections of a configuration. The list
/// must not be empty and every section must be valid.
pub fn build_pin_settings(sections: &Vec<IniSection>) -> (r: Vec<PinConfig>)
    requires
        sections_valid(section_views(sections@)),
    ensures
        pin_views(r@) == spec_pin_settings(section_views(sections@)),
        forall|i: int| 0 <= i < r.len() ==> pin_well_formed(#[trigger] r@[i]@),
        forall|i: int| 0 <= i < r.len() ==> has_other_level(pin_views(r@), #[trigger] r@[i]@),
{
    proof {
        lemma_settings_well_formed(section_views(sections@));
        lemma_triggers_paired(section_views(sections@));
    }
    let ghost ss = section_views(sections@);
    let ghost cs = section_configs(ss);
    let mut high: Vec<Option<i32>> = Vec::new();
    let mut low: Vec<Option<i32>> = Vec::new();
    let mut k: usize = 0;
    while k < 256
        invariant
            k <= 256,
            high.len() == k,
            low.len() == k,
            forall|q: int| 0 <= q < k ==> high@[q] is None && low@[q] is None,
        decreases 256 - k,
    {
        high.push(None);
        low.push(None);
        k = k + 1;
    }
    let mut out: Vec<PinConfig> = Vec::new();
    let n = sections.len();
    let mut i: usize = 0;
    while i < n
        invariant
            n == sections.len(),
            ss == section_views(sections@),
            cs == section_configs(ss),
            sections_valid(ss),
            i <= n,
            high.len() == 256,
            low.len() == 256,
            pin_views(out@) == cs.take(i as int),
            forall|q: int|
                0 <= q < 256 ==> #[trigger] high@[q] == delay_slot(
                    trigger_delays(cs.take(i as int), true),
                    q as u8,
                ),
            forall|q: int|
                0 <= q < 256 ==> #[trigger] low@[q] == delay_slot(
                    trigger_delays(cs.take(i as int), false),
                    q as u8,
                ),
        decreases n - i,
    {
        assert(ss[i as int] == sections@[i as int]@);
        assert(section_valid(ss[i as int]));
        let c = section_to_config(&sections[i]);
        assert(c@ == cs[i as int]);
        let ghost before = cs.take(i as int);
        let ghost after = cs.take(i + 1);
        assert(after.drop_last() =~= before);
        assert(after.last() == c@);
        if c.trigger == 1 {
            high.set(c.pin as usize, Some(c.delay));
        } else {
            low.set(c.pin as usize, Some(c.delay));
        }
        out.push(c);
        proof {
            assert(pin_views(out@) =~= after);
            assert forall|q: int| 0 <= q < 256 implies #[trigger] high@[q] == delay_slot(
                trigger_delays(after, true),
                q as u8,
            ) by {
                assert((q as u8) as int == q);
            }
            assert forall|q: int| 0 <= q < 256 implies #[trigger] low@[q] == delay_slot(
                trigger_delays(after, false),
                q as u8,
            ) by {
                assert((q as u8) as int == q);
            }
        }
        i = i + 1;
    }
    assert(cs.take(n as int) =~= cs);
    let ghost hm = trigger_delays(cs, true);
    let ghost lm = trigger_delays(cs, false);
    let mut p: usize = 0;
    while p < 256
        invariant
            p <= 256,
            high.len() == 256,
            low.len() == 256,
            forall|q: int| 0 <= q < 256 ==> #[trigger] high@[q] == delay_slot(hm, q as u8),
            forall|q: int| 0 <= q < 256 ==> #[trigger] low@[q] == delay_slot(lm, q as u8),
            pin_views(out@) == cs + counterparts(hm, lm, 0, p as nat),
        decreases 256 - p,
    {
        let ghost prev = pin_views(out@);
        assert(((p as int) as u8) as int == p);
        match high[p] {
            Some(d) => {
                if low[p].is_none() {
                    let mut c = PinConfig::default();
                    c.pin = p as u8;
                    c.trigger = 0;
                    c.delay = d;
                    out.push(c);
                    assert(pin_views(out@) =~= prev.push(c@));
                }
            },
            None => {},
        }
        p = p + 1;
    }
    let mut p: usize = 0;
    while p < 256
        invariant
            p <= 256,
            high.len() == 256,
            low.len() == 256,
            forall|q: int| 0 <= q < 256 ==> #[trigger] high@[q] == delay_slot(hm, q as u8),
            forall|q: int| 0 <= q < 256 ==> #[trigger] low@[q] == delay_slot(lm, q as u8),
            pin_views(out@) == cs + counterparts(hm, lm, 0, 256) + counterparts(lm, hm, 1, p as nat),
        decreases 256 - p,
    {
        let ghost prev = pin_views(out@);
        assert(((p as int) as u8) as int == p);
        match low[p] {
            Some(d) => {
                if high[p].is_none() {
                    let mut c = PinConfig::default();
                    c.pin = p as u8;
                    c.trigger = 1;
                    c.delay = d;
                    out.push(c);
                    assert(pin_views(out@) =~= prev.push(c@));
                }
            },
            None => {},
        }
        p = p + 1;
    }
    assert forall|i: int| 0 <= i < out.len() implies pin_well_formed(#[trigger] out@[i]@)
        && has_other_level(pin_views(out@), out@[i]@) by {
        assert(pin_views(out@)[i] == out@[i]@);
        assert(pin_views(out@) == spec_pin_settings(ss));
        assert(pin_well_formed(spec_pin_settings(ss)[i]));
        assert(has_other_level(spec_pin_settings(ss), spec_pin_settings(ss)[i]));
    }
    out
}

/// A parsed document is accepted: it has a section, every key stands in a
/// named section, and every key and value is valid.
pub open spec fn document_valid(doc: Document) -> bool {
    &&& exists|k: Option<Seq<char>>| #[trigger] doc.contains_key(k)
    &&& !doc.contains_key(None)
    &&& forall|k: Option<Seq<char>>, key: Seq<char>|
        doc.contains_key(k) && #[trigger] doc[k].contains_key(key) ==> setting_error(
            key,
            doc[k][key],
        ) is None
}

/// The configuration text is accepted: the INI parser decodes no `\x`
/// escape naming a surrogate in it, it parses, and its document is accepted.
pub open spec fn conf_text_valid(text: Seq<char>) -> bool {
    &&& !has_surrogate_escape(text)
    &&& ini_document(text) is Some
    &&& document_valid(ini_document(text)->0)
}

/// A defect that makes the document unusable: a key before the first
/// section header, or a wrong key or value in a named section.
pub open spec fn document_defect(doc: Document, e: ConfError) -> bool {
    ||| e == ConfError::UnnamedSection && doc.contains_key(None)
    ||| exists|k: Option<Seq<char>>, key: Seq<char>|
        k is Some && doc.contains_key(k) && #[trigger] doc[k].contains_key(key) && setting_error(
            key,
            doc[k][key],
        ) == Some(e)
}

/// The settings read from a text are those built from one walk of its
/// document.
pub open spec fn settings_of_text(text: Seq<char>, r: Seq<PinSpec>) -> bool {
    exists|ss: Seq<SectionView>|
        lists_document(ss, ini_document(text)->0) && #[trigger] spec_pin_settings(ss) == r
}

/// A walk of a document is accepted exactly when the document is.
pub proof fn lemma_walk_valid(ss: Seq<SectionView>, doc: Document)
    requires
        lists_document(ss, doc),
    ensures
        sections_valid(ss) <==> document_valid(doc),
{
    if sections_valid(ss) {
        assert(doc.contains_key(ss[0].0));
        if doc.contains_key(None) {
            let i = choose|i: int| 0 <= i < ss.len() && #[trigger] ss[i].0 == None::<Seq<char>>;
            assert(section_valid(ss[i]));
        }
        assert forall|k: Option<Seq<char>>, key: Seq<char>|
            doc.contains_key(k) && #[trigger] doc[k].contains_key(key) implies setting_error(
            key,
            doc[k][key],
        ) is None by {
            let i = choose|i: int| 0 <= i < ss.len() && #[trigger] ss[i].0 == k;
            assert(crate::document::lists_entries(ss[i].1, doc[ss[i].0]));
            let j = choose|j: int| 0 <= j < ss[i].1.len() && #[trigger] ss[i].1[j].0 == key;
            assert(section_valid(ss[i]));
            assert(setting_error(ss[i].1[j].0, ss[i].1[j].1) is None);
        }
    }
    if document_valid(doc) {
        let k0 = choose|k: Option<Seq<char>>| #[trigger] doc.contains_key(k);
        let i0 = choose|i: int| 0 <= i < ss.len() && #[trigger] ss[i].0 == k0;
        assert forall|i: int| 0 <= i < ss.len() implies section_valid(#[trigger] ss[i]) by {
            assert(doc.contains_key(ss[i].0));
            assert(crate::document::lists_entries(ss[i].1, doc[ss[i].0]));
            assert forall|j: int| 0 <= j < ss[i].1.len() implies setting_error(
                #[trigger] ss[i].1[j].0,
                ss[i].1[j].1,
            ) is None by {
                assert(doc[ss[i].0].contains_key(ss[i].1[j].0));
            }
        }
    }
}

/// Reads the pin settings from the text of a configuration file. The text
/// must be an accepted configuration. Since
/// rust-ini keeps sections in a hash map, the order of the sections in the
/// result is that of one walk of the document.
pub fn read_conf(text: &str) -> (r: Vec<PinConfig>)
    requires
        conf_text_valid(text@),
    ensures
        settings_of_text(text@, pin_views(r@)),
        forall|i: int| 0 <= i < r.len() ==> pin_well_formed(#[trigger] r@[i]@),
        forall|i: int| 0 <= i < r.len() ==> has_other_level(pin_views(r@), #[trigger] r@[i]@),
        forall|k: Option<Seq<char>>|
            #[trigger] ini_document(text@)->0.contains_key(k) ==> exists|i: int|
                0 <= i < r.len() && #[trigger] r@[i]@ == named_section_config(
                    k->0,
                    ini_document(text@)->0[k],
                ),
{
    match load_ini(text) {
        Ok(sections) => {
            let ghost ss = section_views(sections@);
            proof {
                lemma_walk_valid(ss, ini_document(text@)->0);
            }
            let r = build_pin_settings(&sections);
            proof {
                let doc = ini_document(text@)->0;
                lemma_sections_configured(ss, doc);
                assert forall|k: Option<Seq<char>>| #[trigger] doc.contains_key(k) implies exists|i: int|
                    0 <= i < r.len() && #[trigger] r@[i]@ == named_section_config(k->0, doc[k]) by {
                    let i = choose|i: int|
                        0 <= i < ss.len() && ss[i].0 == k && #[trigger] spec_pin_settings(ss)[i]
                            == named_section_config(k->0, doc[k]);
                    assert(section_configs(ss).len() == ss.len());
                    assert(spec_pin_settings(ss).len() >= ss.len());
                    assert(pin_views(r@).len() == r@.len());
                    assert(pin_views(r@)[i] == r@[i]@);
                }
            }
            assert(lists_document(ss, ini_document(text@)->0) && spec_pin_settings(ss) == pin_views(r@));
            r
        },
        Err(_) => {
            proof {
                assert(false);
            }
            Vec::new()
        },
    }
}

/// Reads the pin settings from the text of a configuration file, or says
/// why the text is not an accepted configuration.
pub fn try_read_conf(text: &str) -> (r: Result<Vec<PinConfig>, ConfError>)
    ensures
        r is Ok <==> conf_text_valid(text@),
        r matches Ok(v) ==> settings_of_text(text@, pin_views(v@)) && (forall|i: int|
            0 <= i < v.len() ==> pin_well_formed(#[trigger] v@[i]@)) && (forall|i: int|
            0 <= i < v.len() ==> has_other_level(pin_views(v@), #[trigger] v@[i]@)),
        (r matches Err(e) && e == ConfError::InvalidEscape) <==> has_surrogate_escape(text@),
        (r matches Err(e) && e == ConfError::Parse) <==> (!has_surrogate_escape(text@)
            && ini_document(text@) is None),
        (r matches Err(e) && e == ConfError::NoSections) <==> (!has_surrogate_escape(text@)
            && ini_document(text@) is Some && !exists|k: Option<Seq<char>>|
            #[trigger] ini_document(text@)->0.contains_key(k)),
        r matches Err(e) ==> (e != ConfError::InvalidEscape && e != ConfError::Parse && e
            != ConfError::NoSections ==> !has_surrogate_escape(text@) && ini_document(text@) is Some
            && document_defect(ini_document(text@)->0, e)),
{
    if find_surrogate_escape(text) {
        return Err(ConfError::InvalidEscape);
    }
    let sections = match load_ini(text) {
        Ok(s) => s,
        Err(_) => {
            return Err(ConfError::Parse);
        },
    };
    let ghost ss = section_views(sections@);
    let ghost doc = ini_document(text@)->0;
    let n = sections.len();
    if n == 0 {
        proof {
            if exists|k: Option<Seq<char>>| #[trigger] doc.contains_key(k) {
                let k = choose|k: Option<Seq<char>>| #[trigger] doc.contains_key(k);
                assert(doc.contains_key(k));
            }
        }
        return Err(ConfError::NoSections);
    }
    assert(doc.contains_key(ss[0].0));
    let mut i: usize = 0;
    while i < n
        invariant
            n == sections.len(),
            n > 0,
            ss == section_views(sections@),
            doc == ini_document(text@)->0,
            !has_surrogate_escape(text@),
            ini_document(text@) is Some,
            lists_document(ss, doc),
            i <= n,
            forall|q: int| 0 <= q < i ==> section_valid(#[trigger] ss[q]),
        decreases n - i,
    {
        let section = &sections[i];
        assert(ss[i as int] == section@);
        assert(doc.contains_key(ss[i as int].0));
        match &section.name {
            None => {
                assert(document_defect(doc, ConfError::UnnamedSection));
                return Err(ConfError::UnnamedSection);
            },
            Some(_) => {},
        }
        let m = section.entries.len();
        let mut j: usize = 0;
        while j < m
            invariant
                n == sections.len(),
                i < n,
                section == &sections[i as int],
                m == section.entries.len(),
                ss == section_views(sections@),
                ss[i as int] == section@,
                section.name is Some,
                doc == ini_document(text@)->0,
                !has_surrogate_escape(text@),
                ini_document(text@) is Some,
                lists_document(ss, doc),
                doc.contains_key(ss[i as int].0),
                j <= m,
                forall|q: int|
                    0 <= q < j ==> setting_error(#[trigger] ss[i as int].1[q].0, ss[i as int].1[q].1)
                        is None,
            decreases m - j,
        {
            let entry = &section.entries[j];
            assert(ss[i as int].1[j as int] == entry@);
            match check_setting(entry.key.as_str(), &entry.value) {
                Some(e) => {
                    proof {
                        let k = ss[i as int].0;
                        let key = ss[i as int].1[j as int].0;
                        assert(crate::document::lists_entries(ss[i as int].1, doc[k]));
                        assert(doc[k].contains_key(key));
                        assert(doc[k][key] == ss[i as int].1[j as int].1);
                        assert(k is Some && doc.contains_key(k) && doc[k].contains_key(key)
                            && setting_error(key, doc[k][key]) == Some(e));
                        assert(document_defect(doc, e));
                    }
                    return Err(e);
                },
                None => {},
            }
            j = j + 1;
        }
        assert(section_valid(ss[i as int]));
        i = i + 1;
    }
    proof {
        lemma_walk_valid(ss, doc);
    }
    Ok(read_conf(text))
}

proof fn lemma_apply_entries_well_formed(p: PinSpec, es: Seq<(Seq<char>, Seq<char>)>)
    requires
        pin_well_formed(p),
        forall|j: int| 0 <= j < es.len() ==> setting_error(#[trigger] es[j].0, es[j].1) is None,
    ensures
        pin_well_formed(spec_apply_entries(p, es)),
    decreases es.len(),
{
    if es.len() > 0 {
        let last = es[es.len() - 1];
        assert(setting_error(last.0, last.1) is None);
        lemma_apply_entries_well_formed(p, es.drop_last());
    }
}

proof fn lemma_section_configs_well_formed(ss: Seq<SectionView>)
    requires
        forall|i: int| 0 <= i < ss.len() ==> section_valid(#[trigger] ss[i]),
    ensures
        forall|i: int|
            0 <= i < ss.len() ==> pin_well_formed(#[trigger] section_configs(ss)[i]),
{
    assert forall|i: int| 0 <= i < ss.len() implies pin_well_formed(
        #[trigger] section_configs(ss)[i],
    ) by {
        assert(section_valid(ss[i]));
        lemma_apply_entries_well_formed(default_pin(), ss[i].1);
    }
}

proof fn lemma_counterparts_shape(own: Map<u8, i32>, other: Map<u8, i32>, trigger: u8, n: nat)
    requires
        n <= 256,
    ensures
        forall|i: int|
            0 <= i < counterparts(own, other, trigger, n).len() ==> {
                let c = #[trigger] counterparts(own, other, trigger, n)[i];
                &&& c == counterpart_pin(c.pin, trigger, own[c.pin])
                &&& counterpart_due(own, other, c.pin)
            },
        forall|p: u8|
            p < n && #[trigger] counterpart_due(own, other, p) ==> exists|i: int|
                0 <= i < counterparts(own, other, trigger, n).len() && #[trigger] counterparts(
                    own,
                    other,
                    trigger,
                    n,
                )[i] == counterpart_pin(p, trigger, own[p]),
    decreases n,
{
    if n > 0 {
        lemma_counterparts_shape(own, other, trigger, (n - 1) as nat);
        let prev = counterparts(own, other, trigger, (n - 1) as nat);
        let q = (n - 1) as u8;
        assert forall|p: u8| p < n && #[trigger] counterpart_due(own, other, p) implies exists|i: int|
            0 <= i < counterparts(own, other, trigger, n).len() && #[trigger] counterparts(
                own,
                other,
                trigger,
                n,
            )[i] == counterpart_pin(p, trigger, own[p]) by {
            if p == q {
                assert(counterparts(own, other, trigger, n)[prev.len() as int] == counterpart_pin(
                    p,
                    trigger,
                    own[p],
                ));
            } else {
                let i = choose|i: int| 0 <= i < prev.len() && #[trigger] prev[i] == counterpart_pin(
                    p,
                    trigger,
                    own[p],
                );
                assert(counterparts(own, other, trigger, n)[i] == prev[i]);
            }
        }
    }
}

proof fn lemma_trigger_delays_source(cs: Seq<PinSpec>, high: bool, pin: u8)
    requires
        trigger_delays(cs, high).contains_key(pin),
    ensures
        exists|i: int| 0 <= i < cs.len() && (#[trigger] cs[i]).pin == pin && (cs[i].trigger == 1) == high,
    decreases cs.len(),
{
    let c = cs[cs.len() - 1];
    if !((c.trigger == 1) == high && c.pin == pin) {
        lemma_trigger_delays_source(cs.drop_last(), high, pin);
        let i = choose|i: int|
            0 <= i < cs.drop_last().len() && (#[trigger] cs.drop_last()[i]).pin == pin && (
            cs.drop_last()[i].trigger == 1) == high;
        assert(cs[i] == cs.drop_last()[i]);
    }
}

/// Every configuration built from accepted sections, the counterparts
/// included, holds a known trigger level (0 or 1), method (0 to 3) and
/// initial state (0, 1 or 254).
pub proof fn lemma_settings_well_formed(ss: Seq<SectionView>)
    requires
        sections_valid(ss),
    ensures
        forall|i: int|
            0 <= i < spec_pin_settings(ss).len() ==> pin_well_formed(
                #[trigger] spec_pin_settings(ss)[i],
            ),
{
    let cs = section_configs(ss);
    let high = trigger_delays(cs, true);
    let low = trigger_delays(cs, false);
    lemma_section_configs_well_formed(ss);
    lemma_counterparts_shape(high, low, 0, 256);
    lemma_counterparts_shape(low, high, 1, 256);
    let a = counterparts(high, low, 0, 256);
    let b = counterparts(low, high, 1, 256);
    assert forall|i: int| 0 <= i < spec_pin_settings(ss).len() implies pin_well_formed(
        #[trigger] spec_pin_settings(ss)[i],
    ) by {
        if i < cs.len() {
            assert(spec_pin_settings(ss)[i] == cs[i]);
        } else if i < cs.len() + a.len() {
            assert(spec_pin_settings(ss)[i] == a[i - cs.len()]);
        } else {
            assert(spec_pin_settings(ss)[i] == b[i - cs.len() - a.len()]);
        }
    }
}

/// When some section triggers a pin at one level, the settings hold a
/// configuration for that pin at the other level, from a section or added
/// as counterpart.
proof fn lemma_other_level_present(ss: Seq<SectionView>, pin: u8, high: bool)
    requires
        sections_valid(ss),
        trigger_delays(section_configs(ss), high).contains_key(pin),
    ensures
        exists|i: int|
            0 <= i < spec_pin_settings(ss).len() && (#[trigger] spec_pin_settings(ss)[i]).pin == pin
                && spec_pin_settings(ss)[i].trigger == (if high {
                0u8
            } else {
                1u8
            }),
{
    let cs = section_configs(ss);
    let own = trigger_delays(cs, high);
    let other = trigger_delays(cs, !high);
    let r = spec_pin_settings(ss);
    let want: u8 = if high { 0u8 } else { 1u8 };
    lemma_section_configs_well_formed(ss);
    if other.contains_key(pin) {
        lemma_trigger_delays_source(cs, !high, pin);
        let i = choose|i: int| 0 <= i < cs.len() && (#[trigger] cs[i]).pin == pin && (cs[i].trigger == 1) == !high;
        assert(pin_well_formed(cs[i]));
        assert(r[i] == cs[i]);
    } else {
        assert(counterpart_due(own, other, pin));
        let hm = trigger_delays(cs, true);
        let lm = trigger_delays(cs, false);
        let a = counterparts(hm, lm, 0, 256);
        let b = counterparts(lm, hm, 1, 256);
        if high {
            lemma_counterparts_shape(hm, lm, 0, 256);
            let i = choose|i: int| 0 <= i < a.len() && #[trigger] a[i] == counterpart_pin(pin, 0, hm[pin]);
            assert(r[cs.len() + i] == a[i]);
        } else {
            lemma_counterparts_shape(lm, hm, 1, 256);
            let i = choose|i: int| 0 <= i < b.len() && #[trigger] b[i] == counterpart_pin(pin, 1, lm[pin]);
            assert(r[cs.len() + a.len() + i] == b[i]);
        }
    }
}

/// Counterparts are added only where they are due: every configuration
/// after those of the sections is for a pin triggered at one level only,
/// at the other level, with the delay of the pin's last trigger, and
/// otherwise as a default configuration.
pub proof fn lemma_counterparts_only_for_lone_triggers(ss: Seq<SectionView>, i: int)
    requires
        section_configs(ss).len() <= i < spec_pin_settings(ss).len(),
    ensures
        ({
            let cs = section_configs(ss);
            let high = trigger_delays(cs, true);
            let low = trigger_delays(cs, false);
            let c = spec_pin_settings(ss)[i];
            ||| c.trigger == 0 && counterpart_due(high, low, c.pin) && c == counterpart_pin(
                c.pin,
                0,
                high[c.pin],
            )
            ||| c.trigger == 1 && counterpart_due(low, high, c.pin) && c == counterpart_pin(
                c.pin,
                1,
                low[c.pin],
            )
        }),
{
    let cs = section_configs(ss);
    let high = trigger_delays(cs, true);
    let low = trigger_delays(cs, false);
    lemma_counterparts_shape(high, low, 0, 256);
    lemma_counterparts_shape(low, high, 1, 256);
    let a = counterparts(high, low, 0, 256);
    let b = counterparts(low, high, 1, 256);
    if i < cs.len() + a.len() {
        assert(spec_pin_settings(ss)[i] == a[i - cs.len()]);
    } else {
        assert(spec_pin_settings(ss)[i] == b[i - cs.len() - a.len()]);
    }
}

/// The keys of a section's map applied at once, each to its own field.
pub open spec fn apply_map(p: PinSpec, m: Map<Seq<char>, Seq<char>>) -> PinSpec {
    PinSpec {
        pin: if m.contains_key("pin"@) {
            spec_set_pin_number(p, m["pin"@]).pin
        } else {
            p.pin
        },
        data: if m.contains_key("data"@) {
            spec_set_data(p, m["data"@]).data
        } else {
            p.data
        },
        delay: if m.contains_key("delay"@) {
            spec_set_delay(p, m["delay"@]).delay
        } else {
            p.delay
        },
        location: if m.contains_key("location"@) {
            spec_set_location(p, m["location"@]).location
        } else {
            p.location
        },
        method: if m.contains_key("method"@) {
            spec_set_method(p, m["method"@]).method
        } else {
            p.method
        },
        state: if m.contains_key("state"@) {
            spec_set_state(p, m["state"@]).state
        } else {
            p.state
        },
        trigger: if m.contains_key("trigger"@) {
            spec_set_trigger(p, m["trigger"@]).trigger
        } else {
            p.trigger
        },
        ..p
    }
}

proof fn lemma_apply_one_more(p: PinSpec, m1: Map<Seq<char>, Seq<char>>, k: Seq<char>, v: Seq<char>)
    requires
        !m1.contains_key(k),
        setting_error(k, v) is None,
    ensures
        spec_apply_setting(apply_map(p, m1), k, v) == apply_map(p, m1.insert(k, v)),
{
    reveal_strlit("pin");
    reveal_strlit("data");
    reveal_strlit("delay");
    reveal_strlit("location");
    reveal_strlit("method");
    reveal_strlit("state");
    reveal_strlit("trigger");
    let m = m1.insert(k, v);
    assert(m.contains_key(k) && m[k] == v);
    assert(forall|q: Seq<char>| q != k ==> (m.contains_key(q) == m1.contains_key(q)));
    assert(forall|q: Seq<char>| q != k && m1.contains_key(q) ==> m[q] == m1[q]);
    assert("pin"@.len() == 3 && "data"@.len() == 4 && "delay"@.len() == 5 && "location"@.len()
        == 8 && "method"@.len() == 6 && "state"@.len() == 5 && "trigger"@.len() == 7);
    assert("delay"@[0] != "state"@[0]);
    assert("delay"@ != "state"@);
    let q = apply_map(p, m1);
    let r = apply_map(p, m);
    if k == "pin"@ {
        assert(spec_apply_setting(q, k, v) == spec_set_pin_number(q, v));
    } else if k == "data"@ {
        assert(spec_apply_setting(q, k, v) == spec_set_data(q, v));
    } else if k == "delay"@ {
        assert(spec_apply_setting(q, k, v) == spec_set_delay(q, v));
    } else if k == "location"@ {
        assert(spec_apply_setting(q, k, v) == spec_set_location(q, v));
    } else if k == "method"@ {
        assert(spec_apply_setting(q, k, v) == spec_set_method(q, v));
    } else if k == "state"@ {
        assert(spec_apply_setting(q, k, v) == spec_set_state(q, v));
    } else {
        assert(k == "trigger"@);
        assert(spec_apply_setting(q, k, v) == spec_set_trigger(q, v));
    }
}

/// The order in which the keys of a section are applied does not matter:
/// applying the valid entries of a section, each key once, in any order,
/// gives the configuration that applying them in one fixed order gives.
pub proof fn lemma_entries_order_free(
    p: PinSpec,
    es: Seq<(Seq<char>, Seq<char>)>,
    m: Map<Seq<char>, Seq<char>>,
)
    requires
        crate::document::lists_entries(es, m),
        forall|j: int| 0 <= j < es.len() ==> setting_error(#[trigger] es[j].0, es[j].1) is None,
    ensures
        spec_apply_entries(p, es) == apply_map(p, m),
    decreases es.len(),
{
    if es.len() == 0 {
        assert forall|k: Seq<char>| !m.contains_key(k) by {
            if m.contains_key(k) {
                let i = choose|i: int| 0 <= i < es.len() && #[trigger] es[i].0 == k;
            }
        }
        assert(apply_map(p, m) == p);
    } else {
        let n = es.len() - 1;
        let k = es[n].0;
        let v = es[n].1;
        let rest = es.drop_last();
        let m1 = m.remove(k);
        assert(crate::document::lists_entries(rest, m1)) by {
            assert forall|i: int| 0 <= i < rest.len() implies m1.contains_key(#[trigger] rest[i].0)
                && m1[rest[i].0] == rest[i].1 by {
                assert(rest[i] == es[i]);
                assert(es[i].0 != es[n].0);
            }
            assert forall|q: Seq<char>| #[trigger] m1.contains_key(q) implies exists|i: int|
                0 <= i < rest.len() && #[trigger] rest[i].0 == q by {
                let i = choose|i: int| 0 <= i < es.len() && #[trigger] es[i].0 == q;
                assert(i != n);
                assert(rest[i] == es[i]);
            }
        }
        assert forall|j: int| 0 <= j < rest.len() implies setting_error(#[trigger] rest[j].0, rest[j].1)
            is None by {
            assert(rest[j] == es[j]);
        }
        lemma_entries_order_free(p, rest, m1);
        assert(setting_error(k, v) is None);
        assert(m.contains_key(k) && m[k] == v);
        assert(m =~= m1.insert(k, v));
        assert(!m1.contains_key(k));
        lemma_apply_one_more(p, m1, k, v);
        assert(spec_apply_entries(p, es) == spec_apply_setting(apply_map(p, m1), k, v));
    }
}

/// A section's configuration is fixed by its name and the map of its keys,
/// whatever order its entries come in.
pub proof fn lemma_section_config_order_free(
    s1: SectionView,
    s2: SectionView,
    m: Map<Seq<char>, Seq<char>>,
)
    requires
        s1.0 == s2.0,
        crate::document::lists_entries(s1.1, m),
        crate::document::lists_entries(s2.1, m),
        section_valid(s1),
        section_valid(s2),
    ensures
        section_config(s1) == section_config(s2),
{
    lemma_entries_order_free(default_pin(), s1.1, m);
    lemma_entries_order_free(default_pin(), s2.1, m);
}

/// The configuration of the section `name` with the keys `m`.
pub open spec fn named_section_config(name: Seq<char>, m: Map<Seq<char>, Seq<char>>) -> PinSpec {
    spec_set_pin_label(apply_map(default_pin(), m), name)
}

/// Whatever order a document is walked in, its settings begin with one
/// configuration per section, and the configuration of each section is
/// fixed by the section's name and keys.
pub proof fn lemma_sections_configured(ss: Seq<SectionView>, doc: Document)
    requires
        lists_document(ss, doc),
        sections_valid(ss),
    ensures
        forall|i: int|
            0 <= i < ss.len() ==> #[trigger] spec_pin_settings(ss)[i] == named_section_config(
                section_name(ss[i]),
                doc[ss[i].0],
            ),
        forall|k: Option<Seq<char>>|
            #[trigger] doc.contains_key(k) ==> exists|i: int|
                0 <= i < ss.len() && ss[i].0 == k && #[trigger] spec_pin_settings(ss)[i]
                    == named_section_config(k->0, doc[k]),
{
    assert forall|i: int| 0 <= i < ss.len() implies #[trigger] spec_pin_settings(ss)[i]
        == named_section_config(section_name(ss[i]), doc[ss[i].0]) by {
        assert(section_valid(ss[i]));
        assert(doc.contains_key(ss[i].0));
        lemma_entries_order_free(default_pin(), ss[i].1, doc[ss[i].0]);
        assert(spec_pin_settings(ss)[i] == section_configs(ss)[i]);
    }
    assert forall|k: Option<Seq<char>>| #[trigger] doc.contains_key(k) implies exists|i: int|
        0 <= i < ss.len() && ss[i].0 == k && #[trigger] spec_pin_settings(ss)[i]
            == named_section_config(k->0, doc[k]) by {
        let i = choose|i: int| 0 <= i < ss.len() && #[trigger] ss[i].0 == k;
        assert(section_valid(ss[i]));
        assert(spec_pin_settings(ss)[i] == named_section_config(section_name(ss[i]), doc[ss[i].0]));
    }
}

proof fn lemma_trigger_delays_covers(cs: Seq<PinSpec>, i: int)
    requires
        0 <= i < cs.len(),
    ensures
        trigger_delays(cs, cs[i].trigger == 1).contains_key(cs[i].pin),
    decreases cs.len(),
{
    if i < cs.len() - 1 {
        lemma_trigger_delays_covers(cs.drop_last(), i);
        assert(cs.drop_last()[i] == cs[i]);
    }
}

/// The settings `r` hold a configuration for `c`'s pin at the other level.
pub open spec fn has_other_level(r: Seq<PinSpec>, c: PinSpec) -> bool {
    exists|j: int| 0 <= j < r.len() && r[j].pin == c.pin && #[trigger] r[j].trigger + c.trigger == 1
}

/// Triggers come in pairs: for every configuration of the settings, the
/// settings hold one for the same pin at the other level, so each pin can
/// fire both when it goes high and when it goes low.
pub proof fn lemma_triggers_paired(ss: Seq<SectionView>)
    requires
        sections_valid(ss),
    ensures
        forall|i: int|
            0 <= i < spec_pin_settings(ss).len() ==> has_other_level(
                spec_pin_settings(ss),
                #[trigger] spec_pin_settings(ss)[i],
            ),
{
    let cs = section_configs(ss);
    let hm = trigger_delays(cs, true);
    let lm = trigger_delays(cs, false);
    let a = counterparts(hm, lm, 0, 256);
    let b = counterparts(lm, hm, 1, 256);
    let r = spec_pin_settings(ss);
    lemma_section_configs_well_formed(ss);
    lemma_counterparts_shape(hm, lm, 0, 256);
    lemma_counterparts_shape(lm, hm, 1, 256);
    assert forall|i: int| 0 <= i < r.len() implies has_other_level(r, #[trigger] r[i]) by {
        let c = r[i];
        if i < cs.len() {
            assert(c == cs[i]);
            assert(pin_well_formed(cs[i]));
            lemma_trigger_delays_covers(cs, i);
            lemma_other_level_present(ss, c.pin, c.trigger == 1);
            let want: u8 = if c.trigger == 1 { 0u8 } else { 1u8 };
            let j = choose|j: int| 0 <= j < r.len() && (#[trigger] r[j]).pin == c.pin && r[j].trigger == want;
            assert(r[j].trigger + c.trigger == 1);
        } else if i < cs.len() + a.len() {
            assert(c == a[i - cs.len()]);
            assert(hm.contains_key(c.pin));
            lemma_trigger_delays_source(cs, true, c.pin);
            let j = choose|j: int| 0 <= j < cs.len() && (#[trigger] cs[j]).pin == c.pin && (cs[j].trigger == 1) == true;
            assert(r[j] == cs[j]);
            assert(r[j].trigger + c.trigger == 1);
        } else {
            assert(c == b[i - cs.len() - a.len()]);
            assert(lm.contains_key(c.pin));
            lemma_trigger_delays_source(cs, false, c.pin);
            let j = choose|j: int| 0 <= j < cs.len() && (#[trigger] cs[j]).pin == c.pin && (cs[j].trigger == 1) == false;
            assert(r[j] == cs[j]);
            assert(pin_well_formed(cs[j]));
            assert(r[j].trigger + c.trigger == 1);
        }
    }
}

/// The keys and words of the configuration are distinct texts.
proof fn lemma_words_distinct()
    ensures
        "pin"@ != "data"@ && "pin"@ != "delay"@ && "pin"@ != "location"@ && "pin"@ != "method"@
            && "pin"@ != "state"@ && "pin"@ != "trigger"@,
        "data"@ != "delay"@ && "data"@ != "location"@ && "data"@ != "method"@ && "data"@
            != "state"@ && "data"@ != "trigger"@,
        "delay"@ != "location"@ && "delay"@ != "method"@ && "delay"@ != "state"@ && "delay"@
            != "trigger"@,
        "location"@ != "method"@ && "location"@ != "state"@ && "location"@ != "trigger"@,
        "method"@ != "state"@ && "method"@ != "trigger"@ && "state"@ != "trigger"@,
        "none"@ != "get"@ && "none"@ != "post"@ && "none"@ != "exec"@,
        "get"@ != "post"@ && "get"@ != "exec"@ && "post"@ != "exec"@,
        "high"@ != "low"@ && "high"@ != "auto"@ && "low"@ != "auto"@,
        "none"@.len() == 4 && "get"@.len() == 3 && "post"@.len() == 4 && "exec"@.len() == 4,
        "high"@.len() == 4 && "low"@.len() == 3 && "auto"@.len() == 4,
{
    reveal_strlit("pin");
    reveal_strlit("data");
    reveal_strlit("delay");
    reveal_strlit("location");
    reveal_strlit("method");
    reveal_strlit("state");
    reveal_strlit("trigger");
    reveal_strlit("none");
    reveal_strlit("get");
    reveal_strlit("post");
    reveal_strlit("exec");
    reveal_strlit("high");
    reveal_strlit("low");
    reveal_strlit("auto");
    assert("pin"@.len() == 3 && "data"@.len() == 4 && "delay"@.len() == 5 && "location"@.len()
        == 8 && "method"@.len() == 6 && "state"@.len() == 5 && "trigger"@.len() == 7);
    assert("none"@.len() == 4 && "get"@.len() == 3 && "post"@.len() == 4 && "exec"@.len() == 4);
    assert("high"@.len() == 4 && "low"@.len() == 3 && "auto"@.len() == 4);
    assert("delay"@[0] != "state"@[0]);
    assert("none"@[0] != "post"@[0] && "none"@[0] != "exec"@[0] && "post"@[0] != "exec"@[0]);
    assert("high"@[0] != "auto"@[0]);
}

/// The settings a section accepts, key by key: a pin is a decimal number
/// from 0 to 255 (an optional `+`, then digits); a delay is any decimal
/// `i32` number of milliseconds (an optional sign, then digits), negative
/// ones and ones above 255 included; data is anything; a location is
/// anything but a text holding `://` that does not parse as a URL; a
/// method is empty or one of none, get, post, exec; a state is empty or
/// one of high, low, auto; a trigger is empty or one of high, low; no other
/// key is accepted.
pub proof fn lemma_accepted_settings(key: Seq<char>, v: Seq<char>)
    ensures
        key == "pin"@ ==> (setting_error(key, v) is None <==> ({
            let d = unsigned_part(v, false);
            d.len() > 0 && all_digits(d) && digits_value(d) <= 255
        })),
        key == "delay"@ ==> (setting_error(key, v) is None <==> (signed_decimal(v) matches Some(
            n,
        ) && i32::MIN <= n <= i32::MAX)),
        key == "data"@ ==> setting_error(key, v) is None,
        key == "location"@ ==> (setting_error(key, v) is None <==> !(v.len() > 0 && spec_is_url(v)
            && url_serialization(v) is None)),
        key == "method"@ ==> (setting_error(key, v) is None <==> (v.len() == 0 || v == "none"@ || v
            == "get"@ || v == "post"@ || v == "exec"@)),
        key == "state"@ ==> (setting_error(key, v) is None <==> (v.len() == 0 || v == "high"@ || v
            == "low"@ || v == "auto"@)),
        key == "trigger"@ ==> (setting_error(key, v) is None <==> (v.len() == 0 || v == "high"@ || v
            == "low"@)),
        key != "pin"@ && key != "delay"@ && key != "data"@ && key != "location"@ && key
            != "method"@ && key != "state"@ && key != "trigger"@ ==> setting_error(key, v) == Some(
            ConfError::UnknownKey,
        ),
{
    lemma_words_distinct();
}

/// What each accepted word and number sets: the pin and the delay take the
/// value of their decimal text; method none, get, post, exec give 0, 1, 2,
/// 3; state high, low, auto give 1, 0, 254; trigger high, low give 1, 0;
/// data and the section's name are kept as written; an empty value changes
/// nothing. No other field changes.
pub proof fn lemma_setting_values(p: PinSpec, v: Seq<char>)
    ensures
        spec_parse_u8(v) is Some ==> spec_apply_setting(p, "pin"@, v) == (PinSpec {
            pin: digits_value(unsigned_part(v, false)) as u8,
            ..p
        }) && digits_value(unsigned_part(v, false)) <= 255,
        (signed_decimal(v) matches Some(n) && i32::MIN <= n <= i32::MAX) ==> spec_apply_setting(
            p,
            "delay"@,
            v,
        ) == (PinSpec { delay: signed_decimal(v)->0 as i32, ..p }) && spec_apply_setting(
            p,
            "delay"@,
            v,
        ).delay == signed_decimal(v)->0,
        v.len() > 0 ==> spec_apply_setting(p, "data"@, v) == (PinSpec { data: v, ..p }),
        spec_apply_setting(p, "method"@, "none"@) == (PinSpec { method: 0, ..p }),
        spec_apply_setting(p, "method"@, "get"@) == (PinSpec { method: 1, ..p }),
        spec_apply_setting(p, "method"@, "post"@) == (PinSpec { method: 2, ..p }),
        spec_apply_setting(p, "method"@, "exec"@) == (PinSpec { method: 3, ..p }),
        spec_apply_setting(p, "state"@, "high"@) == (PinSpec { state: 1, ..p }),
        spec_apply_setting(p, "state"@, "low"@) == (PinSpec { state: 0, ..p }),
        spec_apply_setting(p, "state"@, "auto"@) == (PinSpec { state: 254, ..p }),
        spec_apply_setting(p, "trigger"@, "high"@) == (PinSpec { trigger: 1, ..p }),
        spec_apply_setting(p, "trigger"@, "low"@) == (PinSpec { trigger: 0, ..p }),
        v.len() == 0 ==> spec_apply_setting(p, "data"@, v) == p && spec_apply_setting(
            p,
            "location"@,
            v,
        ) == p && spec_apply_setting(p, "method"@, v) == p && spec_apply_setting(p, "state"@, v)
            == p && spec_apply_setting(p, "trigger"@, v) == p,
        v.len() > 0 ==> spec_set_pin_label(p, v) == (PinSpec { label: v, ..p }),
{
    lemma_words_distinct();
    assert(method_code("none"@) == Some(0u8) && method_code("get"@) == Some(1u8) && method_code(
        "post"@,
    ) == Some(2u8) && method_code("exec"@) == Some(3u8));
    assert(state_code("high"@) == Some(1u8) && state_code("low"@) == Some(0u8) && state_code(
        "auto"@,
    ) == Some(254u8));
    assert(trigger_code("high"@) == Some(1u8) && trigger_code("low"@) == Some(0u8));
}

} // verus!
