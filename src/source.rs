//! The capability every configuration layer offers, and the two layers that
//! never change once built: packaged defaults and platform defaults.

use std::sync::Arc;
use tokio::sync::Notify;
use vstd::prelude::*;
use crate::error::ConfigError;
use crate::flat::{FlatMap, deserialize, flat_get, flatten};
use crate::id::IdGenerator;
use crate::value::{ConfigValue, Json};

verus! {

/// A watch handed out by a source: its identifier, and the notifier that is
/// signalled when the watched key may have changed.
pub struct Watch {
    pub id: u128,
    pub notify: Arc<Notify>,
}

/// A layer of configuration: values to read, perhaps to write, and watches on
/// single keys.
pub trait ConfigSource: Sized {
    /// The source's internal consistency.
    spec fn inv(&self) -> bool;

    /// The value visible under `key`, if any.
    spec fn lookup(&self, key: Seq<char>) -> Option<Json>;

    /// The value visible under `key` once this source's own value under
    /// `key` is deleted: what lower layers show through, if anything.
    spec fn fallback(&self, key: Seq<char>) -> Option<Json>;

    /// Whether writes and deletes are accepted.
    spec fn writeable(&self) -> bool;

    /// Whether the source records the watches it hands out. A source whose
    /// values never change has no need to.
    spec fn keeps_watches(&self) -> bool;

    /// The recorded watches: identifier to watched key.
    spec fn watches(&self) -> Map<u128, Seq<char>>;

    /// The flat entries of the layer that takes this source's writes, in
    /// order; for a source that takes none, its own entries.
    spec fn entries(&self) -> Seq<(Seq<char>, Json)>;

    /// The entries of the written layer have unique keys.
    proof fn lemma_entries_unique(&self)
        requires
            self.inv(),
        ensures
            crate::flat::unique_keys(self.entries()),
    ;

    /// A source that accepts writes records its watches.
    proof fn lemma_writeable_keeps(&self)
        requires
            self.inv(),
        ensures
            self.writeable() ==> self.keeps_watches(),
    ;

    /// Reads the value under `key`.
    fn get_value(&self, key: &str) -> (r: Option<ConfigValue>)
        requires
            self.inv(),
        ensures
            r is None <==> self.lookup(key@) is None,
            r matches Some(v) ==> self.lookup(key@) == Some(v@),
    ;

    /// Tells whether writes and deletes are accepted.
    fn is_writeable(&self) -> (r: bool)
        requires
            self.inv(),
        ensures
            r == self.writeable(),
    ;

    /// Stores `value` under `key` and signals the watches on `key`, whose
    /// identifiers it returns. Fails, changing nothing, where the source is
    /// not writeable.
    fn set_value(&mut self, key: &str, value: ConfigValue) -> (r: Result<Vec<u128>, ConfigError>)
        requires
            old(self).inv(),
        ensures
            final(self).inv(),
            final(self).writeable() == old(self).writeable(),
            final(self).keeps_watches() == old(self).keeps_watches(),
            forall|k: Seq<char>| #[trigger] final(self).fallback(k) == old(self).fallback(k),
            final(self).watches() == old(self).watches(),
            old(self).writeable() ==> (r matches Ok(ids) && crate::registry::notified_exactly(
                ids@,
                old(self).watches(),
                key@,
            )),
            old(self).writeable() ==> final(self).lookup(key@) == Some(value@),
            old(self).writeable() ==> final(self).entries() == crate::flat::flat_insert(
                old(self).entries(),
                key@,
                value@,
            ),
            !old(self).writeable() ==> final(self).entries() == old(self).entries(),
            old(self).writeable() ==> forall|k: Seq<char>|
                k != key@ ==> #[trigger] final(self).lookup(k) == old(self).lookup(k),
            !old(self).writeable() ==> (r matches Err(e) && e is NotWriteable),
            !old(self).writeable() ==> forall|k: Seq<char>| #[trigger]
                final(self).lookup(k) == old(self).lookup(k),
    ;

    /// Removes the value under `key` and signals the watches on `key`, whose
    /// identifiers it returns. Fails, changing nothing, where the source is
    /// not writeable.
    fn delete(&mut self, key: &str) -> (r: Result<Vec<u128>, ConfigError>)
        requires
            old(self).inv(),
        ensures
            final(self).inv(),
            final(self).writeable() == old(self).writeable(),
            final(self).keeps_watches() == old(self).keeps_watches(),
            forall|k: Seq<char>| #[trigger] final(self).fallback(k) == old(self).fallback(k),
            final(self).watches() == old(self).watches(),
            old(self).writeable() ==> (r matches Ok(ids) && crate::registry::notified_exactly(
                ids@,
                old(self).watches(),
                key@,
            )),
            old(self).writeable() ==> final(self).lookup(key@) == old(self).fallback(key@),
            old(self).writeable() ==> final(self).entries() == crate::flat::flat_remove(
                old(self).entries(),
                key@,
            ),
            !old(self).writeable() ==> final(self).entries() == old(self).entries(),
            old(self).writeable() ==> forall|k: Seq<char>|
                k != key@ ==> #[trigger] final(self).lookup(k) == old(self).lookup(k),
            !old(self).writeable() ==> (r matches Err(e) && e is NotWriteable),
            !old(self).writeable() ==> forall|k: Seq<char>| #[trigger]
                final(self).lookup(k) == old(self).lookup(k),
    ;

    /// Watches `key` with the caller's notifier. A source that records
    /// watches records this one under an identifier it had not used.
    fn watch_property_with_notify(
        &mut self,
        key: &str,
        notify: Arc<Notify>,
        ids: &mut IdGenerator,
    ) -> (r: Watch)
        requires
            old(self).inv(),
        ensures
            r.notify == notify,
            final(self).inv(),
            final(self).writeable() == old(self).writeable(),
            final(self).keeps_watches() == old(self).keeps_watches(),
            forall|k: Seq<char>| #[trigger] final(self).fallback(k) == old(self).fallback(k),
            forall|k: Seq<char>| #[trigger] final(self).lookup(k) == old(self).lookup(k),
            final(self).entries() == old(self).entries(),
            old(self).keeps_watches() ==> !old(self).watches().contains_key(r.id),
            old(self).keeps_watches() ==> final(self).watches() == old(self).watches().insert(
                r.id,
                key@,
            ),
            !old(self).keeps_watches() ==> final(self).watches() == old(self).watches(),
    ;

    /// Watches `key` with a notifier of its own.
    fn watch_property(&mut self, key: &str, ids: &mut IdGenerator) -> (r: Watch)
        requires
            old(self).inv(),
        ensures
            final(self).inv(),
            final(self).writeable() == old(self).writeable(),
            final(self).keeps_watches() == old(self).keeps_watches(),
            forall|k: Seq<char>| #[trigger] final(self).fallback(k) == old(self).fallback(k),
            forall|k: Seq<char>| #[trigger] final(self).lookup(k) == old(self).lookup(k),
            final(self).entries() == old(self).entries(),
            old(self).keeps_watches() ==> !old(self).watches().contains_key(r.id),
            old(self).keeps_watches() ==> final(self).watches() == old(self).watches().insert(
                r.id,
                key@,
            ),
            !old(self).keeps_watches() ==> final(self).watches() == old(self).watches(),
    {
        let notify = Arc::new(Notify::new());
        self.watch_property_with_notify(key, notify, ids)
    }

    /// Ends the watch `id`. Meant for the release of a watch handle only.
    fn delete_watcher(&mut self, id: u128)
        requires
            old(self).inv(),
        ensures
            final(self).inv(),
            final(self).writeable() == old(self).writeable(),
            final(self).keeps_watches() == old(self).keeps_watches(),
            forall|k: Seq<char>| #[trigger] final(self).fallback(k) == old(self).fallback(k),
            forall|k: Seq<char>| #[trigger] final(self).lookup(k) == old(self).lookup(k),
            final(self).entries() == old(self).entries(),
            final(self).watches() == old(self).watches().remove(id),
    ;
}

/// A watch registered on `key` is signalled by a later write of
/// `written`, which changes no watch, exactly when `key` is `written`: a write
/// reaches the watches on its own key and no other.
pub proof fn lemma_watch_then_write<S: ConfigSource>(
    before: S,
    watched: S,
    id: u128,
    key: Seq<char>,
    written: Seq<char>,
    fired: Seq<u128>,
)
    requires
        watched.watches() == before.watches().insert(id, key),
        crate::registry::notified_exactly(fired, watched.watches(), written),
    ensures
        fired.contains(id) <==> key == written,
{
    if fired.contains(id) {
        let i = choose|i: int| 0 <= i < fired.len() && fired[i] == id;
    }
}

/// Once a watch is released, a write signals it no more.
pub proof fn lemma_released_watch_is_quiet<S: ConfigSource>(
    watching: S,
    released: S,
    id: u128,
    written: Seq<char>,
    fired: Seq<u128>,
)
    requires
        released.watches() == watching.watches().remove(id),
        crate::registry::notified_exactly(fired, released.watches(), written),
    ensures
        !fired.contains(id),
{
    if fired.contains(id) {
        let i = choose|i: int| 0 <= i < fired.len() && fired[i] == id;
    }
}

/// Defaults packaged with the application, fixed once built.
pub struct StaticConfig {
    values: FlatMap,
}

impl StaticConfig {
    /// The flat map of the packaged defaults.
    pub closed spec fn values(&self) -> Seq<(Seq<char>, Json)> {
        self.values@
    }

    /// Builds the source from the packaged document.
    pub fn new(document: &ConfigValue) -> (r: StaticConfig)
        ensures
            r.inv(),
            r.values() == flatten(document@),
    {
        StaticConfig { values: deserialize(document) }
    }
}

impl ConfigSource for StaticConfig {
    closed spec fn inv(&self) -> bool {
        self.values.wf()
    }

    open spec fn lookup(&self, key: Seq<char>) -> Option<Json> {
        flat_get(self.values(), key)
    }

    open spec fn fallback(&self, key: Seq<char>) -> Option<Json> {
        None
    }

    open spec fn writeable(&self) -> bool {
        false
    }

    open spec fn keeps_watches(&self) -> bool {
        false
    }

    open spec fn watches(&self) -> Map<u128, Seq<char>> {
        Map::empty()
    }

    open spec fn entries(&self) -> Seq<(Seq<char>, Json)> {
        self.values()
    }

    proof fn lemma_entries_unique(&self) {
    }

    proof fn lemma_writeable_keeps(&self) {
    }

    fn get_value(&self, key: &str) -> (r: Option<ConfigValue>) {
        self.values.get(key)
    }

    fn is_writeable(&self) -> (r: bool) {
        false
    }

    fn set_value(&mut self, key: &str, value: ConfigValue) -> (r: Result<Vec<u128>, ConfigError>) {
        Err(ConfigError::NotWriteable)
    }

    fn delete(&mut self, key: &str) -> (r: Result<Vec<u128>, ConfigError>) {
        Err(ConfigError::NotWriteable)
    }

    fn watch_property_with_notify(
        &mut self,
        key: &str,
        notify: Arc<Notify>,
        ids: &mut IdGenerator,
    ) -> (r: Watch) {
        Watch { id: ids.generate(), notify }
    }

    fn delete_watcher(&mut self, id: u128) {
    }
}

/// Relies on `sys_locale::get_locales`: the user's preferred locales, most
/// preferred first. They come from the environment, so nothing is promised.
#[verifier::external_body]
fn system_locales() -> (r: Vec<String>) {
    sys_locale::get_locales().collect()
}

/// The model of a list of locale names: an array of strings.
pub open spec fn langs_json(locales: Seq<String>) -> Json {
    Json::Array(locales.map_values(|s: String| Json::Str(s@)))
}

/// The list of locale names as a configuration value.
pub fn langs_value(locales: Vec<String>) -> (r: ConfigValue)
    ensures
        r@ == langs_json(locales@),
{
    let mut rest = locales;
    let ghost all = rest@;
    let mut i: usize = 0;
    let n = rest.len();
    let mut out: Vec<ConfigValue> = Vec::new();
    proof {
        crate::value::lemma_view_items(out@);
    }
    while i < n
        invariant
            n == all.len(),
            i <= n,
            rest@ == all.subrange(i as int, n as int),
            out@.len() == i,
            forall|j: int| 0 <= j < i ==> (#[trigger] out@[j])@ == Json::Str(all[j]@),
        decreases n - i,
    {
        let s = rest.remove(0);
        out.push(ConfigValue::String(s));
        proof {
            assert(rest@ =~= all.subrange(i + 1, n as int));
        }
        i += 1;
    }
    proof {
        crate::value::lemma_view_items(out@);
        assert(crate::value::view_items(out@) =~= all.map_values(|s: String| Json::Str(s@)));
    }
    ConfigValue::Array(out)
}

/// Defaults computed from the running platform, fixed once built.
pub struct PlatformConfig {
    values: FlatMap,
}

/// The key under which the default profile name is kept.
pub open spec fn profile_default_key() -> Seq<char> {
    seq!['p', 'r', 'o', 'f', 'i', 'l', 'e', '.', 'd', 'e', 'f', 'a', 'u', 'l', 't']
}

/// The key under which the preferred locales are kept.
pub open spec fn langs_key() -> Seq<char> {
    seq!['i', '1', '8', 'n', '.', 'l', 'a', 'n', 'g', 's']
}

/// The key under which the Qt Quick Controls style is kept.
pub open spec fn style_key() -> Seq<char> {
    "gui.qt.style"@
}

/// `v` is the version `(major, minor, build)` or a later one.
pub open spec fn version_at_least(v: (u32, u32, u32), major: u32, minor: u32, build: u32) -> bool {
    v.0 > major || (v.0 == major && (v.1 > minor || (v.1 == minor && v.2 >= build)))
}

/// The Qt Quick Controls style for a Windows version: none where the user
/// chose a style or the version is unknown or older than Windows 8 (6.2);
/// else the newest style that both the version and the Qt build support.
pub open spec fn windows_style_spec(
    style_chosen: bool,
    version: Option<(u32, u32, u32)>,
    qt_has_universal: bool,
    qt_has_fluent: bool,
) -> Option<Seq<char>> {
    match version {
        Some(v) => if style_chosen || !version_at_least(v, 6, 2, 0) {
            None
        } else if qt_has_fluent && version_at_least(v, 10, 0, 22000) {
            Some("FluentWinUI3"@)
        } else if qt_has_universal && version_at_least(v, 10, 0, 0) {
            Some("Universal"@)
        } else {
            Some("Fusion"@)
        },
        None => None,
    }
}

/// Tells whether `v` is the version `(major, minor, build)` or a later one.
fn at_least(v: (u32, u32, u32), major: u32, minor: u32, build: u32) -> (r: bool)
    ensures
        r == version_at_least(v, major, minor, build),
{
    v.0 > major || (v.0 == major && (v.1 > minor || (v.1 == minor && v.2 >= build)))
}

/// The Qt Quick Controls style to default to on Windows. `style_chosen` tells
/// whether the user already chose one; the two flags tell whether the Qt build
/// has the Universal style (Qt 5.7 on) and the Fluent style (Qt 6.8 on).
pub fn windows_style(
    style_chosen: bool,
    version: Option<(u32, u32, u32)>,
    qt_has_universal: bool,
    qt_has_fluent: bool,
) -> (r: Option<String>)
    ensures
        r matches Some(s) ==> windows_style_spec(style_chosen, version, qt_has_universal, qt_has_fluent)
            == Some(s@),
        r is None <==> windows_style_spec(style_chosen, version, qt_has_universal, qt_has_fluent) is None,
{
    let v = match version {
        Some(v) => v,
        None => return None,
    };
    if style_chosen || !at_least(v, 6, 2, 0) {
        return None;
    }
    if qt_has_fluent && at_least(v, 10, 0, 22000) {
        Some(String::from_str("FluentWinUI3"))
    } else if qt_has_universal && at_least(v, 10, 0, 0) {
        Some(String::from_str("Universal"))
    } else {
        Some(String::from_str("Fusion"))
    }
}

impl PlatformConfig {
    /// Adds the Windows defaults: the Qt Quick Controls style under
    /// `gui.qt.style`, where `windows_style` picks one.
    pub fn add_windows_properties(
        &mut self,
        style_chosen: bool,
        version: Option<(u32, u32, u32)>,
        qt_has_universal: bool,
        qt_has_fluent: bool,
    )
        requires
            old(self).inv(),
        ensures
            final(self).inv(),
            windows_style_spec(style_chosen, version, qt_has_universal, qt_has_fluent) matches Some(
                style,
            ) ==> final(self).lookup(style_key()) == Some(Json::Str(style)),
            forall|k: Seq<char>|
                k != style_key() ==> #[trigger] final(self).lookup(k) == old(self).lookup(k),
            windows_style_spec(style_chosen, version, qt_has_universal, qt_has_fluent) is None
                ==> final(self).lookup(style_key()) == old(self).lookup(style_key()),
    {
        match windows_style(style_chosen, version, qt_has_universal, qt_has_fluent) {
            Some(style) => {
                let key = String::from_str("gui.qt.style");
                proof {
                    crate::flat::lemma_flat_insert(self.values@, key@, Json::Str(style@));
                }
                self.values.insert(key, ConfigValue::String(style));
            },
            None => {},
        }
    }

    /// The flat map of the platform defaults.
    pub closed spec fn values(&self) -> Seq<(Seq<char>, Json)> {
        self.values@
    }

    /// The platform defaults for a user whose preferred locales are `locales`:
    /// the profile named `default`, and the locales under `i18n.langs`.
    pub fn with_locales(locales: Vec<String>) -> (r: PlatformConfig)
        ensures
            r.inv(),
            r.lookup(profile_default_key()) == Some(Json::Str(seq!['d', 'e', 'f', 'a', 'u', 'l', 't'])),
            r.lookup(langs_key()) == Some(langs_json(locales@)),
            forall|k: Seq<char>|
                k != profile_default_key() && k != langs_key() ==> #[trigger] r.lookup(k) is None,
    {
        let mut values = FlatMap::new();
        let key = String::from_str("profile.default");
        let name = String::from_str("default");
        proof {
            reveal_strlit("profile.default");
            reveal_strlit("default");
            assert(key@ =~= profile_default_key());
            assert(name@ =~= seq!['d', 'e', 'f', 'a', 'u', 'l', 't']);
            crate::flat::lemma_flat_insert(values@, key@, Json::Str(name@));
        }
        let ghost m0 = values@;
        values.insert(key, ConfigValue::String(name));
        let langs = langs_value(locales);
        let lkey = String::from_str("i18n.langs");
        proof {
            reveal_strlit("i18n.langs");
            assert(lkey@ =~= langs_key());
            crate::flat::lemma_flat_insert(values@, lkey@, langs@);
            assert(profile_default_key() != langs_key()) by {
                assert(profile_default_key()[0] != langs_key()[0]);
            }
            assert forall|k: Seq<char>| #[trigger] flat_get(m0, k) is None by {
                crate::flat::lemma_index_of(m0, k);
            }
        }
        let ghost m1 = values@;
        values.insert(lkey, langs);
        proof {
            assert forall|k: Seq<char>|
                k != profile_default_key() && k != langs_key() implies #[trigger] flat_get(values@, k) is None by {
                assert(flat_get(values@, k) == flat_get(m1, k));
                assert(flat_get(m1, k) == flat_get(m0, k));
            }
        }
        PlatformConfig { values }
    }

    /// The platform defaults for the locales the system reports.
    pub fn new() -> (r: PlatformConfig)
        ensures
            r.inv(),
            r.lookup(profile_default_key()) == Some(Json::Str(seq!['d', 'e', 'f', 'a', 'u', 'l', 't'])),
            exists|l: Seq<String>| r.lookup(langs_key()) == Some(#[trigger] langs_json(l)),
            forall|k: Seq<char>|
                k != profile_default_key() && k != langs_key() ==> #[trigger] r.lookup(k) is None,
    {
        let locales = system_locales();
        let ghost l = locales@;
        let r = PlatformConfig::with_locales(locales);
        proof {
            assert(r.lookup(langs_key()) == Some(langs_json(l)));
        }
        r
    }
}

impl ConfigSource for PlatformConfig {
    closed spec fn inv(&self) -> bool {
        self.values.wf()
    }

    open spec fn lookup(&self, key: Seq<char>) -> Option<Json> {
        flat_get(self.values(), key)
    }

    open spec fn fallback(&self, key: Seq<char>) -> Option<Json> {
        None
    }

    open spec fn writeable(&self) -> bool {
        false
    }

    open spec fn keeps_watches(&self) -> bool {
        false
    }

    open spec fn watches(&self) -> Map<u128, Seq<char>> {
        Map::empty()
    }

    open spec fn entries(&self) -> Seq<(Seq<char>, Json)> {
        self.values()
    }

    proof fn lemma_entries_unique(&self) {
    }

    proof fn lemma_writeable_keeps(&self) {
    }

    fn get_value(&self, key: &str) -> (r: Option<ConfigValue>) {
        self.values.get(key)
    }

    fn is_writeable(&self) -> (r: bool) {
        false
    }

    fn set_value(&mut self, key: &str, value: ConfigValue) -> (r: Result<Vec<u128>, ConfigError>) {
        Err(ConfigError::NotWriteable)
    }

    fn delete(&mut self, key: &str) -> (r: Result<Vec<u128>, ConfigError>) {
        Err(ConfigError::NotWriteable)
    }

    fn watch_property_with_notify(
        &mut self,
        key: &str,
        notify: Arc<Notify>,
        ids: &mut IdGenerator,
    ) -> (r: Watch) {
        Watch { id: ids.generate(), notify }
    }

    fn delete_watcher(&mut self, id: u128) {
    }
}

} // verus!
