//! The tray application: its stored configuration, what the settings window shows and
//! saves, and how the extension's browsers learn of the pairing host.
use vstd::prelude::*;

use crate::config::{
    chrome_extension_origin, default_label_set, default_labels, extension_origin, LiveSettings,
    ModelSource, ServerConfig, DEFAULT_EXTENSION_ID, DEFAULT_PORT,
};
use crate::http::{first_value, is_authorized, string_view};
use crate::json::{pair_views, pretty_object, print_object};
use crate::rules::{
    applied, are_faultless, compile_rules, compiled_views, enabled_rules, has_first_fault,
    law_checked_rules_are_applied, validate_rules, CompiledRule, RuleConfig,
};
use crate::score::DEFAULT_THRESHOLD;
use crate::text::{
    blank, is_blank, is_white_space, join2, law_blank_is_all_white_space, str_eq, trimmed, views,
};

verus! {

/// What the user has set, as it is stored.
#[derive(Debug)]
pub struct AppConfig {
    pub port: u16,
    /// What a client must present; blank where nothing.
    pub token: String,
    /// The bits of the score above which a span is redacted.
    pub threshold: u32,
    pub enabled_labels: Vec<String>,
    pub rules: Vec<RuleConfig>,
    /// Whether to start with the session.
    pub autostart: bool,
    /// The identities of the extensions that may pair and use the daemon.
    pub chrome_extension_ids: Vec<String>,
}

/// A configuration as mathematical values.
pub struct AppConfigView {
    pub port: u16,
    pub token: Seq<char>,
    pub threshold: u32,
    pub enabled_labels: Seq<Seq<char>>,
    pub rules: Seq<RuleConfig>,
    pub autostart: bool,
    pub chrome_extension_ids: Seq<Seq<char>>,
}

impl View for AppConfig {
    type V = AppConfigView;

    open spec fn view(&self) -> AppConfigView {
        AppConfigView {
            port: self.port,
            token: self.token@,
            threshold: self.threshold,
            enabled_labels: views(self.enabled_labels@),
            rules: self.rules@,
            autostart: self.autostart,
            chrome_extension_ids: views(self.chrome_extension_ids@),
        }
    }
}

impl Clone for AppConfig {
    fn clone(&self) -> (r: Self)
        ensures
            r@ == self@,
            r.port == self.port,
            r.token@ == self.token@,
            r.threshold == self.threshold,
            r.enabled_labels@ == self.enabled_labels@,
            r.rules@ == self.rules@,
            r.autostart == self.autostart,
            r.chrome_extension_ids@ == self.chrome_extension_ids@,
    {
        let r = AppConfig {
            port: self.port,
            token: self.token.clone(),
            threshold: self.threshold,
            enabled_labels: self.enabled_labels.clone(),
            rules: self.rules.clone(),
            autostart: self.autostart,
            chrome_extension_ids: self.chrome_extension_ids.clone(),
        };
        assert(r.enabled_labels@ =~= self.enabled_labels@);
        assert(r.rules@ =~= self.rules@);
        assert(r.chrome_extension_ids@ =~= self.chrome_extension_ids@);
        r
    }
}

/// The extensions that may pair by default: the pinned one.
pub fn default_chrome_extension_ids() -> (r: Vec<String>)
    ensures
        views(r@) == seq![DEFAULT_EXTENSION_ID@],
{
    let mut r: Vec<String> = Vec::new();
    r.push(DEFAULT_EXTENSION_ID.to_owned());
    assert(views(r@) =~= seq![DEFAULT_EXTENSION_ID@]);
    r
}

/// The configuration where none is stored.
pub open spec fn default_config() -> AppConfigView {
    AppConfigView {
        port: DEFAULT_PORT,
        token: Seq::empty(),
        threshold: DEFAULT_THRESHOLD,
        enabled_labels: default_label_set(),
        rules: Seq::empty(),
        autostart: false,
        chrome_extension_ids: seq![DEFAULT_EXTENSION_ID@],
    }
}

impl Default for AppConfig {
    fn default() -> (r: Self)
        ensures
            r@ == default_config(),
            r.port == 8731,
            r.token@.len() == 0,
            r.rules@.len() == 0,
            !r.autostart,
    {
        let r = AppConfig {
            port: DEFAULT_PORT,
            token: String::new(),
            threshold: DEFAULT_THRESHOLD,
            enabled_labels: default_labels(),
            rules: Vec::new(),
            autostart: false,
            chrome_extension_ids: default_chrome_extension_ids(),
        };
        assert(r.token@ =~= Seq::empty());
        assert(r.rules@ =~= Seq::empty());
        r
    }
}

/// The origins of the extensions with the given identities, as a request names them.
pub open spec fn origins_of(ids: Seq<Seq<char>>) -> Seq<Seq<char>> {
    ids.map_values(|id: Seq<char>| extension_origin(id))
}

/// The origins of the extensions with the given identities, as a browser's manifest
/// lists them: with a slash at the end.
pub open spec fn manifest_origins(ids: Seq<Seq<char>>) -> Seq<Seq<char>> {
    ids.map_values(|id: Seq<char>| extension_origin(id) + "/"@)
}

/// Whether these are the settings of a daemon with this configuration: no token where
/// it is blank, and the enabled rules that are filled in and compile.
pub open spec fn is_live(
    config: AppConfigView,
    failures: Seq<Option<String>>,
    live: LiveSettings,
) -> bool {
    &&& match live.token {
        Some(t) => !is_blank(config.token) && t@ == config.token,
        None => is_blank(config.token),
    }
    &&& views(live.labels@) == config.enabled_labels
    &&& live.threshold == config.threshold
    &&& compiled_views(live.rules@) == applied(config.rules, failures)
}

impl AppConfig {
    /// The origins that may use the daemon.
    pub fn chrome_extension_origins(&self) -> (r: Vec<String>)
        ensures
            views(r@) == origins_of(self@.chrome_extension_ids),
    {
        let r = origins_with_end(&self.chrome_extension_ids, "");
        proof {
            reveal_strlit("");
            assert forall|id: Seq<char>| #[trigger] extension_origin(id) + ""@ == extension_origin(
                id,
            ) by {
                assert(extension_origin(id) + ""@ =~= extension_origin(id));
            }
            assert(views(r@) =~= origins_of(self@.chrome_extension_ids));
        }
        r
    }

    /// The rules that are applied, given what the regular-expression engine says of
    /// each.
    pub fn compiled_rules(&self, failures: &Vec<Option<String>>) -> (r: Vec<CompiledRule>)
        requires
            self.rules@.len() == failures@.len(),
        ensures
            compiled_views(r@) == applied(self.rules@, failures@),
    {
        compile_rules(&self.rules, failures).0
    }

    /// The settings of a daemon with this configuration.
    pub fn to_live(&self, failures: &Vec<Option<String>>) -> (r: LiveSettings)
        requires
            self.rules@.len() == failures@.len(),
        ensures
            is_live(self@, failures@, r),
    {
        let token = if blank(self.token.as_str()) {
            None
        } else {
            Some(self.token.clone())
        };
        let labels = self.enabled_labels.clone();
        assert(labels@ =~= self.enabled_labels@);
        LiveSettings {
            token,
            labels,
            threshold: self.threshold,
            rules: self.compiled_rules(failures),
        }
    }
}

/// The origins of the extensions with the given identities, each with the same end.
fn origins_with_end(ids: &Vec<String>, end: &str) -> (r: Vec<String>)
    ensures
        views(r@) == views(ids@).map_values(|id: Seq<char>| extension_origin(id) + end@),
{
    let mut r: Vec<String> = Vec::new();
    let ghost all = views(ids@).map_values(|id: Seq<char>| extension_origin(id) + end@);
    let mut i: usize = 0;
    assert(views(r@) =~= all.take(0));
    while i < ids.len()
        invariant
            i <= ids@.len(),
            all == views(ids@).map_values(|id: Seq<char>| extension_origin(id) + end@),
            views(r@) == all.take(i as int),
        decreases ids@.len() - i,
    {
        let ghost before = r@;
        let mut origin = chrome_extension_origin(ids[i].as_str());
        origin.append(end);
        r.push(origin);
        assert(views(r@) =~= views(before).push(origin@));
        i += 1;
        assert(all.take(i as int) =~= all.take(i - 1).push(all[i - 1]));
    }
    assert(all.take(i as int) =~= all);
    r
}

/// Whether `c` is a lower-case hexadecimal digit.
pub open spec fn is_hex_digit(c: char) -> bool {
    '0' <= c <= '9' || 'a' <= c <= 'f'
}

/// Whether this has the form of a fresh token: the hexadecimal digits of a random UUID.
pub open spec fn is_token(s: Seq<char>) -> bool {
    &&& s.len() == 32
    &&& forall|i: int| 0 <= i < 32 ==> is_hex_digit(#[trigger] s[i])
    &&& s[12] == '4'
    &&& s[16] == '8' || s[16] == '9' || s[16] == 'a' || s[16] == 'b'
}

/// `uuid::Uuid::new_v4` in its simple form: 32 lower-case hexadecimal digits, among them
/// those that mark a random UUID. The others are random. The call ends the program
/// where the system has no random numbers to give.
#[verifier::external_body]
fn generate_token() -> (r: String)
    ensures
        is_token(r@),
{
    uuid::Uuid::new_v4().simple().to_string()
}

/// Whether an application starts with this configuration, and stores it or not, where this
/// one was stored, if any was, and this token is fresh.
pub open spec fn is_start(
    existed: bool,
    stored: Option<AppConfig>,
    fresh: Seq<char>,
    config: AppConfigView,
    stores: bool,
) -> bool {
    let found = match stored {
        Some(c) => c@,
        None => default_config(),
    };
    &&& config == (AppConfigView { token: config.token, ..found })
    &&& config.token == if is_blank(found.token) {
        fresh
    } else {
        found.token
    }
    &&& stores == (is_blank(found.token) || !existed)
}

/// The configuration to start with, and whether it is to be stored: the stored one, or
/// the default one where none can be read, with the fresh token where it has none.
pub fn init_config(existed: bool, stored: Option<AppConfig>, fresh: String) -> (r: (
    AppConfig,
    bool,
))
    ensures
        ({
            let config = match stored {
                Some(c) => c@,
                None => default_config(),
            };
            if is_blank(config.token) {
                r.0@ == (AppConfigView { token: fresh@, ..config }) && r.1
            } else {
                r.0@ == config && r.1 == !existed
            }
        }),
        is_start(existed, stored, fresh@, r.0@, r.1),
{
    let mut config = match stored {
        Some(c) => c,
        None => AppConfig::default(),
    };
    let mut dirty = !existed;
    if blank(config.token.as_str()) {
        config.token = fresh;
        dirty = true;
    }
    (config, dirty)
}

/// The configuration to start with, and whether it is to be stored. A token that is
/// missing is made anew, so that the daemon is never open by default.
pub fn load_or_init_config(existed: bool, stored: Option<AppConfig>) -> (r: (AppConfig, bool))
    ensures
        ({
            let config = match stored {
                Some(c) => c@,
                None => default_config(),
            };
            if is_blank(config.token) {
                is_token(r.0@.token) && r.0@ == (AppConfigView { token: r.0@.token, ..config })
                    && r.1
            } else {
                r.0@ == config && r.1 == !existed
            }
        }),
        !is_blank(r.0@.token),
{
    let open = match &stored {
        Some(c) => blank(c.token.as_str()),
        None => true,
    };
    let fresh = if open {
        generate_token()
    } else {
        String::new()
    };
    proof {
        if open {
            lemma_token_is_not_blank(fresh@);
        }
        assert(is_blank(default_config().token));
    }
    init_config(existed, stored, fresh)
}

/// A fresh token is not blank.
proof fn lemma_token_is_not_blank(s: Seq<char>)
    requires
        is_token(s),
    ensures
        !is_blank(s),
{
    assert(is_hex_digit(s[0]));
    assert(is_hex_digit(s[31]));
    assert(trimmed(s) == s);
}

/// What the settings window shows: the configuration, all labels that there are, and how
/// the daemon stands.
pub struct ConfigView {
    pub config: AppConfig,
    pub all_labels: Vec<String>,
    pub model_ready: bool,
    /// Whether the stored port is not the one that the daemon listens on.
    pub restart_needed: bool,
}

/// The state of a running application.
pub struct Shared {
    /// Whether the model has been loaded.
    pub ready: bool,
    /// The port that the daemon listens on for as long as it runs.
    pub bound_port: u16,
    pub config: AppConfig,
}

impl ConfigView {
    /// Whether this shows the given configuration.
    pub open spec fn shows(self, config: AppConfigView, ready: bool, bound_port: u16) -> bool {
        &&& self.config@ == config
        &&& views(self.all_labels@) == default_label_set()
        &&& self.model_ready == ready
        &&& self.restart_needed == (config.port != bound_port)
    }
}

/// What is to be done to save a configuration: the settings that apply at once, and the
/// configuration to store.
pub struct Save {
    pub live: LiveSettings,
    pub config: AppConfig,
}

/// The configuration that is saved: as the settings window sends it, but for the
/// identities of the extensions, which it does not show.
pub open spec fn to_be_saved(sent: AppConfigView, held: AppConfigView) -> AppConfigView {
    AppConfigView { chrome_extension_ids: held.chrome_extension_ids, ..sent }
}

impl Shared {
    /// The state at the start: the daemon is to listen on the stored port.
    pub fn new(config: AppConfig) -> (r: Self)
        ensures
            !r.ready,
            r.bound_port == config.port,
            r.config == config,
    {
        Shared { ready: false, bound_port: config.port, config }
    }

    /// What the settings window shows.
    pub fn get_config(&self) -> (r: ConfigView)
        ensures
            r.shows(self.config@, self.ready, self.bound_port),
            r.config.port == self.config.port,
            r.config.token@ == self.config.token@,
            r.config.threshold == self.config.threshold,
            r.config.enabled_labels@ == self.config.enabled_labels@,
            r.config.rules@ == self.config.rules@,
            r.config.autostart == self.config.autostart,
            r.config.chrome_extension_ids@ == self.config.chrome_extension_ids@,
    {
        let config = self.config.clone();
        ConfigView {
            restart_needed: config.port != self.bound_port,
            config,
            all_labels: default_labels(),
            model_ready: self.ready,
        }
    }

    /// Whether the model has been loaded, and the port that the daemon listens on.
    pub fn get_status(&self) -> (r: (bool, u16))
        ensures
            r == (self.ready, self.bound_port),
    {
        (self.ready, self.bound_port)
    }

    /// Checks a configuration that the settings window sends, before anything of it is
    /// applied or stored. Where a rule is at fault nothing is done.
    pub fn save_config(&self, sent: AppConfig, failures: &Vec<Option<String>>) -> (r: Result<
        Save,
        String,
    >)
        requires
            sent.rules@.len() == failures@.len(),
        ensures
            match r {
                Ok(save) => {
                    &&& are_faultless(sent.rules@, failures@)
                    &&& save.config@ == to_be_saved(sent@, self.config@)
                    &&& is_live(save.config@, failures@, save.live)
                    &&& save.config.port == sent.port
                    &&& save.config.token@ == sent.token@
                    &&& save.config.threshold == sent.threshold
                    &&& views(save.config.enabled_labels@) == views(sent.enabled_labels@)
                    &&& save.config.rules@ == sent.rules@
                    &&& save.config.autostart == sent.autostart
                    &&& views(save.live.labels@) == views(sent.enabled_labels@)
                    &&& save.live.threshold == sent.threshold
                },
                Err(e) => has_first_fault(sent.rules@, failures@, e@),
            },
    {
        match validate_rules(&sent.rules, failures) {
            Err(e) => Err(e),
            Ok(()) => {
                let mut config = sent;
                let ids = self.config.chrome_extension_ids.clone();
                assert(ids@ =~= self.config.chrome_extension_ids@);
                config.chrome_extension_ids = ids;
                let live = config.to_live(failures);
                Ok(Save { live, config })
            },
        }
    }

    /// Takes over a configuration once it has been stored; one that could not be stored
    /// is not taken over, and the error is handed on.
    pub fn saved(&mut self, config: AppConfig, stored: Result<(), String>) -> (r: Result<
        ConfigView,
        String,
    >)
        ensures
            final(self).ready == old(self).ready,
            final(self).bound_port == old(self).bound_port,
            match stored {
                Ok(()) => {
                    &&& r matches Ok(view)
                    &&& view.shows(config@, old(self).ready, old(self).bound_port)
                    &&& final(self).config@ == config@
                    &&& final(self).config == config
                },
                Err(e) => r == Err::<ConfigView, String>(e) && final(self).config
                    == old(self).config,
            },
    {
        match stored {
            Err(e) => Err(e),
            Ok(()) => {
                self.config = config;
                Ok(self.get_config())
            },
        }
    }
}

/// A save cannot change which extensions may pair or use the daemon.
pub proof fn law_save_keeps_extensions(sent: AppConfigView, held: AppConfigView)
    ensures
        origins_of(to_be_saved(sent, held).chrome_extension_ids) == origins_of(
            held.chrome_extension_ids,
        ),
        manifest_origins(to_be_saved(sent, held).chrome_extension_ids) == manifest_origins(
            held.chrome_extension_ids,
        ),
{
}

/// The daemon's allow-list and the browser's manifest name the same extensions: each
/// entry of the manifest is the one of the allow-list with a slash at the end.
pub proof fn law_allow_list_matches_manifest(ids: Seq<Seq<char>>)
    ensures
        manifest_origins(ids) == origins_of(ids).map_values(|o: Seq<char>| o + "/"@),
{
    assert(manifest_origins(ids) =~= origins_of(ids).map_values(|o: Seq<char>| o + "/"@));
}

/// A daemon that is started with a configuration whose token is not blank, as every
/// configuration is that it starts with, serves nobody without that token.
pub proof fn law_started_daemon_requires_token(
    config: AppConfigView,
    failures: Seq<Option<String>>,
    live: LiveSettings,
    headers: Seq<(Seq<char>, Seq<char>)>,
)
    requires
        !is_blank(config.token),
        is_live(config, failures, live),
    ensures
        is_authorized(headers, string_view(live.token)) <==> first_value(
            headers,
            "Authorization"@,
        ) == Some("Bearer "@ + config.token),
{
}

/// Where its rules passed the check, every enabled rule of a configuration is among the
/// settings of the daemon.
pub proof fn law_saved_rules_are_in_the_settings(
    config: AppConfigView,
    failures: Seq<Option<String>>,
    live: LiveSettings,
)
    requires
        config.rules.len() == failures.len(),
        are_faultless(config.rules, failures),
        is_live(config, failures, live),
    ensures
        compiled_views(live.rules@) == enabled_rules(config.rules),
{
    law_checked_rules_are_applied(config.rules, failures);
}

/// The name under which browsers look up the pairing host.
pub const NATIVE_HOST_NAME: &'static str = "ai.semplifica.privacy_redactor";

/// The identity of the extension for Firefox.
pub const FIREFOX_EXTENSION_ID: &'static str = "pii-redactor@semplifica.ai";

/// The system that the application runs on, as far as registering the host depends on
/// it.
#[derive(Clone, Copy, PartialEq, Eq, Structural, Debug)]
pub enum Platform {
    Linux,
    Windows,
    Other,
}

/// The file name of the pairing host, which stands beside the application.
pub fn host_binary_name(platform: Platform) -> (r: String)
    ensures
        r@ == if platform == Platform::Windows {
            "clipcloak-native-host.exe"@
        } else {
            "clipcloak-native-host"@
        },
{
    if platform == Platform::Windows {
        "clipcloak-native-host.exe".to_owned()
    } else {
        "clipcloak-native-host".to_owned()
    }
}

/// What every manifest of the pairing host says.
pub open spec fn manifest_texts(host_path: Seq<char>) -> Seq<(Seq<char>, Seq<char>)> {
    seq![
        ("name"@, NATIVE_HOST_NAME@),
        ("description"@, "ClipCloak pairing host"@),
        ("path"@, host_path),
        ("type"@, "stdio"@),
    ]
}

/// What every manifest of the pairing host says.
fn host_texts(host_path: &str) -> (r: Vec<(String, String)>)
    ensures
        pair_views(r@) == manifest_texts(host_path@),
{
    let mut r: Vec<(String, String)> = Vec::new();
    r.push(("name".to_owned(), NATIVE_HOST_NAME.to_owned()));
    r.push(("description".to_owned(), "ClipCloak pairing host".to_owned()));
    r.push(("path".to_owned(), host_path.to_owned()));
    r.push(("type".to_owned(), "stdio".to_owned()));
    assert(pair_views(r@) =~= manifest_texts(host_path@));
    r
}

/// The manifests of the pairing host: one by which browsers of the Chrome family admit
/// extensions by their origins, one by which Firefox does by their identities.
pub struct Manifests {
    pub chrome: String,
    pub firefox: String,
}

/// The manifests of the pairing host at the given path; none where one of them cannot
/// be printed.
pub fn host_manifests(host_path: &str, chrome_extension_ids: &Vec<String>) -> (r: Option<
    Manifests,
>)
    ensures
        ({
            let chrome = pretty_object(
                manifest_texts(host_path@),
                "allowed_origins"@,
                manifest_origins(views(chrome_extension_ids@)),
            );
            let firefox = pretty_object(
                manifest_texts(host_path@),
                "allowed_extensions"@,
                seq![FIREFOX_EXTENSION_ID@],
            );
            match r {
                Some(m) => chrome == Some(m.chrome@) && firefox == Some(m.firefox@),
                None => chrome is None || firefox is None,
            }
        }),
{
    let texts = host_texts(host_path);
    let origins = origins_with_end(chrome_extension_ids, "/");
    let mut firefox_ids: Vec<String> = Vec::new();
    firefox_ids.push(FIREFOX_EXTENSION_ID.to_owned());
    assert(views(firefox_ids@) =~= seq![FIREFOX_EXTENSION_ID@]);
    assert(views(origins@) =~= manifest_origins(views(chrome_extension_ids@)));
    let chrome = match print_object(&texts, "allowed_origins", &origins) {
        Some(s) => s,
        None => {
            return None;
        },
    };
    let firefox = match print_object(&texts, "allowed_extensions", &firefox_ids) {
        Some(s) => s,
        None => {
            return None;
        },
    };
    Some(Manifests { chrome, firefox })
}

/// A directory of the user.
#[derive(Clone, Copy, PartialEq, Eq, Structural, Debug)]
pub enum UserDir {
    /// Where programs keep their configuration.
    Config,
    Home,
    /// Where this application keeps its configuration.
    AppConfig,
}

/// A manifest that is to be written: where, which one, and the registry keys that are
/// to point at it.
pub struct Placement {
    pub under: UserDir,
    pub dirs: Vec<String>,
    pub file: String,
    pub firefox: bool,
    pub keys: Vec<String>,
}

/// A placement as mathematical values.
pub struct PlacementView {
    pub under: UserDir,
    pub dirs: Seq<Seq<char>>,
    pub file: Seq<char>,
    pub firefox: bool,
    pub keys: Seq<Seq<char>>,
}

impl View for Placement {
    type V = PlacementView;

    open spec fn view(&self) -> PlacementView {
        PlacementView {
            under: self.under,
            dirs: views(self.dirs@),
            file: self.file@,
            firefox: self.firefox,
            keys: views(self.keys@),
        }
    }
}

/// The placements as mathematical values.
pub open spec fn placement_views(v: Seq<Placement>) -> Seq<PlacementView> {
    v.map_values(|p: Placement| p@)
}

/// Where the manifests go. On Linux each browser looks for them in a directory of its
/// own, Firefox in the home directory; on Windows the registry points at them.
pub open spec fn placement_plan(platform: Platform) -> Seq<PlacementView> {
    let file = NATIVE_HOST_NAME@ + ".json"@;
    match platform {
        Platform::Linux => seq![
            PlacementView {
                under: UserDir::Config,
                dirs: seq!["google-chrome"@, "NativeMessagingHosts"@],
                file,
                firefox: false,
                keys: Seq::empty(),
            },
            PlacementView {
                under: UserDir::Config,
                dirs: seq!["chromium"@, "NativeMessagingHosts"@],
                file,
                firefox: false,
                keys: Seq::empty(),
            },
            PlacementView {
                under: UserDir::Home,
                dirs: seq![".mozilla"@, "native-messaging-hosts"@],
                file,
                firefox: true,
                keys: Seq::empty(),
            },
        ],
        Platform::Windows => seq![
            PlacementView {
                under: UserDir::AppConfig,
                dirs: Seq::empty(),
                file,
                firefox: false,
                keys: seq![
                    "Software\\Google\\Chrome\\NativeMessagingHosts\\"@ + NATIVE_HOST_NAME@,
                    "Software\\Microsoft\\Edge\\NativeMessagingHosts\\"@ + NATIVE_HOST_NAME@,
                ],
            },
            PlacementView {
                under: UserDir::AppConfig,
                dirs: Seq::empty(),
                file: NATIVE_HOST_NAME@ + ".firefox.json"@,
                firefox: true,
                keys: seq!["Software\\Mozilla\\NativeMessagingHosts\\"@ + NATIVE_HOST_NAME@],
            },
        ],
        Platform::Other => Seq::empty(),
    }
}

/// A list of two strings.
fn two(a: &str, b: &str) -> (r: Vec<String>)
    ensures
        views(r@) == seq![a@, b@],
{
    let mut r: Vec<String> = Vec::new();
    r.push(a.to_owned());
    r.push(b.to_owned());
    assert(views(r@) =~= seq![a@, b@]);
    r
}

/// A placement in a directory that a browser looks into.
fn in_directory(under: UserDir, browser: &str, hosts: &str, firefox: bool) -> (r: Placement)
    ensures
        r@ == (PlacementView {
            under,
            dirs: seq![browser@, hosts@],
            file: NATIVE_HOST_NAME@ + ".json"@,
            firefox,
            keys: Seq::empty(),
        }),
{
    let r = Placement {
        under,
        dirs: two(browser, hosts),
        file: join2(NATIVE_HOST_NAME, ".json"),
        firefox,
        keys: Vec::new(),
    };
    assert(views(r.keys@) =~= Seq::empty());
    r
}

/// Where the manifests go.
pub fn placements(platform: Platform) -> (r: Vec<Placement>)
    ensures
        placement_views(r@) == placement_plan(platform),
{
    let mut r: Vec<Placement> = Vec::new();
    match platform {
        Platform::Linux => {
            r.push(
                in_directory(UserDir::Config, "google-chrome", "NativeMessagingHosts", false),
            );
            r.push(in_directory(UserDir::Config, "chromium", "NativeMessagingHosts", false));
            r.push(in_directory(UserDir::Home, ".mozilla", "native-messaging-hosts", true));
        },
        Platform::Windows => {
            let chrome = join2(
                "Software\\Google\\Chrome\\NativeMessagingHosts\\",
                NATIVE_HOST_NAME,
            );
            let edge = join2(
                "Software\\Microsoft\\Edge\\NativeMessagingHosts\\",
                NATIVE_HOST_NAME,
            );
            let p = Placement {
                under: UserDir::AppConfig,
                dirs: Vec::new(),
                file: join2(NATIVE_HOST_NAME, ".json"),
                firefox: false,
                keys: two(chrome.as_str(), edge.as_str()),
            };
            assert(views(p.dirs@) =~= Seq::empty());
            r.push(p);
            let mut keys: Vec<String> = Vec::new();
            keys.push(join2("Software\\Mozilla\\NativeMessagingHosts\\", NATIVE_HOST_NAME));
            let q = Placement {
                under: UserDir::AppConfig,
                dirs: Vec::new(),
                file: join2(NATIVE_HOST_NAME, ".firefox.json"),
                firefox: true,
                keys,
            };
            assert(views(q.dirs@) =~= Seq::empty());
            assert(views(q.keys@) =~= seq![
                "Software\\Mozilla\\NativeMessagingHosts\\"@ + NATIVE_HOST_NAME@,
            ]);
            r.push(q);
        },
        Platform::Other => {},
    }
    assert(placement_views(r@) =~= placement_plan(platform));
    r
}

/// Where the model comes from: the directory that the environment names, else the one
/// that is bundled with the application where it holds a tokenizer, else the default.
pub fn resolve_model_source(named: Option<String>, bundled: Option<(String, bool)>) -> (r:
    ModelSource)
    ensures
        match (named, bundled) {
            (Some(dir), _) => r == ModelSource::LocalDir(dir),
            (None, Some((dir, true))) => r == ModelSource::LocalDir(dir),
            _ => r.is_default(),
        },
{
    if let Some(dir) = named {
        return ModelSource::LocalDir(dir);
    }
    if let Some((dir, has_tokenizer)) = bundled {
        if has_tokenizer {
            return ModelSource::LocalDir(dir);
        }
    }
    ServerConfig::default().model
}

/// The file names under which the runtime library may be bundled, in the order in which
/// they are tried.
pub open spec fn dylib_order() -> Seq<Seq<char>> {
    seq!["libonnxruntime.so"@, "onnxruntime.dll"@, "libonnxruntime.dylib"@]
}

/// The file names under which the runtime library may be bundled.
pub fn dylib_names() -> (r: Vec<String>)
    ensures
        views(r@) == dylib_order(),
{
    let mut r: Vec<String> = Vec::new();
    r.push("libonnxruntime.so".to_owned());
    r.push("onnxruntime.dll".to_owned());
    r.push("libonnxruntime.dylib".to_owned());
    assert(views(r@) =~= dylib_order());
    r
}

/// Which of the bundled runtime libraries to use, given which of them exist: the first
/// one; none where the environment names one already.
pub fn bundled_dylib(is_named: bool, exist: &Vec<bool>) -> (r: Option<usize>)
    ensures
        match r {
            Some(i) => {
                &&& !is_named
                &&& i < exist@.len()
                &&& exist@[i as int]
                &&& forall|j: int| 0 <= j < i ==> !#[trigger] exist@[j]
            },
            None => is_named || forall|j: int| 0 <= j < exist@.len() ==> !#[trigger] exist@[j],
        },
{
    if is_named {
        return None;
    }
    let mut i: usize = 0;
    while i < exist.len()
        invariant
            !is_named,
            i <= exist@.len(),
            forall|j: int| 0 <= j < i ==> !#[trigger] exist@[j],
        decreases exist@.len() - i,
    {
        if exist[i] {
            return Some(i);
        }
        i += 1;
    }
    None
}

/// What an entry of the tray menu does.
#[derive(Clone, Copy, PartialEq, Eq, Structural, Debug)]
pub enum MenuAction {
    OpenSettings,
    Quit,
    Nothing,
}

/// What the entry of the tray menu with the given name does.
pub fn menu_action(id: &str) -> (r: MenuAction)
    ensures
        r == if id@ == "open"@ {
            MenuAction::OpenSettings
        } else if id@ == "quit"@ {
            MenuAction::Quit
        } else {
            MenuAction::Nothing
        },
{
    if str_eq(id, "open") {
        MenuAction::OpenSettings
    } else if str_eq(id, "quit") {
        MenuAction::Quit
    } else {
        MenuAction::Nothing
    }
}

/// Whether the application goes on in the tray when it is asked to exit: unless an exit
/// code says that the user quit.
pub fn stays_in_tray(code: Option<i32>) -> (r: bool)
    ensures
        r == (code is None),
{
    code.is_none()
}

/// A save takes over all that the settings window shows: what is stored has the port, the
/// token, the threshold, the labels, the rules and the autostart that were sent, and the
/// settings that apply at once have the labels and the threshold that were sent, and the
/// token where there is more to it than white space. Only the extensions stay those that
/// were held.
pub proof fn law_save_takes_over_what_was_sent(
    sent: AppConfigView,
    held: AppConfigView,
    saved: AppConfigView,
    failures: Seq<Option<String>>,
    live: LiveSettings,
)
    requires
        saved == to_be_saved(sent, held),
        is_live(saved, failures, live),
    ensures
        saved.port == sent.port,
        saved.token == sent.token,
        saved.threshold == sent.threshold,
        saved.enabled_labels == sent.enabled_labels,
        saved.rules == sent.rules,
        saved.autostart == sent.autostart,
        saved.chrome_extension_ids == held.chrome_extension_ids,
        live.labels@.len() == sent.enabled_labels.len(),
        forall|i: int|
            0 <= i < live.labels@.len() ==> (#[trigger] live.labels@[i])@
                == sent.enabled_labels[i],
        live.threshold == sent.threshold,
        live.token is Some <==> exists|i: int|
            0 <= i < sent.token.len() && !is_white_space(#[trigger] sent.token[i]),
        live.token matches Some(t) ==> t@ == sent.token,
{
    law_blank_is_all_white_space(sent.token);
    assert forall|i: int| 0 <= i < live.labels@.len() implies (#[trigger] live.labels@[i])@
        == sent.enabled_labels[i] by {
        assert(views(live.labels@)[i] == live.labels@[i]@);
    }
    assert(views(live.labels@).len() == live.labels@.len());
}

/// What one save stores, the next one gets to see: saving what the window shows, unchanged,
/// stores what is stored.
pub proof fn law_save_of_what_is_held_changes_nothing(sent: AppConfigView, held: AppConfigView)
    ensures
        to_be_saved(held, held) == held,
        to_be_saved(sent, to_be_saved(sent, held)) == to_be_saved(sent, held),
{
}

/// The settings window shows the configuration, the labels that there are, whether the
/// model has been loaded, and asks for a restart exactly where the port is another one
/// than the daemon listens on.
pub proof fn law_window_shows_how_things_stand(
    view: ConfigView,
    config: AppConfigView,
    ready: bool,
    bound_port: u16,
)
    requires
        view.shows(config, ready, bound_port),
    ensures
        view.config@ == config,
        view.model_ready <==> ready,
        view.restart_needed <==> view.config.port != bound_port,
        view.all_labels@.len() == 7,
        forall|i: int, j: int|
            0 <= i < j < view.all_labels@.len() ==> (#[trigger] view.all_labels@[i])@ != (
            #[trigger] view.all_labels@[j])@,
{
    reveal_strlit("name");
    reveal_strlit("street address");
    reveal_strlit("email");
    reveal_strlit("phone_num");
    reveal_strlit("id_num");
    reveal_strlit("url");
    reveal_strlit("username");
    let labels = default_label_set();
    assert(views(view.all_labels@).len() == view.all_labels@.len());
    assert forall|i: int, j: int| 0 <= i < j < view.all_labels@.len() implies (
    #[trigger] view.all_labels@[i])@ != (#[trigger] view.all_labels@[j])@ by {
        assert(views(view.all_labels@)[i] == view.all_labels@[i]@);
        assert(views(view.all_labels@)[j] == view.all_labels@[j]@);
        assert(labels[0].len() == 4 && labels[1].len() == 14 && labels[2].len() == 5
            && labels[3].len() == 9 && labels[4].len() == 6 && labels[5].len() == 3
            && labels[6].len() == 8);
    }
}

/// Every manifest of the host says under which name it is looked up, where the host lies
/// and that it speaks over the standard streams.
pub proof fn law_manifests_name_the_host(host_path: Seq<char>)
    ensures
        manifest_texts(host_path).len() == 4,
        manifest_texts(host_path).contains(("name"@, "ai.semplifica.privacy_redactor"@)),
        manifest_texts(host_path).contains(("path"@, host_path)),
        manifest_texts(host_path).contains(("type"@, "stdio"@)),
        manifest_texts(host_path).contains(("description"@, "ClipCloak pairing host"@)),
{
    let texts = manifest_texts(host_path);
    assert(texts[0] == ("name"@, "ai.semplifica.privacy_redactor"@));
    assert(texts[1] == ("description"@, "ClipCloak pairing host"@));
    assert(texts[2] == ("path"@, host_path));
    assert(texts[3] == ("type"@, "stdio"@));
}

/// Where the manifests go. On Linux each is found by where it lies, under the name of the
/// host, and no registry key points at it; on Windows every manifest has one or more keys
/// that end in the name of the host. Wherever there are manifests, some are for browsers of
/// the Chrome family and the last one is for Firefox.
pub proof fn law_manifests_can_be_found(platform: Platform, i: int)
    requires
        0 <= i < placement_plan(platform).len(),
    ensures
        ({
            let plan = placement_plan(platform);
            let p = plan[i];
            let host = "ai.semplifica.privacy_redactor"@;
            &&& platform != Platform::Other
            &&& p.firefox <==> i == plan.len() - 1
            &&& plan.len() >= 2
            &&& platform == Platform::Linux ==> {
                &&& plan.len() == 3
                &&& p.file == host + ".json"@
                &&& p.dirs.len() == 2
                &&& p.keys.len() == 0
                &&& p.under == UserDir::Home <==> p.firefox
                &&& p.under == UserDir::Config <==> !p.firefox
            }
            &&& platform == Platform::Windows ==> {
                &&& plan.len() == 2
                &&& p.under == UserDir::AppConfig
                &&& p.dirs.len() == 0
                &&& p.keys.len() > 0
                &&& forall|k: int|
                    0 <= k < p.keys.len() ==> host.is_suffix_of(#[trigger] p.keys[k])
            }
        }),
{
    let plan = placement_plan(platform);
    let host = "ai.semplifica.privacy_redactor"@;
    if platform == Platform::Windows {
        let chrome = "Software\\Google\\Chrome\\NativeMessagingHosts\\"@;
        let edge = "Software\\Microsoft\\Edge\\NativeMessagingHosts\\"@;
        let mozilla = "Software\\Mozilla\\NativeMessagingHosts\\"@;
        assert forall|k: int| 0 <= k < plan[i].keys.len() implies host.is_suffix_of(
            #[trigger] plan[i].keys[k],
        ) by {
            let key = plan[i].keys[k];
            assert(key == chrome + host || key == edge + host || key == mozilla + host);
            assert(key.subrange(key.len() - host.len(), key.len() as int) =~= host);
        }
    }
}

/// Settings apply what is configured: the labels, the threshold, and the token where there
/// is more to it than white space.
pub proof fn law_settings_are_what_is_configured(
    config: AppConfigView,
    failures: Seq<Option<String>>,
    live: LiveSettings,
)
    requires
        is_live(config, failures, live),
    ensures
        views(live.labels@) == config.enabled_labels,
        live.threshold == config.threshold,
        live.token is Some <==> exists|i: int|
            0 <= i < config.token.len() && !is_white_space(#[trigger] config.token[i]),
        live.token matches Some(t) ==> t@ == config.token,
        compiled_views(live.rules@) == applied(config.rules, failures),
{
    law_blank_is_all_white_space(config.token);
}

/// Every identity that is held has its origin on the allow-list and in the manifest, in the
/// same place, and nothing else has.
pub proof fn law_every_identity_has_its_origin(ids: Seq<Seq<char>>, i: int)
    requires
        0 <= i < ids.len(),
    ensures
        origins_of(ids).len() == ids.len(),
        origins_of(ids)[i] == "chrome-extension://"@ + ids[i],
        manifest_origins(ids).len() == ids.len(),
        manifest_origins(ids)[i] == "chrome-extension://"@ + ids[i] + "/"@,
{
}

/// An application starts with what was stored, and with a token: one that was stored is
/// kept, the fresh one is taken where there is nothing but white space, and everything else
/// is as it was stored. It is stored again exactly where the token is fresh or no file was
/// there. Without anything to read it starts with the default port and labels.
pub proof fn law_application_starts_as_it_was_left(
    existed: bool,
    stored: Option<AppConfig>,
    fresh: Seq<char>,
    config: AppConfigView,
    stores: bool,
)
    requires
        is_start(existed, stored, fresh, config, stores),
        !is_blank(fresh),
    ensures
        !is_blank(config.token),
        stored matches Some(c) ==> {
            &&& config.port == c.port
            &&& config.threshold == c.threshold
            &&& config.enabled_labels == views(c.enabled_labels@)
            &&& config.rules == c.rules@
            &&& config.autostart == c.autostart
            &&& config.chrome_extension_ids == views(c.chrome_extension_ids@)
            &&& (exists|i: int|
                0 <= i < c.token@.len() && !is_white_space(#[trigger] c.token@[i]))
                ==> config.token == c.token@ && stores == !existed
            &&& (forall|i: int|
                0 <= i < c.token@.len() ==> is_white_space(#[trigger] c.token@[i]))
                ==> config.token == fresh && stores
        },
        stored is None ==> {
            &&& config.port == 8731
            &&& config.token == fresh
            &&& config.rules.len() == 0
            &&& !config.autostart
            &&& config.enabled_labels == default_label_set()
            &&& config.chrome_extension_ids == seq![DEFAULT_EXTENSION_ID@]
            &&& stores
        },
{
    match stored {
        Some(c) => {
            law_blank_is_all_white_space(c.token@);
        },
        None => {
            law_blank_is_all_white_space(Seq::empty());
        },
    }
}

} // verus!
