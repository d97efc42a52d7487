use clipcloak::config::{
    chrome_extension_origin, configure, default_labels, engine_plan, EnginePlan, Environment,
    LiveSettings, ModelSource, ServerConfig, DEFAULT_EXTENSION_ID, DEFAULT_EXTENSION_ORIGIN,
    DEFAULT_PORT,
};
use clipcloak::desktop::{
    bundled_dylib, default_chrome_extension_ids, dylib_names, host_binary_name, host_manifests,
    init_config, load_or_init_config, menu_action, placements, resolve_model_source, stays_in_tray,
    AppConfig, MenuAction, Platform, Shared, UserDir, FIREFOX_EXTENSION_ID, NATIVE_HOST_NAME,
};
use clipcloak::engine::ModelType;
use clipcloak::http::{resolve_origin, Handling, Method, Request, Server};
use clipcloak::rules::{
    collect_rules, compile_rules, default_true, parse_rules, rules_from_env, validate_rules,
    CompiledRule, RuleConfig, RuleEntry,
};

fn strings(v: &[&str]) -> Vec<String> {
    v.iter().map(|s| s.to_string()).collect()
}

fn rule(name: &str, pattern: &str, enabled: bool) -> RuleConfig {
    RuleConfig { name: name.to_string(), pattern: pattern.to_string(), enabled }
}

fn bare() -> Environment {
    Environment {
        models_dir: None,
        model_repo: None,
        subfolder: None,
        labels: None,
        token: None,
        allowed_origins: None,
        port: None,
        threshold: None,
    }
}

fn is_repo(m: &ModelSource, r: &str, s: &str) -> bool {
    matches!(m, ModelSource::HuggingFace { repo, subfolder } if repo == r && subfolder == s)
}

fn is_dir(m: &ModelSource, d: &str) -> bool {
    matches!(m, ModelSource::LocalDir(dir) if dir == d)
}

#[test]
fn the_pinned_origin_is_that_of_the_pinned_extension() {
    assert_eq!(chrome_extension_origin(DEFAULT_EXTENSION_ID), DEFAULT_EXTENSION_ORIGIN);
    assert_eq!(chrome_extension_origin("abc"), "chrome-extension://abc");
}

#[test]
fn a_daemon_has_defaults() {
    let c = ServerConfig::default();
    assert_eq!(c.port, 8731);
    assert!(is_repo(&c.model, "stefanj0/gliner2-sa-names-lora", "onnx_int8"));
    assert!(is_repo(&c.model.clone(), "stefanj0/gliner2-sa-names-lora", "onnx_int8"));
    assert_eq!(c.allowed_origins, strings(&[DEFAULT_EXTENSION_ORIGIN]));
    let s = LiveSettings::default();
    assert_eq!(s.token, None);
    assert_eq!(
        s.labels,
        strings(&["name", "street address", "email", "phone_num", "id_num", "url", "username"])
    );
    assert_eq!(f32::from_bits(s.threshold), 0.55);
    assert!(s.rules.is_empty());
}

#[test]
fn settings_are_copied_whole() {
    let s = LiveSettings {
        token: Some("t".to_string()),
        labels: strings(&["a", "b"]),
        threshold: 7,
        rules: vec![CompiledRule { name: "n".to_string(), pattern: "p".to_string() }],
    };
    assert_eq!(format!("{:?}", s.clone()), format!("{s:?}"));
    let c = ServerConfig::default();
    assert_eq!(format!("{:?}", c.clone()), format!("{c:?}"));
    let a = AppConfig { rules: vec![rule("a", "b", false)], ..AppConfig::default() };
    assert_eq!(format!("{:?}", a.clone()), format!("{a:?}"));
}

#[test]
fn an_empty_environment_gives_the_defaults() {
    let (c, s) = configure(bare(), vec![]);
    assert_eq!(c.port, DEFAULT_PORT);
    assert!(is_repo(&c.model, "SemplificaAI/gliner2-privacy-filter-PII-multi", "fp16_v2"));
    assert_eq!(c.allowed_origins, strings(&[DEFAULT_EXTENSION_ORIGIN]));
    assert_eq!((s.token, s.labels), (None, default_labels()));
    assert_eq!(f32::from_bits(s.threshold), 0.55);
}

#[test]
fn the_environment_configures_a_daemon() {
    let env = Environment {
        models_dir: None,
        model_repo: Some("me/model".to_string()),
        subfolder: Some("fp16".to_string()),
        labels: Some("name, iban".to_string()),
        token: Some(" ".to_string()),
        allowed_origins: Some("moz-extension://*".to_string()),
        port: Some("9000".to_string()),
        threshold: Some(0.25f32.to_bits()),
    };
    let rules = vec![CompiledRule { name: "n".to_string(), pattern: "p".to_string() }];
    let (c, s) = configure(env, rules);
    assert_eq!(c.port, 9000);
    assert!(is_repo(&c.model, "me/model", "fp16"));
    assert_eq!(c.allowed_origins, strings(&["moz-extension://*"]));
    assert_eq!(s.token.as_deref(), Some(" "));
    assert_eq!(s.labels, strings(&["name", "iban"]));
    assert_eq!(f32::from_bits(s.threshold), 0.25);
    assert_eq!(s.rules.len(), 1);
}

#[test]
fn variables_that_say_nothing_are_passed_over() {
    let env = Environment {
        models_dir: Some("/models".to_string()),
        model_repo: Some("ignored".to_string()),
        token: Some(String::new()),
        port: Some("70000".to_string()),
        ..bare()
    };
    let (c, s) = configure(env, vec![]);
    assert!(is_dir(&c.model, "/models"));
    assert_eq!(c.port, 8731);
    assert_eq!(s.token, None);
}

#[test]
fn an_engine_is_made_or_fetched() {
    let (plan, note) = engine_plan(&ModelSource::LocalDir("/m".to_string()));
    match plan {
        EnginePlan::Make(c) => {
            assert_eq!((c.models_dir.as_str(), c.max_width), ("/m", 8));
            assert!(c.model_type == ModelType::HuggingFace);
        },
        EnginePlan::Fetch { .. } => panic!("fetch"),
    }
    assert_eq!(note, "Loading GLiNER2 engine from local dir /m\u{2026}");
    let (plan, note) = engine_plan(&ServerConfig::default().model);
    match plan {
        EnginePlan::Fetch { repo, subfolder, model_type } => {
            assert_eq!((repo.as_str(), subfolder.as_str()), ("stefanj0/gliner2-sa-names-lora", "onnx_int8"));
            assert!(model_type == ModelType::HuggingFace);
        },
        EnginePlan::Make(_) => panic!("make"),
    }
    assert_eq!(
        note,
        "Loading GLiNER2 engine from stefanj0/gliner2-sa-names-lora/onnx_int8 (first run downloads ~620 MB)\u{2026}"
    );
}

#[test]
fn rules_are_read_from_a_document() {
    let doc = "[{\"name\":\" id \",\"pattern\":\"[0-9]+\"},{\"name\":\"x\"},{\"name\":\" \",\"pattern\":\"p\"},\
               7,{\"name\":1,\"pattern\":\"q\"},{\"name\":\"y\",\"pattern\":\" \"}]";
    let r = parse_rules(doc);
    assert_eq!(r.ignored, None);
    let read: Vec<(&str, &str, bool)> =
        r.rules.iter().map(|r| (r.name.as_str(), r.pattern.as_str(), r.enabled)).collect();
    assert_eq!(read, vec![("id", "[0-9]+", true), ("y", " ", true)]);
    assert_eq!(r.skipped, vec![1, 2, 3, 4]);
}

#[test]
fn a_document_that_is_no_array_has_no_rules() {
    for doc in ["{}", "nonsense", ""] {
        let r = parse_rules(doc);
        assert!(r.rules.is_empty() && r.skipped.is_empty());
        let expected = serde_json::from_str::<Vec<serde_json::Value>>(doc).err().unwrap().to_string();
        assert_eq!(r.ignored, Some(expected));
    }
}

#[test]
fn a_blank_variable_gives_no_rules() {
    for doc in [None, Some(""), Some("  \n")] {
        let r = rules_from_env(doc);
        assert!(r.rules.is_empty() && r.skipped.is_empty() && r.ignored.is_none());
    }
    assert_eq!(rules_from_env(Some("[{\"name\":\"a\",\"pattern\":\"b\"}]")).rules.len(), 1);
    let r = rules_from_env(Some("{"));
    assert!(r.rules.is_empty() && r.ignored.is_some());
}

#[test]
fn entries_without_texts_are_passed_over() {
    let entries = vec![
        RuleEntry { name: None, pattern: Some("p".to_string()) },
        RuleEntry { name: Some("n".to_string()), pattern: None },
        RuleEntry { name: Some("n".to_string()), pattern: Some("p".to_string()) },
    ];
    let r = collect_rules(&entries);
    assert_eq!(r.rules.len(), 1);
    assert_eq!(r.skipped, vec![0, 1]);
}

#[test]
fn the_first_faulty_rule_is_named() {
    let none = || -> Option<String> { None };
    assert_eq!(
        validate_rules(&vec![rule("a", "b", true), rule("  ", "b", true)], &vec![none(), none()]),
        Err("A rule is enabled but has no name.".to_string())
    );
    assert_eq!(
        validate_rules(&vec![rule(" a ", "", true)], &vec![none()]),
        Err("Rule \"a\" is enabled but has no pattern.".to_string())
    );
    assert_eq!(
        validate_rules(
            &vec![rule(" a ", "(", true), rule("", "", true)],
            &vec![Some("unclosed group".to_string()), none()]
        ),
        Err("Rule \"a\": unclosed group".to_string())
    );
    assert_eq!(
        validate_rules(
            &vec![rule("", "", false), rule("a", "(", false), rule("b", "c", true)],
            &vec![none(), Some("bad".to_string()), none()]
        ),
        Ok(())
    );
}

#[test]
fn rules_are_parted_by_what_compiles() {
    let rules = vec![
        rule("a", "x", true),
        rule("b", "(", true),
        rule("c", "x", false),
        rule(" ", "x", true),
        rule("e", "", true),
    ];
    let failures = vec![None, Some("bad".to_string()), None, None, None];
    let (compiled, errors) = compile_rules(&rules, &failures);
    assert_eq!(compiled.len(), 1);
    assert_eq!((compiled[0].name.as_str(), compiled[0].pattern.as_str()), ("a", "x"));
    assert_eq!(errors.len(), 1);
    assert_eq!((errors[0].name.as_str(), errors[0].error.as_str()), ("b", "bad"));
}

#[test]
fn a_stored_rule_is_enabled_unless_it_says_otherwise() {
    assert!(default_true());
}

#[test]
fn checked_rules_all_take_effect() {
    let mut c = AppConfig::default();
    c.rules = vec![rule("a", "x", true), rule("b", "(", false), rule("c", "y", true)];
    let failures = vec![None, Some("bad".to_string()), None];
    let shared = Shared::new(AppConfig::default());
    let save = shared.save_config(c, &failures).ok().unwrap();
    assert_eq!(save.live.rules.iter().map(|r| r.name.as_str()).collect::<Vec<_>>(), vec!["a", "c"]);
}

#[test]
fn an_application_has_defaults() {
    let c = AppConfig::default();
    assert_eq!((c.port, c.token.as_str(), c.autostart), (8731, "", false));
    assert_eq!(f32::from_bits(c.threshold), 0.55);
    assert_eq!(c.enabled_labels, default_labels());
    assert!(c.rules.is_empty());
    assert_eq!(c.chrome_extension_ids, default_chrome_extension_ids());
    assert_eq!(default_chrome_extension_ids(), strings(&["ihjamhkkcgbifajnbikldcjfamggnbaj"]));
}

#[test]
fn a_first_start_makes_a_token() {
    let (c, dirty) = load_or_init_config(false, None);
    assert!(dirty);
    let t: Vec<char> = c.token.chars().collect();
    assert_eq!(t.len(), 32);
    assert!(t.iter().all(|c| matches!(c, '0'..='9' | 'a'..='f')));
    assert_eq!(t[12], '4');
    assert!(matches!(t[16], '8' | '9' | 'a' | 'b'));
    let (other, _) = load_or_init_config(false, None);
    assert_ne!(other.token, c.token);
}

#[test]
fn a_stored_configuration_keeps_its_token() {
    let mut c = AppConfig::default();
    c.token = " mine ".to_string();
    c.port = 9;
    let (c, dirty) = load_or_init_config(true, Some(c));
    assert!(!dirty);
    assert_eq!((c.token.as_str(), c.port), (" mine ", 9));
    let mut c = AppConfig::default();
    c.token = "  ".to_string();
    c.port = 9;
    let (c, dirty) = load_or_init_config(true, Some(c));
    assert!(dirty);
    assert_eq!((c.token.len(), c.port), (32, 9));
}

#[test]
fn a_fresh_token_is_taken_only_where_there_is_none() {
    let (c, dirty) = init_config(true, None, "fresh".to_string());
    assert_eq!((c.token.as_str(), dirty), ("fresh", true));
    let mut held = AppConfig::default();
    held.token = "held".to_string();
    let (c, dirty) = init_config(false, Some(held.clone()), "fresh".to_string());
    assert_eq!((c.token.as_str(), dirty), ("held", true));
    let (c, dirty) = init_config(true, Some(held), "fresh".to_string());
    assert_eq!((c.token.as_str(), dirty), ("held", false));
}

#[test]
fn a_blank_token_runs_the_daemon_open() {
    let mut c = AppConfig::default();
    c.token = " \t".to_string();
    assert_eq!(c.to_live(&vec![]).token, None);
    c.token = " t ".to_string();
    let live = c.to_live(&vec![]);
    assert_eq!(live.token.as_deref(), Some(" t "));
    assert_eq!(live.labels, c.enabled_labels);
    assert_eq!(live.threshold, c.threshold);
}

#[test]
fn configured_extensions_may_use_the_daemon() {
    let mut c = AppConfig::default();
    c.chrome_extension_ids.push("other".to_string());
    let origins = c.chrome_extension_origins();
    assert_eq!(origins, strings(&[DEFAULT_EXTENSION_ORIGIN, "chrome-extension://other"]));
    assert!(resolve_origin(Some("chrome-extension://other"), &origins).is_some());
    assert!(resolve_origin(Some("chrome-extension://other/"), &origins).is_none());
}

#[test]
fn the_settings_window_shows_what_is_stored() {
    let mut shared = Shared::new(AppConfig::default());
    let v = shared.get_config();
    assert!(!v.model_ready && !v.restart_needed);
    assert_eq!(v.all_labels, default_labels());
    assert_eq!(shared.get_status(), (false, 8731));
    shared.ready = true;
    assert!(shared.get_config().model_ready);
}

#[test]
fn a_save_applies_and_keeps_the_extensions() {
    let mut held = AppConfig::default();
    held.chrome_extension_ids = strings(&["one", "two"]);
    let mut shared = Shared::new(held);
    let mut sent = AppConfig::default();
    sent.port = 9999;
    sent.token = "t".to_string();
    sent.chrome_extension_ids = strings(&["three"]);
    let save = shared.save_config(sent, &vec![]).ok().unwrap();
    assert_eq!(save.config.chrome_extension_ids, strings(&["one", "two"]));
    assert_eq!(save.config.port, 9999);
    assert_eq!(save.live.token.as_deref(), Some("t"));
    let v = shared.saved(save.config, Ok(())).ok().unwrap();
    assert!(v.restart_needed);
    assert_eq!(shared.config.port, 9999);
    assert_eq!(shared.bound_port, 8731);
}

#[test]
fn a_save_that_fails_changes_nothing_that_is_stored() {
    let mut shared = Shared::new(AppConfig::default());
    let mut sent = AppConfig::default();
    sent.port = 1;
    let save = shared.save_config(sent.clone(), &vec![]).ok().unwrap();
    assert_eq!(shared.saved(save.config, Err("disk full".to_string())).err().as_deref(), Some("disk full"));
    assert_eq!(shared.config.port, 8731);
    sent.rules = vec![rule("", "x", true)];
    assert_eq!(
        shared.save_config(sent, &vec![None]).err().as_deref(),
        Some("A rule is enabled but has no name.")
    );
}

#[test]
fn manifests_name_the_host_and_who_may_pair() {
    let m = host_manifests("/opt/clipcloak/host", &strings(&["one", "two"])).unwrap();
    let chrome: serde_json::Value = serde_json::from_str(&m.chrome).unwrap();
    assert_eq!(chrome["name"], NATIVE_HOST_NAME);
    assert_eq!(chrome["description"], "ClipCloak pairing host");
    assert_eq!(chrome["path"], "/opt/clipcloak/host");
    assert_eq!(chrome["type"], "stdio");
    assert_eq!(chrome["allowed_origins"][0], "chrome-extension://one/");
    assert_eq!(chrome["allowed_origins"][1], "chrome-extension://two/");
    assert_eq!(chrome.as_object().unwrap().len(), 5);
    assert!(m.chrome.contains("\n  \"name\": \"ai.semplifica.privacy_redactor\""));
    let firefox: serde_json::Value = serde_json::from_str(&m.firefox).unwrap();
    assert_eq!(firefox["allowed_extensions"][0], FIREFOX_EXTENSION_ID);
    assert_eq!(firefox["path"], "/opt/clipcloak/host");
    assert!(firefox.get("allowed_origins").is_none());
}

#[test]
fn manifests_go_where_browsers_look() {
    let linux = placements(Platform::Linux);
    let at: Vec<(UserDir, String, bool)> =
        linux.iter().map(|p| (p.under, format!("{}/{}", p.dirs.join("/"), p.file), p.firefox)).collect();
    assert_eq!(
        at,
        vec![
            (
                UserDir::Config,
                "google-chrome/NativeMessagingHosts/ai.semplifica.privacy_redactor.json".to_string(),
                false
            ),
            (UserDir::Config, "chromium/NativeMessagingHosts/ai.semplifica.privacy_redactor.json".to_string(), false),
            (UserDir::Home, ".mozilla/native-messaging-hosts/ai.semplifica.privacy_redactor.json".to_string(), true),
        ]
    );
    let windows = placements(Platform::Windows);
    assert_eq!(windows.len(), 2);
    assert_eq!(windows[0].file, "ai.semplifica.privacy_redactor.json");
    assert_eq!(
        windows[0].keys,
        strings(&[
            "Software\\Google\\Chrome\\NativeMessagingHosts\\ai.semplifica.privacy_redactor",
            "Software\\Microsoft\\Edge\\NativeMessagingHosts\\ai.semplifica.privacy_redactor",
        ])
    );
    assert_eq!(windows[1].file, "ai.semplifica.privacy_redactor.firefox.json");
    assert_eq!(windows[1].keys, strings(&["Software\\Mozilla\\NativeMessagingHosts\\ai.semplifica.privacy_redactor"]));
    assert!(windows[1].firefox && !windows[0].firefox);
    assert!(placements(Platform::Other).is_empty());
}

#[test]
fn the_host_is_named_after_the_system() {
    assert_eq!(host_binary_name(Platform::Windows), "clipcloak-native-host.exe");
    assert_eq!(host_binary_name(Platform::Linux), "clipcloak-native-host");
    assert_eq!(host_binary_name(Platform::Other), "clipcloak-native-host");
}

#[test]
fn the_model_is_looked_for_in_order() {
    let bundled = |there: bool| Some(("/res/semplifica".to_string(), there));
    assert!(is_dir(&resolve_model_source(Some("/env".to_string()), bundled(true)), "/env"));
    assert!(is_dir(&resolve_model_source(None, bundled(true)), "/res/semplifica"));
    assert!(is_repo(
        &resolve_model_source(None, bundled(false)),
        "stefanj0/gliner2-sa-names-lora",
        "onnx_int8"
    ));
    assert!(matches!(resolve_model_source(None, None), ModelSource::HuggingFace { .. }));
}

#[test]
fn the_first_bundled_runtime_is_used() {
    assert_eq!(dylib_names(), strings(&["libonnxruntime.so", "onnxruntime.dll", "libonnxruntime.dylib"]));
    assert_eq!(bundled_dylib(false, &vec![false, true, true]), Some(1));
    assert_eq!(bundled_dylib(false, &vec![false, false, false]), None);
    assert_eq!(bundled_dylib(true, &vec![true, true, true]), None);
}

#[test]
fn the_tray_menu_opens_and_quits() {
    assert_eq!(menu_action("open"), MenuAction::OpenSettings);
    assert_eq!(menu_action("quit"), MenuAction::Quit);
    assert_eq!(menu_action("other"), MenuAction::Nothing);
    assert!(stays_in_tray(None));
    assert!(!stays_in_tray(Some(0)));
}

#[test]
fn a_started_daemon_serves_nobody_without_its_token() {
    let (config, _) = load_or_init_config(false, None);
    let live = config.to_live(&vec![]);
    let server = Server::new(ServerConfig::default(), live);
    let bare = Request::new(Method::Post, "/classify".to_string(), &vec![]).unwrap();
    assert!(matches!(server.handle(&bare), Handling::Answer(r) if r.status == 401));
    let header = vec![("Authorization".to_string(), format!("Bearer {}", config.token))];
    let paired = Request::new(Method::Post, "/classify".to_string(), &header).unwrap();
    assert!(matches!(server.handle(&paired), Handling::Read(_)));
}
