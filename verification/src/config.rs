//! What a daemon is started with, and what can be changed while it runs.
use vstd::prelude::*;

use crate::engine::{Gliner2Config, ModelType};
use crate::rules::CompiledRule;
use crate::score::DEFAULT_THRESHOLD;
use crate::text::{decimal_u16, join2, join3, list_entries, parse_list, parse_u16, views};

verus! {

/// The identity under which the browser extension is pinned.
pub const DEFAULT_EXTENSION_ID: &'static str = "ihjamhkkcgbifajnbikldcjfamggnbaj";

/// The origin of the pinned extension.
pub const DEFAULT_EXTENSION_ORIGIN: &'static str = "chrome-extension://ihjamhkkcgbifajnbikldcjfamggnbaj";

/// The port that the daemon listens on by default.
pub const DEFAULT_PORT: u16 = 8731;

/// The labels that are redacted by default.
pub open spec fn default_label_set() -> Seq<Seq<char>> {
    seq![
        "name"@,
        "street address"@,
        "email"@,
        "phone_num"@,
        "id_num"@,
        "url"@,
        "username"@,
    ]
}

/// The labels that are redacted by default.
pub fn default_labels() -> (r: Vec<String>)
    ensures
        views(r@) == default_label_set(),
{
    let mut r: Vec<String> = Vec::new();
    r.push("name".to_owned());
    r.push("street address".to_owned());
    r.push("email".to_owned());
    r.push("phone_num".to_owned());
    r.push("id_num".to_owned());
    r.push("url".to_owned());
    r.push("username".to_owned());
    assert(views(r@) =~= default_label_set());
    r
}

/// The origin of the extension with the given identity.
pub open spec fn extension_origin(id: Seq<char>) -> Seq<char> {
    "chrome-extension://"@ + id
}

/// The origin of the extension with the given identity.
pub fn chrome_extension_origin(id: &str) -> (r: String)
    ensures
        r@ == extension_origin(id@),
{
    join2("chrome-extension://", id)
}

/// The pinned origin is that of the pinned identity.
pub proof fn law_pinned_origin()
    ensures
        extension_origin(DEFAULT_EXTENSION_ID@) == DEFAULT_EXTENSION_ORIGIN@,
{
    reveal_strlit("ihjamhkkcgbifajnbikldcjfamggnbaj");
    reveal_strlit("chrome-extension://ihjamhkkcgbifajnbikldcjfamggnbaj");
    reveal_strlit("chrome-extension://");
    assert(extension_origin(DEFAULT_EXTENSION_ID@) =~= DEFAULT_EXTENSION_ORIGIN@);
}

/// Where the model comes from.
#[derive(Debug)]
pub enum ModelSource {
    /// A directory on this machine.
    LocalDir(String),
    /// A repository, from which the model is downloaded once.
    HuggingFace { repo: String, subfolder: String },
}

impl Clone for ModelSource {
    fn clone(&self) -> (r: Self)
        ensures
            r == *self,
    {
        match self {
            ModelSource::LocalDir(dir) => ModelSource::LocalDir(dir.clone()),
            ModelSource::HuggingFace { repo, subfolder } => ModelSource::HuggingFace {
                repo: repo.clone(),
                subfolder: subfolder.clone(),
            },
        }
    }
}

impl ModelSource {
    /// Whether this is the directory.
    pub open spec fn is_dir(self, dir: Seq<char>) -> bool {
        self matches ModelSource::LocalDir(d) && d@ == dir
    }

    /// Whether this is the subfolder of the repository.
    pub open spec fn is_repo(self, repo: Seq<char>, subfolder: Seq<char>) -> bool {
        self matches ModelSource::HuggingFace { repo: r, subfolder: s } && r@ == repo && s@
            == subfolder
    }

    /// Whether this is the repository that the model is downloaded from by default.
    pub open spec fn is_default(self) -> bool {
        self.is_repo("stefanj0/gliner2-sa-names-lora"@, "onnx_int8"@)
    }
}

/// What is fixed for as long as a daemon runs.
#[derive(Debug)]
pub struct ServerConfig {
    pub port: u16,
    pub model: ModelSource,
    pub allowed_origins: Vec<String>,
}

impl Clone for ServerConfig {
    fn clone(&self) -> (r: Self)
        ensures
            r.port == self.port,
            r.model == self.model,
            r.allowed_origins@ == self.allowed_origins@,
    {
        let allowed_origins = self.allowed_origins.clone();
        assert(allowed_origins@ =~= self.allowed_origins@);
        ServerConfig { port: self.port, model: self.model.clone(), allowed_origins }
    }
}

impl Default for ServerConfig {
    fn default() -> (r: Self)
        ensures
            r.port == DEFAULT_PORT,
            r.model.is_default(),
            views(r.allowed_origins@) == seq![DEFAULT_EXTENSION_ORIGIN@],
    {
        let mut allowed_origins: Vec<String> = Vec::new();
        allowed_origins.push(DEFAULT_EXTENSION_ORIGIN.to_owned());
        assert(views(allowed_origins@) =~= seq![DEFAULT_EXTENSION_ORIGIN@]);
        ServerConfig {
            port: DEFAULT_PORT,
            model: ModelSource::HuggingFace {
                repo: "stefanj0/gliner2-sa-names-lora".to_owned(),
                subfolder: "onnx_int8".to_owned(),
            },
            allowed_origins,
        }
    }
}

/// What can be changed while a daemon runs; every request reads it once.
#[derive(Debug)]
pub struct LiveSettings {
    /// What a client must present; nothing where there is none.
    pub token: Option<String>,
    /// The labels to redact.
    pub labels: Vec<String>,
    /// The bits of the score above which a span is redacted.
    pub threshold: u32,
    /// The user's own rules.
    pub rules: Vec<CompiledRule>,
}

impl Clone for LiveSettings {
    fn clone(&self) -> (r: Self)
        ensures
            r.token == self.token,
            r.labels@ == self.labels@,
            r.threshold == self.threshold,
            r.rules@ == self.rules@,
    {
        let token = match &self.token {
            Some(t) => Some(t.clone()),
            None => None,
        };
        let labels = self.labels.clone();
        let rules = self.rules.clone();
        assert(labels@ =~= self.labels@);
        assert(rules@ =~= self.rules@);
        LiveSettings { token, labels, threshold: self.threshold, rules }
    }
}

impl Default for LiveSettings {
    fn default() -> (r: Self)
        ensures
            r.token is None,
            views(r.labels@) == default_label_set(),
            r.threshold == DEFAULT_THRESHOLD,
            r.rules@.len() == 0,
    {
        LiveSettings {
            token: None,
            labels: default_labels(),
            threshold: DEFAULT_THRESHOLD,
            rules: Vec::new(),
        }
    }
}

/// How to get an engine.
pub enum EnginePlan {
    /// Make it from the files of a directory.
    Make(Gliner2Config),
    /// Download it.
    Fetch { repo: String, subfolder: String, model_type: ModelType },
}

/// How to get an engine for a model, and what to say of it.
pub fn engine_plan(model: &ModelSource) -> (r: (EnginePlan, String))
    ensures
        match *model {
            ModelSource::LocalDir(dir) => {
                &&& r.0 matches EnginePlan::Make(c) && c == (Gliner2Config {
                    models_dir: dir,
                    max_width: 8,
                    model_type: ModelType::HuggingFace,
                })
                &&& r.1@ == "Loading GLiNER2 engine from local dir "@ + dir@ + "\u{2026}"@
            },
            ModelSource::HuggingFace { repo, subfolder } => {
                &&& r.0 == (EnginePlan::Fetch {
                    repo,
                    subfolder,
                    model_type: ModelType::HuggingFace,
                })
                &&& r.1@ == "Loading GLiNER2 engine from "@ + repo@ + "/"@ + subfolder@
                    + " (first run downloads ~620 MB)\u{2026}"@
            },
        },
{
    match model {
        ModelSource::LocalDir(dir) => (
            EnginePlan::Make(
                Gliner2Config {
                    models_dir: dir.clone(),
                    max_width: 8,
                    model_type: ModelType::HuggingFace,
                },
            ),
            join3("Loading GLiNER2 engine from local dir ", dir.as_str(), "\u{2026}"),
        ),
        ModelSource::HuggingFace { repo, subfolder } => {
            let mut note = join3("Loading GLiNER2 engine from ", repo.as_str(), "/");
            note.append(subfolder.as_str());
            note.append(" (first run downloads ~620 MB)\u{2026}");
            (
                EnginePlan::Fetch {
                    repo: repo.clone(),
                    subfolder: subfolder.clone(),
                    model_type: ModelType::HuggingFace,
                },
                note,
            )
        },
    }
}

/// The repository from which a daemon without a window fetches its model where the
/// environment names none.
pub const DAEMON_MODEL_REPO: &'static str = "SemplificaAI/gliner2-privacy-filter-PII-multi";

/// The subfolder of that repository.
pub const DAEMON_SUBFOLDER: &'static str = "fp16_v2";

/// The variables of the environment that configure a daemon without a window. The
/// threshold comes as the bits of the number that the variable writes, if it writes one.
pub struct Environment {
    pub models_dir: Option<String>,
    pub model_repo: Option<String>,
    pub subfolder: Option<String>,
    pub labels: Option<String>,
    pub token: Option<String>,
    pub allowed_origins: Option<String>,
    pub port: Option<String>,
    pub threshold: Option<u32>,
}

/// The text of a variable, or another where it is not set.
pub open spec fn set_or(v: Option<String>, other: Seq<char>) -> Seq<char> {
    match v {
        Some(s) => s@,
        None => other,
    }
}

/// The entries of a list variable, or others where it is not set.
pub open spec fn list_or(v: Option<String>, others: Seq<Seq<char>>) -> Seq<Seq<char>> {
    match v {
        Some(s) => list_entries(s@),
        None => others,
    }
}

impl Environment {
    /// Whether the model is the one that the variables name: a directory before a
    /// repository, and the daemon's own repository and subfolder where they are not set.
    pub open spec fn names_model(self, model: ModelSource) -> bool {
        match self.models_dir {
            Some(dir) => model.is_dir(dir@),
            None => model.is_repo(
                set_or(self.model_repo, DAEMON_MODEL_REPO@),
                set_or(self.subfolder, DAEMON_SUBFOLDER@),
            ),
        }
    }

    /// Whether the token is the one that the variables name: an empty one is none.
    pub open spec fn names_token(self, token: Option<String>) -> bool {
        match self.token {
            Some(s) => if s@.len() > 0 {
                token matches Some(t) && t@ == s@
            } else {
                token is None
            },
            None => token is None,
        }
    }

    /// The port that the variables name: the default one where they name none.
    pub open spec fn named_port(self) -> nat {
        match self.port {
            Some(s) => match decimal_u16(s@) {
                Some(p) => p,
                None => DEFAULT_PORT as nat,
            },
            None => DEFAULT_PORT as nat,
        }
    }
}

/// What the variables of the environment configure, together with rules that have been
/// read and compiled.
pub fn configure(env: Environment, rules: Vec<CompiledRule>) -> (r: (ServerConfig, LiveSettings))
    ensures
        r.0.port == env.named_port(),
        env.names_model(r.0.model),
        views(r.0.allowed_origins@) == list_or(
            env.allowed_origins,
            seq![DEFAULT_EXTENSION_ORIGIN@],
        ),
        env.names_token(r.1.token),
        views(r.1.labels@) == list_or(env.labels, default_label_set()),
        r.1.threshold == match env.threshold {
            Some(bits) => bits,
            None => DEFAULT_THRESHOLD,
        },
        r.1.rules == rules,
{
    let model = match env.models_dir {
        Some(dir) => ModelSource::LocalDir(dir),
        None => {
            let repo = match env.model_repo {
                Some(s) => s,
                None => DAEMON_MODEL_REPO.to_owned(),
            };
            let subfolder = match env.subfolder {
                Some(s) => s,
                None => DAEMON_SUBFOLDER.to_owned(),
            };
            ModelSource::HuggingFace { repo, subfolder }
        },
    };
    let labels = match env.labels {
        Some(s) => parse_list(s.as_str()),
        None => default_labels(),
    };
    let token = match env.token {
        Some(s) => if s.as_str().is_empty() {
            None
        } else {
            Some(s)
        },
        None => None,
    };
    let allowed_origins = match env.allowed_origins {
        Some(s) => parse_list(s.as_str()),
        None => ServerConfig::default().allowed_origins,
    };
    let port: u16 = match env.port {
        Some(s) => match parse_u16(s.as_str()) {
            Some(p) => p,
            None => DEFAULT_PORT,
        },
        None => DEFAULT_PORT,
    };
    let threshold: u32 = match env.threshold {
        Some(bits) => bits,
        None => DEFAULT_THRESHOLD,
    };
    (ServerConfig { port, model, allowed_origins }, LiveSettings { token, labels, threshold, rules })
}

/// The origin of an extension is the scheme of extensions with its identity behind it, so
/// that no two extensions have the same one.
pub proof fn law_origin_holds_the_identity(id: Seq<char>, other: Seq<char>)
    ensures
        extension_origin(id).len() == 19 + id.len(),
        extension_origin(id).take(19) == "chrome-extension://"@,
        extension_origin(id).skip(19) == id,
        extension_origin(id) == extension_origin(other) ==> id == other,
{
    reveal_strlit("chrome-extension://");
    assert("chrome-extension://"@.len() == 19);
    assert(extension_origin(id).take(19) =~= "chrome-extension://"@);
    assert(extension_origin(id).skip(19) =~= id);
    assert(extension_origin(other).skip(19) =~= other);
}

/// What a variable sets counts, whatever the default is: the directory before any
/// repository, the repository and the subfolder each on its own, the token unless it is
/// empty, and the port where it is a number.
pub proof fn law_environment_comes_before_the_defaults(
    env: Environment,
    model: ModelSource,
    token: Option<String>,
)
    requires
        env.names_model(model),
        env.names_token(token),
    ensures
        env.models_dir matches Some(dir) ==> (model matches ModelSource::LocalDir(d) && d@
            == dir@),
        env.models_dir is None ==> model is HuggingFace,
        env.models_dir is None && env.model_repo is Some ==> model->repo@
            == env.model_repo->Some_0@,
        env.models_dir is None && env.model_repo is None ==> model->repo@
            == "SemplificaAI/gliner2-privacy-filter-PII-multi"@,
        env.models_dir is None && env.subfolder is Some ==> model->subfolder@
            == env.subfolder->Some_0@,
        env.models_dir is None && env.subfolder is None ==> model->subfolder@ == "fp16_v2"@,
        token is Some <==> env.token is Some && env.token->Some_0@.len() > 0,
        token matches Some(t) ==> t@ == env.token->Some_0@,
        env.port is None ==> env.named_port() == 8731,
        env.port matches Some(s) ==> {
            &&& decimal_u16(s@) matches Some(p) ==> env.named_port() == p
            &&& decimal_u16(s@) is None ==> env.named_port() == 8731
        },
{
}

/// A list that is set counts, also where it has no entries; others stand in for one that
/// is not set.
pub proof fn law_list_that_is_set_counts(v: Option<String>, others: Seq<Seq<char>>)
    ensures
        v matches Some(s) ==> list_or(v, others) == list_entries(s@),
        v is None ==> list_or(v, others) == others,
{
}

} // verus!
