//! The inference engine around the model: which files it is made of, how it is loaded,
//! which mode a text is run in, and what its errors say.
use vstd::prelude::*;

use crate::score::HALF;
use crate::text::{
    contains_str, has_substring, join2, join3, law_substring_stands_between, str_eq, views,
};

verus! {

/// Where the model was exported from.
#[derive(Debug, Clone, Copy, PartialEq, Eq, Structural)]
pub enum ModelType {
    /// A converted PyTorch model.
    PyTorch,
    /// A public HuggingFace model.
    HuggingFace,
}

impl Default for ModelType {
    fn default() -> (r: Self)
        ensures
            r == ModelType::PyTorch,
    {
        ModelType::PyTorch
    }
}

impl ModelType {
    /// The name of the model type.
    pub open spec fn name(self) -> Seq<char> {
        match self {
            ModelType::PyTorch => "PyTorch"@,
            ModelType::HuggingFace => "HuggingFace"@,
        }
    }

    /// The name of the model type.
    pub fn to_text(&self) -> (r: String)
        ensures
            r@ == self.name(),
    {
        match self {
            ModelType::PyTorch => "PyTorch".to_owned(),
            ModelType::HuggingFace => "HuggingFace".to_owned(),
        }
    }
}

/// What an engine is made from.
#[derive(Debug)]
pub struct Gliner2Config {
    pub models_dir: String,
    pub max_width: usize,
    pub model_type: ModelType,
}

impl Clone for Gliner2Config {
    fn clone(&self) -> (r: Self)
        ensures
            r == *self,
    {
        Gliner2Config {
            models_dir: self.models_dir.clone(),
            max_width: self.max_width,
            model_type: self.model_type,
        }
    }
}

impl Default for Gliner2Config {
    fn default() -> (r: Self)
        ensures
            r.models_dir@ == "models/fragments_fp16"@,
            r.max_width == 8,
            r.model_type == ModelType::PyTorch,
    {
        Gliner2Config {
            models_dir: "models/fragments_fp16".to_owned(),
            max_width: 8,
            model_type: ModelType::PyTorch,
        }
    }
}

/// How a text is run.
#[derive(Debug, Clone, Copy)]
pub struct InferenceParams {
    /// The bits of the score above which a span is reported.
    pub threshold: u32,
    /// Whether no two entities may share a token, whatever their labels.
    pub flat_ner: bool,
}

impl Default for InferenceParams {
    fn default() -> (r: Self)
        ensures
            r.threshold == HALF,
            !r.flat_ner,
    {
        InferenceParams { threshold: HALF, flat_ner: false }
    }
}

/// How data moves between the steps of the model.
#[derive(Debug, Clone, Copy, PartialEq, Eq, Structural)]
pub enum ExecutionMode {
    /// Data stays on the device.
    IoBinding,
    /// Data goes through the host between steps.
    Standard,
}

impl Default for ExecutionMode {
    /// An engine starts with bound buffers.
    fn default() -> (r: Self)
        ensures
            r == ExecutionMode::IoBinding,
    {
        ExecutionMode::IoBinding
    }
}

/// What can go wrong while a text is run.
#[derive(Debug)]
pub enum GlinerError {
    /// The device ran out of memory while buffers were bound.
    OomDeviceBinding(String),
    /// The device ran out of memory in standard mode.
    OomDeviceStandard(String),
    /// The host ran out of memory.
    OomHostRam(String),
    /// The execution provider cannot bind buffers.
    BindingNotSupported(String),
    /// The shape of an output is not that of the next input.
    TensorShapeMismatch(String),
    /// Anything else, as it describes itself.
    Other(String),
}

impl GlinerError {
    /// What the error says.
    pub open spec fn message(self) -> Seq<char> {
        match self {
            GlinerError::OomDeviceBinding(m) => "[E_GLI_001] OOM_DEVICE_BINDING: "@ + m@,
            GlinerError::OomDeviceStandard(m) => "[E_GLI_002] OOM_DEVICE_STANDARD: "@ + m@,
            GlinerError::OomHostRam(m) => "[E_GLI_003] OOM_HOST_RAM: "@ + m@,
            GlinerError::BindingNotSupported(m) => "[E_GLI_004] BINDING_NOT_SUPPORTED: "@ + m@,
            GlinerError::TensorShapeMismatch(m) => "[E_GLI_005] TENSOR_SHAPE_MISMATCH: "@ + m@,
            GlinerError::Other(m) => m@,
        }
    }

    /// What the error says.
    pub fn to_text(&self) -> (r: String)
        ensures
            r@ == self.message(),
    {
        match self {
            GlinerError::OomDeviceBinding(m) => join2("[E_GLI_001] OOM_DEVICE_BINDING: ", m.as_str()),
            GlinerError::OomDeviceStandard(m) => join2(
                "[E_GLI_002] OOM_DEVICE_STANDARD: ",
                m.as_str(),
            ),
            GlinerError::OomHostRam(m) => join2("[E_GLI_003] OOM_HOST_RAM: ", m.as_str()),
            GlinerError::BindingNotSupported(m) => join2(
                "[E_GLI_004] BINDING_NOT_SUPPORTED: ",
                m.as_str(),
            ),
            GlinerError::TensorShapeMismatch(m) => join2(
                "[E_GLI_005] TENSOR_SHAPE_MISMATCH: ",
                m.as_str(),
            ),
            GlinerError::Other(m) => m.clone(),
        }
    }
}

impl From<String> for GlinerError {
    fn from(message: String) -> (r: Self) {
        GlinerError::Other(message)
    }
}

impl vstd::std_specs::convert::FromSpecImpl<String> for GlinerError {
    open spec fn obeys_from_spec() -> bool {
        true
    }

    open spec fn from_spec(message: String) -> Self {
        GlinerError::Other(message)
    }
}

/// What to do next to run a text.
pub enum ExtractStep<T> {
    /// Run it with bound buffers.
    RunBound,
    /// Run it in standard mode; first say the warning, where there is one.
    RunStandard(Option<String>),
    /// It has been run.
    Done(T),
    /// It cannot be run.
    Fail(GlinerError),
}

/// How a text is first run in the given mode.
pub fn first_step<T>(mode: ExecutionMode) -> (r: ExtractStep<T>)
    ensures
        mode == ExecutionMode::IoBinding ==> r is RunBound,
        mode == ExecutionMode::Standard ==> r == ExtractStep::<T>::RunStandard(None),
{
    match mode {
        ExecutionMode::IoBinding => ExtractStep::RunBound,
        ExecutionMode::Standard => ExtractStep::RunStandard(None),
    }
}

/// What follows a run with bound buffers: where the device ran out of memory, the
/// engine goes over to standard mode for good and the text is run again; any other
/// error is final.
pub fn after_bound_run<T>(outcome: Result<T, GlinerError>) -> (r: (ExecutionMode, ExtractStep<T>))
    ensures
        match outcome {
            Ok(found) => r.0 == ExecutionMode::IoBinding && r.1 == ExtractStep::Done(found),
            Err(GlinerError::OomDeviceBinding(m)) => {
                &&& r.0 == ExecutionMode::Standard
                &&& r.1 matches ExtractStep::RunStandard(Some(warning)) && warning@
                    == "[GLiNER2] OOM in IoBinding detected. Falling back to Standard Mode. Details: "@
                    + m@
            },
            Err(e) => r.0 == ExecutionMode::IoBinding && r.1 == ExtractStep::<T>::Fail(e),
        },
{
    match outcome {
        Ok(found) => (ExecutionMode::IoBinding, ExtractStep::Done(found)),
        Err(GlinerError::OomDeviceBinding(m)) => {
            let warning = join2(
                "[GLiNER2] OOM in IoBinding detected. Falling back to Standard Mode. Details: ",
                m.as_str(),
            );
            (ExecutionMode::Standard, ExtractStep::RunStandard(Some(warning)))
        },
        Err(e) => (ExecutionMode::IoBinding, ExtractStep::Fail(e)),
    }
}

/// A run with bound buffers: this engine has none, and says so in a way that sends it
/// over to standard mode.
pub fn extract_iobinding<T>() -> (r: Result<T, GlinerError>)
    ensures
        r matches Err(GlinerError::OomDeviceBinding(m)) && m@
            == "IOBinding non ancora implementato, fallback alla modalit\u{e0} Standard."@,
{
    Err(
        GlinerError::OomDeviceBinding(
            "IOBinding non ancora implementato, fallback alla modalit\u{e0} Standard.".to_owned(),
        ),
    )
}

/// A file of a model repository.
pub struct RepoFile {
    /// Where it lies in the repository.
    pub path: String,
    /// Whether the engine can do without it.
    pub optional: bool,
}

/// What the names of the model's parts end with.
pub open spec fn part_suffix(subfolder: Option<Seq<char>>) -> Seq<char> {
    if subfolder matches Some(sub) && has_substring(sub, "16"@) {
        "_fp16.onnx"@
    } else {
        "_fp32.onnx"@
    }
}

/// The files of a model, by name.
pub open spec fn model_files(suffix: Seq<char>) -> Seq<Seq<char>> {
    seq![
        "encoder"@ + suffix,
        "span_rep"@ + suffix,
        "count_pred"@ + suffix,
        "classifier"@ + suffix,
        "tokenizer.json"@,
        "count_lstm"@ + suffix,
    ]
}

/// Where a file lies in the repository.
pub open spec fn repo_path(subfolder: Option<Seq<char>>, file: Seq<char>) -> Seq<char> {
    match subfolder {
        Some(sub) => sub + "/"@ + file,
        None => file,
    }
}

/// Where a file lies in the repository.
fn file_at(subfolder: Option<&str>, file: String, optional: bool) -> (r: RepoFile)
    ensures
        r.path@ == repo_path(
            match subfolder {
                Some(sub) => Some(sub@),
                None => None,
            },
            file@,
        ),
        r.optional == optional,
{
    let path = match subfolder {
        Some(sub) => join3(sub, "/", file.as_str()),
        None => file,
    };
    RepoFile { path, optional }
}

/// The download of a model: its files, how many of them have been tried, where the last
/// one that came was put, and whether one is missing that the engine needs.
pub struct Download {
    pub files: Vec<RepoFile>,
    pub tried: usize,
    pub last: Option<String>,
    pub failed: bool,
}

impl Download {
    /// No more files have been tried than there are.
    pub open spec fn well_formed(self) -> bool {
        self.tried <= self.files@.len()
    }

    /// The download of the model in a subfolder of a repository. Only a HuggingFace
    /// model can do without its count layer.
    pub fn new(subfolder: Option<&str>, model_type: ModelType) -> (r: Self)
        ensures
            r.well_formed(),
            r.tried == 0,
            r.last is None,
            !r.failed,
            ({
                let sub = match subfolder {
                    Some(s) => Some(s@),
                    None => None,
                };
                let names = model_files(part_suffix(sub));
                &&& r.files@.len() == names.len()
                &&& forall|i: int|
                    0 <= i < names.len() ==> {
                        &&& (#[trigger] r.files@[i]).path@ == repo_path(sub, names[i])
                        &&& r.files@[i].optional == (i == 5 && model_type
                            == ModelType::HuggingFace)
                    }
            }),
    {
        let fp16 = match subfolder {
            Some(sub) => contains_str(sub, "16"),
            None => false,
        };
        let suffix: &str = if fp16 {
            "_fp16.onnx"
        } else {
            "_fp32.onnx"
        };
        let mut files: Vec<RepoFile> = Vec::new();
        files.push(file_at(subfolder, join2("encoder", suffix), false));
        files.push(file_at(subfolder, join2("span_rep", suffix), false));
        files.push(file_at(subfolder, join2("count_pred", suffix), false));
        files.push(file_at(subfolder, join2("classifier", suffix), false));
        files.push(file_at(subfolder, "tokenizer.json".to_owned(), false));
        files.push(
            file_at(
                subfolder,
                join2("count_lstm", suffix),
                model_type == ModelType::HuggingFace,
            ),
        );
        Download { files, tried: 0, last: None, failed: false }
    }

    /// Whether every file has been tried, and none that the engine needs is missing.
    pub open spec fn is_complete(self) -> bool {
        !self.failed && self.tried == self.files@.len()
    }

    /// The next file to fetch, if any is left and none that the engine needs is missing.
    pub fn next(&self) -> (r: Option<&RepoFile>)
        requires
            self.well_formed(),
        ensures
            r == if !self.failed && self.tried < self.files@.len() {
                Some(&self.files@[self.tried as int])
            } else {
                None
            },
    {
        if !self.failed && self.tried < self.files.len() {
            Some(&self.files[self.tried])
        } else {
            None
        }
    }

    /// Takes in what became of the next file: where it was put, or why it did not come.
    /// A missing file is noted where the engine can do without it, and otherwise ends
    /// the download.
    pub fn fetched(&mut self, outcome: Result<String, String>) -> (r: Result<Option<String>, String>)
        requires
            old(self).well_formed(),
            !old(self).failed,
            old(self).tried < old(self).files@.len(),
        ensures
            final(self).well_formed(),
            final(self).files == old(self).files,
            final(self).tried == old(self).tried + 1,
            ({
                let file = old(self).files@[old(self).tried as int];
                match outcome {
                    Ok(path) => {
                        &&& final(self).last == Some(path)
                        &&& r == Ok::<Option<String>, String>(None)
                        &&& !final(self).failed
                    },
                    Err(why) => {
                        &&& final(self).last == old(self).last
                        &&& file.optional ==> (r matches Ok(Some(note)) && note@ == "Note: "@
                            + file.path@ + " not found, using fallback."@)
                        &&& !file.optional ==> (r matches Err(e) && e@ == "Failed to download "@
                            + file.path@ + ": "@ + why@)
                        &&& final(self).failed == !file.optional
                    },
                }
            }),
    {
        let i = self.tried;
        assert(i < self.files.len());
        self.tried = i + 1;
        match outcome {
            Ok(path) => {
                self.last = Some(path);
                Ok(None)
            },
            Err(why) => {
                if self.files[i].optional {
                    Ok(Some(join3("Note: ", self.files[i].path.as_str(), " not found, using fallback.")))
                } else {
                    let mut e = join3("Failed to download ", self.files[i].path.as_str(), ": ");
                    e.append(why.as_str());
                    self.failed = true;
                    Err(e)
                }
            },
        }
    }

    /// Where the last file that came was put, once all have been tried: the model's parts
    /// lie beside it.
    pub fn place(self) -> (r: Result<String, String>)
        requires
            self.well_formed(),
            self.is_complete(),
        ensures
            match self.last {
                Some(path) => r == Ok::<String, String>(path),
                None => r matches Err(e) && e@ == "No files downloaded"@,
            },
    {
        match self.last {
            Some(path) => Ok(path),
            None => Err("No files downloaded".to_owned()),
        }
    }
}

/// What an engine is made from, once its model has been downloaded to a directory.
pub fn downloaded_config(models_dir: String, model_type: ModelType) -> (r: Gliner2Config)
    ensures
        r == (Gliner2Config { models_dir, max_width: 8, model_type }),
{
    Gliner2Config { models_dir, max_width: 8, model_type }
}

/// The files that a part of the model may be loaded from, the half-precision one first.
pub fn session_files(base: &str) -> (r: (String, String))
    ensures
        r.0@ == base@ + "_fp16.onnx"@,
        r.1@ == base@ + "_fp32.onnx"@,
{
    (join2(base, "_fp16.onnx"), join2(base, "_fp32.onnx"))
}

/// The file that a part of the model is loaded from: the half-precision one where it
/// exists, else the single-precision one.
pub fn session_file(base: &str, fp16_exists: bool, fp32_exists: bool) -> (r: Result<String, String>)
    ensures
        fp16_exists ==> (r matches Ok(f) && f@ == base@ + "_fp16.onnx"@),
        !fp16_exists && fp32_exists ==> (r matches Ok(f) && f@ == base@ + "_fp32.onnx"@),
        !fp16_exists && !fp32_exists ==> (r matches Err(e) && e@ == "Neither "@ + base@
            + "_fp16.onnx nor "@ + base@ + "_fp32.onnx exist"@),
{
    let (fp16, fp32) = session_files(base);
    if fp16_exists {
        Ok(fp16)
    } else if fp32_exists {
        Ok(fp32)
    } else {
        let mut e = join3("Neither ", base, "_fp16.onnx nor ");
        e.append(base);
        e.append("_fp32.onnx exist");
        Err(e)
    }
}

/// The parts of the model, in the order in which they are loaded.
pub open spec fn part_names() -> Seq<Seq<char>> {
    seq!["count_lstm"@, "count_pred"@, "encoder"@, "span_rep"@, "classifier"@]
}

/// The parts of the model, in the order in which they are loaded.
pub fn session_order() -> (r: Vec<String>)
    ensures
        views(r@) == part_names(),
{
    let mut r: Vec<String> = Vec::new();
    r.push("count_lstm".to_owned());
    r.push("count_pred".to_owned());
    r.push("encoder".to_owned());
    r.push("span_rep".to_owned());
    r.push("classifier".to_owned());
    assert(views(r@) =~= part_names());
    r
}

/// What a model can be run on.
#[derive(Debug, Clone, Copy, PartialEq, Eq, Structural)]
pub enum Provider {
    Qnn,
    OpenVino,
    CoreMl,
    Cuda,
    Rocm,
    Xnnpack,
    Cpu,
}

/// What to run a model on, the first that is available first. The graphics cards of
/// two makers are left out where `force_cpu` is set.
pub open spec fn provider_order(force_cpu: bool) -> Seq<Provider> {
    if force_cpu {
        seq![
            Provider::Qnn,
            Provider::OpenVino,
            Provider::CoreMl,
            Provider::Xnnpack,
            Provider::Cpu,
        ]
    } else {
        seq![
            Provider::Qnn,
            Provider::OpenVino,
            Provider::CoreMl,
            Provider::Cuda,
            Provider::Rocm,
            Provider::Xnnpack,
            Provider::Cpu,
        ]
    }
}

/// What to run a model on, in order of preference.
pub fn execution_providers(force_cpu: bool) -> (r: Vec<Provider>)
    ensures
        r@ == provider_order(force_cpu),
{
    let mut r: Vec<Provider> = Vec::new();
    r.push(Provider::Qnn);
    r.push(Provider::OpenVino);
    r.push(Provider::CoreMl);
    if !force_cpu {
        r.push(Provider::Cuda);
        r.push(Provider::Rocm);
    }
    r.push(Provider::Xnnpack);
    r.push(Provider::Cpu);
    assert(r@ =~= provider_order(force_cpu));
    r
}

/// Which of the two engines runs a model.
#[derive(Debug, Clone, Copy, PartialEq, Eq, Structural)]
pub enum EngineVersion {
    V1,
    V2,
}

/// The engine for a model in a subfolder of a repository: the second one where the
/// subfolder names it.
pub fn pretrained_version(subfolder: Option<&str>) -> (r: EngineVersion)
    ensures
        r == if subfolder matches Some(sub) && has_substring(sub@, "v2"@) {
            EngineVersion::V2
        } else {
            EngineVersion::V1
        },
{
    match subfolder {
        Some(sub) => if contains_str(sub, "v2") {
            EngineVersion::V2
        } else {
            EngineVersion::V1
        },
        None => EngineVersion::V1,
    }
}

/// The files of which one shows that a directory holds a model for the second engine.
pub open spec fn v2_marks() -> Seq<Seq<char>> {
    seq![
        "token_gather_fp16.onnx"@,
        "token_gather_fp32.onnx"@,
        "token_gather_fp16_iobinding.onnx"@,
    ]
}

/// The files of which one shows that a directory holds a model for the second engine.
pub fn v2_mark_files() -> (r: Vec<String>)
    ensures
        views(r@) == v2_marks(),
{
    let mut r: Vec<String> = Vec::new();
    r.push("token_gather_fp16.onnx".to_owned());
    r.push("token_gather_fp32.onnx".to_owned());
    r.push("token_gather_fp16_iobinding.onnx".to_owned());
    assert(views(r@) =~= v2_marks());
    r
}

/// The engine for a directory, by which of `v2_mark_files` it holds.
pub fn local_version(present: &Vec<bool>) -> (r: EngineVersion)
    ensures
        r == if present@.contains(true) {
            EngineVersion::V2
        } else {
            EngineVersion::V1
        },
{
    let mut i: usize = 0;
    while i < present.len()
        invariant
            i <= present@.len(),
            forall|j: int| 0 <= j < i ==> !present@[j],
        decreases present@.len() - i,
    {
        if present[i] {
            assert(present@[i as int]);
            return EngineVersion::V2;
        }
        i += 1;
    }
    EngineVersion::V1
}

/// Whether `name` is one of the names.
pub open spec fn lists(names: Seq<String>, name: Seq<char>) -> bool {
    exists|i: int| 0 <= i < names.len() && (#[trigger] names[i])@ == name
}

/// Whether `name` is one of the names.
fn has_name(names: &Vec<String>, name: &str) -> (r: bool)
    ensures
        r == lists(names@, name@),
{
    let mut i: usize = 0;
    while i < names.len()
        invariant
            i <= names@.len(),
            forall|j: int| 0 <= j < i ==> (#[trigger] names@[j])@ != name@,
        decreases names@.len() - i,
    {
        if str_eq(names[i].as_str(), name) {
            return true;
        }
        i += 1;
    }
    false
}

/// The first of the wanted outputs that a part of the model has. The error says what
/// was looked for.
fn first_output<'a>(
    outputs: &Vec<String>,
    wanted: &Vec<&'a str>,
    missing: &str,
) -> (r: Result<&'a str, String>)
    ensures
        match r {
            Ok(name) => exists|i: int|
                0 <= i < wanted@.len() && name == #[trigger] wanted@[i] && lists(outputs@, name@)
                    && forall|j: int| 0 <= j < i ==> !lists(outputs@, (#[trigger] wanted@[j])@),
            Err(e) => e@ == missing@ && forall|j: int|
                0 <= j < wanted@.len() ==> !lists(outputs@, (#[trigger] wanted@[j])@),
        },
{
    let mut i: usize = 0;
    while i < wanted.len()
        invariant
            i <= wanted@.len(),
            forall|j: int| 0 <= j < i ==> !lists(outputs@, (#[trigger] wanted@[j])@),
        decreases wanted@.len() - i,
    {
        if has_name(outputs, wanted[i]) {
            return Ok(wanted[i]);
        }
        i += 1;
    }
    Err(missing.to_owned())
}

/// The output that holds the embeddings of the tokens: `hidden_states`, else
/// `last_hidden_state`, else `output`.
pub fn encoder_output(outputs: &Vec<String>) -> (r: Result<&'static str, String>)
    ensures
        match r {
            Ok(name) => {
                &&& lists(outputs@, name@)
                &&& name@ == if lists(outputs@, "hidden_states"@) {
                    "hidden_states"@
                } else if lists(outputs@, "last_hidden_state"@) {
                    "last_hidden_state"@
                } else {
                    "output"@
                }
            },
            Err(e) => {
                &&& !lists(outputs@, "hidden_states"@)
                &&& !lists(outputs@, "last_hidden_state"@)
                &&& !lists(outputs@, "output"@)
                &&& e@
                    == "No valid encoder output found (tried hidden_states, last_hidden_state, output)"@
            },
        },
{
    let mut wanted: Vec<&'static str> = Vec::new();
    wanted.push("hidden_states");
    wanted.push("last_hidden_state");
    wanted.push("output");
    let ghost w = wanted@;
    assert(w[0]@ == "hidden_states"@ && w[1]@ == "last_hidden_state"@ && w[2]@ == "output"@);
    first_output(
        outputs,
        &wanted,
        "No valid encoder output found (tried hidden_states, last_hidden_state, output)",
    )
}

/// The output of a part of the model that is named `first` or, in some exports,
/// `second`. Where it has neither, the error is `missing`.
pub fn either_output<'a>(
    outputs: &Vec<String>,
    first: &'a str,
    second: &'a str,
    missing: &str,
) -> (r: Result<&'a str, String>)
    ensures
        match r {
            Ok(name) => lists(outputs@, name@) && name@ == if lists(outputs@, first@) {
                first@
            } else {
                second@
            },
            Err(e) => !lists(outputs@, first@) && !lists(outputs@, second@) && e@ == missing@,
        },
{
    let mut wanted: Vec<&'a str> = Vec::new();
    wanted.push(first);
    wanted.push(second);
    let ghost w = wanted@;
    assert(w[0]@ == first@ && w[1]@ == second@);
    first_output(outputs, &wanted, missing)
}

/// The input of the span layer that takes the embeddings of the words: the last of its
/// inputs with a known name, `hidden_states` where none has one.
pub open spec fn embeddings_input(inputs: Seq<String>) -> Seq<char>
    decreases inputs.len(),
{
    if inputs.len() == 0 {
        "hidden_states"@
    } else if inputs.last()@ == "last_hidden_state"@ || inputs.last()@ == "hidden_states"@
        || inputs.last()@ == "output"@ {
        inputs.last()@
    } else {
        embeddings_input(inputs.drop_last())
    }
}

/// How the span layer takes its input: under which name the embeddings of the words,
/// and whether the spans as pairs (else as two lists).
pub fn span_layer_inputs(inputs: &Vec<String>) -> (r: (String, bool))
    ensures
        r.0@ == embeddings_input(inputs@),
        r.1 == lists(inputs@, "span_idx"@),
{
    let mut name = "hidden_states".to_owned();
    let mut i: usize = 0;
    assert(inputs@.take(0) =~= Seq::empty());
    while i < inputs.len()
        invariant
            i <= inputs@.len(),
            name@ == embeddings_input(inputs@.take(i as int)),
        decreases inputs@.len() - i,
    {
        assert(inputs@.take(i + 1).drop_last() =~= inputs@.take(i as int));
        let input = inputs[i].as_str();
        if str_eq(input, "last_hidden_state") || str_eq(input, "hidden_states") || str_eq(
            input,
            "output",
        ) {
            name = inputs[i].clone();
        }
        i += 1;
    }
    assert(inputs@.take(i as int) =~= inputs@);
    (name, has_name(inputs, "span_idx"))
}

/// Whether the encoder takes the attention mask beside the tokens.
pub fn takes_attention_mask(inputs: &Vec<String>) -> (r: bool)
    ensures
        r == lists(inputs@, "attention_mask"@),
{
    has_name(inputs, "attention_mask")
}

/// The names but for `pc_emb`.
pub open spec fn count_names(inputs: Seq<String>) -> Seq<String>
    decreases inputs.len(),
{
    if inputs.len() == 0 {
        inputs
    } else {
        let front = count_names(inputs.drop_last());
        if inputs.last()@ == "pc_emb"@ {
            front
        } else {
            front.push(inputs.last())
        }
    }
}

/// The inputs of the structure head that take the predicted count: all but the one
/// that takes the embeddings, since exports name it differently.
pub fn count_inputs(inputs: &Vec<String>) -> (r: Vec<String>)
    ensures
        r@ == count_names(inputs@),
{
    let mut r: Vec<String> = Vec::new();
    let mut i: usize = 0;
    assert(inputs@.take(0) =~= Seq::empty());
    while i < inputs.len()
        invariant
            i <= inputs@.len(),
            r@ == count_names(inputs@.take(i as int)),
        decreases inputs@.len() - i,
    {
        assert(inputs@.take(i + 1).drop_last() =~= inputs@.take(i as int));
        if !str_eq(inputs[i].as_str(), "pc_emb") {
            r.push(inputs[i].clone());
        }
        i += 1;
    }
    assert(inputs@.take(i as int) =~= inputs@);
    r
}

/// What a task asks of a text.
#[derive(Debug, Clone, Copy, PartialEq, Eq, Structural)]
pub enum TaskKind {
    /// Its class.
    Classification,
    /// The entities in it.
    Entities,
    /// The relations between entities in it.
    Relations,
    /// Nothing that this engine knows.
    Unknown,
}

/// What a task of the given type asks of a text.
pub fn task_kind(task_type: &str) -> (r: TaskKind)
    ensures
        r == if task_type@ == "classifications"@ {
            TaskKind::Classification
        } else if task_type@ == "entities"@ {
            TaskKind::Entities
        } else if task_type@ == "relations"@ {
            TaskKind::Relations
        } else {
            TaskKind::Unknown
        },
{
    if str_eq(task_type, "classifications") {
        TaskKind::Classification
    } else if str_eq(task_type, "entities") {
        TaskKind::Entities
    } else if str_eq(task_type, "relations") {
        TaskKind::Relations
    } else {
        TaskKind::Unknown
    }
}

/// The span layer takes the embeddings under the last of its inputs with a known name: one
/// behind it with another name changes nothing, and there is a name also where none is
/// known.
pub proof fn law_last_known_input_takes_the_embeddings(inputs: Seq<String>, input: String)
    ensures
        embeddings_input(Seq::empty()) == "hidden_states"@,
        input@ == "last_hidden_state"@ || input@ == "hidden_states"@ || input@ == "output"@
            ==> embeddings_input(inputs.push(input)) == input@,
        !(input@ == "last_hidden_state"@ || input@ == "hidden_states"@ || input@ == "output"@)
            ==> embeddings_input(inputs.push(input)) == embeddings_input(inputs),
{
    assert(inputs.push(input).drop_last() =~= inputs);
}

/// The count goes into every input but the one for the embeddings: the inputs of a list are
/// those of its first part, then those of the rest.
pub proof fn law_count_goes_into_every_other_input(a: Seq<String>, b: Seq<String>, input: String)
    ensures
        count_names(a + b) == count_names(a) + count_names(b),
        input@ == "pc_emb"@ ==> count_names(seq![input]).len() == 0,
        input@ != "pc_emb"@ ==> count_names(seq![input]) == seq![input],
    decreases b.len(),
{
    if b.len() == 0 {
        assert(a + b =~= a);
        assert(count_names(a) + count_names(b) =~= count_names(a));
    } else {
        assert((a + b).drop_last() =~= a + b.drop_last());
        law_count_goes_into_every_other_input(a, b.drop_last(), input);
        assert(count_names(a + b) =~= count_names(a) + count_names(b));
    }
    let one = seq![input];
    assert(one.drop_last() =~= Seq::empty());
    assert(count_names(one.drop_last()) =~= Seq::empty());
    if input@ != "pc_emb"@ {
        assert(count_names(one) =~= one);
    }
}

/// Without the graphics cards the same providers are tried in the same order, and only
/// those two are left out; the processor itself always comes last.
pub proof fn law_forcing_the_processor_leaves_out_two(p: Provider)
    ensures
        provider_order(false).contains(p),
        provider_order(true).contains(p) <==> p != Provider::Cuda && p != Provider::Rocm,
        provider_order(true) == provider_order(false).take(3) + provider_order(false).skip(5),
        provider_order(true).last() == Provider::Cpu,
        provider_order(false).last() == Provider::Cpu,
        provider_order(false).take(5) == seq![
            Provider::Qnn,
            Provider::OpenVino,
            Provider::CoreMl,
            Provider::Cuda,
            Provider::Rocm,
        ],
{
    let all = provider_order(false);
    let few = provider_order(true);
    assert(few =~= all.take(3) + all.skip(5));
    assert(all.take(5) =~= seq![
        Provider::Qnn,
        Provider::OpenVino,
        Provider::CoreMl,
        Provider::Cuda,
        Provider::Rocm,
    ]);
    assert(all[0] == Provider::Qnn && all[1] == Provider::OpenVino && all[2] == Provider::CoreMl
        && all[3] == Provider::Cuda && all[4] == Provider::Rocm && all[5] == Provider::Xnnpack
        && all[6] == Provider::Cpu);
    assert(few[0] == Provider::Qnn && few[1] == Provider::OpenVino && few[2] == Provider::CoreMl
        && few[3] == Provider::Xnnpack && few[4] == Provider::Cpu);
}

/// A model is fetched in half precision where the name of its subfolder has a 16 in it,
/// wherever that is, and in single precision otherwise; and a file of a subfolder lies in
/// it.
pub proof fn law_subfolder_tells_the_precision(a: Seq<char>, b: Seq<char>, file: Seq<char>)
    ensures
        part_suffix(Some(a + "16"@ + b)) == "_fp16.onnx"@,
        !has_substring(a, "16"@) ==> part_suffix(Some(a)) == "_fp32.onnx"@,
        part_suffix(None) == "_fp32.onnx"@,
        repo_path(Some(a), file) == a + "/"@ + file,
        repo_path(None, file) == file,
{
    law_substring_stands_between(a, "16"@, b);
}

/// What an error says ends with its details, and before them stands a code that no other
/// kind of error has; an error of no kind says its details alone.
pub proof fn law_errors_say_their_code(m: String)
    ensures
        GlinerError::OomDeviceBinding(m).message() == "[E_GLI_001] OOM_DEVICE_BINDING: "@ + m@,
        GlinerError::OomDeviceStandard(m).message() == "[E_GLI_002] OOM_DEVICE_STANDARD: "@ + m@,
        GlinerError::OomHostRam(m).message() == "[E_GLI_003] OOM_HOST_RAM: "@ + m@,
        GlinerError::BindingNotSupported(m).message() == "[E_GLI_004] BINDING_NOT_SUPPORTED: "@
            + m@,
        GlinerError::TensorShapeMismatch(m).message() == "[E_GLI_005] TENSOR_SHAPE_MISMATCH: "@
            + m@,
        GlinerError::Other(m).message() == m@,
{
}

/// A model has the four parts, the tokenizer and the count layer, in the precision that its
/// suffix tells, whatever that is; the tokenizer has none.
pub proof fn law_model_has_its_parts(suffix: Seq<char>)
    ensures
        model_files(suffix).len() == 6,
        model_files(suffix).contains("encoder"@ + suffix),
        model_files(suffix).contains("span_rep"@ + suffix),
        model_files(suffix).contains("count_pred"@ + suffix),
        model_files(suffix).contains("classifier"@ + suffix),
        model_files(suffix).contains("tokenizer.json"@),
        model_files(suffix)[5] == "count_lstm"@ + suffix,
{
    let files = model_files(suffix);
    assert(files[0] == "encoder"@ + suffix);
    assert(files[1] == "span_rep"@ + suffix);
    assert(files[2] == "count_pred"@ + suffix);
    assert(files[3] == "classifier"@ + suffix);
    assert(files[4] == "tokenizer.json"@);
}

/// A name is among some names exactly where one of them is that name, letter by letter.
pub proof fn law_name_is_among_names(a: Seq<String>, b: Seq<String>, s: String, name: Seq<char>)
    ensures
        !lists(Seq::empty(), name),
        lists(seq![s], name) <==> s@ == name,
        lists(a + b, name) <==> lists(a, name) || lists(b, name),
{
    let one = seq![s];
    assert(one[0] == s);
    let all = a + b;
    if lists(a, name) {
        let i = choose|i: int| 0 <= i < a.len() && (#[trigger] a[i])@ == name;
        assert(all[i] == a[i]);
    }
    if lists(b, name) {
        let i = choose|i: int| 0 <= i < b.len() && (#[trigger] b[i])@ == name;
        assert(all[a.len() + i] == b[i]);
    }
    if lists(all, name) {
        let i = choose|i: int| 0 <= i < all.len() && (#[trigger] all[i])@ == name;
        if i < a.len() {
            assert(a[i] == all[i]);
        } else {
            assert(b[i - a.len()] == all[i]);
        }
    }
}

} // verus!
