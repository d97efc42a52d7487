use clipcloak::decode::{
    classify, decode_entities, decode_relation, decode_relations, find_matches, predicted_count,
    projection, readable, select_matches, span_bounds, span_pairs, Scan, WordMaps,
};
use clipcloak::engine::{
    after_bound_run, count_inputs, downloaded_config, either_output, encoder_output, execution_providers,
    extract_iobinding, first_step, local_version, pretrained_version, session_file, session_files, session_order,
    span_layer_inputs, takes_attention_mask, task_kind, v2_mark_files, Download, EngineVersion,
    ExecutionMode, ExtractStep, Gliner2Config, GlinerError, InferenceParams, ModelType, Provider,
    TaskKind,
};
use clipcloak::entity::{select_spans, ExtractedEntity, SpanKey};
use clipcloak::extract::{Extraction, Stage, Task};
use clipcloak::select::{priority_order, select};

fn strings(v: &[&str]) -> Vec<String> {
    v.iter().map(|s| s.to_string()).collect()
}

fn bits(v: &[f32]) -> Vec<u32> {
    v.iter().map(|x| x.to_bits()).collect()
}

fn hit(label: &str, score: f32, start_tok: usize, end_tok: usize) -> ExtractedEntity {
    ExtractedEntity {
        text: label.to_string(),
        label: label.to_string(),
        score: score.to_bits(),
        start_tok,
        end_tok,
        start_char: 0,
        end_char: 1,
    }
}

fn found(v: &[ExtractedEntity]) -> Vec<(&str, usize, usize)> {
    v.iter().map(|e| (e.label.as_str(), e.start_tok, e.end_tok)).collect()
}

fn key(start: usize, end: usize, score: f32) -> SpanKey {
    SpanKey { start, end, score: score.to_bits() }
}

#[test]
fn candidates_are_taken_in_order_of_priority() {
    let keys = vec![key(0, 3, 0.5), key(2, 6, 0.9), key(6, 8, 0.5), key(6, 9, 0.5)];
    assert_eq!(priority_order(&keys), vec![1, 0, 3, 2]);
    assert_eq!(select(&keys), vec![1, 3]);
    assert_eq!(select_spans(&keys), vec![1, 3]);
    let apart = vec![key(5, 6, 0.9), key(0, 1, 0.1)];
    assert_eq!(select(&apart), vec![0, 1]);
    assert_eq!(select_spans(&apart), vec![1, 0]);
}

#[test]
fn equal_candidates_keep_their_order() {
    let keys = vec![key(0, 2, 0.5), key(0, 2, 0.5), key(4, 6, 0.5)];
    assert_eq!(priority_order(&keys), vec![0, 1, 2]);
    assert_eq!(select(&keys), vec![0, 2]);
}

#[test]
fn spans_above_the_threshold_are_found() {
    let text = "Ann  lives";
    let maps = WordMaps { tokens: vec![(3, 4), (4, 6)], chars: vec![(0, 3), (5, 10)], n_tokens: 6 };
    let labels = strings(&["name", "verb"]);
    let scores = bits(&[0.9, 0.1, 0.2, 0.6, 0.3, 0.8, 0.5, 0.7]);
    let scan = Scan { text, maps: &maps, labels: &labels, max_width: 2, threshold: 0.5f32.to_bits(), scores: &scores };
    let out = find_matches(&scan);
    let seen: Vec<(&str, &str, usize, usize, usize, usize)> = out
        .iter()
        .map(|e| (e.text.as_str(), e.label.as_str(), e.start_tok, e.end_tok, e.start_char, e.end_char))
        .collect();
    assert_eq!(
        seen,
        vec![
            ("Ann", "name", 3, 4, 0, 3),
            ("Ann  lives", "verb", 3, 6, 0, 10),
            ("lives", "verb", 4, 6, 5, 10),
            ("lives", "verb", 4, 6, 5, 10),
        ]
    );
    assert_eq!(f32::from_bits(out[1].score), 0.6);
}

#[test]
fn spans_outside_tokens_or_text_are_not_found() {
    let labels = strings(&["x"]);
    let scores = bits(&[0.9, 0.9, 0.9, 0.9]);
    let maps = WordMaps {
        tokens: vec![(0, 1), (1, 9), (3, 3), (2, 3)],
        chars: vec![(0, 1), (1, 2), (2, 3), (3, 99)],
        n_tokens: 4,
    };
    let scan = Scan { text: "  c ", maps: &maps, labels: &labels, max_width: 1, threshold: 0, scores: &scores };
    assert!(find_matches(&scan).is_empty());
    let maps = WordMaps { tokens: vec![(0, 1)], chars: vec![(1, 4)], n_tokens: 4 };
    let scores = bits(&[0.9]);
    let scan = Scan { text: "  c ", maps: &maps, labels: &labels, max_width: 1, threshold: 0, scores: &scores };
    let out = find_matches(&scan);
    assert_eq!((out[0].text.as_str(), out[0].start_char, out[0].end_char), ("c", 1, 4));
}

#[test]
fn overlapping_matches_compete_by_label_or_flat() {
    let matches = vec![hit("a", 0.6, 0, 3), hit("b", 0.9, 2, 5), hit("a", 0.7, 1, 2), hit("c", 0.5, 5, 6)];
    assert_eq!(found(&select_matches(&matches, true)), vec![("b", 2, 5), ("a", 1, 2), ("c", 5, 6)]);
    let nested = vec![hit("a", 0.6, 0, 3), hit("b", 0.9, 2, 5)];
    assert_eq!(found(&select_matches(&nested, false)), vec![("b", 2, 5), ("a", 0, 3)]);
    assert_eq!(found(&select_matches(&nested, true)), vec![("b", 2, 5)]);
}

#[test]
fn entities_of_all_rounds_compete() {
    let rounds = vec![vec![hit("a", 0.6, 0, 3)], vec![], vec![hit("a", 0.8, 2, 5), hit("b", 0.7, 7, 8)]];
    assert_eq!(found(&decode_entities(&rounds, true)), vec![("a", 2, 5), ("b", 7, 8)]);
}

#[test]
fn a_relation_needs_a_head_and_a_tail() {
    let round = vec![hit("tail", 0.6, 4, 5), hit("head", 0.9, 0, 1), hit("head", 0.95, 2, 3)];
    let r = decode_relation(&round, true, "works_for").unwrap();
    assert_eq!(format!("{:?}", r.clone()), format!("{r:?}"));
    assert_eq!((r.head.start_tok, r.tail.start_tok, r.relation_type.as_str()), (2, 4, "works_for"));
    assert!(decode_relation(&vec![hit("head", 0.9, 0, 1)], true, "r").is_none());
    let rounds = vec![round, vec![hit("tail", 0.9, 0, 1)], vec![hit("head", 0.5, 0, 1), hit("tail", 0.5, 1, 2)]];
    let all = decode_relations(&rounds, true, "r");
    assert_eq!(all.len(), 2);
    assert_eq!(all[1].tail.start_tok, 1);
}

#[test]
fn the_predicted_count_is_the_place_of_the_first_greatest_logit() {
    assert_eq!(predicted_count(&bits(&[-1.0, 3.0, 3.0, 2.0])), 1);
    assert_eq!(predicted_count(&bits(&[])), 0);
    assert_eq!(predicted_count(&bits(&[f32::NAN, -5.0])), 1);
    assert_eq!(predicted_count(&bits(&[f32::NAN, f32::NAN])), 0);
    assert_eq!(predicted_count(&bits(&[f32::MIN, f32::NEG_INFINITY])), 0);
}

#[test]
fn the_most_probable_label_is_the_class() {
    let labels = strings(&["a", "b", "c"]);
    let c = classify("tone", &labels, &bits(&[0.2, 0.5, 0.3]));
    assert_eq!((c.task_name.as_str(), c.label.as_str()), ("tone", "b"));
    assert_eq!(format!("{:?}", c.clone()), format!("{c:?}"));
    assert_eq!(f32::from_bits(c.score), 0.5);
    let c = classify("tone", &labels, &bits(&[f32::NAN, f32::NAN, f32::NAN]));
    assert_eq!((c.label.as_str(), f32::from_bits(c.score)), ("a", 0.0));
}

#[test]
fn spans_are_listed_word_by_word() {
    let (firsts, lasts) = span_bounds(3, 2);
    assert_eq!(firsts, vec![0, 0, 1, 1, 2, 0]);
    assert_eq!(lasts, vec![0, 1, 1, 2, 2, 0]);
    assert_eq!(span_pairs(3, 2), vec![0, 0, 0, 1, 1, 1, 1, 2, 2, 2, 0, 0]);
    assert!(span_pairs(0, 8).is_empty());
    assert!(span_bounds(4, 0).0.is_empty());
}

#[test]
fn a_shape_means_a_layout() {
    let p = projection(&vec![4, 7, 768]);
    assert_eq!((p.rounds, p.labels, p.hidden), (4, 7, 768));
    assert!(p.fits(768, 7) && p.fits(768, 3));
    assert!(!p.fits(768, 8) && !p.fits(512, 7));
    let p = projection(&vec![7, 768]);
    assert_eq!((p.rounds, p.labels, p.hidden), (1, 7, 768));
    let p = projection(&vec![7, 768, 1, 1]);
    assert_eq!((p.rounds, p.labels, p.hidden), (1, 7, 768));
    let p = projection(&vec![7]);
    assert_eq!((p.rounds, p.labels, p.hidden), (1, 0, 0));
    assert!(!projection(&vec![0, 7, 768]).fits(768, 7));
}

#[test]
fn engines_have_defaults() {
    let c = Gliner2Config::default();
    assert_eq!((c.models_dir.as_str(), c.max_width), ("models/fragments_fp16", 8));
    assert!(c.model_type == ModelType::PyTorch);
    assert!(ModelType::default() == ModelType::PyTorch);
    assert_eq!(format!("{:?}", c.clone()), format!("{c:?}"));
    let c = downloaded_config("/cache".to_string(), ModelType::HuggingFace);
    assert_eq!((c.models_dir.as_str(), c.max_width), ("/cache", 8));
    assert!(c.model_type == ModelType::HuggingFace);
    let p = InferenceParams::default();
    assert_eq!((f32::from_bits(p.threshold), p.flat_ner), (0.5, false));
}

#[test]
fn model_types_are_named() {
    assert_eq!(ModelType::PyTorch.to_text(), "PyTorch");
    assert_eq!(ModelType::HuggingFace.to_text(), "HuggingFace");
}

#[test]
fn errors_say_what_went_wrong() {
    let m = || "m".to_string();
    assert_eq!(GlinerError::OomDeviceBinding(m()).to_text(), "[E_GLI_001] OOM_DEVICE_BINDING: m");
    assert_eq!(GlinerError::OomDeviceStandard(m()).to_text(), "[E_GLI_002] OOM_DEVICE_STANDARD: m");
    assert_eq!(GlinerError::OomHostRam(m()).to_text(), "[E_GLI_003] OOM_HOST_RAM: m");
    assert_eq!(GlinerError::BindingNotSupported(m()).to_text(), "[E_GLI_004] BINDING_NOT_SUPPORTED: m");
    assert_eq!(GlinerError::TensorShapeMismatch(m()).to_text(), "[E_GLI_005] TENSOR_SHAPE_MISMATCH: m");
    assert_eq!(GlinerError::from(m()).to_text(), "m");
}

#[test]
fn running_out_of_memory_goes_over_to_standard_mode() {
    assert_eq!(ExecutionMode::default(), ExecutionMode::IoBinding);
    assert!(matches!(first_step::<u8>(ExecutionMode::IoBinding), ExtractStep::RunBound));
    assert!(matches!(first_step::<u8>(ExecutionMode::Standard), ExtractStep::RunStandard(None)));
    let (mode, step) = after_bound_run::<u8>(extract_iobinding());
    assert_eq!(mode, ExecutionMode::Standard);
    match step {
        ExtractStep::RunStandard(Some(w)) => assert_eq!(
            w,
            "[GLiNER2] OOM in IoBinding detected. Falling back to Standard Mode. Details: \
             IOBinding non ancora implementato, fallback alla modalit\u{e0} Standard."
        ),
        _ => panic!("step"),
    }
    let (mode, step) = after_bound_run(Ok::<u8, GlinerError>(7));
    assert_eq!(mode, ExecutionMode::IoBinding);
    assert!(matches!(step, ExtractStep::Done(7)));
    let (mode, step) = after_bound_run::<u8>(Err(GlinerError::OomHostRam("m".to_string())));
    assert_eq!(mode, ExecutionMode::IoBinding);
    assert!(matches!(step, ExtractStep::Fail(GlinerError::OomHostRam(_))));
}

#[test]
fn a_model_is_downloaded_file_by_file() {
    let mut d = Download::new(Some("fp16_v1"), ModelType::HuggingFace);
    let mut names: Vec<String> = Vec::new();
    while let Some(f) = d.next() {
        names.push(f.path.clone());
        let outcome = if f.optional { Err("gone".to_string()) } else { Ok(format!("/cache/{}", f.path)) };
        match d.fetched(outcome) {
            Ok(Some(note)) => assert_eq!(note, "Note: fp16_v1/count_lstm_fp16.onnx not found, using fallback."),
            Ok(None) => {},
            Err(e) => panic!("{e}"),
        }
    }
    assert_eq!(
        names,
        strings(&[
            "fp16_v1/encoder_fp16.onnx",
            "fp16_v1/span_rep_fp16.onnx",
            "fp16_v1/count_pred_fp16.onnx",
            "fp16_v1/classifier_fp16.onnx",
            "fp16_v1/tokenizer.json",
            "fp16_v1/count_lstm_fp16.onnx",
        ])
    );
    assert_eq!(d.place(), Ok("/cache/fp16_v1/tokenizer.json".to_string()));
}

#[test]
fn a_missing_file_ends_a_download() {
    let mut d = Download::new(None, ModelType::PyTorch);
    assert_eq!(d.next().unwrap().path, "encoder_fp32.onnx");
    assert_eq!(
        d.fetched(Err("404".to_string())),
        Err("Failed to download encoder_fp32.onnx: 404".to_string())
    );
    assert!(d.failed);
    assert!(d.next().is_none());
    let d = Download::new(Some("onnx_int8"), ModelType::PyTorch);
    assert!(d.files.iter().all(|f| !f.optional));
    assert_eq!(d.files[5].path, "onnx_int8/count_lstm_fp32.onnx");
    let nothing = Download { files: vec![], tried: 0, last: None, failed: false };
    assert_eq!(nothing.place(), Err("No files downloaded".to_string()));
}

#[test]
fn the_half_precision_part_is_preferred() {
    assert_eq!(session_file("encoder", true, true), Ok("encoder_fp16.onnx".to_string()));
    assert_eq!(session_file("encoder", false, true), Ok("encoder_fp32.onnx".to_string()));
    assert_eq!(
        session_file("encoder", false, false),
        Err("Neither encoder_fp16.onnx nor encoder_fp32.onnx exist".to_string())
    );
    assert_eq!(session_files("encoder"), ("encoder_fp16.onnx".to_string(), "encoder_fp32.onnx".to_string()));
    assert_eq!(session_order(), strings(&["count_lstm", "count_pred", "encoder", "span_rep", "classifier"]));
}

#[test]
fn providers_are_tried_in_order() {
    assert_eq!(
        execution_providers(false),
        vec![
            Provider::Qnn,
            Provider::OpenVino,
            Provider::CoreMl,
            Provider::Cuda,
            Provider::Rocm,
            Provider::Xnnpack,
            Provider::Cpu
        ]
    );
    assert_eq!(
        execution_providers(true),
        vec![Provider::Qnn, Provider::OpenVino, Provider::CoreMl, Provider::Xnnpack, Provider::Cpu]
    );
}

#[test]
fn the_engine_is_chosen_by_name_or_by_files() {
    assert_eq!(pretrained_version(Some("fp16_v2")), EngineVersion::V2);
    assert_eq!(pretrained_version(Some("onnx_int8")), EngineVersion::V1);
    assert_eq!(pretrained_version(None), EngineVersion::V1);
    assert_eq!(
        v2_mark_files(),
        strings(&["token_gather_fp16.onnx", "token_gather_fp32.onnx", "token_gather_fp16_iobinding.onnx"])
    );
    assert_eq!(local_version(&vec![false, true, false]), EngineVersion::V2);
    assert_eq!(local_version(&vec![false, false, false]), EngineVersion::V1);
}

#[test]
fn outputs_are_found_under_their_names() {
    assert_eq!(encoder_output(&strings(&["output", "last_hidden_state"])), Ok("last_hidden_state"));
    assert_eq!(encoder_output(&strings(&["last_hidden_state", "hidden_states"])), Ok("hidden_states"));
    assert_eq!(encoder_output(&strings(&["output"])), Ok("output"));
    assert_eq!(
        encoder_output(&strings(&["logits"])),
        Err("No valid encoder output found (tried hidden_states, last_hidden_state, output)".to_string())
    );
    assert_eq!(either_output(&strings(&["output", "logits"]), "logits", "output", "none"), Ok("logits"));
    assert_eq!(either_output(&strings(&["output"]), "logits", "output", "none"), Ok("output"));
    assert_eq!(either_output(&strings(&[]), "logits", "output", "none"), Err("none".to_string()));
}

#[test]
fn inputs_are_fed_under_their_names() {
    assert_eq!(span_layer_inputs(&strings(&["span_idx", "last_hidden_state"])), ("last_hidden_state".to_string(), true));
    assert_eq!(
        span_layer_inputs(&strings(&["last_hidden_state", "output", "span_start_idx"])),
        ("output".to_string(), false)
    );
    assert_eq!(span_layer_inputs(&strings(&["x"])), ("hidden_states".to_string(), false));
    assert!(takes_attention_mask(&strings(&["input_ids", "attention_mask"])));
    assert!(!takes_attention_mask(&strings(&["input_ids"])));
    assert_eq!(count_inputs(&strings(&["pc_emb", "gold_count_val", "x"])), strings(&["gold_count_val", "x"]));
}

#[test]
fn tasks_are_told_apart() {
    assert_eq!(task_kind("classifications"), TaskKind::Classification);
    assert_eq!(task_kind("entities"), TaskKind::Entities);
    assert_eq!(task_kind("relations"), TaskKind::Relations);
    assert_eq!(task_kind("other"), TaskKind::Unknown);
}

fn task(kind: TaskKind, name: &str, labels: &[&str]) -> Task {
    Task { kind, name: name.to_string(), labels: strings(labels) }
}

#[test]
fn a_text_without_words_is_done_at_once() {
    let maps = WordMaps { tokens: vec![], chars: vec![], n_tokens: 3 };
    let tasks = vec![task(TaskKind::Entities, "", &["name"])];
    let run = Extraction::new("", &maps, &tasks, 8, InferenceParams::default());
    assert!(matches!(run.stage, Stage::Done));
    let (e, r, c) = run.finish();
    assert!(e.is_empty() && r.is_empty() && c.is_empty());
}

#[test]
fn tasks_are_run_one_after_the_other() {
    let text = "Ann lives";
    let maps = WordMaps { tokens: vec![(0, 1), (1, 2)], chars: vec![(0, 3), (4, 9)], n_tokens: 2 };
    let tasks = vec![
        task(TaskKind::Classification, "tone", &["calm", "loud"]),
        task(TaskKind::Entities, "", &["name"]),
        task(TaskKind::Relations, "", &["head", "tail"]),
        task(TaskKind::Entities, "", &["name"]),
        task(TaskKind::Entities, "", &["name"]),
        task(TaskKind::Unknown, "", &["name"]),
    ];
    let params = InferenceParams { threshold: 0.5f32.to_bits(), flat_ner: true };
    let mut run = Extraction::new(text, &maps, &tasks, 1, params);
    assert!(matches!(run.stage, Stage::Spans));
    run.take_spans(4);
    assert!(matches!(run.stage, Stage::Probabilities));
    run.take_probabilities(&bits(&[0.4, 0.6]));
    assert!(matches!(run.stage, Stage::Count));
    run.take_count(&bits(&[0.0, 0.1, 0.9]));
    assert!(matches!(run.stage, Stage::Structure(2)));
    assert!(run.take_structure(&vec![2, 1, 4]));
    assert!(matches!(run.stage, Stage::Rounds(2)));
    assert_eq!((run.at, run.rounds.len(), run.span_hidden), (1, 0, 4));
    run.take_scores(&bits(&[0.6, 0.2]));
    assert_eq!((run.at, run.rounds.len(), run.entities.len()), (1, 1, 0));
    run.take_scores(&bits(&[0.9, 0.7]));
    assert_eq!((run.at, run.rounds.len(), run.entities.len()), (2, 0, 2));
    run.take_count(&bits(&[0.0, 0.1]));
    assert!(run.take_structure(&vec![2, 4]));
    run.take_scores(&bits(&[0.9, 0.1, 0.1, 0.8]));
    assert_eq!(run.relations.len(), 1);
    run.take_count(&bits(&[0.5, 0.1]));
    assert_eq!(run.at, 4);
    run.take_count(&bits(&[0.1, 0.5]));
    assert!(!run.take_structure(&vec![1, 1, 5]));
    assert_eq!(run.at, 5);
    run.take_count(&bits(&[0.1, 0.5]));
    assert!(run.take_structure(&vec![1, 1, 4]));
    run.take_scores(&bits(&[0.9, 0.9]));
    assert!(matches!(run.stage, Stage::Done));
    let (e, r, c) = run.finish();
    assert_eq!(found(&e), vec![("name", 0, 1), ("name", 1, 2)]);
    assert_eq!(f32::from_bits(e[0].score), 0.9);
    assert_eq!((r[0].head.text.as_str(), r[0].tail.text.as_str()), ("Ann", "lives"));
    assert_eq!(r[0].relation_type, "head");
    assert_eq!((c.len(), c[0].label.as_str()), (1, "loud"));
}

#[test]
fn a_reported_entity_is_one_of_the_text() {
    let text = "Ann  B. lives";
    let maps = WordMaps {
        tokens: vec![(0, 1), (1, 3), (3, 4)],
        chars: vec![(0, 3), (5, 7), (7, 13)],
        n_tokens: 4,
    };
    let tasks = vec![task(TaskKind::Entities, "", &["place", "name"])];
    let params = InferenceParams { threshold: 0.5f32.to_bits(), flat_ner: true };
    let mut run = Extraction::new(text, &maps, &tasks, 2, params);
    run.take_spans(4);
    run.take_count(&bits(&[0.1, 0.9]));
    assert!(run.take_structure(&vec![1, 2, 4]));
    run.take_scores(&bits(&[0.1, 0.5, 0.2, 0.9, 0.1, 0.1, 0.1, 0.6, 0.7, 0.1, 0.1, 0.1]));
    let (e, _, _) = run.finish();
    assert_eq!(found(&e), vec![("name", 0, 3), ("place", 3, 4)]);
    assert_eq!((e[0].text.as_str(), e[0].start_char, e[0].end_char), ("Ann  B.", 0, 7));
    assert_eq!((e[1].text.as_str(), e[1].start_char, e[1].end_char), ("lives", 7, 13));
    assert!(e.iter().all(|e| f32::from_bits(e.score) > 0.5));
}

#[test]
fn spans_across_characters_are_told() {
    let labels = strings(&["x"]);
    let maps = WordMaps { tokens: vec![(0, 1)], chars: vec![(1, 2)], n_tokens: 1 };
    let high = bits(&[0.9]);
    let low = bits(&[0.1]);
    let half = 0.5f32.to_bits();
    let scan = Scan { text: "\u{e9}", maps: &maps, labels: &labels, max_width: 1, threshold: half, scores: &high };
    assert!(!readable(&scan));
    let scan = Scan { text: "\u{e9}", maps: &maps, labels: &labels, max_width: 1, threshold: half, scores: &low };
    assert!(readable(&scan));
    assert!(find_matches(&scan).is_empty());
    let bare = WordMaps { tokens: vec![(0, 1)], chars: vec![], n_tokens: 1 };
    let scan = Scan { text: "a", maps: &bare, labels: &labels, max_width: 1, threshold: half, scores: &high };
    assert!(!readable(&scan));
    let scan = Scan { text: "a", maps: &bare, labels: &labels, max_width: 1, threshold: half, scores: &low };
    assert!(readable(&scan));
    assert!(find_matches(&scan).is_empty());
}
