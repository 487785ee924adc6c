use ctxvault::model::{check_directory_for_model, cpu_adaptive_batch, first_model_directory, ModelName};

#[test]
fn test_model_name_parsing() {
    assert_eq!(
        ModelName::from_str_name("jina-embeddings-v2-base-code"),
        Some(ModelName::JinaEmbeddingsV2BaseCode)
    );
    assert_eq!(
        ModelName::from_str_name("jina-embeddings-v2-base-code-int8"),
        Some(ModelName::JinaEmbeddingsV2BaseCode)
    );
    assert_eq!(ModelName::from_str_name("jina-code-int8"), Some(ModelName::JinaEmbeddingsV2BaseCode));
    assert_eq!(
        ModelName::from_str_name("jinaai/jina-embeddings-v2-base-code"),
        Some(ModelName::JinaEmbeddingsV2BaseCode)
    );
    assert_eq!(ModelName::from_str_name("jina-code"), Some(ModelName::JinaEmbeddingsV2BaseCode));
    assert_eq!(ModelName::from_str_name("jina"), Some(ModelName::JinaEmbeddingsV2BaseCode));
    assert_eq!(ModelName::from_str_name("unknown-model"), None);
}

#[test]
fn test_default_model_is_jina() {
    assert_eq!(ModelName::default(), ModelName::JinaEmbeddingsV2BaseCode);
}

#[test]
fn test_dimensions() {
    assert_eq!(ModelName::JinaEmbeddingsV2BaseCode.dimensions(), 768);
}

#[test]
fn model_name_ignores_case_and_owner_prefix() {
    assert_eq!(ModelName::from_str_name("JINA-CODE"), Some(ModelName::JinaEmbeddingsV2BaseCode));
    assert_eq!(ModelName::from_str_name("someone/my-jina-variant"), Some(ModelName::JinaEmbeddingsV2BaseCode));
    assert_eq!(ModelName::from_str_name("bge-small"), None);
    assert_eq!(ModelName::from_str_name(""), None);
}

#[test]
fn model_constants() {
    let m = ModelName::JinaEmbeddingsV2BaseCode;
    assert_eq!(m.version_string(), "jina-embeddings-v2-base-code-int8");
    assert_eq!(m.model_dir_name(), "jina-embeddings-v2-base-code");
    assert_eq!(m.onnx_candidate_subpaths(), &["onnx/model_quantized.onnx", "onnx/model.onnx"]);
    assert_eq!(m.max_seq_len(), 1024);
}

#[test]
fn cpu_batch_sizes() {
    // 144 * 1 = 144 bytes -> per chunk 2048 -> 32768 by cache, capped at 16.
    assert_eq!(cpu_adaptive_batch(0), 16);
    assert_eq!(cpu_adaptive_batch(1), 16);
    // 144 * 256^2 = 9437184 -> 67108864 / 9437184 = 7.
    assert_eq!(cpu_adaptive_batch(256), 7);
    // 144 * 300^2 = 12960000 -> 5, under the cap of 12.
    assert_eq!(cpu_adaptive_batch(300), 5);
    // 144 * 1024^2 = 150994944 -> 0 -> at least 1.
    assert_eq!(cpu_adaptive_batch(1024), 1);
    // 144 * 64^2 = 589824 -> 113, capped at 16.
    assert_eq!(cpu_adaptive_batch(64), 16);
}

#[test]
fn model_file_probe() {
    assert_eq!(check_directory_for_model(false, &[true, true]), None);
    assert_eq!(check_directory_for_model(true, &[false, true]), Some(1));
    assert_eq!(check_directory_for_model(true, &[true, true]), Some(0));
    assert_eq!(check_directory_for_model(true, &[false, false]), None);
}

#[test]
fn model_directories_are_searched_in_priority_order() {
    // No tokenizer in the first directory; the second lacks both files; the third has the
    // plain model only; the fourth has everything.
    let dirs = vec![
        (false, vec![true, true]),
        (true, vec![false, false]),
        (true, vec![false, true]),
        (true, vec![true, true]),
    ];
    assert_eq!(first_model_directory(&dirs), Some((2, 1)));
    assert_eq!(first_model_directory(&dirs[3..]), Some((0, 0)));
    assert_eq!(first_model_directory(&dirs[..2]), None);
    assert_eq!(first_model_directory(&[]), None);
}
