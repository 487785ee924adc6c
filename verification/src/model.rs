//! The embedding model: its name, parameters and how a configured name selects it, the
//! hardware-governor interface, the CPU batch-size rule and the model-file probe.
use vstd::prelude::*;

use crate::text::{
    all_ascii, ascii_lower_seq, chars_contains, chars_eq, chars_find, chars_slice, first_occurrence, occurs_at, seq_contains, str_chars,
    str_to_lowercase, unicode_lowercase,
};

verus! {

/// Supported embedding model names.
#[derive(Debug, Clone, Copy, PartialEq, Eq, Structural)]
pub enum ModelName {
    /// jinaai/jina-embeddings-v2-base-code (768 dimensions, 8192 token window, code + NL, INT8 dynamic quantization).
    JinaEmbeddingsV2BaseCode,
}

/// The model a configured name selects: a name whose lower-cased form contains `jina`
/// selects the Jina code model (every accepted spelling contains it); any other name none.
pub open spec fn spec_model_for_name(s: Seq<char>) -> Option<ModelName> {
    model_for_lower(unicode_lowercase(s))
}

/// The model a lower-cased name selects.
pub open spec fn model_for_lower(l: Seq<char>) -> Option<ModelName> {
    if seq_contains(l, "jina"@) {
        Some(ModelName::JinaEmbeddingsV2BaseCode)
    } else {
        None
    }
}

/// The model's own names (its directory name, its version string and its full repository
/// name) are ASCII lower case and select the model.
pub proof fn lemma_model_name_round_trip(name: Seq<char>)
    requires
        name == "jina-embeddings-v2-base-code"@ || name == "jina-embeddings-v2-base-code-int8"@
            || name == "jinaai/jina-embeddings-v2-base-code"@,
    ensures
        all_ascii(name),
        ascii_lower_seq(name) == name,
        model_for_lower(ascii_lower_seq(name)) == Some(ModelName::JinaEmbeddingsV2BaseCode),
{
    reveal_strlit("jina-embeddings-v2-base-code");
    reveal_strlit("jina-embeddings-v2-base-code-int8");
    reveal_strlit("jinaai/jina-embeddings-v2-base-code");
    reveal_strlit("jina");
    assert(ascii_lower_seq(name) =~= name);
    if name == "jinaai/jina-embeddings-v2-base-code"@ {
        assert(occurs_at(name, "jina"@, 0)) by {
            assert(name.subrange(0, 4) =~= "jina"@);
        }
    } else {
        assert(occurs_at(name, "jina"@, 0)) by {
            assert(name.subrange(0, 4) =~= "jina"@);
        }
    }
}

/// The spellings listed for the Jina code model.
pub open spec fn listed_spelling(s: Seq<char>) -> bool {
    s == "jina-embeddings-v2-base-code"@ || s == "jina-embeddings-v2-base-code-int8"@ || s == "jina-code-int8"@
        || s == "jina-code"@ || s == "jina"@
}

/// `name` is one of the spellings listed for the Jina code model.
fn is_listed_spelling(name: &[char]) -> (r: bool)
    ensures
        r == listed_spelling(name@),
        r ==> seq_contains(name@, "jina"@) && occurs_at(name@, "jina"@, 0),
{
    let names: [&str; 5] = [
        "jina-embeddings-v2-base-code",
        "jina-embeddings-v2-base-code-int8",
        "jina-code-int8",
        "jina-code",
        "jina",
    ];
    proof {
        reveal_strlit("jina-embeddings-v2-base-code");
        reveal_strlit("jina-embeddings-v2-base-code-int8");
        reveal_strlit("jina-code-int8");
        reveal_strlit("jina-code");
        reveal_strlit("jina");
    }
    let mut i: usize = 0;
    while i < 5
        invariant
            i <= 5,
            names@ == seq![
                "jina-embeddings-v2-base-code",
                "jina-embeddings-v2-base-code-int8",
                "jina-code-int8",
                "jina-code",
                "jina",
            ],
            forall|k: int| 0 <= k < 5 ==> 4 <= (#[trigger] names@[k])@.len() && names@[k]@.subrange(0, 4) == "jina"@,
            forall|k: int| 0 <= k < i ==> name@ != (#[trigger] names@[k])@,
        decreases 5 - i,
    {
        let cand = str_chars(names[i]);
        if chars_eq(name, cand.as_slice()) {
            proof {
                assert(name@ == names@[i as int]@);
                assert(name@.subrange(0, 4) == "jina"@);
                assert(occurs_at(name@, "jina"@, 0));
                assert(listed_spelling(name@));
            }
            return true;
        }
        i += 1;
    }
    proof {
        assert(name@ != names@[0]@ && name@ != names@[1]@ && name@ != names@[2]@ && name@ != names@[3]@ && name@ != names@[4]@);
    }
    false
}

impl ModelName {
    /// Get output dimensions for this model.
    pub fn dimensions(&self) -> (n: usize)
        ensures
            n == 768,
    {
        768
    }

    /// Parse a model name string into a `ModelName`, ignoring case and an owner prefix
    /// before the first `/`.
    ///
    /// Accepts: "jinaai/jina-embeddings-v2-base-code", "jina-embeddings-v2-base-code",
    /// "jina-embeddings-v2-base-code-int8", "jina-code-int8", "jina-code", "jina", and any
    /// other name that contains "jina".
    pub fn from_str_name(s: &str) -> (r: Option<ModelName>)
        ensures
            r == spec_model_for_name(s@),
            all_ascii(s@) ==> r == model_for_lower(ascii_lower_seq(s@)),
    {
        let lower = str_to_lowercase(s);
        let lc = str_chars(lower.as_str());
        let slash: &[char] = &['/'];
        let name: Vec<char> = match chars_find(lc.as_slice(), slash) {
            Some(idx) => {
                proof {
                    crate::text::lemma_first_occurrence(lc@, slash@);
                }
                chars_slice(lc.as_slice(), idx + 1, lc.len())
            },
            None => chars_slice(lc.as_slice(), 0, lc.len()),
        };
        let jina = str_chars("jina");
        proof {
            reveal_strlit("jina");
        }
        if is_listed_spelling(name.as_slice()) {
            proof {
                let l = lc@;
                match first_occurrence(l, slash@) {
                    Some(idx) => {
                        assert(name@ == l.subrange(idx + 1, l.len() as int));
                        assert(occurs_at(l, "jina"@, idx + 1)) by {
                            assert(l.subrange(idx + 1, idx + 1 + 4) == name@.subrange(0, 4));
                        }
                    },
                    None => {
                        assert(name@ == l.subrange(0, l.len() as int));
                        assert(occurs_at(l, "jina"@, 0)) by {
                            assert(l.subrange(0, 4) == name@.subrange(0, 4));
                        }
                    },
                }
            }
            Some(ModelName::JinaEmbeddingsV2BaseCode)
        } else if chars_contains(lc.as_slice(), jina.as_slice()) {
            Some(ModelName::JinaEmbeddingsV2BaseCode)
        } else {
            None
        }
    }

    /// Get the canonical version string for this model.
    pub fn version_string(&self) -> (r: &'static str)
        ensures
            r@ == "jina-embeddings-v2-base-code-int8"@,
    {
        "jina-embeddings-v2-base-code-int8"
    }

    /// Directory name for sidecar model storage.
    pub fn model_dir_name(&self) -> (r: &'static str)
        ensures
            r@ == "jina-embeddings-v2-base-code"@,
    {
        "jina-embeddings-v2-base-code"
    }

    /// Candidate ONNX subpaths to probe within a model directory, in preference order: the
    /// quantized weights first, the fp32 model as the fallback, laid out as in the upstream
    /// Hugging Face repository.
    pub fn onnx_candidate_subpaths(&self) -> (r: &'static [&'static str])
        ensures
            r@ == seq!["onnx/model_quantized.onnx", "onnx/model.onnx"],
    {
        let r: &'static [&'static str] = &["onnx/model_quantized.onnx", "onnx/model.onnx"];
        r
    }

    /// Maximum context token sequence length.
    pub fn max_seq_len(&self) -> (n: usize)
        ensures
            n == 1024,
    {
        1024
    }
}

impl Default for ModelName {
    fn default() -> (m: Self)
        ensures
            m == ModelName::JinaEmbeddingsV2BaseCode,
    {
        ModelName::JinaEmbeddingsV2BaseCode
    }
}

/// Device memory introspection, target execution slicing, and adaptive batch scaling of a
/// compute device.
pub trait HardwareGovernor {
    /// Query real-time available memory headroom on the target compute device (bytes).
    fn available_memory_bytes(&self) -> usize;

    /// Total device memory capacity (bytes).
    fn total_memory_bytes(&self) -> usize;

    /// Compute the adaptive batch size for a given sequence length,
    /// informed by the measured latency of the previous dispatch.
    fn compute_adaptive_batch(&mut self, seq_len: usize, last_dispatch_ms: u64) -> usize;

    /// Target execution slice duration in milliseconds.
    fn target_slice_ms(&self) -> u64;

    /// Report the current compute provider name for logging.
    fn provider_name(&self) -> String;
}

/// The CPU batch size for sequences of `seq_len` tokens: as many chunks as fit a 64 MiB
/// cache budget at `144 * seq_len^2` bytes each (at least 2048), capped at 8, 12 or 16
/// chunks for long, medium and short sequences, and at least 1.
pub open spec fn spec_cpu_batch(seq_len: nat) -> nat {
    let s: nat = if seq_len == 0 { 1 } else { seq_len };
    let per_chunk: nat = if 144 * s * s > 2048 { 144 * s * s } else { 2048 };
    let by_cache: nat = 67108864nat / per_chunk;
    let cap: nat = if seq_len > 512 { 8 } else if seq_len > 256 { 12 } else { 16 };
    let b: nat = if by_cache < cap { by_cache } else { cap };
    if b < 1 { 1 } else { b }
}

/// The CPU governor's batch size for a sequence length (the latency feedback only tunes its
/// dispatch statistics).
pub fn cpu_adaptive_batch(seq_len: usize) -> (b: usize)
    requires
        144 * (if seq_len == 0 { 1 } else { seq_len as int }) * (if seq_len == 0 { 1 } else { seq_len as int }) <= usize::MAX,
    ensures
        b == spec_cpu_batch(seq_len as nat),
        1 <= b <= 16,
{
    let s: usize = if seq_len == 0 { 1 } else { seq_len };
    assert(s * s <= 144 * (s * s) && 144 * (s * s) == 144 * s * s) by (nonlinear_arith)
        requires
            s >= 1,
    ;
    let sq: usize = s * s;
    let per: usize = if 144 * sq > 2048 { 144 * sq } else { 2048 };
    let by_cache: usize = 67108864 / per;
    let cap: usize = if seq_len > 512 { 8 } else if seq_len > 256 { 12 } else { 16 };
    let b = if by_cache < cap { by_cache } else { cap };
    let r = if b < 1 { 1 } else { b };
    proof {
        let sn: nat = if seq_len == 0 { 1 } else { seq_len as nat };
        assert(sn == s);
        assert(144 * sn * sn == 144 * sq);
    }
    r
}

/// Which model file a directory offers: with `tokenizer.json` present, the first candidate
/// ONNX file that exists (its index in `candidate_exists`), else `None`.
pub fn check_directory_for_model(tokenizer_exists: bool, candidate_exists: &[bool]) -> (r: Option<usize>)
    ensures
        match r {
            Some(i) => tokenizer_exists && i < candidate_exists.len() && candidate_exists[i as int]
                && forall|j: int| 0 <= j < i ==> !candidate_exists[j],
            None => !tokenizer_exists || forall|j: int| 0 <= j < candidate_exists.len() ==> !candidate_exists[j],
        },
{
    if !tokenizer_exists {
        return None;
    }
    let mut i: usize = 0;
    while i < candidate_exists.len()
        invariant
            tokenizer_exists,
            i <= candidate_exists.len(),
            forall|j: int| 0 <= j < i ==> !candidate_exists[j],
        decreases candidate_exists.len() - i,
    {
        if candidate_exists[i] {
            return Some(i);
        }
        i += 1;
    }
    None
}

/// Which of the model directories, searched in priority order, provides the model: the
/// first directory that offers one, with the index of its model file; each directory is
/// given as whether its tokenizer exists and which candidate ONNX files exist.
pub fn first_model_directory(dirs: &[(bool, Vec<bool>)]) -> (r: Option<(usize, usize)>)
    ensures
        match r {
            Some((d, i)) => d < dirs.len() && dirs@[d as int].0 && i < dirs@[d as int].1.len() && dirs@[d as int].1@[i as int]
                && (forall|j: int| 0 <= j < i ==> !dirs@[d as int].1@[j])
                && forall|e: int| 0 <= e < d ==> !(dirs@[e].0 && exists|j: int| 0 <= j < dirs@[e].1.len() && dirs@[e].1@[j]),
            None => forall|e: int| 0 <= e < dirs.len() ==> !(dirs@[e].0 && exists|j: int| 0 <= j < dirs@[e].1.len() && dirs@[e].1@[j]),
        },
{
    let mut d: usize = 0;
    while d < dirs.len()
        invariant
            d <= dirs.len(),
            forall|e: int| 0 <= e < d ==> !(dirs@[e].0 && exists|j: int| 0 <= j < dirs@[e].1.len() && dirs@[e].1@[j]),
        decreases dirs.len() - d,
    {
        match check_directory_for_model(dirs[d].0, dirs[d].1.as_slice()) {
            Some(i) => {
                return Some((d, i));
            },
            None => {},
        }
        d += 1;
    }
    None
}

} // verus!
