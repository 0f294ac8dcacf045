//! Automatic model selection.
//!
//! All candidate models are open-weight releases with permissive licenses that
//! are safe for a commercial product used inside a small company (no royalty,
//! no per-seat fee, no "source-available but non-commercial" traps):
//!
//! - `bge-m3` (BAAI), MIT license: multilingual (Chinese and English) embeddings.
//! - `qwen2.5:*` (Alibaba), Apache License 2.0 for the sizes used here.
//! - `llama3.1:*`, `llama3.2:*` (Meta), Meta Llama Community License: free for
//!   commercial use below 700M monthly active users; attribution required.
use vstd::prelude::*;
use crate::hardware::{capability_tier, CapabilityTier, HardwareInfo};
use crate::hardware;
use crate::text;
use crate::text::{append_str, owned, string_from_chars};

verus! {

/// A model to pull and run.
pub struct ModelSpec {
    /// The exact tag passed to `ollama pull` / `ollama run`.
    pub tag: String,
    /// Name shown to the user.
    pub display_name: String,
    /// The model's license.
    pub license: String,
    /// Approximate download size, in tenths of a GB.
    pub approx_download_tenths_gb: u32,
}

/// The models chosen for a machine.
pub struct ModelChoice {
    /// The embedding model.
    pub embedding: ModelSpec,
    /// The chat model.
    pub chat: ModelSpec,
    /// Vector dimension produced by the embedding model, needed when creating
    /// the vector table.
    pub embedding_dim: i32,
    /// `low`, `mid` or `high`.
    pub tier: String,
    /// Why these models were chosen, for the user.
    pub reason: String,
}

/// A model's description as character sequences: tag, display name, license
/// and download size in tenths of a GB.
pub open spec fn spec_model(m: ModelSpec) -> (Seq<char>, Seq<char>, Seq<char>, u32) {
    (m.tag@, m.display_name@, m.license@, m.approx_download_tenths_gb)
}

/// The embedding model: BAAI bge-m3 (MIT).
pub open spec fn spec_bge_m3() -> (Seq<char>, Seq<char>, Seq<char>, u32) {
    ("bge-m3"@, "BAAI bge-m3 (向量模型)"@, "MIT"@, 12)
}

/// The license text of the Qwen models.
pub open spec fn qwen_license() -> Seq<char> {
    "Apache-2.0"@
}

/// The license text of the Llama models.
pub open spec fn llama_license() -> Seq<char> {
    "Llama 3 Community License (免费商用，<7亿月活用户)"@
}

/// The chat model for a tier and locale: Qwen2.5 for Chinese (1.5B, 7B, 14B
/// by tier), Llama otherwise (3.2 3B for low, 3.1 8B for mid and high).
pub open spec fn spec_chat_model(tier: CapabilityTier, chinese: bool) -> (
    Seq<char>,
    Seq<char>,
    Seq<char>,
    u32,
) {
    match (tier, chinese) {
        (CapabilityTier::Low, true) => ("qwen2.5:1.5b"@, "Qwen2.5 1.5B Instruct"@, qwen_license(), 10),
        (CapabilityTier::Low, false) => ("llama3.2:3b"@, "Llama 3.2 3B Instruct"@, llama_license(), 20),
        (CapabilityTier::Mid, true) => ("qwen2.5:7b"@, "Qwen2.5 7B Instruct"@, qwen_license(), 47),
        (CapabilityTier::Mid, false) => ("llama3.1:8b"@, "Llama 3.1 8B Instruct"@, llama_license(), 47),
        (CapabilityTier::High, true) => ("qwen2.5:14b"@, "Qwen2.5 14B Instruct"@, qwen_license(), 90),
        (CapabilityTier::High, false) => ("llama3.1:8b"@, "Llama 3.1 8B Instruct"@, llama_license(), 47),
    }
}

/// The label of a tier.
pub open spec fn spec_tier_label(tier: CapabilityTier) -> Seq<char> {
    match tier {
        CapabilityTier::Low => "low"@,
        CapabilityTier::Mid => "mid"@,
        CapabilityTier::High => "high"@,
    }
}

/// A memory size in whole GiB, rounded to the nearest, a half to the even
/// neighbour: the memory as the explanation gives it.
pub open spec fn memory_gib_rounded(bytes: nat) -> nat {
    let q = bytes / (hardware::GIB as nat);
    let r = bytes % (hardware::GIB as nat);
    if 2 * r > hardware::GIB || (2 * r == hardware::GIB && q % 2 == 1) {
        q + 1
    } else {
        q
    }
}

/// The explanation shown for a choice: the memory size (in GB, as
/// [`memory_gib_rounded`] gives it, in decimal), whether a usable GPU was found, whether the system
/// language is Chinese, and the tier.
pub open spec fn spec_reason(memory_gb: Seq<char>, gpu: bool, chinese: bool, label: Seq<char>) -> Seq<char> {
    "检测到内存约 "@ + memory_gb + "GB，"@ + (if gpu {
        "具备可用"@
    } else {
        "未检测到独立"@
    }) + "GPU，系统语言"@ + (if chinese {
        ""@
    } else {
        "不"@
    }) + "为中文 → 选择 "@ + label + " 档模型"@
}

/// A model description from its parts.
fn model(tag: &str, display: &str, license: &str, tenths_gb: u32) -> (r: ModelSpec)
    ensures
        spec_model(r) == (tag@, display@, license@, tenths_gb),
{
    ModelSpec {
        tag: owned(tag),
        display_name: owned(display),
        license: owned(license),
        approx_download_tenths_gb: tenths_gb,
    }
}

/// The embedding model.
fn bge_m3() -> (r: ModelSpec)
    ensures
        spec_model(r) == spec_bge_m3(),
{
    model("bge-m3", "BAAI bge-m3 (向量模型)", "MIT", 12)
}

/// A Qwen chat model.
fn qwen(tag: &str, display: &str, tenths_gb: u32) -> (r: ModelSpec)
    ensures
        spec_model(r) == (tag@, display@, qwen_license(), tenths_gb),
{
    model(tag, display, "Apache-2.0", tenths_gb)
}

/// A Llama chat model.
fn llama(tag: &str, display: &str, tenths_gb: u32) -> (r: ModelSpec)
    ensures
        spec_model(r) == (tag@, display@, llama_license(), tenths_gb),
{
    model(tag, display, "Llama 3 Community License (免费商用，<7亿月活用户)", tenths_gb)
}

/// Picks the models for a machine: always bge-m3 (1024-dimensional vectors)
/// for embeddings, and a chat model by capability tier and locale (see
/// [`spec_chat_model`]), with the explanation of [`spec_reason`].
pub fn select_models(hw: &HardwareInfo) -> (r: ModelChoice)
    ensures
        spec_model(r.embedding) == spec_bge_m3(),
        r.embedding_dim == 1024,
        spec_model(r.chat) == spec_chat_model(
            hardware::spec_capability_tier(hw.total_memory_bytes, hw.has_capable_gpu),
            hw.is_chinese_locale,
        ),
        r.tier@ == spec_tier_label(
            hardware::spec_capability_tier(hw.total_memory_bytes, hw.has_capable_gpu),
        ),
        r.reason@ == spec_reason(
            text::decimal(memory_gib_rounded(hw.total_memory_bytes as nat)),
            hw.has_capable_gpu,
            hw.is_chinese_locale,
            r.tier@,
        ),
{
    let tier = capability_tier(hw);
    let embedding = bge_m3();
    let embedding_dim: i32 = 1024;
    let (chat, tier_label) = match (tier, hw.is_chinese_locale) {
        (CapabilityTier::Low, true) => (qwen("qwen2.5:1.5b", "Qwen2.5 1.5B Instruct", 10), "low"),
        (CapabilityTier::Low, false) => (llama("llama3.2:3b", "Llama 3.2 3B Instruct", 20), "low"),
        (CapabilityTier::Mid, true) => (qwen("qwen2.5:7b", "Qwen2.5 7B Instruct", 47), "mid"),
        (CapabilityTier::Mid, false) => (llama("llama3.1:8b", "Llama 3.1 8B Instruct", 47), "mid"),
        (CapabilityTier::High, true) => (qwen("qwen2.5:14b", "Qwen2.5 14B Instruct", 90), "high"),
        (CapabilityTier::High, false) => (llama("llama3.1:8b", "Llama 3.1 8B Instruct", 47), "high"),
    };
    let q = hw.total_memory_bytes / hardware::GIB;
    let rem = hw.total_memory_bytes % hardware::GIB;
    let gib = if rem > hardware::GIB - rem || (rem == hardware::GIB - rem && q % 2 == 1) {
        q + 1
    } else {
        q
    };
    let mut digits: Vec<char> = Vec::new();
    text::push_decimal(&mut digits, gib);
    let mut reason = owned("检测到内存约 ");
    append_str(&mut reason, string_from_chars(&digits).as_str());
    append_str(&mut reason, "GB，");
    append_str(&mut reason, if hw.has_capable_gpu { "具备可用" } else { "未检测到独立" });
    append_str(&mut reason, "GPU，系统语言");
    append_str(&mut reason, if hw.is_chinese_locale { "" } else { "不" });
    append_str(&mut reason, "为中文 → 选择 ");
    append_str(&mut reason, tier_label);
    append_str(&mut reason, " 档模型");
    ModelChoice { embedding, chat, embedding_dim, tier: owned(tier_label), reason }
}

/// A Chinese locale is always given a Qwen model (Apache-2.0) and any other
/// locale a Llama model (Llama community license), whatever the tier; a
/// better tier never gives a smaller download.
pub proof fn lemma_chat_model_by_locale(tier: CapabilityTier, chinese: bool)
    ensures
        chinese ==> spec_chat_model(tier, chinese).2 == qwen_license(),
        !chinese ==> spec_chat_model(tier, chinese).2 == llama_license(),
        hardware::tier_rank(tier) < 2 ==> spec_chat_model(tier, chinese).3 <= spec_chat_model(
            if hardware::tier_rank(tier) == 0 {
                CapabilityTier::Mid
            } else {
                CapabilityTier::High
            },
            chinese,
        ).3,
{
}

} // verus!
