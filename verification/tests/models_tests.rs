use local_rag_app::hardware::{HardwareInfo, GIB};
use local_rag_app::models::select_models;

fn hw(mem_gb: u64, gpu: bool, zh: bool) -> HardwareInfo {
    HardwareInfo {
        total_memory_bytes: mem_gb * GIB,
        cpu_brand: "cpu".to_string(),
        cpu_cores: 4,
        is_apple_silicon: gpu,
        has_capable_gpu: gpu,
        is_chinese_locale: zh,
    }
}

#[test]
fn embedding_model_is_always_bge_m3() {
    for (gb, gpu, zh) in [(8, false, true), (24, true, false), (64, true, true)] {
        let c = select_models(&hw(gb, gpu, zh));
        assert_eq!(c.embedding.tag, "bge-m3");
        assert_eq!(c.embedding.license, "MIT");
        assert_eq!(c.embedding.approx_download_tenths_gb, 12);
        assert_eq!(c.embedding_dim, 1024);
    }
}

#[test]
fn chat_model_table() {
    let cases = [
        (8, true, true, "qwen2.5:1.5b", "low"),
        (8, true, false, "llama3.2:3b", "low"),
        (16, false, true, "qwen2.5:7b", "mid"),
        (16, false, false, "llama3.1:8b", "mid"),
        (32, false, true, "qwen2.5:7b", "mid"),
        (32, true, true, "qwen2.5:14b", "high"),
        (32, true, false, "llama3.1:8b", "high"),
    ];
    for (gb, gpu, zh, tag, tier) in cases {
        let c = select_models(&hw(gb, gpu, zh));
        assert_eq!(c.chat.tag, tag, "{gb} {gpu} {zh}");
        assert_eq!(c.tier, tier);
        if zh {
            assert_eq!(c.chat.license, "Apache-2.0");
        } else {
            assert_eq!(c.chat.license, "Llama 3 Community License (免费商用，<7亿月活用户)");
        }
    }
}

#[test]
fn reason_text() {
    let c = select_models(&hw(36, true, true));
    assert_eq!(c.reason, "检测到内存约 36GB，具备可用GPU，系统语言为中文 → 选择 high 档模型");
    let c = select_models(&hw(8, false, false));
    assert_eq!(c.reason, "检测到内存约 8GB，未检测到独立GPU，系统语言不为中文 → 选择 low 档模型");
}

#[test]
fn download_sizes_in_tenths() {
    let c = select_models(&hw(32, true, true));
    assert_eq!(c.chat.approx_download_tenths_gb, 90);
    assert_eq!(c.chat.display_name, "Qwen2.5 14B Instruct");
}

fn hw_bytes(bytes: u64) -> HardwareInfo {
    HardwareInfo { total_memory_bytes: bytes, ..hw(0, false, true) }
}

#[test]
fn reason_rounds_memory_to_whole_gb() {
    let half = GIB / 2;
    let cases = [
        (16 * GIB - 1, "16"),
        (15 * GIB + half - 1, "15"),
        (15 * GIB + half, "16"),
        (16 * GIB + half, "16"),
        (16 * GIB + half + 1, "17"),
        (0, "0"),
        (half, "0"),
    ];
    for (bytes, shown) in cases {
        let c = select_models(&hw_bytes(bytes));
        assert!(c.reason.starts_with(&format!("检测到内存约 {shown}GB，")), "{bytes}: {}", c.reason);
        assert_eq!(format!("{:.0}", bytes as f64 / GIB as f64), shown);
    }
}
