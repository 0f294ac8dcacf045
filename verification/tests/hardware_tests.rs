use local_rag_app::hardware::{lowercase_names_discrete_gpu, lowercase_starts_zh};
use local_rag_app::hardware::{
    capability_tier, detect_apple_silicon, detect_chinese_locale, detect_hardware,
    detect_intel_discrete_gpu, hardware_info_from, CapabilityTier, HardwareInfo, LocaleProbe,
    PlatformProbe, GIB,
};

fn hw(mem: u64, gpu: bool) -> HardwareInfo {
    HardwareInfo {
        total_memory_bytes: mem,
        cpu_brand: "test".to_string(),
        cpu_cores: 8,
        is_apple_silicon: gpu,
        has_capable_gpu: gpu,
        is_chinese_locale: false,
    }
}

fn no_locale() -> LocaleProbe {
    LocaleProbe { apple_locale: None, lc_all: None, lang: None, language: None }
}

#[test]
fn tiers_by_memory_and_gpu() {
    assert_eq!(capability_tier(&hw(8 * GIB, true)), CapabilityTier::Low);
    assert_eq!(capability_tier(&hw(16 * GIB - 1, true)), CapabilityTier::Low);
    assert_eq!(capability_tier(&hw(16 * GIB, false)), CapabilityTier::Mid);
    assert_eq!(capability_tier(&hw(32 * GIB, false)), CapabilityTier::Mid);
    assert_eq!(capability_tier(&hw(32 * GIB, true)), CapabilityTier::High);
    assert_eq!(capability_tier(&hw(64 * GIB, true)), CapabilityTier::High);
}

#[test]
fn more_memory_never_lowers_the_tier() {
    let rank = |t: CapabilityTier| match t {
        CapabilityTier::Low => 0,
        CapabilityTier::Mid => 1,
        CapabilityTier::High => 2,
    };
    let mut prev = 0;
    for gb in 0..80u64 {
        let r = rank(capability_tier(&hw(gb * GIB, true)));
        assert!(r >= prev);
        prev = r;
    }
}

#[test]
fn apple_silicon_needs_macos_and_aarch64() {
    assert!(detect_apple_silicon("macos", "aarch64"));
    assert!(!detect_apple_silicon("macos", "x86_64"));
    assert!(!detect_apple_silicon("linux", "aarch64"));
}

#[test]
fn discrete_gpu_keywords() {
    assert!(detect_intel_discrete_gpu(&Some("Chipset Model: AMD Radeon Pro 5500M".to_string())));
    assert!(detect_intel_discrete_gpu(&Some("NVIDIA GeForce GT 750M".to_string())));
    assert!(detect_intel_discrete_gpu(&Some("VRAM (Total): 4 GB".to_string())));
    assert!(!detect_intel_discrete_gpu(&Some("Chipset Model: Intel UHD Graphics 630".to_string())));
    assert!(!detect_intel_discrete_gpu(&None));
}

#[test]
fn locale_preference_decides_when_set() {
    let p = LocaleProbe { apple_locale: Some("zh_CN\n".to_string()), ..no_locale() };
    assert!(detect_chinese_locale(&p));
    let p = LocaleProbe {
        apple_locale: Some("en_US\n".to_string()),
        lang: Some("zh_CN.UTF-8".to_string()),
        ..no_locale()
    };
    assert!(!detect_chinese_locale(&p));
}

#[test]
fn environment_decides_without_preference() {
    let p = LocaleProbe { apple_locale: Some("  \n".to_string()), lang: Some("zh_CN.UTF-8".to_string()), ..no_locale() };
    assert!(detect_chinese_locale(&p));
    let p = LocaleProbe { language: Some("ZH".to_string()), ..no_locale() };
    assert!(detect_chinese_locale(&p));
    let p = LocaleProbe { lc_all: Some("en_GB.UTF-8".to_string()), lang: Some("C".to_string()), ..no_locale() };
    assert!(!detect_chinese_locale(&p));
    assert!(!detect_chinese_locale(&no_locale()));
}

#[test]
fn hardware_from_probe() {
    let probe = PlatformProbe {
        os: "macos".to_string(),
        arch: "aarch64".to_string(),
        gpu_report: None,
        locale: LocaleProbe { apple_locale: Some("zh-Hans_CN".to_string()), ..no_locale() },
    };
    let info = hardware_info_from(16 * GIB, &vec!["Apple M2".to_string(), "Apple M2".to_string()], &probe);
    assert_eq!(info.cpu_brand, "Apple M2");
    assert_eq!(info.cpu_cores, 2);
    assert!(info.is_apple_silicon && info.has_capable_gpu && info.is_chinese_locale);
    let none = hardware_info_from(0, &vec![], &probe);
    assert_eq!(none.cpu_brand, "unknown");
    assert_eq!(none.cpu_cores, 1);
}

#[test]
fn detect_hardware_on_this_machine() {
    let probe = PlatformProbe {
        os: "linux".to_string(),
        arch: "x86_64".to_string(),
        gpu_report: Some("nothing here".to_string()),
        locale: no_locale(),
    };
    let info = detect_hardware(&probe);
    assert!(info.cpu_cores >= 1);
    assert!(!info.is_apple_silicon);
    assert!(!info.has_capable_gpu);
    assert!(!info.is_chinese_locale);
}

#[test]
fn lowercase_keyword_checks() {
    assert!(lowercase_names_discrete_gpu("chipset model: amd radeon pro"));
    assert!(!lowercase_names_discrete_gpu("chipset model: AMD Radeon Pro"));
    assert!(lowercase_starts_zh("zh_cn"));
    assert!(!lowercase_starts_zh("ZH_CN"));
    assert!(!lowercase_starts_zh("z"));
}
