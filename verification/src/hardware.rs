//! Best-effort detection of the machine's capability and locale, used to pick
//! a sensible default embedding model and chat model on first run.
use vstd::prelude::*;
use crate::text;
use crate::text::{chars_of, eq_chars, starts_with_chars, contains_chars, to_lowercase, trim_chars, string_from_chars};

verus! {

/// Bytes in one GiB.
pub const GIB: u64 = 1073741824;

/// Coarse capability tier used to pick model sizes. Kept intentionally simple
/// (memory-driven) because on Apple Silicon the GPU and CPU share unified
/// memory, which is the dominant case.
#[derive(Debug, Clone, Copy, PartialEq, Eq, Structural)]
pub enum CapabilityTier {
    Low,
    Mid,
    High,
}

/// What was learned of the machine.
pub struct HardwareInfo {
    /// Installed memory in bytes.
    pub total_memory_bytes: u64,
    /// Brand of the first CPU, or `unknown`.
    pub cpu_brand: String,
    /// Number of CPUs, at least 1.
    pub cpu_cores: usize,
    /// Whether this is an Apple Silicon Mac.
    pub is_apple_silicon: bool,
    /// Whether a usable GPU was positively confirmed (Apple Silicon's
    /// integrated GPU always counts; on Intel Macs this is best-effort).
    pub has_capable_gpu: bool,
    /// Whether the user's locale is Chinese.
    pub is_chinese_locale: bool,
}

/// The tier for a machine with `mem` bytes of memory: high with at least 32 GiB
/// and a capable GPU, mid with at least 16 GiB, low otherwise.
pub open spec fn spec_capability_tier(mem: u64, gpu: bool) -> CapabilityTier {
    if mem >= 32 * GIB && gpu {
        CapabilityTier::High
    } else if mem >= 16 * GIB {
        CapabilityTier::Mid
    } else {
        CapabilityTier::Low
    }
}

/// The tier thresholds: high exactly with at least 32 GiB (32 * 2^30 bytes)
/// and a capable GPU; low exactly below 16 GiB; mid otherwise, so a machine
/// with at least 16 and under 32 GiB is mid whatever its GPU.
pub proof fn lemma_tier_thresholds(mem: u64, gpu: bool)
    ensures
        spec_capability_tier(mem, gpu) == CapabilityTier::High <==> (mem >= 34359738368 && gpu),
        spec_capability_tier(mem, gpu) == CapabilityTier::Low <==> mem < 17179869184,
        spec_capability_tier(mem, gpu) == CapabilityTier::Mid <==> (mem >= 17179869184 && !(mem
            >= 34359738368 && gpu)),
        17179869184 <= mem < 34359738368 ==> spec_capability_tier(mem, gpu) == CapabilityTier::Mid,
{
}

/// The tier of a machine.
pub fn capability_tier(hw: &HardwareInfo) -> (r: CapabilityTier)
    ensures
        r == spec_capability_tier(hw.total_memory_bytes, hw.has_capable_gpu),
{
    if hw.total_memory_bytes >= 32 * GIB && hw.has_capable_gpu {
        CapabilityTier::High
    } else if hw.total_memory_bytes >= 16 * GIB {
        CapabilityTier::Mid
    } else {
        CapabilityTier::Low
    }
}

/// The rank of a tier: low 0, mid 1, high 2.
pub open spec fn tier_rank(t: CapabilityTier) -> int {
    match t {
        CapabilityTier::Low => 0,
        CapabilityTier::Mid => 1,
        CapabilityTier::High => 2,
    }
}

/// More memory, or a capable GPU, never lowers the tier.
pub proof fn lemma_tier_monotone(mem1: u64, mem2: u64, gpu1: bool, gpu2: bool)
    requires
        mem1 <= mem2,
        gpu1 ==> gpu2,
    ensures
        tier_rank(spec_capability_tier(mem1, gpu1)) <= tier_rank(spec_capability_tier(mem2, gpu2)),
{
}

/// The machine is an Apple Silicon Mac: the operating system is `macos` and
/// the architecture `aarch64`.
pub open spec fn spec_is_apple_silicon(os: Seq<char>, arch: Seq<char>) -> bool {
    os == seq!['m', 'a', 'c', 'o', 's'] && arch == seq!['a', 'a', 'r', 'c', 'h', '6', '4']
}

/// Whether the operating system `os` and architecture `arch` (as
/// `std::env::consts` names them) are those of an Apple Silicon Mac.
pub fn detect_apple_silicon(os: &str, arch: &str) -> (r: bool)
    ensures
        r == spec_is_apple_silicon(os@, arch@),
{
    let macos = vec!['m', 'a', 'c', 'o', 's'];
    let aarch64 = vec!['a', 'a', 'r', 'c', 'h', '6', '4'];
    proof {
        assert(macos@ =~= seq!['m', 'a', 'c', 'o', 's']);
        assert(aarch64@ =~= seq!['a', 'a', 'r', 'c', 'h', '6', '4']);
    }
    eq_chars(&chars_of(os), &macos) && eq_chars(&chars_of(arch), &aarch64)
}

/// Whether lowercase text names a discrete GPU: `amd radeon`, `nvidia` or
/// `vram` (the keywords of AMD and NVIDIA GPUs on Intel Macs).
pub open spec fn names_discrete_gpu(low: Seq<char>) -> bool {
    text::contains_seq(low, seq!['a', 'm', 'd', ' ', 'r', 'a', 'd', 'e', 'o', 'n'])
        || text::contains_seq(low, seq!['n', 'v', 'i', 'd', 'i', 'a'])
        || text::contains_seq(low, seq!['v', 'r', 'a', 'm'])
}

/// Whether a display report (`system_profiler SPDisplaysDataType`), once
/// lowercased, names a discrete GPU.
pub open spec fn spec_mentions_discrete_gpu(report: Seq<char>) -> bool {
    names_discrete_gpu(text::lowercase(report))
}

/// Whether lowercase text names a discrete GPU (see [`names_discrete_gpu`]).
pub fn lowercase_names_discrete_gpu(low: &str) -> (r: bool)
    ensures
        r == names_discrete_gpu(low@),
{
    let low = chars_of(low);
    let amd = vec!['a', 'm', 'd', ' ', 'r', 'a', 'd', 'e', 'o', 'n'];
    let nvidia = vec!['n', 'v', 'i', 'd', 'i', 'a'];
    let vram = vec!['v', 'r', 'a', 'm'];
    proof {
        assert(amd@ =~= seq!['a', 'm', 'd', ' ', 'r', 'a', 'd', 'e', 'o', 'n']);
        assert(nvidia@ =~= seq!['n', 'v', 'i', 'd', 'i', 'a']);
        assert(vram@ =~= seq!['v', 'r', 'a', 'm']);
    }
    contains_chars(&low, &amd) || contains_chars(&low, &nvidia) || contains_chars(&low, &vram)
}

/// Whether the display report mentions a discrete GPU (see
/// [`spec_mentions_discrete_gpu`]); `None`, a report that could not be
/// produced, mentions none.
pub fn detect_intel_discrete_gpu(report: &Option<String>) -> (r: bool)
    ensures
        r == match report {
            Some(s) => spec_mentions_discrete_gpu(s@),
            None => false,
        },
{
    match report {
        Some(s) => lowercase_names_discrete_gpu(to_lowercase(s.as_str()).as_str()),
        None => false,
    }
}

/// What the caller read of the locale settings: the output of
/// `defaults read -g AppleLocale` (`None` if the command could not run) and the
/// values of `LC_ALL`, `LANG` and `LANGUAGE` (`None` when unset or not Unicode).
pub struct LocaleProbe {
    /// Standard output of `defaults read -g AppleLocale`.
    pub apple_locale: Option<String>,
    /// The value of `LC_ALL`.
    pub lc_all: Option<String>,
    /// The value of `LANG`.
    pub lang: Option<String>,
    /// The value of `LANGUAGE`.
    pub language: Option<String>,
}

/// Whether a setting, lowercased, starts with `zh`.
pub open spec fn is_zh(s: Seq<char>) -> bool {
    starts_zh(text::lowercase(s))
}

/// Whether text starts with `zh`.
pub open spec fn starts_zh(low: Seq<char>) -> bool {
    text::has_prefix(low, seq!['z', 'h'])
}

/// Whether already lowercased locale text starts with `zh`.
pub fn lowercase_starts_zh(low: &str) -> (r: bool)
    ensures
        r == starts_zh(low@),
{
    let zh = vec!['z', 'h'];
    proof {
        assert(zh@ =~= seq!['z', 'h']);
    }
    starts_with_chars(&chars_of(low), &zh)
}

/// Whether an optional environment value is a Chinese locale.
pub open spec fn env_is_zh(v: Option<String>) -> bool {
    match v {
        Some(s) => is_zh(s@),
        None => false,
    }
}

/// The locale is Chinese: the macOS global locale preference decides when it
/// is set (trimmed and lowercased, it starts with `zh`); otherwise any of
/// `LC_ALL`, `LANG`, `LANGUAGE` that starts with `zh` when lowercased.
pub open spec fn spec_chinese_locale(p: LocaleProbe) -> bool {
    match p.apple_locale {
        Some(out) if text::lowercase(text::trim(out@)).len() > 0 => text::has_prefix(
            text::lowercase(text::trim(out@)),
            seq!['z', 'h'],
        ),
        _ => env_is_zh(p.lc_all) || env_is_zh(p.lang) || env_is_zh(p.language),
    }
}

/// Whether an optional setting, lowercased, begins with `zh`.
pub open spec fn setting_begins_zh(v: Option<String>) -> bool {
    v is Some && text::has_prefix(text::lowercase(v->0@), seq!['z', 'h'])
}

/// Without a macOS locale preference (absent, or blank once trimmed), the
/// locale is Chinese exactly when `LC_ALL`, `LANG` or `LANGUAGE`, lowercased,
/// begins with `zh`; with one, that preference alone decides.
pub proof fn lemma_locale_sources(p: LocaleProbe)
    ensures
        (p.apple_locale is None || text::lowercase(text::trim(p.apple_locale->0@)).len() == 0)
            ==> (spec_chinese_locale(p) <==> (setting_begins_zh(p.lc_all) || setting_begins_zh(
            p.lang,
        ) || setting_begins_zh(p.language))),
        (p.apple_locale is Some && text::lowercase(text::trim(p.apple_locale->0@)).len() > 0)
            ==> (spec_chinese_locale(p) <==> text::has_prefix(
            text::lowercase(text::trim(p.apple_locale->0@)),
            seq!['z', 'h'],
        )),
{
}

/// Whether `s`, lowercased, starts with `zh`.
fn starts_with_zh(s: &str) -> (r: bool)
    ensures
        r == is_zh(s@),
{
    lowercase_starts_zh(to_lowercase(s).as_str())
}

/// Whether an optional environment value is a Chinese locale.
fn env_value_is_zh(v: &Option<String>) -> (r: bool)
    ensures
        r == env_is_zh(*v),
{
    match v {
        Some(s) => starts_with_zh(s.as_str()),
        None => false,
    }
}

/// Whether the locale is Chinese (see [`spec_chinese_locale`]).
pub fn detect_chinese_locale(p: &LocaleProbe) -> (r: bool)
    ensures
        r == spec_chinese_locale(*p),
{
    if let Some(out) = &p.apple_locale {
        let trimmed = string_from_chars(&trim_chars(&chars_of(out.as_str())));
        let locale = to_lowercase(trimmed.as_str());
        if locale.as_str().unicode_len() > 0 {
            return lowercase_starts_zh(locale.as_str());
        }
    }
    env_value_is_zh(&p.lc_all) || env_value_is_zh(&p.lang) || env_value_is_zh(&p.language)
}

/// What the caller read of the platform: the operating system and
/// architecture names of `std::env::consts`, the display report (read only
/// when the machine is not Apple Silicon; `None` if not read or the command
/// failed) and the locale settings.
pub struct PlatformProbe {
    /// `std::env::consts::OS`.
    pub os: String,
    /// `std::env::consts::ARCH`.
    pub arch: String,
    /// Standard output of `system_profiler SPDisplaysDataType`.
    pub gpu_report: Option<String>,
    /// The locale settings.
    pub locale: LocaleProbe,
}

/// The facts of the machine that follow from the probe alone.
pub open spec fn probe_facts_hold(r: HardwareInfo, p: PlatformProbe) -> bool {
    &&& r.is_apple_silicon == spec_is_apple_silicon(p.os@, p.arch@)
    &&& r.has_capable_gpu == (r.is_apple_silicon || match p.gpu_report {
        Some(s) => spec_mentions_discrete_gpu(s@),
        None => false,
    })
    &&& r.is_chinese_locale == spec_chinese_locale(p.locale)
}

/// The brand shown for a machine: that of the first CPU, or `unknown`.
pub open spec fn spec_cpu_brand(brands: Seq<Seq<char>>) -> Seq<char> {
    if brands.len() > 0 {
        brands[0]
    } else {
        seq!['u', 'n', 'k', 'n', 'o', 'w', 'n']
    }
}

/// The number of CPUs shown for a machine: the count, at least 1.
pub open spec fn spec_cpu_cores(count: nat) -> nat {
    if count >= 1 {
        count
    } else {
        1
    }
}

/// The hardware description from the memory size and CPU brands that were
/// read, and the platform probe.
pub fn hardware_info_from(
    total_memory_bytes: u64,
    cpu_brands: &Vec<String>,
    probe: &PlatformProbe,
) -> (r: HardwareInfo)
    ensures
        r.total_memory_bytes == total_memory_bytes,
        r.cpu_brand@ == spec_cpu_brand(text::strings(cpu_brands@)),
        r.cpu_cores == spec_cpu_cores(cpu_brands.len() as nat),
        probe_facts_hold(r, *probe),
{
    let cpu_brand = if cpu_brands.len() > 0 {
        cpu_brands[0].clone()
    } else {
        let u = vec!['u', 'n', 'k', 'n', 'o', 'w', 'n'];
        proof {
            assert(u@ =~= seq!['u', 'n', 'k', 'n', 'o', 'w', 'n']);
        }
        string_from_chars(&u)
    };
    let cpu_cores = if cpu_brands.len() >= 1 {
        cpu_brands.len()
    } else {
        1
    };
    let is_apple_silicon = detect_apple_silicon(probe.os.as_str(), probe.arch.as_str());
    let has_capable_gpu = is_apple_silicon || detect_intel_discrete_gpu(&probe.gpu_report);
    let is_chinese_locale = detect_chinese_locale(&probe.locale);
    HardwareInfo {
        total_memory_bytes,
        cpu_brand,
        cpu_cores,
        is_apple_silicon,
        has_capable_gpu,
        is_chinese_locale,
    }
}

/// The `sysinfo` view of the machine.
#[verifier::external_type_specification]
#[verifier::external_body]
pub struct ExSystem(sysinfo::System);

/// Trusted: `sysinfo::System::new_all`, with its error told apart as `None`.
/// What it reads depends on the machine; nothing is stated of it.
#[verifier::external_body]
fn system_new_all() -> Option<sysinfo::System> {
    sysinfo::System::new_all().ok()
}

/// Trusted: `sysinfo::System::refresh_all`; it re-reads the machine, so
/// nothing is stated of the result.
#[verifier::external_body]
fn system_refresh_all(sys: &mut sysinfo::System) {
    sys.refresh_all()
}

/// Trusted: `sysinfo::System::total_memory`, the memory size in bytes as read
/// from the machine; nothing is stated of its value.
#[verifier::external_body]
fn system_total_memory(sys: &sysinfo::System) -> u64 {
    sys.total_memory()
}

/// One CPU as `sysinfo` describes it.
#[verifier::external_type_specification]
#[verifier::external_body]
pub struct ExCpu(sysinfo::Cpu);

/// Trusted: `sysinfo::System::cpus`, the CPUs read from the machine; nothing
/// is stated of them.
#[verifier::external_body]
fn system_cpus(sys: &sysinfo::System) -> &[sysinfo::Cpu] {
    sys.cpus()
}

/// Trusted: `sysinfo::Cpu::brand`, as an owned string; it is read from the
/// machine, so nothing is stated of it.
#[verifier::external_body]
fn cpu_brand(cpu: &sysinfo::Cpu) -> String {
    cpu.brand().to_string()
}

/// The brands of the given CPUs, in order: one brand for each CPU.
fn system_cpu_brands(cpus: &[sysinfo::Cpu]) -> (r: Vec<String>)
    ensures
        r@.len() == cpus@.len(),
{
    let mut brands: Vec<String> = Vec::new();
    let mut i: usize = 0;
    while i < cpus.len()
        invariant
            i <= cpus@.len(),
            brands@.len() == i,
        decreases cpus@.len() - i,
    {
        brands.push(cpu_brand(&cpus[i]));
        i = i + 1;
    }
    brands
}

/// Reads the machine's memory size and CPUs (none when the system information
/// cannot be read) and describes the hardware with the platform probe. The
/// memory size and CPU brand are whatever the machine reports; the other
/// facts follow from the probe.
pub fn detect_hardware(probe: &PlatformProbe) -> (r: HardwareInfo)
    ensures
        r.cpu_cores >= 1,
        probe_facts_hold(r, *probe),
{
    match system_new_all() {
        Some(mut sys) => {
            system_refresh_all(&mut sys);
            let mem = system_total_memory(&sys);
            let brands = system_cpu_brands(system_cpus(&sys));
            hardware_info_from(mem, &brands, probe)
        },
        None => {
            let brands: Vec<String> = Vec::new();
            hardware_info_from(0, &brands, probe)
        },
    }
}

} // verus!
