//! What the machine offers: processor and graphics adapters.

use crate::compute::select::CpuFeatures;
use crate::float_bits::{as_double, nearest, nearest_to, to_double};
use crate::text::{
    chars_of, concatenated, decimal, decimal_text_u64, matches_at, occurs_at, same_text, string_of,
    trim, trimmed, views,
};
use vstd::prelude::*;
use vstd::string::*;

verus! {

/// What kind of device a graphics adapter is.
#[derive(Debug, Clone, Copy, PartialEq, Eq, Structural)]
pub enum GpuDeviceType {
    Discrete,
    Integrated,
    Virtual,
    Software,
    Other,
}

impl GpuDeviceType {
    /// The name of a device type.
    pub open spec fn spec_label(&self) -> Seq<char> {
        match *self {
            GpuDeviceType::Discrete => "discrete"@,
            GpuDeviceType::Integrated => "integrated"@,
            GpuDeviceType::Virtual => "virtual"@,
            GpuDeviceType::Software => "software"@,
            GpuDeviceType::Other => "other"@,
        }
    }

    /// The name of a device type.
    pub fn label(&self) -> (s: &str)
        ensures
            s@ == self.spec_label(),
    {
        match *self {
            GpuDeviceType::Discrete => "discrete",
            GpuDeviceType::Integrated => "integrated",
            GpuDeviceType::Virtual => "virtual",
            GpuDeviceType::Software => "software",
            GpuDeviceType::Other => "other",
        }
    }
}

/// The kind of device that a driver reports.
#[derive(Debug, Clone, Copy, PartialEq, Eq, Structural)]
pub enum AdapterKind {
    DiscreteGpu,
    IntegratedGpu,
    VirtualGpu,
    Cpu,
    Other,
}

/// The graphics interface that an adapter is reached through.
#[derive(Debug, Clone, Copy, PartialEq, Eq, Structural)]
pub enum AdapterApi {
    Vulkan,
    Dx12,
    Metal,
    Gl,
    BrowserWebGpu,
    Other,
}

/// An adapter as a driver reports it.
#[derive(Debug)]
pub struct Adapter {
    pub name: String,
    pub kind: AdapterKind,
    pub api: AdapterApi,
}

/// A graphics adapter.
#[derive(Debug)]
pub struct GpuInfo {
    /// Device name.
    pub name: String,
    /// Name of the graphics interface.
    pub backend: String,
    /// Kind of device.
    pub device_type: GpuDeviceType,
    /// Memory in bytes; zero where it is not reported.
    pub vram_bytes: u64,
}

/// What the adapter of a given kind is.
pub open spec fn type_of(kind: AdapterKind) -> GpuDeviceType {
    match kind {
        AdapterKind::DiscreteGpu => GpuDeviceType::Discrete,
        AdapterKind::IntegratedGpu => GpuDeviceType::Integrated,
        AdapterKind::VirtualGpu => GpuDeviceType::Virtual,
        AdapterKind::Cpu => GpuDeviceType::Software,
        AdapterKind::Other => GpuDeviceType::Other,
    }
}

/// The name of a graphics interface.
pub open spec fn api_name(api: AdapterApi) -> Seq<char> {
    match api {
        AdapterApi::Vulkan => "Vulkan"@,
        AdapterApi::Dx12 => "DX12"@,
        AdapterApi::Metal => "Metal"@,
        AdapterApi::Gl => "OpenGL"@,
        AdapterApi::BrowserWebGpu => "WebGPU"@,
        AdapterApi::Other => "unknown"@,
    }
}

/// Whether an adapter repeats the name of one before it.
pub open spec fn is_repeated(adapters: Seq<Adapter>, i: int) -> bool {
    exists|j: int| 0 <= j < i && (#[trigger] adapters[j]).name@ == adapters[i].name@
}

/// The positions of adapters that repeat no name, in order.
pub open spec fn first_positions(adapters: Seq<Adapter>, n: int) -> Seq<int>
    decreases n,
{
    if n <= 0 {
        Seq::empty()
    } else if is_repeated(adapters, n - 1) {
        first_positions(adapters, n - 1)
    } else {
        first_positions(adapters, n - 1).push(n - 1)
    }
}

/// `gpu` describes an adapter.
pub open spec fn describes(gpu: GpuInfo, adapter: Adapter) -> bool {
    &&& gpu.name@ == adapter.name@
    &&& gpu.backend@ == api_name(adapter.api)
    &&& gpu.device_type == type_of(adapter.kind)
    &&& gpu.vram_bytes == 0
}

/// `gpus` lists the adapters, each name once, at its first occurrence.
pub open spec fn is_listing(gpus: Seq<GpuInfo>, adapters: Seq<Adapter>, n: int) -> bool {
    let kept = first_positions(adapters, n);
    &&& gpus.len() == kept.len()
    &&& forall|k: int| 0 <= k < kept.len() ==> describes(#[trigger] gpus[k], adapters[kept[k]])
}

/// An adapter at one of the positions has a given name.
spec fn names(adapters: Seq<Adapter>, kept: Seq<int>, name: Seq<char>) -> bool {
    exists|k: int| 0 <= k < kept.len() && adapters[#[trigger] kept[k]].name@ == name
}

proof fn lemma_positions_are_before(adapters: Seq<Adapter>, n: int)
    requires
        0 <= n <= adapters.len(),
    ensures
        forall|k: int|
            0 <= k < first_positions(adapters, n).len() ==> 0 <= #[trigger] first_positions(
                adapters,
                n,
            )[k] < n,
    decreases n,
{
    if n > 0 {
        lemma_positions_are_before(adapters, n - 1);
        let before = first_positions(adapters, n - 1);
        let all = first_positions(adapters, n);
        assert forall|k: int| 0 <= k < all.len() implies 0 <= #[trigger] all[k] < n by {
            if k < before.len() {
                assert(all[k] == before[k]);
            }
        }
    }
}

proof fn lemma_names_are_kept(adapters: Seq<Adapter>, n: int, i: int)
    requires
        0 <= i < n <= adapters.len(),
    ensures
        names(adapters, first_positions(adapters, n), adapters[i].name@),
    decreases n,
{
    let before = first_positions(adapters, n - 1);
    let all = first_positions(adapters, n);
    if i == n - 1 && !is_repeated(adapters, n - 1) {
        assert(all[all.len() - 1] == n - 1);
    } else {
        let j = if i < n - 1 {
            i
        } else {
            choose|j: int| 0 <= j < n - 1 && (#[trigger] adapters[j]).name@ == adapters[i].name@
        };
        lemma_names_are_kept(adapters, n - 1, j);
        let k = choose|k: int|
            0 <= k < before.len() && adapters[#[trigger] before[k]].name@ == adapters[j].name@;
        assert(all[k] == before[k]);
    }
}

/// Every adapter's name is in the listing, and no name is there twice.
pub proof fn listing_names_every_adapter_once(
    gpus: Seq<GpuInfo>,
    adapters: Seq<Adapter>,
    i: int,
    a: int,
    b: int,
)
    requires
        is_listing(gpus, adapters, adapters.len() as int),
        0 <= i < adapters.len(),
        0 <= a < b < gpus.len(),
    ensures
        exists|k: int| 0 <= k < gpus.len() && (#[trigger] gpus[k]).name@ == adapters[i].name@,
        gpus[a].name@ != gpus[b].name@,
{
    let n = adapters.len() as int;
    let kept = first_positions(adapters, n);
    lemma_positions_are_before(adapters, n);
    lemma_names_are_kept(adapters, n, i);
    let k = choose|k: int|
        0 <= k < kept.len() && adapters[#[trigger] kept[k]].name@ == adapters[i].name@;
    assert(describes(gpus[k], adapters[kept[k]]));
    lemma_positions_rise(adapters, n, a, b);
    assert(describes(gpus[a], adapters[kept[a]]));
    assert(describes(gpus[b], adapters[kept[b]]));
    assert(0 <= kept[a]);
}

proof fn lemma_positions_rise(adapters: Seq<Adapter>, n: int, a: int, b: int)
    requires
        0 <= n <= adapters.len(),
        0 <= a < b < first_positions(adapters, n).len(),
    ensures
        first_positions(adapters, n)[a] < first_positions(adapters, n)[b],
        !is_repeated(adapters, first_positions(adapters, n)[b]),
    decreases n,
{
    if n > 0 {
        let before = first_positions(adapters, n - 1);
        lemma_positions_are_before(adapters, n - 1);
        if b < before.len() {
            lemma_positions_rise(adapters, n - 1, a, b);
        } else {
            assert(before[a] < n - 1);
        }
    }
}

/// List the adapters, each name once.
pub fn detect_gpus(adapters: &[Adapter]) -> (gpus: Vec<GpuInfo>)
    ensures
        is_listing(gpus@, adapters@, adapters@.len() as int),
{
    let mut gpus: Vec<GpuInfo> = Vec::new();
    let mut i: usize = 0;
    while i < adapters.len()
        invariant
            i <= adapters@.len(),
            is_listing(gpus@, adapters@, i as int),
        decreases adapters@.len() - i,
    {
        let adapter: &Adapter = &adapters[i];
        let mut repeated: bool = false;
        let mut k: usize = 0;
        let ghost kept = first_positions(adapters@, i as int);
        while k < gpus.len()
            invariant
                k <= gpus@.len(),
                repeated == exists|j: int|
                    0 <= j < k && (#[trigger] gpus@[j]).name@ == adapter.name@,
            decreases gpus@.len() - k,
        {
            if same_text(gpus[k].name.as_str(), adapter.name.as_str()) {
                repeated = true;
                assert(gpus@[k as int].name@ == adapter.name@);
            }
            k += 1;
        }
        proof {
            lemma_positions_are_before(adapters@, i as int);
            if is_repeated(adapters@, i as int) {
                let j = choose|j: int|
                    0 <= j < i && (#[trigger] adapters@[j]).name@ == adapters@[i as int].name@;
                lemma_names_are_kept(adapters@, i as int, j);
                let p = choose|p: int|
                    0 <= p < kept.len() && adapters@[#[trigger] kept[p]].name@
                        == adapters@[j].name@;
                assert(describes(gpus@[p], adapters@[kept[p]]));
                assert(repeated);
            }
            if repeated {
                let j = choose|j: int|
                    0 <= j < gpus@.len() && (#[trigger] gpus@[j]).name@ == adapter.name@;
                assert(describes(gpus@[j], adapters@[kept[j]]));
                assert(adapters@[kept[j]].name@ == adapters@[i as int].name@);
                assert(is_repeated(adapters@, i as int));
            }
        }
        if !repeated {
            let device_type: GpuDeviceType = match adapter.kind {
                AdapterKind::DiscreteGpu => GpuDeviceType::Discrete,
                AdapterKind::IntegratedGpu => GpuDeviceType::Integrated,
                AdapterKind::VirtualGpu => GpuDeviceType::Virtual,
                AdapterKind::Cpu => GpuDeviceType::Software,
                AdapterKind::Other => GpuDeviceType::Other,
            };
            let backend: &str = match adapter.api {
                AdapterApi::Vulkan => "Vulkan",
                AdapterApi::Dx12 => "DX12",
                AdapterApi::Metal => "Metal",
                AdapterApi::Gl => "OpenGL",
                AdapterApi::BrowserWebGpu => "WebGPU",
                AdapterApi::Other => "unknown",
            };
            let ghost before = gpus@;
            gpus.push(
                GpuInfo {
                    name: adapter.name.clone(),
                    backend: String::from_str(backend),
                    device_type,
                    vram_bytes: 0,
                },
            );
            proof {
                let next = first_positions(adapters@, i + 1);
                assert forall|k: int| 0 <= k < next.len() implies describes(
                    #[trigger] gpus@[k],
                    adapters@[next[k]],
                ) by {
                    if k < kept.len() {
                        assert(gpus@[k] == before[k]);
                        assert(describes(before[k], adapters@[kept[k]]));
                    }
                }
            }
        }
        i += 1;
    }
    gpus
}

/// Everything known about the machine.
#[derive(Debug)]
pub struct HardwareInfo {
    /// Processor name; empty where it is unknown.
    pub cpu_name: String,
    /// Vector instructions of the processor.
    pub cpu_features: CpuFeatures,
    /// Graphics adapters.
    pub gpus: Vec<GpuInfo>,
}

impl HardwareInfo {
    /// Put together what the machine reports: where the processor's name is to
    /// be found, the vector instructions, and the adapters.
    pub fn detect(source: &NameSource, cpu_features: CpuFeatures, adapters: &[Adapter]) -> (h: Self)
        requires
            registers_fit(*source),
        ensures
            h.cpu_name@ == name_from(*source),
            h.cpu_features == cpu_features,
            is_listing(h.gpus@, adapters@, adapters@.len() as int),
    {
        let cpu_name: String = detect_cpu_name(source);
        HardwareInfo { cpu_name, cpu_features, gpus: detect_gpus(adapters) }
    }

    /// The name of the best vector instructions.
    pub open spec fn spec_cpu_compute_name(&self) -> Seq<char> {
        if self.cpu_features.avx512f {
            "AVX-512"@
        } else if self.cpu_features.avx2 {
            "AVX2"@
        } else if self.cpu_features.neon {
            "NEON"@
        } else {
            "scalar"@
        }
    }

    /// The name of the best vector instructions.
    pub fn cpu_compute_name(&self) -> (name: &str)
        ensures
            name@ == self.spec_cpu_compute_name(),
    {
        if self.cpu_features.avx512f {
            "AVX-512"
        } else if self.cpu_features.avx2 {
            "AVX2"
        } else if self.cpu_features.neon {
            "NEON"
        } else {
            "scalar"
        }
    }
}

/// Where the processor's name is to be found.
#[derive(Debug)]
pub enum NameSource {
    /// A processor description in lines, as Linux gives it.
    Description(String),
    /// The registers of the brand string, if the processor has one, and the
    /// name that the system gives otherwise.
    Registers(Option<Vec<u32>>, String),
    /// The name itself, possibly with white space around it.
    Plain(String),
    /// Nowhere.
    Unknown,
}

/// The registers of a brand string can be addressed byte by byte.
pub open spec fn registers_fit(source: NameSource) -> bool {
    source matches NameSource::Registers(Some(regs), _) ==> 4 * regs@.len() <= usize::MAX
}

/// The brand that registers spell.
pub open spec fn brand_of(regs: Seq<u32>) -> Seq<char> {
    trimmed(brand_chars(regs, 4 * regs.len() as int))
}

/// The processor's name; empty where it is unknown.
pub open spec fn name_from(source: NameSource) -> Seq<char> {
    match source {
        NameSource::Description(text) => model_name(text@, 0),
        NameSource::Registers(Some(regs), name) => if brand_of(regs@).len() > 0 {
            brand_of(regs@)
        } else {
            name@
        },
        NameSource::Registers(None, name) => name@,
        NameSource::Plain(name) => trimmed(name@),
        NameSource::Unknown => Seq::empty(),
    }
}

/// Find the processor's name.
pub fn detect_cpu_name(source: &NameSource) -> (name: String)
    requires
        registers_fit(*source),
    ensures
        name@ == name_from(*source),
{
    match source {
        NameSource::Description(text) => described_name(text.as_str()),
        NameSource::Registers(Some(regs), name) => match cpu_brand_string(regs.as_slice()) {
            Some(brand) => brand,
            None => name.clone(),
        },
        NameSource::Registers(None, name) => name.clone(),
        NameSource::Plain(name) => string_of(trim(chars_of(name.as_str()).as_slice()).as_slice()),
        NameSource::Unknown => String::new(),
    }
}

/// The position of the first `c` from `i` on, or the end.
pub open spec fn find_char(s: Seq<char>, c: char, i: int) -> int
    decreases s.len() - i,
{
    if i < s.len() && s[i] != c {
        find_char(s, c, i + 1)
    } else {
        i
    }
}

/// The part of a line between its first and second colon, or up to its end;
/// nothing without a colon.
pub open spec fn second_field(line: Seq<char>) -> Option<Seq<char>> {
    let colon = find_char(line, ':', 0);
    if colon < line.len() {
        Some(line.subrange(colon + 1, find_char(line, ':', colon + 1)))
    } else {
        None
    }
}

/// A line without a carriage return at its end.
pub open spec fn without_return(line: Seq<char>) -> Seq<char> {
    if line.len() > 0 && line.last() == '\r' {
        line.drop_last()
    } else {
        line
    }
}

/// The processor name that a line gives.
pub open spec fn name_in_line(line: Seq<char>) -> Option<Seq<char>> {
    if occurs_at(line, "model name"@, 0) {
        match second_field(line) {
            Some(field) => Some(trimmed(field)),
            None => None,
        }
    } else {
        None
    }
}

/// The processor name that the first line with one gives, from position `i`
/// on; empty if there is none.
pub open spec fn model_name(text: Seq<char>, i: int) -> Seq<char>
    decreases text.len() + 1 - i,
    when 0 <= i
    via model_name_terminates
{
    if i >= text.len() {
        Seq::empty()
    } else {
        let end = find_char(text, '\n', i);
        match name_in_line(without_return(text.subrange(i, end))) {
            Some(name) => name,
            None => model_name(text, end + 1),
        }
    }
}

#[via_fn]
proof fn model_name_terminates(text: Seq<char>, i: int) {
    if i < text.len() {
        lemma_find_char(text, '\n', i);
    }
}

pub proof fn lemma_find_char(s: Seq<char>, c: char, i: int)
    requires
        0 <= i <= s.len(),
    ensures
        i <= find_char(s, c, i) <= s.len(),
    decreases s.len() - i,
{
    if i < s.len() && s[i] != c {
        lemma_find_char(s, c, i + 1);
    }
}

fn find(chars: &[char], c: char, start: usize) -> (end: usize)
    requires
        start <= chars@.len(),
    ensures
        end == find_char(chars@, c, start as int),
        start <= end <= chars@.len(),
{
    let mut i: usize = start;
    while i < chars.len() && chars[i] != c
        invariant
            start <= i <= chars@.len(),
            find_char(chars@, c, start as int) == find_char(chars@, c, i as int),
        decreases chars@.len() - i,
    {
        i += 1;
    }
    i
}

/// The processor name in the system's processor description.
pub fn described_name(text: &str) -> (name: String)
    ensures
        name@ == model_name(text@, 0),
{
    let chars: Vec<char> = chars_of(text);
    let prefix: Vec<char> = chars_of("model name");
    let n: usize = chars.len();
    let mut i: usize = 0;
    while i < n
        invariant
            chars@ == text@,
            prefix@ == "model name"@,
            n == chars@.len(),
            i <= n,
            model_name(text@, 0) == model_name(text@, i as int),
        decreases n - i,
    {
        let end: usize = find(chars.as_slice(), '\n', i);
        let last: usize = if end > i && chars[end - 1] == '\r' {
            end - 1
        } else {
            end
        };
        let line: &[char] = vstd::slice::slice_subrange(chars.as_slice(), i, last);
        assert(line@ =~= without_return(chars@.subrange(i as int, end as int)));
        if matches_at(line, prefix.as_slice(), 0) {
            let colon: usize = find(line, ':', 0);
            if colon < line.len() {
                let stop: usize = find(line, ':', colon + 1);
                let field: &[char] = vstd::slice::slice_subrange(line, colon + 1, stop);
                return string_of(trim(field).as_slice());
            }
        }
        if end == n {
            assert(model_name(text@, end + 1) == Seq::<char>::empty());
            return String::new();
        }
        i = end + 1;
    }
    String::new()
}

/// The characters that the registers of the processor's brand string spell:
/// their bytes from the lowest up, zeros left out.
pub open spec fn brand_chars(regs: Seq<u32>, n: int) -> Seq<char>
    decreases n,
{
    if n <= 0 {
        Seq::empty()
    } else {
        let r = regs[(n - 1) / 4];
        let b = if (n - 1) % 4 == 0 {
            r % 256
        } else if (n - 1) % 4 == 1 {
            r / 256 % 256
        } else if (n - 1) % 4 == 2 {
            r / 65536 % 256
        } else {
            r / 16777216
        };
        if b == 0 {
            brand_chars(regs, n - 1)
        } else {
            brand_chars(regs, n - 1).push(b as char)
        }
    }
}

/// The brand string that the processor's registers spell; nothing if it is
/// blank.
pub fn cpu_brand_string(regs: &[u32]) -> (name: Option<String>)
    requires
        4 * regs@.len() <= usize::MAX,
    ensures
        match name {
            Some(s) => s@ == brand_of(regs@) && brand_of(regs@).len() > 0,
            None => brand_of(regs@).len() == 0,
        },
{
    let n: usize = 4 * regs.len();
    let mut chars: Vec<char> = Vec::new();
    let mut k: usize = 0;
    while k < n
        invariant
            n == 4 * regs@.len(),
            k <= n,
            chars@ == brand_chars(regs@, k as int),
        decreases n - k,
    {
        let r: u32 = regs[k / 4];
        let b: u8 = if k % 4 == 0 {
            (r % 256) as u8
        } else if k % 4 == 1 {
            (r / 256 % 256) as u8
        } else if k % 4 == 2 {
            (r / 65536 % 256) as u8
        } else {
            (r / 16777216) as u8
        };
        if b != 0 {
            chars.push(b as char);
        }
        k += 1;
    }
    let brand: Vec<char> = trim(chars.as_slice());
    if brand.len() == 0 {
        None
    } else {
        Some(string_of(brand.as_slice()))
    }
}

/// `bytes` in units of 1048576, as double-precision numbers have it.
pub open spec fn megabytes(bytes: u64) -> nat {
    nearest(as_double(bytes as nat), 1048576)
}

/// The line about a graphics adapter.
pub open spec fn gpu_line(gpu: GpuInfo) -> Seq<char> {
    "  [boot] GPU: "@ + gpu.name@ + " ["@ + gpu.backend@ + "] ("@ + gpu.device_type.spec_label()
        + (if gpu.vram_bytes > 0 {
        " ("@ + decimal(megabytes(gpu.vram_bytes)) + "MB VRAM))"@
    } else {
        ")"@
    })
}

fn describe_gpu(gpu: &GpuInfo) -> (s: String)
    ensures
        s@ == gpu_line(*gpu),
{
    let s: String = concatenated("  [boot] GPU: ", gpu.name.as_str());
    let s: String = concatenated(s.as_str(), " [");
    let s: String = concatenated(s.as_str(), gpu.backend.as_str());
    let s: String = concatenated(s.as_str(), "] (");
    let s: String = concatenated(s.as_str(), gpu.device_type.label());
    if gpu.vram_bytes > 0 {
        let rounded: u64 = nearest_to(to_double(gpu.vram_bytes), 1048576) as u64;
        let vram: String = concatenated(
            concatenated(" (", decimal_text_u64(rounded).as_str()).as_str(),
            "MB VRAM))",
        );
        let line: String = concatenated(s.as_str(), vram.as_str());
        assert(line@ =~= gpu_line(*gpu));
        line
    } else {
        concatenated(s.as_str(), ")")
    }
}

/// The lines that a program starts with.
pub open spec fn banner_of(h: HardwareInfo) -> Seq<Seq<char>> {
    seq![
        ""@,
        "  ternary-rs inference engine"@,
        "  ───────────────────────────────"@,
        if h.cpu_name@.len() == 0 {
            "  [boot] CPU: (unknown)"@
        } else {
            "  [boot] CPU: "@ + h.cpu_name@
        },
        "  [boot] CPU compute: "@ + h.spec_cpu_compute_name() + " ternary kernel"@,
    ] + (if h.gpus@.len() == 0 {
        seq!["  [boot] GPU: none detected"@]
    } else {
        h.gpus@.map_values(|gpu: GpuInfo| gpu_line(gpu))
    }) + seq![""@]
}

impl HardwareInfo {
    /// The lines that a program starts with: the processor, its vector
    /// instructions, and the graphics adapters.
    pub fn boot_banner(&self) -> (lines: Vec<String>)
        ensures
            views(lines@) == banner_of(*self),
    {
        let mut lines: Vec<String> = Vec::new();
        lines.push(String::from_str(""));
        lines.push(String::from_str("  ternary-rs inference engine"));
        lines.push(String::from_str("  ───────────────────────────────"));
        if same_text(self.cpu_name.as_str(), "") {
            lines.push(String::from_str("  [boot] CPU: (unknown)"));
        } else {
            lines.push(concatenated("  [boot] CPU: ", self.cpu_name.as_str()));
        }
        lines.push(
            concatenated(
                concatenated("  [boot] CPU compute: ", self.cpu_compute_name()).as_str(),
                " ternary kernel",
            ),
        );
        proof {
            reveal_strlit("");
            if self.cpu_name@.len() == 0 {
                assert(self.cpu_name@ =~= ""@);
            }
        }
        let ghost head = lines@;
        assert(head.len() == 5);
        assert(head.take(5) =~= head);
        if self.gpus.len() == 0 {
            lines.push(String::from_str("  [boot] GPU: none detected"));
            assert(lines@.take(5) =~= head);
        } else {
            let mut i: usize = 0;
            while i < self.gpus.len()
                invariant
                    head.len() == 5,
                    i <= self.gpus@.len(),
                    lines@.len() == 5 + i,
                    lines@.take(5) == head,
                    forall|j: int|
                        0 <= j < i ==> (#[trigger] lines@[5 + j])@ == gpu_line(self.gpus@[j]),
                decreases self.gpus@.len() - i,
            {
                let ghost before = lines@;
                lines.push(describe_gpu(&self.gpus[i]));
                assert(lines@.take(5) =~= before.take(5));
                i += 1;
            }
        }
        let ghost body = lines@;
        lines.push(String::from_str(""));
        proof {
            let expected = banner_of(*self);
            assert(expected.len() == lines@.len());
            assert forall|k: int| 0 <= k < lines@.len() implies lines@[k]@ == expected[k] by {
                if k < 5 {
                    assert(body.take(5)[k] == head[k]);
                    assert(lines@[k] == head[k]);
                } else if k < body.len() {
                    assert(lines@[k] == body[5 + (k - 5)]);
                }
            }
            assert(views(lines@) =~= expected);
        }
        lines
    }
}

} // verus!
