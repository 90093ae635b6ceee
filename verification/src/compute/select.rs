//! Which backend to compute with.

use crate::tensor::{Ternary, TernaryTensor, weight_code};
use crate::text::{chars_of, lower_text, lowered_text, same_text, string_of, trim, trimmed};
use vstd::prelude::*;

verus! {

/// Environment variable that pins the backend.
pub const BACKEND_ENV: &'static str = "TERNARY_BACKEND";

/// The backends there are.
#[derive(Debug, Clone, Copy, PartialEq, Eq, Structural)]
pub enum BackendKind {
    Scalar,
    Avx2,
    Wgpu,
}

/// The processor family that a program was built for.
#[derive(Debug, Clone, Copy, PartialEq, Eq, Structural)]
pub enum TargetArch {
    X86_64,
    Aarch64,
    Other,
}

/// Vector instructions of the processor.
#[derive(Debug, Clone, Copy, PartialEq, Eq, Structural)]
pub struct CpuFeatures {
    pub avx2: bool,
    pub avx512f: bool,
    pub neon: bool,
}

impl CpuFeatures {
    /// What a processor family offers, given what the processor reports about
    /// its x86 extensions. Every 64-bit ARM processor has NEON.
    pub fn detect(arch: TargetArch, avx2: bool, avx512f: bool) -> (f: Self)
        ensures
            f == match arch {
                TargetArch::X86_64 => (CpuFeatures { avx2, avx512f, neon: false }),
                TargetArch::Aarch64 => (CpuFeatures { avx2: false, avx512f: false, neon: true }),
                TargetArch::Other => (CpuFeatures { avx2: false, avx512f: false, neon: false }),
            },
    {
        match arch {
            TargetArch::X86_64 => CpuFeatures { avx2, avx512f, neon: false },
            TargetArch::Aarch64 => CpuFeatures { avx2: false, avx512f: false, neon: true },
            TargetArch::Other => CpuFeatures { avx2: false, avx512f: false, neon: false },
        }
    }
}

impl BackendKind {
    /// The name of a backend.
    pub open spec fn spec_name(&self) -> Seq<char> {
        match *self {
            BackendKind::Scalar => "scalar"@,
            BackendKind::Avx2 => "avx2"@,
            BackendKind::Wgpu => "wgpu"@,
        }
    }

    /// The name of a backend.
    pub fn name(&self) -> (name: &str)
        ensures
            name@ == self.spec_name(),
    {
        match *self {
            BackendKind::Scalar => "scalar",
            BackendKind::Avx2 => "avx2",
            BackendKind::Wgpu => "wgpu",
        }
    }
}

/// The backend with a given lower-case name.
pub open spec fn kind_named(name: Seq<char>) -> Option<BackendKind> {
    if name == "scalar"@ {
        Some(BackendKind::Scalar)
    } else if name == "avx2"@ {
        Some(BackendKind::Avx2)
    } else if name == "wgpu"@ || name == "gpu"@ {
        Some(BackendKind::Wgpu)
    } else {
        None
    }
}

/// Whether a backend can run on this machine.
pub open spec fn is_available(kind: BackendKind, features: CpuFeatures, gpu: bool) -> bool {
    match kind {
        BackendKind::Scalar => true,
        BackendKind::Avx2 => features.avx2,
        BackendKind::Wgpu => gpu,
    }
}

/// The backend with a given name, if this machine has it.
pub open spec fn available_named(name: Seq<char>, features: CpuFeatures, gpu: bool) -> Option<
    BackendKind,
> {
    match kind_named(name) {
        Some(kind) => if is_available(kind, features, gpu) {
            Some(kind)
        } else {
            None
        },
        None => None,
    }
}

/// The backend with a given lower-case name, if this machine has it.
pub fn find_backend(name: &str, features: CpuFeatures, gpu: bool) -> (kind: Option<BackendKind>)
    ensures
        kind == available_named(name@, features, gpu),
{
    if same_text(name, "scalar") {
        Some(BackendKind::Scalar)
    } else if same_text(name, "avx2") {
        if features.avx2 {
            Some(BackendKind::Avx2)
        } else {
            None
        }
    } else if same_text(name, "wgpu") || same_text(name, "gpu") {
        if gpu {
            Some(BackendKind::Wgpu)
        } else {
            None
        }
    } else {
        None
    }
}

/// The backend with a given name, if this machine has it. Case and surrounding
/// white space do not matter.
pub fn backend_by_name(name: &str, features: CpuFeatures, gpu: bool) -> (kind: Option<BackendKind>)
    ensures
        kind == available_named(lowered_text(trimmed(name@)), features, gpu),
{
    let chars: Vec<char> = trim(chars_of(name).as_slice());
    let lowered: String = string_of(lower_text(chars.as_slice()).as_slice());
    find_backend(lowered.as_str(), features, gpu)
}

/// The best backend that runs on the processor.
pub open spec fn best_cpu(features: CpuFeatures) -> BackendKind {
    if features.avx2 {
        BackendKind::Avx2
    } else {
        BackendKind::Scalar
    }
}

/// The best backend that runs on the processor.
pub fn detect_cpu_only(features: CpuFeatures) -> (kind: BackendKind)
    ensures
        kind == best_cpu(features),
        is_available(kind, features, false),
{
    if features.avx2 {
        BackendKind::Avx2
    } else {
        BackendKind::Scalar
    }
}

/// How the backend is to be found.
#[derive(Debug)]
pub enum Selection {
    /// Use this one.
    Pinned(BackendKind),
    /// Measure these and use the fastest.
    Measure(Vec<BackendKind>),
}

/// Decide how the backend is to be found. A pinned name that is unknown or not
/// available is passed over. Otherwise the best processor backend competes
/// with the GPU, if there is one.
pub fn detect(pinned: Option<&str>, features: CpuFeatures, gpu: bool) -> (s: Selection)
    ensures
        match pinned {
            Some(name) => match available_named(lowered_text(trimmed(name@)), features, gpu) {
                Some(kind) => s == Selection::Pinned(kind),
                None => s matches Selection::Measure(kinds) && kinds@ == candidates(features, gpu),
            },
            None => s matches Selection::Measure(kinds) && kinds@ == candidates(features, gpu),
        },
{
    if let Some(name) = pinned {
        if let Some(kind) = backend_by_name(name, features, gpu) {
            return Selection::Pinned(kind);
        }
    }
    let mut kinds: Vec<BackendKind> = Vec::new();
    kinds.push(detect_cpu_only(features));
    if gpu {
        kinds.push(BackendKind::Wgpu);
    }
    assert(kinds@ =~= candidates(features, gpu));
    Selection::Measure(kinds)
}

/// The backends that compete.
pub open spec fn candidates(features: CpuFeatures, gpu: bool) -> Seq<BackendKind> {
    if gpu {
        seq![best_cpu(features), BackendKind::Wgpu]
    } else {
        seq![best_cpu(features)]
    }
}

/// Every candidate can run on this machine.
pub proof fn candidates_are_available(features: CpuFeatures, gpu: bool, i: int)
    requires
        0 <= i < candidates(features, gpu).len(),
    ensures
        is_available(candidates(features, gpu)[i], features, gpu),
{
}

/// `i` is the first position of the shortest time.
pub open spec fn is_first_shortest(times: Seq<u64>, i: int) -> bool {
    &&& 0 <= i < times.len()
    &&& forall|j: int| 0 <= j < times.len() ==> times[i] <= #[trigger] times[j]
    &&& forall|j: int| 0 <= j < i ==> times[i] < #[trigger] times[j]
}

/// The fastest of several backends, given how long each of them took: the
/// first of those with the shortest time. A single candidate needs no time,
/// and without candidates it is the portable backend.
pub fn fastest_of(candidates: &[BackendKind], times: &[u64]) -> (kind: BackendKind)
    requires
        candidates@.len() <= 1 || times@.len() == candidates@.len(),
    ensures
        candidates@.len() == 0 ==> kind == BackendKind::Scalar,
        candidates@.len() == 1 ==> kind == candidates@[0],
        candidates@.len() > 1 ==> exists|i: int|
            #[trigger] is_first_shortest(times@, i) && kind == candidates@[i],
{
    if candidates.len() == 0 {
        return BackendKind::Scalar;
    }
    if candidates.len() == 1 {
        return candidates[0];
    }
    let mut best: usize = 0;
    let mut i: usize = 1;
    while i < times.len()
        invariant
            1 <= i <= times@.len(),
            best < i,
            forall|j: int| 0 <= j < i ==> times@[best as int] <= #[trigger] times@[j],
            forall|j: int| 0 <= j < best ==> times@[best as int] < #[trigger] times@[j],
        decreases times@.len() - i,
    {
        if times[i] < times[best] {
            best = i;
        }
        i += 1;
    }
    assert(is_first_shortest(times@, best as int));
    candidates[best]
}

/// Rows of the matrix that backends are measured on.
pub const PROBE_ROWS: usize = 1024;

/// Columns of the matrix that backends are measured on.
pub const PROBE_COLS: usize = 1024;

/// How often a product is repeated for a measurement.
pub const PROBE_ITERS: usize = 3;

/// The state of the probe's generator after `k` steps.
pub open spec fn probe_state(k: nat) -> u32
    decreases k,
{
    if k == 0 {
        0x2545_F491
    } else {
        ((probe_state((k - 1) as nat) * 1_664_525 + 1_013_904_223) % 0x1_0000_0000) as u32
    }
}

/// The weight with number `i` of the probe.
pub open spec fn probe_weight(i: nat) -> Ternary {
    let r = (probe_state(i + 1) / 65536) % 3;
    if r == 0 {
        Ternary::Neg
    } else if r == 1 {
        Ternary::Zero
    } else {
        Ternary::Pos
    }
}

/// The matrix and the activations that backends are measured on: the same for
/// every run.
pub fn probe_workload() -> (r: (TernaryTensor, Vec<i8>))
    ensures
        r.0.wf(),
        r.0.spec_rows() == PROBE_ROWS,
        r.0.spec_cols() == PROBE_COLS,
        forall|i: int|
            0 <= i < r.0.count() ==> #[trigger] r.0.code_at(i) == weight_code(probe_weight(i as nat)),
        r.1@.len() == PROBE_COLS,
        forall|i: int| 0 <= i < PROBE_COLS ==> #[trigger] r.1@[i] == i % 255 - 127,
{
    let n: usize = PROBE_ROWS * PROBE_COLS;
    let mut values: Vec<Ternary> = Vec::new();
    let mut state: u32 = 0x2545_F491;
    let mut i: usize = 0;
    while i < n
        invariant
            n == 1_048_576,
            i <= n,
            values@.len() == i,
            state == probe_state(i as nat),
            forall|j: int| 0 <= j < i ==> #[trigger] values@[j] == probe_weight(j as nat),
        decreases n - i,
    {
        let next: u64 = (state as u64 * 1_664_525 + 1_013_904_223) % 0x1_0000_0000;
        state = next as u32;
        assert(state == probe_state((i + 1) as nat));
        values.push(
            match (state / 65536) % 3 {
                0 => Ternary::Neg,
                1 => Ternary::Zero,
                _ => Ternary::Pos,
            },
        );
        i += 1;
    }
    let weights: TernaryTensor = TernaryTensor::pack(values.as_slice(), PROBE_ROWS, PROBE_COLS);
    let mut input: Vec<i8> = Vec::new();
    let mut k: usize = 0;
    while k < PROBE_COLS
        invariant
            k <= PROBE_COLS,
            input@.len() == k,
            forall|j: int| 0 <= j < k ==> #[trigger] input@[j] == j % 255 - 127,
        decreases PROBE_COLS - k,
    {
        input.push(((k % 255) as i32 - 127) as i8);
        k += 1;
    }
    (weights, input)
}

} // verus!
