//! Runtime configuration.
use crate::kernels::KernelSet;
use crate::limits::Limits;
use vstd::prelude::*;

verus! {

/// CPU implementation policy.
#[derive(Debug, Clone, Copy, PartialEq, Eq, Structural)]
pub enum CpuBackend {
    /// Select the best implementation available.
    Auto,
    /// Force scalar code.
    Scalar,
    /// Force SSE4-class x86 code.
    Sse,
    /// Force AVX2 code.
    Avx2,
    /// Force AVX-512 code.
    Avx512,
    /// Force AArch64 NEON code.
    Neon,
}

impl Default for CpuBackend {
    fn default() -> (r: Self)
        ensures
            r == CpuBackend::Auto,
    {
        CpuBackend::Auto
    }
}

/// Thread-count policy for stateful encoders and decoders. It never changes a result.
#[derive(Debug, Clone, Copy, PartialEq, Eq, Structural)]
pub enum ThreadPolicy {
    /// Choose a bounded count from available parallelism and workload size.
    Auto,
    /// Disable internal parallel execution.
    Single,
    /// Request an explicit maximum worker count.
    Max(usize),
}

impl Default for ThreadPolicy {
    fn default() -> (r: Self)
        ensures
            r == ThreadPolicy::Auto,
    {
        ThreadPolicy::Auto
    }
}

/// Common runtime configuration.
#[derive(Debug, Clone, Copy, PartialEq, Eq, Structural)]
pub struct Config {
    /// CPU backend selection.
    pub cpu: CpuBackend,
    /// Internal threading policy.
    pub threads: ThreadPolicy,
    /// Defensive parser and entropy memory ceilings.
    pub limits: Limits,
}

impl Default for Config {
    fn default() -> (r: Self)
        ensures
            r.cpu == CpuBackend::Auto,
            r.threads == ThreadPolicy::Auto,
            r.limits == (Limits {
                max_frame_pixels: 67_108_864,
                max_packet_bytes: 134_217_728,
                max_entropy_bytes: 8_388_608,
                max_stream_buffer_bytes: 167_772_160,
            }),
    {
        Config { cpu: CpuBackend::Auto, threads: ThreadPolicy::Auto, limits: Limits::default() }
    }
}

/// A forced low-level backend that this build does not have.
#[derive(Debug, Clone, Copy, PartialEq, Eq, Structural)]
pub struct BackendUnavailable(pub CpuBackend);

/// Whether this build has kernels for a policy.
pub open spec fn available(policy: CpuBackend) -> bool {
    policy == CpuBackend::Auto || policy == CpuBackend::Scalar
}

/// Resolves a CPU policy into a kernel set. This build has portable kernels only.
pub fn kernel_set(policy: CpuBackend) -> (r: Result<KernelSet, BackendUnavailable>)
    ensures
        match r {
            Ok(kernels) => available(policy) && kernels == KernelSet::Scalar,
            Err(e) => !available(policy) && e == BackendUnavailable(policy),
        },
{
    match policy {
        CpuBackend::Auto => Ok(KernelSet::auto()),
        CpuBackend::Scalar => Ok(KernelSet::scalar()),
        _ => Err(BackendUnavailable(policy)),
    }
}

} // verus!
