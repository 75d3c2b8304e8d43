//! MIG profiles and GPU repartitioning.

use vstd::prelude::*;
use crate::models::{Gpu, GpuView, MigSlice, SliceView};
use crate::strings::str_eq;

verus! {

/// Errors of placement and repartitioning.
#[derive(Debug)]
pub enum SimError {
    /// Fewer resources than the job needs.
    InsufficientGpus { need: u32, available: u32 },
    /// The configuration cannot serve the request.
    Config(String),
    /// The named MIG profile is not in the registry.
    UnknownMigProfile(String),
}

/// One MIG profile: slice memory and how many slices fit on a GPU.
#[derive(Debug, Clone, Copy)]
pub struct MigProfileSpec {
    pub memory_gb: u64,
    pub max_per_gpu: u32,
}

/// MIG settings of one hardware type.
#[derive(Debug)]
pub struct MigHardwareConfig {
    pub hardware: String,
    pub reconfig_seconds: u64,
    pub profiles: Vec<(String, MigProfileSpec)>,
}

/// The MIG profiles in use and the delay of repartitioning a GPU.
#[derive(Debug)]
pub struct MigProfileRegistry {
    pub hardware: String,
    pub reconfig_seconds: u64,
    pub profiles: Vec<(String, MigProfileSpec)>,
}

/// The spec of the first profile named `name`.
pub open spec fn lookup_profile(profiles: Seq<(String, MigProfileSpec)>, name: Seq<char>) -> Option<MigProfileSpec>
    decreases profiles.len(),
{
    if profiles.len() == 0 {
        None
    } else if profiles[0].0@ == name {
        Some(profiles[0].1)
    } else {
        lookup_profile(profiles.drop_first(), name)
    }
}

/// The decimal digit for `d < 10`.
pub open spec fn digit_char(d: nat) -> char {
    if d == 0 { '0' }
    else if d == 1 { '1' }
    else if d == 2 { '2' }
    else if d == 3 { '3' }
    else if d == 4 { '4' }
    else if d == 5 { '5' }
    else if d == 6 { '6' }
    else if d == 7 { '7' }
    else if d == 8 { '8' }
    else { '9' }
}

/// Decimal notation of `n`, without leading zeros.
pub open spec fn decimal(n: nat) -> Seq<char>
    decreases n,
{
    if n < 10 {
        seq![digit_char(n)]
    } else {
        decimal(n / 10).push(digit_char(n % 10))
    }
}

/// Appends the decimal notation of `n`.
pub fn push_decimal(s: &mut String, n: u32)
    ensures
        final(s)@ == old(s)@ + decimal(n as nat),
    decreases n,
{
    if n >= 10 {
        push_decimal(s, n / 10);
    }
    let d = n % 10;
    let ghost before = s@;
    if d == 0 {
        s.append("0");
        proof { reveal_strlit("0"); }
    } else if d == 1 {
        s.append("1");
        proof { reveal_strlit("1"); }
    } else if d == 2 {
        s.append("2");
        proof { reveal_strlit("2"); }
    } else if d == 3 {
        s.append("3");
        proof { reveal_strlit("3"); }
    } else if d == 4 {
        s.append("4");
        proof { reveal_strlit("4"); }
    } else if d == 5 {
        s.append("5");
        proof { reveal_strlit("5"); }
    } else if d == 6 {
        s.append("6");
        proof { reveal_strlit("6"); }
    } else if d == 7 {
        s.append("7");
        proof { reveal_strlit("7"); }
    } else if d == 8 {
        s.append("8");
        proof { reveal_strlit("8"); }
    } else {
        s.append("9");
        proof { reveal_strlit("9"); }
    }
    assert(s@ =~= old(s)@ + decimal(n as nat));
}

/// Id of slice `i` of the GPU with id `gpu_id`: `<gpu_id>-mig-<i>`.
pub open spec fn slice_id(gpu_id: Seq<char>, i: nat) -> Seq<char> {
    gpu_id + "-mig-"@ + decimal(i)
}

/// The GPU after being partitioned into `count` free slices of `profile`.
pub open spec fn partitioned(gpu: GpuView, profile: Seq<char>, count: nat, spec: MigProfileSpec) -> GpuView {
    GpuView {
        slices: Seq::new(
            count,
            |i: int| SliceView { id: slice_id(gpu.id, i as nat), profile: profile, memory_gb: spec.memory_gb, running_job_id: None },
        ),
        active_mig_profile: Some(profile),
        ..gpu
    }
}

/// Outcome of repartitioning: an error, or the partitioned GPU.
pub open spec fn reconfigure_error(registry: &MigProfileRegistry, profile: Seq<char>, count: u32) -> Option<SimError> {
    match lookup_profile(registry.profiles@, profile) {
        None => Some(SimError::UnknownMigProfile(arbitrary())),
        Some(spec) => if count > spec.max_per_gpu {
            Some(SimError::InsufficientGpus { need: count, available: spec.max_per_gpu })
        } else {
            None
        },
    }
}

impl MigProfileRegistry {
    /// A registry holding the given hardware configuration.
    pub fn from_config(config: MigHardwareConfig) -> (r: MigProfileRegistry)
        ensures
            r.hardware == config.hardware,
            r.reconfig_seconds == config.reconfig_seconds,
            r.profiles == config.profiles,
    {
        MigProfileRegistry {
            hardware: config.hardware,
            reconfig_seconds: config.reconfig_seconds,
            profiles: config.profiles,
        }
    }

    /// The spec of profile `name`; an unknown name is an error.
    pub fn profile(&self, name: &str) -> (r: Result<MigProfileSpec, SimError>)
        ensures
            match r {
                Ok(spec) => lookup_profile(self.profiles@, name@) == Some(spec),
                Err(e) => lookup_profile(self.profiles@, name@) is None && (e matches SimError::UnknownMigProfile(n) && n@ == name@),
            },
    {
        let mut i: usize = 0;
        assert(self.profiles@.skip(0) =~= self.profiles@);
        while i < self.profiles.len()
            invariant
                i <= self.profiles@.len(),
                lookup_profile(self.profiles@, name@) == lookup_profile(self.profiles@.skip(i as int), name@),
            decreases self.profiles@.len() - i,
        {
            assert(self.profiles@.skip(i as int).drop_first() =~= self.profiles@.skip(i as int + 1));
            if str_eq(self.profiles[i].0.as_str(), name) {
                return Ok(self.profiles[i].1);
            }
            i = i + 1;
        }
        Err(SimError::UnknownMigProfile(String::from_str(name)))
    }
}

/// Repartitions `gpu` into `count` free slices of `profile`, named
/// `<gpu id>-mig-0` onwards, and makes `profile` its active profile. Fails,
/// leaving the GPU unchanged, when the profile is unknown or more than
/// `max_per_gpu` slices are asked for.
pub fn reconfigure_gpu(gpu: &mut Gpu, profile: &str, count: u32, registry: &MigProfileRegistry) -> (r: Result<(), SimError>)
    ensures
        match reconfigure_error(registry, profile@, count) {
            Some(e) => r is Err && final(gpu)@ == old(gpu)@ && match (r, e) {
                (Err(SimError::InsufficientGpus { need, available }), SimError::InsufficientGpus { need: n2, available: a2 }) => need == n2 && available == a2,
                (Err(SimError::UnknownMigProfile(_)), SimError::UnknownMigProfile(_)) => true,
                _ => false,
            },
            None => r is Ok && final(gpu)@ == partitioned(old(gpu)@, profile@, count as nat, lookup_profile(registry.profiles@, profile@)->0),
        },
{
    let spec = match registry.profile(profile) {
        Ok(s) => s,
        Err(e) => return Err(e),
    };
    if count > spec.max_per_gpu {
        return Err(SimError::InsufficientGpus { need: count, available: spec.max_per_gpu });
    }
    let ghost g0 = gpu@;
    let mut slices: Vec<MigSlice> = Vec::new();
    let mut i: u32 = 0;
    while i < count
        invariant
            i <= count,
            g0 == gpu@,
            slices@.len() == i,
            forall|k: int| 0 <= k < i ==> (#[trigger] slices@[k])@ == (SliceView {
                id: slice_id(g0.id, k as nat),
                profile: profile@,
                memory_gb: spec.memory_gb,
                running_job_id: None,
            }),
        decreases count - i,
    {
        let mut id = gpu.id.clone();
        id.append("-mig-");
        push_decimal(&mut id, i);
        slices.push(MigSlice { id, profile: String::from_str(profile), memory_gb: spec.memory_gb, running_job_id: None });
        i = i + 1;
    }
    gpu.slices = slices;
    gpu.active_mig_profile = Some(String::from_str(profile));
    let ghost target = partitioned(g0, profile@, count as nat, spec);
    assert(gpu@.slices =~= target.slices);
    Ok(())
}

} // verus!
