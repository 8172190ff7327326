//! Power from two energy samples taken a known time apart, and the steps of
//! one measurement.
use vstd::prelude::*;
use vstd::arithmetic::power2::pow2;
use crate::msr::{Energy, Msr, RegisterAccessError, energy_from_words, energy_reading, msr_path_of};
use crate::topology::{Topology, ascending};

verus! {

/// Why a power measurement failed.
#[derive(Debug, Clone, Copy, PartialEq, Eq, Structural)]
pub enum PowerError {
    /// The sampling duration is not positive.
    InvalidArgument,
    /// A register could not be read; the whole measurement is void.
    RegisterAccess(RegisterAccessError),
    /// A counter went backwards between the samples: it wrapped around.
    Wraparound,
}

/// The bytes read at a counter's offset and at the power-unit register's
/// offset of the same register file.
#[derive(Debug)]
pub struct RegisterWords {
    pub counter: Vec<u8>,
    pub units: Vec<u8>,
}

/// The energy that a pair of register reads stands for.
pub open spec fn words_energy(w: RegisterWords) -> Result<Energy, RegisterAccessError> {
    energy_reading(w.counter@, w.units@)
}

/// The package energy and each physical core's energy (by ascending core
/// index) at one instant.
#[derive(Debug)]
pub struct EnergySample {
    pub package: Energy,
    pub cores: Vec<Energy>,
}

impl EnergySample {
    pub open spec fn wf(self) -> bool {
        &&& self.package.wf()
        &&& forall|i: int| 0 <= i < self.cores@.len() ==> (#[trigger] self.cores@[i]).wf()
    }

    /// Builds a sample from the package's reads and each core's reads; any
    /// read that failed voids the whole sample.
    pub fn from_words(package: &RegisterWords, cores: &Vec<RegisterWords>) -> (r: Result<EnergySample, RegisterAccessError>)
        ensures
            r is Ok <==> (words_energy(*package) is Ok && forall|i: int| 0 <= i < cores@.len() ==> (#[trigger] words_energy(cores@[i])) is Ok),
            r matches Err(e) ==> e == RegisterAccessError::ShortRead,
            r matches Ok(s) ==> {
                &&& s.wf()
                &&& words_energy(*package) == Ok::<Energy, RegisterAccessError>(s.package)
                &&& s.cores@.len() == cores@.len()
                &&& forall|i: int| 0 <= i < cores@.len() ==> words_energy(cores@[i]) == Ok::<Energy, RegisterAccessError>(#[trigger] s.cores@[i])
            },
    {
        let package_energy = match energy_from_words(package.counter.as_slice(), package.units.as_slice()) {
            Ok(e) => e,
            Err(e) => return Err(e),
        };
        let mut energies: Vec<Energy> = Vec::new();
        let mut i: usize = 0;
        while i < cores.len()
            invariant
                i <= cores@.len(),
                energies@.len() == i,
                forall|k: int| 0 <= k < i ==> words_energy(cores@[k]) == Ok::<Energy, RegisterAccessError>(#[trigger] energies@[k]),
                forall|k: int| 0 <= k < i ==> (#[trigger] energies@[k]).wf(),
            decreases cores@.len() - i,
        {
            match energy_from_words(cores[i].counter.as_slice(), cores[i].units.as_slice()) {
                Ok(e) => {
                    energies.push(e);
                },
                Err(e) => {
                    assert(!(words_energy(cores@[i as int]) is Ok));
                    return Err(e);
                },
            }
            i = i + 1;
        }
        assert forall|k: int| 0 <= k < cores@.len() implies (#[trigger] words_energy(cores@[k])) is Ok by {
            assert(words_energy(cores@[k]) == Ok::<Energy, RegisterAccessError>(energies@[k]));
        }
        Ok(EnergySample { package: package_energy, cores: energies })
    }
}

/// `energy` counts of `2^-31` joules gained over `nanos` nanoseconds, that is
/// `energy * 10^9 / (2^31 * nanos)` watts.
#[derive(Debug, Clone, Copy, PartialEq, Eq, Structural)]
pub struct Watts {
    pub energy: u128,
    pub nanos: u64,
}

/// The counter went backwards from `before` to `after`.
pub open spec fn went_back(before: Energy, after: Energy) -> bool {
    after.fine() < before.fine()
}

/// The power drawn while the energy went from `before` to `after` in `nanos`.
pub open spec fn watts_between(before: Energy, after: Energy, nanos: u64) -> Watts {
    Watts { energy: (after.fine() - before.fine()) as u128, nanos }
}

/// Power from two readings of one counter, `nanos` nanoseconds apart.
pub fn power_between(before: &Energy, after: &Energy, nanos: u64) -> (r: Result<Watts, PowerError>)
    requires
        before.wf(),
        after.wf(),
    ensures
        r == (if went_back(*before, *after) {
            Err(PowerError::Wraparound)
        } else {
            Ok(watts_between(*before, *after, nanos))
        }),
        r matches Ok(w) ==> w.energy < pow2(95),
{
    let b = before.fine_count();
    let a = after.fine_count();
    if a < b {
        return Err(PowerError::Wraparound);
    }
    Ok(Watts { energy: a - b, nanos })
}

/// The package's power and each physical core's power, by ascending core index.
#[derive(Debug)]
pub struct PowerReading {
    pub package: Watts,
    pub cores: Vec<Watts>,
}

/// The sum of the energies of `ws`.
pub open spec fn energy_sum(ws: Seq<Watts>) -> nat
    decreases ws.len(),
{
    if ws.len() == 0 {
        0
    } else {
        (energy_sum(ws.drop_last()) + ws.last().energy) as nat
    }
}

/// The reported total of the cores: the sum of the per-core figures scaled by
/// `logical / physical`, the number of logical cores that share one energy
/// domain. Its value is `sum * logical / physical`.
#[derive(Debug, Clone, Copy, PartialEq, Eq, Structural)]
pub struct CoresTotal {
    pub sum: Watts,
    pub logical: u32,
    pub physical: u32,
}

/// Adds up the per-core figures of one measurement and attaches the scaling
/// ratio `logical / physical`.
pub fn cores_total(cores: &Vec<Watts>, nanos: u64, logical: u32, physical: u32) -> (r: CoresTotal)
    requires
        physical > 0,
        cores@.len() <= u32::MAX,
        forall|i: int| 0 <= i < cores@.len() ==> (#[trigger] cores@[i]).nanos == nanos && cores@[i].energy < pow2(95),
    ensures
        r == (CoresTotal { sum: Watts { energy: energy_sum(cores@) as u128, nanos }, logical, physical }),
{
    let mut sum: u128 = 0;
    let mut i: usize = 0;
    proof {
        vstd::arithmetic::power2::lemma2_to64();
        vstd::arithmetic::power2::lemma_pow2_adds(64, 31);
        vstd::arithmetic::power2::lemma_pow2_adds(95, 32);
        assert(cores@.subrange(0, 0) =~= Seq::<Watts>::empty());
    }
    while i < cores.len()
        invariant
            i <= cores@.len() <= u32::MAX,
            forall|i: int| 0 <= i < cores@.len() ==> (#[trigger] cores@[i]).energy < pow2(95),
            pow2(95) == 0x8000_0000_0000_0000_0000_0000,
            sum == energy_sum(cores@.subrange(0, i as int)),
            sum <= i * 0x8000_0000_0000_0000_0000_0000,
        decreases cores@.len() - i,
    {
        proof {
            assert(cores@.subrange(0, i + 1).drop_last() =~= cores@.subrange(0, i as int));
            assert((i + 1) * 0x8000_0000_0000_0000_0000_0000 == i * 0x8000_0000_0000_0000_0000_0000 + 0x8000_0000_0000_0000_0000_0000) by (nonlinear_arith);
            assert(i * 0x8000_0000_0000_0000_0000_0000 <= 0xFFFF_FFFE * 0x8000_0000_0000_0000_0000_0000) by (nonlinear_arith)
                requires i < 0xFFFF_FFFF;
        }
        sum = sum + cores[i].energy;
        i = i + 1;
    }
    assert(cores@.subrange(0, i as int) =~= cores@);
    CoresTotal { sum: Watts { energy: sum, nanos }, logical, physical }
}

/// The register files of the physical cores, by ascending core index, with
/// the topology they were chosen by.
#[derive(Debug)]
pub struct Cpu {
    pub smt_enabled: bool,
    pub core_count: u32,
    pub physical_core_count: u32,
    pub core_msr: Vec<Msr>,
}

impl Cpu {
    pub open spec fn wf(&self) -> bool {
        &&& self.physical_core_count <= self.core_count
        &&& !self.smt_enabled ==> self.physical_core_count == self.core_count
        &&& self.core_msr@.len() == self.physical_core_count
        &&& forall|i: int, j: int| 0 <= i < j < self.core_msr@.len() ==> self.core_msr@[i].core < self.core_msr@[j].core
        &&& forall|i: int| 0 <= i < self.core_msr@.len() ==> (#[trigger] self.core_msr@[i]).path@ == msr_path_of(self.core_msr@[i].core)
    }

    /// One register file for each physical core index, in the given order.
    pub fn get_msr_info(core_ids: &Vec<u32>) -> (r: Vec<Msr>)
        ensures
            r@.len() == core_ids@.len(),
            forall|i: int| 0 <= i < r@.len() ==> (#[trigger] r@[i]).core == core_ids@[i] && r@[i].path@ == msr_path_of(core_ids@[i]),
    {
        let mut map: Vec<Msr> = Vec::new();
        let mut i: usize = 0;
        while i < core_ids.len()
            invariant
                i <= core_ids@.len(),
                map@.len() == i,
                forall|k: int| 0 <= k < map@.len() ==> (#[trigger] map@[k]).core == core_ids@[k] && map@[k].path@ == msr_path_of(core_ids@[k]),
            decreases core_ids@.len() - i,
        {
            let msr = Msr::new(core_ids[i]);
            map.push(msr);
            i = i + 1;
        }
        map
    }

    /// The register files that a topology calls for: `/dev/cpu/{id}/msr` for
    /// each physical core index `id`, in ascending order.
    pub fn from_topology(topology: Topology) -> (r: Cpu)
        requires
            topology.wf(),
        ensures
            r.wf(),
            r.smt_enabled == topology.smt_enabled,
            r.core_count == topology.logical_core_count,
            r.physical_core_count == topology.physical_core_count,
            r.core_msr@.len() == topology.physical_core_ids@.len(),
            forall|i: int| 0 <= i < r.core_msr@.len() ==> (#[trigger] r.core_msr@[i]).core == topology.physical_core_ids@[i]
                && r.core_msr@[i].path@ == msr_path_of(topology.physical_core_ids@[i]),
    {
        let core_msr = Self::get_msr_info(&topology.physical_core_ids);
        Cpu {
            smt_enabled: topology.smt_enabled,
            core_count: topology.logical_core_count,
            physical_core_count: topology.physical_core_count,
            core_msr,
        }
    }
}

/// Some counter of the sample went backwards.
pub open spec fn sample_went_back(before: EnergySample, after: EnergySample) -> bool {
    went_back(before.package, after.package) || exists|i: int|
        0 <= i < before.cores@.len() && #[trigger] went_back(before.cores@[i], after.cores@[i])
}

impl Cpu {
    /// The package's and each physical core's power over the `duration_nanos`
    /// nanoseconds between two samples: energy gained over time elapsed,
    /// pairing the cores by position.
    pub fn power(&self, before: &EnergySample, after: &EnergySample, duration_nanos: u64) -> (r: Result<PowerReading, PowerError>)
        requires
            before.wf(),
            after.wf(),
            before.cores@.len() == self.core_msr@.len(),
            after.cores@.len() == self.core_msr@.len(),
        ensures
            r is Err <==> (duration_nanos == 0 || sample_went_back(*before, *after)),
            r matches Err(e) ==> e == (if duration_nanos == 0 {
                PowerError::InvalidArgument
            } else {
                PowerError::Wraparound
            }),
            r matches Ok(p) ==> {
                &&& p.package == watts_between(before.package, after.package, duration_nanos)
                &&& p.cores@.len() == self.core_msr@.len()
                &&& forall|i: int| 0 <= i < p.cores@.len() ==> #[trigger] p.cores@[i] == watts_between(before.cores@[i], after.cores@[i], duration_nanos)
                &&& p.package.energy < pow2(95)
                &&& forall|i: int| 0 <= i < p.cores@.len() ==> (#[trigger] p.cores@[i]).energy < pow2(95)
            },
    {
        if duration_nanos == 0 {
            return Err(PowerError::InvalidArgument);
        }
        let package = match power_between(&before.package, &after.package, duration_nanos) {
            Ok(w) => w,
            Err(e) => return Err(e),
        };
        let mut cores: Vec<Watts> = Vec::new();
        let mut i: usize = 0;
        while i < before.cores.len()
            invariant
                duration_nanos > 0,
                !went_back(before.package, after.package),
                before.wf(),
                after.wf(),
                before.cores@.len() == after.cores@.len(),
                i <= before.cores@.len(),
                cores@.len() == i,
                forall|k: int| 0 <= k < i ==> #[trigger] cores@[k] == watts_between(before.cores@[k], after.cores@[k], duration_nanos),
                forall|k: int| 0 <= k < i ==> (#[trigger] cores@[k]).energy < pow2(95),
                forall|k: int| 0 <= k < i ==> !went_back(before.cores@[k], after.cores@[k]),
            decreases before.cores@.len() - i,
        {
            assert(before.cores@[i as int].wf() && after.cores@[i as int].wf());
            match power_between(&before.cores[i], &after.cores[i], duration_nanos) {
                Ok(w) => {
                    cores.push(w);
                },
                Err(e) => {
                    assert(went_back(before.cores@[i as int], after.cores@[i as int]));
                    return Err(e);
                },
            }
            i = i + 1;
        }
        assert(!sample_went_back(*before, *after));
        Ok(PowerReading { package, cores })
    }
}

/// Every read of a sample found a whole word.
pub open spec fn reads_complete(package: RegisterWords, cores: Seq<RegisterWords>) -> bool {
    &&& words_energy(package) is Ok
    &&& forall|i: int| 0 <= i < cores.len() ==> (#[trigger] words_energy(cores[i])) is Ok
}

/// The energy that complete reads stand for.
pub open spec fn words_value(w: RegisterWords) -> Energy {
    words_energy(w)->Ok_0
}

/// Some counter went backwards from `before` to what the reads stand for.
pub open spec fn words_went_back(before: EnergySample, package: RegisterWords, cores: Seq<RegisterWords>) -> bool {
    went_back(before.package, words_value(package)) || exists|i: int|
        0 <= i < before.cores@.len() && #[trigger] went_back(before.cores@[i], words_value(cores[i]))
}

/// Where a measurement stands.
#[derive(Debug)]
pub enum SamplerPhase {
    /// The first sample is to be taken.
    AwaitingFirst,
    /// The first sample is taken; the caller sleeps.
    Sleeping(EnergySample),
    /// The caller has slept; the second sample is to be taken.
    AwaitingSecond(EnergySample),
    /// The measurement has ended.
    Finished,
}

/// What the caller is to do next.
#[derive(Debug)]
pub enum SamplerStep {
    /// Read every counter of the CPU and report the sample.
    TakeSample,
    /// Block for this many nanoseconds, then report waking.
    Sleep(u64),
    /// The measurement has ended with this result.
    Done(Result<PowerReading, PowerError>),
}

/// One power measurement: a sample, a sleep of the given duration, a second
/// sample, and the power between the two. Any failure ends it at once.
#[derive(Debug)]
pub struct PowerSampler {
    pub duration_nanos: u64,
    pub phase: SamplerPhase,
}

impl PowerSampler {
    pub open spec fn wf(self) -> bool {
        &&& !(self.phase is Finished) ==> self.duration_nanos > 0
        &&& self.phase matches SamplerPhase::Sleeping(s) ==> s.wf()
        &&& self.phase matches SamplerPhase::AwaitingSecond(s) ==> s.wf()
    }

    /// Starts a measurement of the CPU's power over `duration_nanos`
    /// nanoseconds. A zero duration ends it with `InvalidArgument` before any
    /// register is read: the first step is then not `TakeSample`.
    pub fn start(duration_nanos: u64) -> (r: (PowerSampler, SamplerStep))
        ensures
            r.0.wf(),
            r.0.duration_nanos == duration_nanos,
            duration_nanos == 0 ==> r.0.phase is Finished && r.1 == SamplerStep::Done(Err(PowerError::InvalidArgument)),
            duration_nanos > 0 ==> r.0.phase is AwaitingFirst && r.1 is TakeSample,
    {
        if duration_nanos == 0 {
            (PowerSampler { duration_nanos, phase: SamplerPhase::Finished }, SamplerStep::Done(Err(PowerError::InvalidArgument)))
        } else {
            (PowerSampler { duration_nanos, phase: SamplerPhase::AwaitingFirst }, SamplerStep::TakeSample)
        }
    }

    /// Takes in a sample, or the failure to take one.
    pub fn on_sample(self, cpu: &Cpu, sample: Result<EnergySample, RegisterAccessError>) -> (r: (PowerSampler, SamplerStep))
        requires
            self.wf(),
            self.phase is AwaitingFirst || self.phase is AwaitingSecond,
            sample matches Ok(s) ==> s.wf() && s.cores@.len() == cpu.core_msr@.len(),
            self.phase matches SamplerPhase::AwaitingSecond(b) ==> b.cores@.len() == cpu.core_msr@.len(),
        ensures
            r.0.wf(),
            r.0.duration_nanos == self.duration_nanos,
            sample matches Err(e) ==> r.0.phase is Finished && r.1 == SamplerStep::Done(Err(PowerError::RegisterAccess(e))),
            sample matches Ok(s) ==> (self.phase is AwaitingFirst ==> r.0.phase == SamplerPhase::Sleeping(s) && r.1 == SamplerStep::Sleep(self.duration_nanos)),
            sample matches Ok(s) ==> (self.phase matches SamplerPhase::AwaitingSecond(b) ==> {
                &&& r.0.phase is Finished
                &&& r.1 matches SamplerStep::Done(res)
                &&& res is Err <==> sample_went_back(b, s)
                &&& res matches Err(e) ==> e == PowerError::Wraparound
                &&& res matches Ok(p) ==> {
                    &&& p.package == watts_between(b.package, s.package, self.duration_nanos)
                    &&& p.cores@.len() == b.cores@.len()
                    &&& forall|i: int| 0 <= i < p.cores@.len() ==> #[trigger] p.cores@[i] == watts_between(b.cores@[i], s.cores@[i], self.duration_nanos)
                }
            }),
    {
        let duration_nanos = self.duration_nanos;
        let done = PowerSampler { duration_nanos, phase: SamplerPhase::Finished };
        match sample {
            Err(e) => (done, SamplerStep::Done(Err(PowerError::RegisterAccess(e)))),
            Ok(s) => match self.phase {
                SamplerPhase::AwaitingSecond(b) => {
                    let res = cpu.power(&b, &s, duration_nanos);
                    (done, SamplerStep::Done(res))
                },
                _ => (PowerSampler { duration_nanos, phase: SamplerPhase::Sleeping(s) }, SamplerStep::Sleep(duration_nanos)),
            },
        }
    }

    /// Takes in the register reads of one sample: the package's words and
    /// each physical core's words, in the order of `cpu.core_msr`. A read that
    /// found less than a whole word ends the measurement.
    pub fn on_reads(self, cpu: &Cpu, package: &RegisterWords, cores: &Vec<RegisterWords>) -> (r: (PowerSampler, SamplerStep))
        requires
            self.wf(),
            self.phase is AwaitingFirst || self.phase is AwaitingSecond,
            cores@.len() == cpu.core_msr@.len(),
            self.phase matches SamplerPhase::AwaitingSecond(b) ==> b.cores@.len() == cpu.core_msr@.len(),
        ensures
            r.0.wf(),
            r.0.duration_nanos == self.duration_nanos,
            !reads_complete(*package, cores@) ==> r.0.phase is Finished && r.1 == SamplerStep::Done(
                Err(PowerError::RegisterAccess(RegisterAccessError::ShortRead)),
            ),
            reads_complete(*package, cores@) && self.phase is AwaitingFirst ==> {
                &&& r.1 == SamplerStep::Sleep(self.duration_nanos)
                &&& r.0.phase matches SamplerPhase::Sleeping(s)
                &&& s.package == words_value(*package)
                &&& s.cores@.len() == cores@.len()
                &&& forall|i: int| 0 <= i < cores@.len() ==> #[trigger] s.cores@[i] == words_value(cores@[i])
            },
            reads_complete(*package, cores@) ==> (self.phase matches SamplerPhase::AwaitingSecond(b) ==> {
                &&& r.0.phase is Finished
                &&& r.1 matches SamplerStep::Done(res)
                &&& res is Err <==> words_went_back(b, *package, cores@)
                &&& res matches Err(e) ==> e == PowerError::Wraparound
                &&& res matches Ok(p) ==> {
                    &&& p.package == watts_between(b.package, words_value(*package), self.duration_nanos)
                    &&& p.cores@.len() == cores@.len()
                    &&& forall|i: int| 0 <= i < p.cores@.len() ==> #[trigger] p.cores@[i] == watts_between(b.cores@[i], words_value(cores@[i]), self.duration_nanos)
                }
            }),
    {
        let sample = EnergySample::from_words(package, cores);
        proof {
            if sample is Ok {
                let s = sample->Ok_0;
                assert forall|i: int| 0 <= i < cores@.len() implies #[trigger] s.cores@[i] == words_value(cores@[i]) by {
                    assert(words_energy(cores@[i]) == Ok::<Energy, RegisterAccessError>(s.cores@[i]));
                }
                if self.phase is AwaitingSecond {
                    let b = self.phase->AwaitingSecond_0;
                    assert(sample_went_back(b, s) == words_went_back(b, *package, cores@)) by {
                        if sample_went_back(b, s) && !went_back(b.package, s.package) {
                            let i = choose|i: int| 0 <= i < b.cores@.len() && #[trigger] went_back(b.cores@[i], s.cores@[i]);
                            assert(s.cores@[i] == words_value(cores@[i]));
                        }
                        if words_went_back(b, *package, cores@) && !went_back(b.package, s.package) {
                            let i = choose|i: int| 0 <= i < b.cores@.len() && #[trigger] went_back(b.cores@[i], words_value(cores@[i]));
                            assert(s.cores@[i] == words_value(cores@[i]));
                        }
                    }
                }
            }
        }
        self.on_sample(cpu, sample)
    }

    /// Takes in that the sleep is over.
    pub fn on_woken(self) -> (r: (PowerSampler, SamplerStep))
        requires
            self.wf(),
            self.phase is Sleeping,
        ensures
            r.0.wf(),
            r.0.duration_nanos == self.duration_nanos,
            self.phase matches SamplerPhase::Sleeping(s) ==> r.0.phase == SamplerPhase::AwaitingSecond(s),
            r.1 is TakeSample,
    {
        let duration_nanos = self.duration_nanos;
        match self.phase {
            SamplerPhase::Sleeping(s) => (PowerSampler { duration_nanos, phase: SamplerPhase::AwaitingSecond(s) }, SamplerStep::TakeSample),
            _ => (PowerSampler { duration_nanos, phase: SamplerPhase::Finished }, SamplerStep::TakeSample),
        }
    }
}

} // verus!
