use msr_power::msr::{Energy, RegisterAccessError};
use msr_power::power::{
    cores_total, power_between, Cpu, EnergySample, PowerError, PowerSampler, RegisterWords,
    SamplerPhase, SamplerStep, Watts,
};
use msr_power::topology::Topology;

const SECOND: u64 = 1_000_000_000;

fn watts(w: &Watts) -> f64 {
    w.energy as f64 / (1u64 << 31) as f64 / (w.nanos as f64 / 1e9)
}

fn joules(j: u64) -> Energy {
    Energy { raw: j, unit: 0 }
}

fn words(counter: u64, units: u64) -> RegisterWords {
    RegisterWords { counter: counter.to_le_bytes().to_vec(), units: units.to_le_bytes().to_vec() }
}

fn cpu(logical: u32, physical: u32) -> Cpu {
    Cpu::from_topology(Topology {
        smt_enabled: logical != physical,
        logical_core_count: logical,
        physical_core_count: physical,
        physical_core_ids: (0..physical).collect(),
    })
}

#[test]
fn fifty_joules_in_one_second() {
    let w = power_between(&joules(100), &joules(150), SECOND).unwrap();
    assert_eq!(w, Watts { energy: 50u128 << 31, nanos: SECOND });
    assert_eq!(watts(&w), 50.0);
}

#[test]
fn fifty_joules_in_two_seconds() {
    let w = power_between(&joules(100), &joules(150), 2 * SECOND).unwrap();
    assert_eq!(w.energy * 1_000_000_000, 25 * (1u128 << 31) * w.nanos as u128);
    assert_eq!(watts(&w), 25.0);
}

#[test]
fn units_may_differ_between_samples() {
    // 100 J as 2^-1 J counts, then 150 J as 2^-2 J counts
    let before = Energy { raw: 200, unit: 1 };
    let after = Energy { raw: 600, unit: 2 };
    let w = power_between(&before, &after, SECOND).unwrap();
    assert_eq!(watts(&w), 50.0);
}

#[test]
fn counter_going_back_is_wraparound() {
    assert_eq!(
        power_between(&joules(150), &joules(100), SECOND),
        Err(PowerError::Wraparound)
    );
    let w = power_between(&joules(7), &joules(7), SECOND).unwrap();
    assert_eq!(w.energy, 0);
}

#[test]
fn cores_total_scaled_by_smt_ratio() {
    let ten = Watts { energy: 10u128 << 31, nanos: SECOND };
    let cores = vec![ten, ten, ten, ten];
    let t = cores_total(&cores, SECOND, 8, 4);
    assert_eq!(t.sum, Watts { energy: 40u128 << 31, nanos: SECOND });
    assert_eq!(watts(&t.sum) * t.logical as f64 / t.physical as f64, 80.0);
}

#[test]
fn cores_total_without_smt_is_plain_sum() {
    let ten = Watts { energy: 10u128 << 31, nanos: SECOND };
    let cores = vec![ten, ten, ten, ten];
    let t = cores_total(&cores, SECOND, 4, 4);
    assert_eq!(watts(&t.sum) * t.logical as f64 / t.physical as f64, 40.0);
    let none = cores_total(&Vec::new(), SECOND, 4, 4);
    assert_eq!(none.sum.energy, 0);
}

#[test]
fn cpu_has_one_register_file_per_physical_core() {
    let c = cpu(8, 4);
    assert_eq!(c.core_msr.len(), 4);
    for (i, m) in c.core_msr.iter().enumerate() {
        assert_eq!(m.core as usize, i);
        assert_eq!(m.path, format!("/dev/cpu/{}/msr", i));
    }
    assert_eq!(c.core_count, 8);
    assert_eq!(c.physical_core_count, 4);
    assert!(c.smt_enabled);
    assert_eq!(Cpu::get_msr_info(&Vec::new()).len(), 0);
}

#[test]
fn register_files_are_keyed_by_least_sibling() {
    let c = Cpu::from_topology(Topology {
        smt_enabled: true,
        logical_core_count: 4,
        physical_core_count: 2,
        physical_core_ids: vec![0, 2],
    });
    let cores: Vec<u32> = c.core_msr.iter().map(|m| m.core).collect();
    assert_eq!(cores, vec![0, 2]);
    assert_eq!(c.core_msr[1].path, "/dev/cpu/2/msr");
}

#[test]
fn measurement_from_register_reads() {
    let c = cpu(2, 2);
    let (s, _) = PowerSampler::start(SECOND);
    let (s, step) = s.on_reads(&c, &words(100, 0), &vec![words(10, 0), words(20, 0x0100)]);
    assert!(matches!(step, SamplerStep::Sleep(n) if n == SECOND));
    let (s, _) = s.on_woken();
    let (s, step) = s.on_reads(&c, &words(130, 0), &vec![words(15, 0), words(60, 0x0100)]);
    assert!(matches!(s.phase, SamplerPhase::Finished));
    match step {
        SamplerStep::Done(Ok(r)) => {
            assert_eq!(watts(&r.package), 30.0);
            assert_eq!(watts(&r.cores[0]), 5.0);
            assert_eq!(watts(&r.cores[1]), 20.0);
        }
        other => panic!("unexpected step {:?}", other),
    }
}

#[test]
fn short_read_ends_measurement() {
    let c = cpu(2, 2);
    let short = RegisterWords { counter: vec![1, 2, 3], units: 0u64.to_le_bytes().to_vec() };
    let (s, _) = PowerSampler::start(SECOND);
    let (s, _) = s.on_reads(&c, &words(100, 0), &vec![words(10, 0), words(20, 0)]);
    let (s, _) = s.on_woken();
    let (s, step) = s.on_reads(&c, &words(130, 0), &vec![words(15, 0), short]);
    assert!(matches!(s.phase, SamplerPhase::Finished));
    assert!(matches!(
        step,
        SamplerStep::Done(Err(PowerError::RegisterAccess(RegisterAccessError::ShortRead)))
    ));
}

#[test]
fn sample_from_register_words() {
    let s = EnergySample::from_words(&words(100, 0), &vec![words(5, 0x0100), words(6, 0x0200)]).unwrap();
    assert_eq!(s.package, Energy { raw: 100, unit: 0 });
    assert_eq!(s.cores, vec![Energy { raw: 5, unit: 1 }, Energy { raw: 6, unit: 2 }]);
}

#[test]
fn short_read_voids_whole_sample() {
    let short = RegisterWords { counter: vec![1, 2, 3], units: 0u64.to_le_bytes().to_vec() };
    let r = EnergySample::from_words(&words(100, 0), &vec![words(5, 0), short, words(6, 0)]);
    assert_eq!(r.unwrap_err(), RegisterAccessError::ShortRead);
    let r = EnergySample::from_words(&RegisterWords { counter: vec![], units: vec![] }, &vec![]);
    assert_eq!(r.unwrap_err(), RegisterAccessError::ShortRead);
}

#[test]
fn zero_duration_is_refused_before_any_read() {
    let (s, step) = PowerSampler::start(0);
    assert!(matches!(step, SamplerStep::Done(Err(PowerError::InvalidArgument))));
    assert!(matches!(s.phase, SamplerPhase::Finished));
    let c = cpu(2, 2);
    let a = EnergySample { package: joules(1), cores: vec![joules(1), joules(1)] };
    let b = EnergySample { package: joules(2), cores: vec![joules(2), joules(2)] };
    assert_eq!(c.power(&a, &b, 0).unwrap_err(), PowerError::InvalidArgument);
}

#[test]
fn measurement_runs_sample_sleep_sample() {
    let c = cpu(4, 2);
    let (s, step) = PowerSampler::start(2 * SECOND);
    assert!(matches!(step, SamplerStep::TakeSample));
    let first = EnergySample { package: joules(100), cores: vec![joules(10), joules(20)] };
    let (s, step) = s.on_sample(&c, Ok(first));
    assert!(matches!(step, SamplerStep::Sleep(n) if n == 2 * SECOND));
    let (s, step) = s.on_woken();
    assert!(matches!(step, SamplerStep::TakeSample));
    let second = EnergySample { package: joules(150), cores: vec![joules(14), joules(20)] };
    let (s, step) = s.on_sample(&c, Ok(second));
    assert!(matches!(s.phase, SamplerPhase::Finished));
    match step {
        SamplerStep::Done(Ok(r)) => {
            assert_eq!(watts(&r.package), 25.0);
            assert_eq!(r.cores.len(), 2);
            assert_eq!(watts(&r.cores[0]), 2.0);
            assert_eq!(watts(&r.cores[1]), 0.0);
        }
        other => panic!("unexpected step {:?}", other),
    }
}

#[test]
fn failed_read_ends_measurement() {
    let c = cpu(2, 2);
    let (s, _) = PowerSampler::start(SECOND);
    let (s, step) = s.on_sample(&c, Err(RegisterAccessError::ShortRead));
    assert!(matches!(s.phase, SamplerPhase::Finished));
    assert!(matches!(
        step,
        SamplerStep::Done(Err(PowerError::RegisterAccess(RegisterAccessError::ShortRead)))
    ));
    let (s, _) = PowerSampler::start(SECOND);
    let first = EnergySample { package: joules(1), cores: vec![joules(1), joules(1)] };
    let (s, _) = s.on_sample(&c, Ok(first));
    let (s, _) = s.on_woken();
    let (_, step) = s.on_sample(&c, Err(RegisterAccessError::Unavailable));
    assert!(matches!(
        step,
        SamplerStep::Done(Err(PowerError::RegisterAccess(RegisterAccessError::Unavailable)))
    ));
}

#[test]
fn wraparound_ends_measurement() {
    let c = cpu(2, 2);
    let (s, _) = PowerSampler::start(SECOND);
    let (s, _) = s.on_sample(&c, Ok(EnergySample { package: joules(5), cores: vec![joules(9), joules(1)] }));
    let (s, _) = s.on_woken();
    let (_, step) = s.on_sample(&c, Ok(EnergySample { package: joules(6), cores: vec![joules(3), joules(2)] }));
    assert!(matches!(step, SamplerStep::Done(Err(PowerError::Wraparound))));
}
