//! One physical core's model-specific registers: where they live, how a raw
//! word is read from the device's bytes, and how counts become energy.
use vstd::prelude::*;
use vstd::arithmetic::power2::{pow2, lemma_pow2_adds, lemma_pow2_unfold, lemma_pow2_strictly_increases, lemma2_to64, lemma2_to64_rest};
use crate::text::{decimal, decimal_of};

verus! {

/// Absolute offset of the power-unit register.
pub const POWER_UNIT_OFFSET: u64 = 0xC0010299;

/// Absolute offset of a core's energy counter.
pub const CORE_ENERGY_OFFSET: u64 = 0xC001029A;

/// Absolute offset of the package's energy counter.
pub const PACKAGE_ENERGY_OFFSET: u64 = 0xC001029B;

/// Bits 8 to 12 of the power-unit register hold the energy-unit exponent.
pub const ENERGY_UNIT_MASK: u64 = 0x1F00;

/// A register is one 64-bit word.
pub const REGISTER_BYTES: usize = 8;

/// Energies are compared in counts of `2^-FINE_BITS` joules, the finest unit
/// that the five-bit exponent can name.
pub const FINE_BITS: u32 = 31;

/// Why a register could not be read.
#[derive(Debug, Clone, Copy, PartialEq, Eq, Structural)]
pub enum RegisterAccessError {
    /// The device could not be opened or read (module not loaded, no privilege).
    Unavailable,
    /// Fewer than eight bytes were available at the offset.
    ShortRead,
}

/// The exponent of the energy unit held in a power-unit register value.
pub open spec fn energy_unit_of(units: u64) -> nat {
    ((units / 256) % 32) as nat
}

/// Decodes the energy-unit exponent `u` from the power-unit register; one raw
/// count of an energy counter is `2^-u` joules.
pub fn energy_unit_exponent(units: u64) -> (r: u32)
    ensures
        r as nat == energy_unit_of(units),
        r < 32,
{
    let u = (units & ENERGY_UNIT_MASK) >> 8u64;
    assert((units & 0x1F00u64) >> 8u64 == (units / 256) % 32) by (bit_vector);
    u as u32
}

/// The number that bytes hold, least significant byte first.
pub open spec fn le_word(b: Seq<u8>) -> nat
    decreases b.len(),
{
    if b.len() == 0 {
        0
    } else {
        b[0] as nat + 256 * le_word(b.drop_first())
    }
}

/// What reading a register yields from the bytes found at its offset.
pub open spec fn register_value(b: Seq<u8>) -> Result<u64, RegisterAccessError> {
    if b.len() < 8 {
        Err(RegisterAccessError::ShortRead)
    } else {
        Ok(le_word(b.subrange(0, 8)) as u64)
    }
}

/// Turns the bytes read at a register's offset into the register's word.
/// The register devices exist on x86 only, whose byte order is little-endian.
pub fn decode_register(bytes: &[u8]) -> (r: Result<u64, RegisterAccessError>)
    ensures
        r == register_value(bytes@),
{
    if bytes.len() < REGISTER_BYTES {
        return Err(RegisterAccessError::ShortRead);
    }
    let ghost b = bytes@.subrange(0, 8);
    let mut value: u64 = 0;
    let mut i: usize = 8;
    proof {
        lemma2_to64();
        lemma2_to64_rest();
        assert(b.subrange(8, 8) =~= Seq::<u8>::empty());
    }
    while i > 0
        invariant
            0 <= i <= 8 <= bytes@.len(),
            b == bytes@.subrange(0, 8),
            value == le_word(b.subrange(i as int, 8)),
            value < pow2((8 * (8 - i)) as nat),
        decreases i,
    {
        proof {
            lemma_pow2_adds((8 * (8 - i)) as nat, 8);
            if i > 1 {
                lemma_pow2_strictly_increases((8 * (8 - i)) as nat, 56);
            }
            lemma2_to64();
            lemma2_to64_rest();
            assert(b.subrange(i - 1, 8).drop_first() =~= b.subrange(i as int, 8));
        }
        value = bytes[i - 1] as u64 + 256 * value;
        i = i - 1;
    }
    assert(b.subrange(0, 8) =~= b);
    proof {
        lemma2_to64();
    }
    Ok(value)
}

/// An energy reading: `raw` counts of `2^-unit` joules.
#[derive(Debug, Clone, Copy, PartialEq, Eq, Structural)]
pub struct Energy {
    pub raw: u64,
    pub unit: u32,
}

impl Energy {
    pub open spec fn wf(self) -> bool {
        self.unit < 32
    }

    /// The energy in counts of `2^-FINE_BITS` joules; exact, since `unit <= 31`.
    pub open spec fn fine(self) -> nat {
        (self.raw * pow2((31 - self.unit) as nat)) as nat
    }

    /// The energy in counts of `2^-FINE_BITS` joules.
    pub fn fine_count(&self) -> (r: u128)
        requires
            self.wf(),
        ensures
            r == self.fine(),
            r < pow2(95),
    {
        let shift = FINE_BITS - self.unit;
        let mut scale: u128 = 1;
        let mut i: u32 = 0;
        proof {
            lemma2_to64();
        }
        while i < shift
            invariant
                shift == 31 - self.unit,
                i <= shift <= 31,
                scale == pow2(i as nat),
            decreases shift - i,
        {
            proof {
                lemma_pow2_unfold((i + 1) as nat);
                lemma_pow2_strictly_increases(i as nat, 31);
                lemma2_to64();
            }
            scale = scale * 2;
            i = i + 1;
        }
        proof {
            lemma2_to64();
            if shift < 31 {
                lemma_pow2_strictly_increases(shift as nat, 31);
            }
            lemma_pow2_adds(64, 31);
            let r = self.raw as int;
            let s = scale as int;
            assert(r * s < 0x1_0000_0000_0000_0000 * 0x8000_0000) by (nonlinear_arith)
                requires
                    0 <= r < 0x1_0000_0000_0000_0000,
                    0 < s <= 0x8000_0000,
            ;
        }
        self.raw as u128 * scale
    }
}

/// The energy that a counter word and a power-unit word stand for.
pub open spec fn energy_of(counter: u64, units: u64) -> Energy {
    Energy { raw: counter, unit: energy_unit_of(units) as u32 }
}

/// What one reading of a counter and of the power-unit register yields from
/// the bytes found at their offsets: both must be whole words.
pub open spec fn energy_reading(counter: Seq<u8>, units: Seq<u8>) -> Result<Energy, RegisterAccessError> {
    match register_value(counter) {
        Err(e) => Err(e),
        Ok(c) => match register_value(units) {
            Err(e) => Err(e),
            Ok(u) => Ok(energy_of(c, u)),
        },
    }
}

/// A register that yields fewer than eight bytes voids the energy reading
/// that needs it.
pub proof fn law_short_read_fails(counter: Seq<u8>, units: Seq<u8>)
    requires
        counter.len() < 8 || units.len() < 8,
    ensures
        energy_reading(counter, units) == Err::<Energy, RegisterAccessError>(RegisterAccessError::ShortRead),
{
}

/// Converts a counter's bytes to energy with the unit decoded afresh from the
/// power-unit register's bytes.
pub fn energy_from_words(counter: &[u8], units: &[u8]) -> (r: Result<Energy, RegisterAccessError>)
    ensures
        r == energy_reading(counter@, units@),
        r matches Ok(e) ==> e.wf(),
{
    let raw = match decode_register(counter) {
        Ok(v) => v,
        Err(e) => return Err(e),
    };
    let word = match decode_register(units) {
        Ok(v) => v,
        Err(e) => return Err(e),
    };
    let unit = energy_unit_exponent(word);
    Ok(Energy { raw, unit })
}

/// The register file of one physical core, named by the core's index.
#[derive(Debug)]
pub struct Msr {
    pub core: u32,
    pub path: String,
}

/// The register device of core `core`.
pub open spec fn msr_path_of(core: u32) -> Seq<char> {
    "/dev/cpu/"@ + decimal_of(core as nat) + "/msr"@
}

impl Msr {
    pub fn new(core: u32) -> (r: Msr)
        ensures
            r.core == core,
            r.path@ == msr_path_of(core),
    {
        let mut path = String::from_str("/dev/cpu/");
        let number = decimal(core);
        path.append(number.as_str());
        path.append("/msr");
        Msr { core, path }
    }
}

} // verus!
