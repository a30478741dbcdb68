use vstd::prelude::*;

use crate::api::config::{ChromaSamplePosition, ChromaSampling, Config, EncoderConfig};
use crate::bitwriter::{
    byte_of, into_bytes, msb_bits, new_bit_writer, pack_bytes, write_bit, write_bits, written_bits,
    BitSink,
};

verus! {

/// The sequence-level parameters of the coded stream.
#[derive(Clone, Copy, Debug, PartialEq, Eq, Structural)]
pub struct Sequence {
    /// AV1 profile: 0 main, 1 high, 2 professional.
    pub profile: u8,
    /// Bits per sample.
    pub bit_depth: usize,
    /// Chroma subsampling.
    pub chroma_sampling: ChromaSampling,
    /// Chroma sample position.
    pub chroma_sample_position: ChromaSamplePosition,
}

/// The AV1 profile that a bit depth and chroma subsampling need.
pub open spec fn profile_for(bit_depth: usize, cs: ChromaSampling) -> u8 {
    if bit_depth == 12 || cs == ChromaSampling::Cs422 {
        2
    } else if cs == ChromaSampling::Cs444 {
        1
    } else {
        0
    }
}

/// The sequence parameters of an encoder configuration.
pub open spec fn sequence_of(config: EncoderConfig) -> Sequence {
    Sequence {
        profile: profile_for(config.bit_depth, config.chroma_sampling),
        bit_depth: config.bit_depth,
        chroma_sampling: config.chroma_sampling,
        chroma_sample_position: config.chroma_sample_position,
    }
}

impl Sequence {
    /// The sequence parameters of an encoder configuration.
    pub fn new(config: &EncoderConfig) -> (s: Sequence)
        ensures
            s == sequence_of(*config),
    {
        let profile = if config.bit_depth == 12 || config.chroma_sampling == ChromaSampling::Cs422 {
            2
        } else if config.chroma_sampling == ChromaSampling::Cs444 {
            1
        } else {
            0
        };
        Sequence {
            profile,
            bit_depth: config.bit_depth,
            chroma_sampling: config.chroma_sampling,
            chroma_sample_position: config.chroma_sample_position,
        }
    }
}

/// The stream has no chroma planes.
pub open spec fn monochrome(s: Sequence) -> bool {
    s.chroma_sampling == ChromaSampling::Cs400
}

/// Chroma is subsampled horizontally: all but 4:4:4 (monochrome counts as
/// subsampled both ways).
pub open spec fn subsampled_x(s: Sequence) -> bool {
    s.chroma_sampling != ChromaSampling::Cs444
}

/// Chroma is subsampled vertically: 4:2:0 and monochrome.
pub open spec fn subsampled_y(s: Sequence) -> bool {
    s.chroma_sampling == ChromaSampling::Cs420 || s.chroma_sampling == ChromaSampling::Cs400
}

/// The chroma sample position code of the record: 1 vertical, 2
/// co-located, for 4:2:0 only; 0 (unknown) otherwise.
pub open spec fn sample_position_code(s: Sequence) -> u32 {
    if s.chroma_sampling == ChromaSampling::Cs420 {
        match s.chroma_sample_position {
            ChromaSamplePosition::Unknown => 0,
            ChromaSamplePosition::Vertical => 1,
            ChromaSamplePosition::Colocated => 2,
        }
    } else {
        0
    }
}

/// The chroma sample position code of the record for `seq`.
fn sample_position(seq: &Sequence) -> (code: u32)
    ensures
        code == sample_position_code(*seq),
{
    if seq.chroma_sampling == ChromaSampling::Cs420 {
        match seq.chroma_sample_position {
            ChromaSamplePosition::Unknown => 0,
            ChromaSamplePosition::Vertical => 1,
            ChromaSamplePosition::Colocated => 2,
        }
    } else {
        0
    }
}

/// The bits of the AV1 codec configuration record for `s`, field by
/// field: marker, version, profile, level, tier, high bit depth, twelve bit,
/// monochrome, chroma subsampling x and y, chroma sample position,
/// reserved, no initial presentation delay, reserved.
pub open spec fn header_bits(s: Sequence) -> Seq<bool> {
    seq![true] + msb_bits(7, 1) + msb_bits(3, s.profile as int) + msb_bits(5, 31) + seq![false]
        + seq![s.bit_depth > 8] + seq![s.bit_depth == 12] + seq![monochrome(s)] + seq![
        subsampled_x(s),
    ] + seq![subsampled_y(s)] + msb_bits(2, sample_position_code(s) as int) + msb_bits(3, 0)
        + seq![false] + msb_bits(4, 0)
}

/// 1 for `true`, 0 for `false`.
pub open spec fn flag(b: bool) -> int {
    if b {
        1
    } else {
        0
    }
}

/// The four bytes of the AV1 codec configuration record for `s`.
pub open spec fn container_header_bytes(s: Sequence) -> Seq<u8> {
    seq![
        0x81u8,
        (s.profile * 32 + 31) as u8,
        (flag(s.bit_depth > 8) * 64 + flag(s.bit_depth == 12) * 32 + flag(monochrome(s)) * 16
            + flag(subsampled_x(s)) * 8 + flag(subsampled_y(s)) * 4 + sample_position_code(s)) as u8,
        0u8,
    ]
}

/// The header bits fill exactly the four bytes of the record.
pub proof fn lemma_header_bytes(s: Sequence)
    requires
        s.profile <= 2,
    ensures
        pack_bytes(header_bits(s)) == container_header_bytes(s),
{
    reveal_with_fuel(msb_bits, 8);
    let b = header_bits(s);
    assert(b.len() == 32);
    reveal_with_fuel(pack_bytes, 5);
    let b1 = b.skip(8);
    let b2 = b1.skip(8);
    let b3 = b2.skip(8);
    assert(b3.skip(8).len() == 0);
    assert(b.take(8) =~= seq![true, false, false, false, false, false, false, true]);
    assert(byte_of(b.take(8)) == 0x81);
    if s.profile == 0 {
        assert(b1.take(8) =~= seq![false, false, false, true, true, true, true, true]);
    } else if s.profile == 1 {
        assert(b1.take(8) =~= seq![false, false, true, true, true, true, true, true]);
    } else {
        assert(b1.take(8) =~= seq![false, true, false, true, true, true, true, true]);
    }
    let p = sample_position_code(s);
    let (p1, p0) = if p == 0 {
        (false, false)
    } else if p == 1 {
        (false, true)
    } else {
        (true, false)
    };
    assert(b2.take(8) =~= seq![
        false,
        s.bit_depth > 8,
        s.bit_depth == 12,
        monochrome(s),
        subsampled_x(s),
        subsampled_y(s),
        p1,
        p0,
    ]);
    assert(b3.take(8) =~= seq![false, false, false, false, false, false, false, false]);
    assert(pack_bytes(b) =~= container_header_bytes(s));
}

/// Writes the codec configuration record of `seq` bit by bit.
fn sequence_header_inner(seq: &Sequence) -> (r: Result<Vec<u8>, std::io::Error>)
    requires
        seq.profile <= 2,
    ensures
        r matches Ok(buf) && buf@ == pack_bytes(header_bits(*seq)),
{
    proof {
        vstd::arithmetic::power2::lemma2_to64();
    }
    let mut bw = new_bit_writer();
    write_bit(&mut bw, true)?;  // marker
    write_bits(&mut bw, 7, 1)?;  // version
    write_bits(&mut bw, 3, seq.profile as u32)?;
    write_bits(&mut bw, 5, 31)?;  // level
    write_bit(&mut bw, false)?;  // tier
    write_bit(&mut bw, seq.bit_depth > 8)?;  // high_bitdepth
    write_bit(&mut bw, seq.bit_depth == 12)?;  // twelve_bit
    write_bit(&mut bw, seq.chroma_sampling == ChromaSampling::Cs400)?;  // monochrome
    write_bit(&mut bw, seq.chroma_sampling != ChromaSampling::Cs444)?;  // chroma_subsampling_x
    write_bit(
        &mut bw,
        seq.chroma_sampling == ChromaSampling::Cs420 || seq.chroma_sampling == ChromaSampling::Cs400,
    )?;  // chroma_subsampling_y
    write_bits(&mut bw, 2, sample_position(seq))?;  // chroma_sample_position
    write_bits(&mut bw, 3, 0)?;  // reserved
    write_bit(&mut bw, false)?;  // initial_presentation_delay_present
    write_bits(&mut bw, 4, 0)?;  // reserved
    assert(written_bits(bw) =~= header_bits(*seq));
    Ok(into_bytes(bw))
}

/// The record's fields, bit by bit, in terms of the settings: marker and
/// version 1; the profile (2 for 12-bit or 4:2:2, 1 for 4:4:4, else 0) and
/// level 31; high bit depth above 8 bits, twelve bit at 12 bits, monochrome
/// for 4:0:0, horizontal subsampling for all but 4:4:4, vertical
/// subsampling for 4:2:0 and 4:0:0; a chroma sample position (1 vertical,
/// 2 co-located) only for 4:2:0, else 0; the last byte zero.
pub proof fn lemma_header_fields(enc: EncoderConfig)
    ensures
        ({
            let h = container_header_bytes(sequence_of(enc));
            let cs = enc.chroma_sampling;
            let bd = enc.bit_depth;
            &&& h.len() == 4
            &&& h[0] == 0x81
            &&& h[1] == (if bd == 12 || cs == ChromaSampling::Cs422 {
                2int
            } else if cs == ChromaSampling::Cs444 {
                1int
            } else {
                0int
            }) * 32 + 31
            &&& h[2] < 128
            &&& ((h[2] / 64) % 2 == 1) == (bd > 8)
            &&& ((h[2] / 32) % 2 == 1) == (bd == 12)
            &&& ((h[2] / 16) % 2 == 1) == (cs == ChromaSampling::Cs400)
            &&& ((h[2] / 8) % 2 == 1) == (cs != ChromaSampling::Cs444)
            &&& ((h[2] / 4) % 2 == 1) == (cs == ChromaSampling::Cs420 || cs == ChromaSampling::Cs400)
            &&& h[2] % 4 == (if cs == ChromaSampling::Cs420 {
                match enc.chroma_sample_position {
                    ChromaSamplePosition::Unknown => 0int,
                    ChromaSamplePosition::Vertical => 1int,
                    ChromaSamplePosition::Colocated => 2int,
                }
            } else {
                0int
            })
            &&& h[3] == 0
        }),
{
    let s = sequence_of(enc);
    let a = flag(s.bit_depth > 8);
    let b = flag(s.bit_depth == 12);
    let c = flag(monochrome(s));
    let d = flag(subsampled_x(s));
    let e = flag(subsampled_y(s));
    let p = sample_position_code(s) as int;
    assert(0 <= p <= 2);
    let v = a * 64 + b * 32 + c * 16 + d * 8 + e * 4 + p;
    assert(0 <= v < 128);
    assert(v / 64 == a && (v / 32) % 2 == b && (v / 16) % 2 == c && (v / 8) % 2 == d && (v / 4) % 2
        == e && v % 4 == p) by (nonlinear_arith)
        requires
            0 <= a <= 1,
            0 <= b <= 1,
            0 <= c <= 1,
            0 <= d <= 1,
            0 <= e <= 1,
            0 <= p <= 2,
            v == a * 64 + b * 32 + c * 16 + d * 8 + e * 4 + p,
    ;
}

impl Config {
    /// Produces a sequence header matching the current encoding context,
    /// in the form of the AV1 codec configuration record of the Matroska and
    /// ISOBMFF mappings, without configuration OBUs.
    pub fn container_sequence_header(&self) -> (header: Vec<u8>)
        ensures
            header@ == container_header_bytes(sequence_of(self.enc)),
            self.enc.chroma_sampling != ChromaSampling::Cs420 ==> header@[2] % 4 == 0,
            ((header@[2] / 16) % 2 == 1) == (self.enc.chroma_sampling == ChromaSampling::Cs400),
            ((header@[2] / 4) % 2 == 1) == (self.enc.chroma_sampling == ChromaSampling::Cs420
                || self.enc.chroma_sampling == ChromaSampling::Cs400),
            ((header@[2] / 8) % 2 == 1) == (self.enc.chroma_sampling != ChromaSampling::Cs444),
    {
        let seq = Sequence::new(&self.enc);
        proof {
            lemma_header_bytes(seq);
            lemma_header_fields(self.enc);
        }
        match sequence_header_inner(&seq) {
            Ok(buf) => buf,
            Err(_) => {
                assert(false);
                Vec::new()
            },
        }
    }
}

} // verus!
