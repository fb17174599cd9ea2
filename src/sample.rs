use vstd::prelude::*;
use vstd::string::StringSliceAdditionalSpecFns;

verus! {

/// The container variant: 16-bit samples (EDF+) or 24-bit samples (BDF+).
#[derive(Debug, Clone, Copy, PartialEq, Eq, Structural)]
pub enum Filetype {
    EDF,
    BDF,
}

impl Filetype {
    /// Bytes per stored sample.
    pub open spec fn spec_width(self) -> nat {
        match self {
            Filetype::EDF => 2,
            Filetype::BDF => 3,
        }
    }

    /// The variant named by a file extension: `bdf` selects BDF+, anything else EDF+.
    pub fn from(ext: &str) -> (r: Filetype)
        ensures
            ext.spec_bytes() == seq![98u8, 100u8, 102u8] ==> r == Filetype::BDF,
            ext.spec_bytes() != seq![98u8, 100u8, 102u8] ==> r == Filetype::EDF,
    {
        let b = ext.as_bytes();
        if b.len() == 3 && b[0] == 98 && b[1] == 100 && b[2] == 102 {
            assert(b@ =~= seq![98u8, 100u8, 102u8]);
            Filetype::BDF
        } else {
            Filetype::EDF
        }
    }

    /// The file extension of the variant.
    pub fn as_str(&self) -> (r: &'static str)
        ensures
            *self == Filetype::EDF ==> r@ == "edf"@,
            *self == Filetype::BDF ==> r@ == "bdf"@,
    {
        match self {
            Filetype::EDF => "edf",
            Filetype::BDF => "bdf",
        }
    }

    /// Bytes per stored sample.
    pub fn width(&self) -> (r: usize)
        ensures
            r == self.spec_width(),
    {
        match self {
            Filetype::EDF => 2,
            Filetype::BDF => 3,
        }
    }

    /// The smallest code a sample of this variant can hold.
    pub fn digital_floor(&self) -> (r: i32)
        ensures
            r == min_code(self.spec_width()),
    {
        proof {
            reveal_with_fuel(modulus, 4);
        }
        match self {
            Filetype::EDF => -32768,
            Filetype::BDF => -8388608,
        }
    }

    /// The largest code a sample of this variant can hold.
    pub fn digital_ceiling(&self) -> (r: i32)
        ensures
            r == max_code(self.spec_width()),
    {
        proof {
            reveal_with_fuel(modulus, 4);
        }
        match self {
            Filetype::EDF => 32767,
            Filetype::BDF => 8388607,
        }
    }
}

/// `256` to the power `w`.
pub open spec fn modulus(w: nat) -> int
    decreases w,
{
    if w == 0 {
        1
    } else {
        256 * modulus((w - 1) as nat)
    }
}

pub open spec fn min_code(w: nat) -> int {
    -(modulus(w) / 2)
}

pub open spec fn max_code(w: nat) -> int {
    modulus(w) / 2 - 1
}

/// The `w` low bytes of `u`, least significant first.
pub open spec fn le_bytes(u: int, w: nat) -> Seq<u8>
    decreases w,
{
    if w == 0 {
        Seq::empty()
    } else {
        seq![(u % 256) as u8] + le_bytes(u / 256, (w - 1) as nat)
    }
}

/// The unsigned number whose little-endian bytes are `s`.
pub open spec fn le_value(s: Seq<u8>) -> int
    decreases s.len(),
{
    if s.len() == 0 {
        0
    } else {
        s[0] + 256 * le_value(s.subrange(1, s.len() as int))
    }
}

/// The two's complement bytes of a code, `w` of them, least significant first.
pub open spec fn sample_bytes(code: int, w: nat) -> Seq<u8> {
    le_bytes(
        if code < 0 {
            code + modulus(w)
        } else {
            code
        },
        w,
    )
}

/// The code that the two's complement bytes `s` hold.
pub open spec fn sample_value(s: Seq<u8>) -> int {
    let u = le_value(s);
    let m = modulus(s.len());
    if u >= m / 2 {
        u - m
    } else {
        u
    }
}

pub proof fn lemma_le_round_trip(u: int, w: nat)
    requires
        0 <= u < modulus(w),
    ensures
        le_bytes(u, w).len() == w,
        le_value(le_bytes(u, w)) == u,
    decreases w,
{
    if w > 0 {
        assert(u / 256 < modulus((w - 1) as nat));
        lemma_le_round_trip(u / 256, (w - 1) as nat);
        let s = le_bytes(u, w);
        assert(s.subrange(1, s.len() as int) =~= le_bytes(u / 256, (w - 1) as nat));
    }
}

/// A code in the range of a sample width is read back from its bytes unchanged.
pub proof fn lemma_sample_round_trip(code: int, w: nat)
    requires
        w == 2 || w == 3,
        min_code(w) <= code <= max_code(w),
    ensures
        sample_bytes(code, w).len() == w,
        sample_value(sample_bytes(code, w)) == code,
{
    reveal_with_fuel(modulus, 4);
    let u = if code < 0 {
        code + modulus(w)
    } else {
        code
    };
    lemma_le_round_trip(u, w);
}

/// Appends the bytes of one sample.
pub fn push_sample(out: &mut Vec<u8>, code: i32, w: usize)
    requires
        w == 2 || w == 3,
        min_code(w as nat) <= code <= max_code(w as nat),
    ensures
        final(out)@ == old(out)@ + sample_bytes(code as int, w as nat),
{
    proof {
        reveal_with_fuel(modulus, 4);
        reveal_with_fuel(le_bytes, 4);
    }
    let u: u32 = if code < 0 {
        if w == 2 {
            (code + 65536) as u32
        } else {
            (code + 16777216) as u32
        }
    } else {
        code as u32
    };
    out.push((u % 256) as u8);
    out.push(((u / 256) % 256) as u8);
    if w == 3 {
        out.push(((u / 65536) % 256) as u8);
    }
    assert(final(out)@ =~= old(out)@ + sample_bytes(code as int, w as nat));
}

/// Reads the sample whose `w` bytes start at `pos`.
pub fn read_sample(bytes: &Vec<u8>, pos: usize, w: usize) -> (r: i32)
    requires
        w == 2 || w == 3,
        pos + w <= bytes@.len(),
    ensures
        r == sample_value(bytes@.subrange(pos as int, pos + w)),
{
    let n = bytes.len();
    let s = Ghost(bytes@.subrange(pos as int, pos + w));
    proof {
        reveal_with_fuel(modulus, 4);
        reveal_with_fuel(le_value, 4);
    }
    let b0 = bytes[pos] as i32;
    let b1 = bytes[pos + 1] as i32;
    if w == 2 {
        assert(s@.subrange(1, 2).subrange(1, 1) =~= Seq::<u8>::empty());
        let u = b0 + 256 * b1;
        if u >= 32768 {
            u - 65536
        } else {
            u
        }
    } else {
        assert(s@.subrange(1, 3).subrange(1, 2) =~= s@.subrange(2, 3));
        assert(s@.subrange(2, 3).subrange(1, 1) =~= Seq::<u8>::empty());
        let b2 = bytes[pos + 2] as i32;
        let u = b0 + 256 * b1 + 65536 * b2;
        if u >= 8388608 {
            u - 16777216
        } else {
            u
        }
    }
}

} // verus!
