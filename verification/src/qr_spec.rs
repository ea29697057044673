//! Encoding modes, input alphabets, the alphanumeric codebook and the
//! character-count-indicator capacity table.

use vstd::prelude::*;

verus! {

/// The closed set of QR data-segment encoding modes. Kanji is recognised as
/// a variant but has no encoder: it must never be selected automatically.
#[derive(Debug, Clone, Copy, PartialEq, Eq, Structural)]
pub enum DataMode {
    Numeric,
    Alphanumeric,
    Text,
    Kanji,
}

impl Default for DataMode {
    fn default() -> (m: Self)
        ensures
            m == DataMode::Text,
    {
        Self::Text
    }
}

/// The 4-bit one-hot mode indicator that opens a data segment.
pub open spec fn mode_indicator(m: DataMode) -> u8 {
    match m {
        DataMode::Numeric => 0b0001,
        DataMode::Alphanumeric => 0b0010,
        DataMode::Text => 0b0100,
        DataMode::Kanji => 0b1000,
    }
}

impl DataMode {
    /// The mode's 4-bit one-hot indicator value.
    pub fn encode(&self) -> (r: u8)
        ensures
            r == mode_indicator(*self),
    {
        match self {
            Self::Numeric => 0b0001,
            Self::Alphanumeric => 0b0010,
            Self::Text => 0b0100,
            Self::Kanji => 0b1000,
        }
    }
}

/// Error-correction level of the symbol; carried through unchanged by this
/// layer, to be consumed by downstream error-correction framing.
#[derive(Debug, Clone, Copy)]
pub enum ErrorCorrectionLevel {
    Low,
    Medium,
    Quartile,
    High,
}

impl Default for ErrorCorrectionLevel {
    fn default() -> (l: Self)
        ensures
            l is Low,
    {
        Self::Low
    }
}

/// Membership in the numeric alphabet: the ASCII digits '0'..'9'.
pub open spec fn is_numeric_byte(b: u8) -> bool {
    48 <= b && b <= 57
}

/// Membership in the 45-symbol alphanumeric alphabet: the digits, the
/// uppercase letters, space, and `$ % * + - . / :`.
pub open spec fn is_alphanumeric_byte(b: u8) -> bool {
    ||| is_numeric_byte(b)
    ||| (65 <= b && b <= 90)
    ||| b == 32
    ||| b == 36
    ||| b == 37
    ||| b == 42
    ||| b == 43
    ||| b == 45
    ||| b == 46
    ||| b == 47
    ||| b == 58
}

/// Every byte of the payload is a decimal digit.
pub open spec fn all_numeric(s: Seq<u8>) -> bool {
    forall|i: int| 0 <= i < s.len() ==> is_numeric_byte(#[trigger] s[i])
}

/// Every byte of the payload lies in the alphanumeric alphabet.
pub open spec fn all_alphanumeric(s: Seq<u8>) -> bool {
    forall|i: int| 0 <= i < s.len() ==> is_alphanumeric_byte(#[trigger] s[i])
}

/// The narrowest mode able to carry the payload. An empty payload satisfies
/// the "every byte" tests vacuously and so classifies as Numeric; this quirk
/// is deliberate and kept.
pub open spec fn classify(s: Seq<u8>) -> DataMode {
    if all_numeric(s) {
        DataMode::Numeric
    } else if all_alphanumeric(s) {
        DataMode::Alphanumeric
    } else {
        DataMode::Text
    }
}

/// The alphanumeric codebook: digits map to 0..9, 'A'..'Z' to 10..35, then
/// space 36, '$' 37, '%' 38, '*' 39, '+' 40, '-' 41, '.' 42, '/' 43, ':' 44.
/// Meaningful only on bytes of the alphanumeric alphabet.
pub open spec fn alnum_value(b: u8) -> u8
    recommends
        is_alphanumeric_byte(b),
{
    if is_numeric_byte(b) {
        (b - 48) as u8
    } else if 65 <= b && b <= 90 {
        (b - 55) as u8
    } else if b == 32 {
        36
    } else if b == 36 {
        37
    } else if b == 37 {
        38
    } else if b == 42 {
        39
    } else if b == 43 {
        40
    } else if b == 45 {
        41
    } else if b == 46 {
        42
    } else if b == 47 {
        43
    } else {
        44
    }
}

/// Runtime test for the numeric alphabet.
pub fn byte_is_numeric(b: u8) -> (r: bool)
    ensures
        r == is_numeric_byte(b),
{
    48 <= b && b <= 57
}

/// Runtime test for the alphanumeric alphabet.
pub fn byte_is_alphanumeric(b: u8) -> (r: bool)
    ensures
        r == is_alphanumeric_byte(b),
{
    (48 <= b && b <= 57) || (65 <= b && b <= 90) || b == 32 || b == 36 || b == 37 || b == 42
        || b == 43 || b == 45 || b == 46 || b == 47 || b == 58
}

/// Codebook lookup. A byte outside the alphanumeric alphabet is a caller
/// precondition violation and is excluded up front.
pub fn alphanumeric_lookup(b: u8) -> (v: u8)
    requires
        is_alphanumeric_byte(b),
    ensures
        v == alnum_value(b),
{
    if 48 <= b && b <= 57 {
        b - 48
    } else if 65 <= b && b <= 90 {
        b - 55
    } else if b == 32 {
        36
    } else if b == 36 {
        37
    } else if b == 37 {
        38
    } else if b == 42 {
        39
    } else if b == 43 {
        40
    } else if b == 45 {
        41
    } else if b == 46 {
        42
    } else if b == 47 {
        43
    } else {
        44
    }
}

/// Character-count-indicator bit width by mode and symbol version, over the
/// three version tiers `<= 9`, `10..=26` and `>= 27`.
pub open spec fn count_length_spec(mode: DataMode, version: u8) -> usize {
    if version <= 9 {
        match mode {
            DataMode::Numeric => 10,
            DataMode::Alphanumeric => 9,
            _ => 8,
        }
    } else if version <= 26 {
        match mode {
            DataMode::Numeric => 12,
            DataMode::Alphanumeric => 11,
            DataMode::Text => 16,
            DataMode::Kanji => 10,
        }
    } else {
        match mode {
            DataMode::Numeric => 14,
            DataMode::Alphanumeric => 13,
            DataMode::Text => 16,
            DataMode::Kanji => 12,
        }
    }
}

/// Width of the character-count indicator for `mode` at `version`; pure and
/// total over every mode and every version byte.
pub fn count_length(mode: DataMode, version: u8) -> (n: usize)
    ensures
        n == count_length_spec(mode, version),
{
    if version <= 9 {
        match mode {
            DataMode::Numeric => 10,
            DataMode::Alphanumeric => 9,
            _ => 8,
        }
    } else if version <= 26 {
        match mode {
            DataMode::Numeric => 12,
            DataMode::Alphanumeric => 11,
            DataMode::Text => 16,
            DataMode::Kanji => 10,
        }
    } else {
        match mode {
            DataMode::Numeric => 14,
            DataMode::Alphanumeric => 13,
            DataMode::Text => 16,
            DataMode::Kanji => 12,
        }
    }
}

/// The narrowest capable mode for a byte payload: Numeric when every byte is
/// a digit, else Alphanumeric when every byte is in the 45-symbol alphabet,
/// else Text. Kanji is never selected.
pub fn identify_data_mode(data: &[u8]) -> (m: DataMode)
    ensures
        m == classify(data@),
{
    let mut numeric = true;
    let mut alphanumeric = true;
    let mut i: usize = 0;
    while i < data.len()
        invariant
            i <= data@.len(),
            numeric == all_numeric(data@.take(i as int)),
            alphanumeric == all_alphanumeric(data@.take(i as int)),
        decreases data@.len() - i,
    {
        let b = data[i];
        if !byte_is_numeric(b) {
            numeric = false;
        }
        if !byte_is_alphanumeric(b) {
            alphanumeric = false;
        }
        proof {
            assert(data@.take(i + 1).drop_last() =~= data@.take(i as int));
            assert(data@.take(i + 1).last() == b);
        }
        i = i + 1;
    }
    proof {
        assert(data@.take(data@.len() as int) =~= data@);
    }
    if numeric {
        DataMode::Numeric
    } else if alphanumeric {
        DataMode::Alphanumeric
    } else {
        DataMode::Text
    }
}

/// Classification law: an all-digit payload (the empty payload included)
/// classifies as Numeric; a payload inside the alphanumeric alphabet with at
/// least one non-digit classifies as Alphanumeric; a payload with a byte
/// outside the alphanumeric alphabet classifies as Text. No payload
/// classifies as Kanji.
pub proof fn lemma_classification(s: Seq<u8>)
    ensures
        all_numeric(s) ==> classify(s) == DataMode::Numeric,
        all_alphanumeric(s) && !all_numeric(s) ==> classify(s) == DataMode::Alphanumeric,
        (exists|i: int| 0 <= i < s.len() && !is_alphanumeric_byte(#[trigger] s[i])) ==> classify(s)
            == DataMode::Text,
        classify(s) != DataMode::Kanji,
{
    if exists|i: int| 0 <= i < s.len() && !is_alphanumeric_byte(#[trigger] s[i]) {
        let i = choose|i: int| 0 <= i < s.len() && !is_alphanumeric_byte(#[trigger] s[i]);
        assert(!is_numeric_byte(s[i]));
        assert(!all_numeric(s));
        assert(!all_alphanumeric(s));
    }
}

/// Capacity-table law: the three version tiers meet with no gap and no
/// overlap at the boundaries 9/10 and 26/27, and within each tier the table
/// gives exactly the documented widths for every mode.
pub proof fn lemma_count_length_total(mode: DataMode, version: u8)
    ensures
        version <= 9 ==> count_length_spec(mode, version) == match mode {
            DataMode::Numeric => 10usize,
            DataMode::Alphanumeric => 9usize,
            DataMode::Text => 8usize,
            DataMode::Kanji => 8usize,
        },
        10 <= version && version <= 26 ==> count_length_spec(mode, version) == match mode {
            DataMode::Numeric => 12usize,
            DataMode::Alphanumeric => 11usize,
            DataMode::Text => 16usize,
            DataMode::Kanji => 10usize,
        },
        27 <= version ==> count_length_spec(mode, version) == match mode {
            DataMode::Numeric => 14usize,
            DataMode::Alphanumeric => 13usize,
            DataMode::Text => 16usize,
            DataMode::Kanji => 12usize,
        },
{
}

} // verus!
