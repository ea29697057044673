//! Mode-specific packet encoders and the orchestration of one data segment:
//! mode indicator, character-count indicator, then the packed payload.

use crate::bitstring::{bit_seq, Bitstring};
use crate::qr_spec::{
    all_alphanumeric, all_numeric, alnum_value, alphanumeric_lookup, classify, count_length,
    count_length_spec, identify_data_mode, is_alphanumeric_byte, is_numeric_byte, mode_indicator,
    DataMode, ErrorCorrectionLevel,
};
use vstd::prelude::*;
use vstd::slice::slice_to_vec;

verus! {

/// One encoded unit before flattening: a value and the exact number of bits,
/// MSB-first, that it contributes to the stream.
#[derive(Debug, Clone, Copy, PartialEq, Eq, Structural)]
pub struct BitsWithLength(pub u64, pub usize);

/// Value of a decimal digit byte.
pub open spec fn digit_value(b: u8) -> nat
    recommends
        is_numeric_byte(b),
{
    (b - 48) as nat
}

/// Decimal value of a run of digit bytes, most significant digit first.
pub open spec fn digits_value(s: Seq<u8>) -> nat
    recommends
        all_numeric(s),
    decreases s.len(),
{
    if s.len() == 0 {
        0
    } else {
        10 * digits_value(s.drop_last()) + digit_value(s.last())
    }
}

/// Packet width of a numeric run by its character count: one digit takes 4
/// bits, two take 7, three take 10.
pub open spec fn numeric_run_width(n: nat) -> usize
    recommends
        1 <= n <= 3,
{
    if n == 1 {
        4
    } else if n == 2 {
        7
    } else {
        10
    }
}

/// The packets of a numeric payload: consecutive runs of three digits, each
/// parsed as a decimal integer, the trailing run keeping its own width.
pub open spec fn numeric_packets(s: Seq<u8>) -> Seq<BitsWithLength>
    recommends
        all_numeric(s),
    decreases s.len(),
{
    if s.len() == 0 {
        Seq::empty()
    } else if s.len() <= 3 {
        seq![BitsWithLength(digits_value(s) as u64, numeric_run_width(s.len()))]
    } else {
        seq![BitsWithLength(digits_value(s.take(3)) as u64, 10usize)] + numeric_packets(s.skip(3))
    }
}

/// Codebook value of an alphanumeric pair: 45 times the first plus the
/// second.
pub open spec fn alnum_pair_value(a: u8, b: u8) -> nat
    recommends
        is_alphanumeric_byte(a),
        is_alphanumeric_byte(b),
{
    (45 * (alnum_value(a) as nat) + alnum_value(b)) as nat
}

/// The packets of an alphanumeric payload: consecutive pairs at 11 bits
/// each, a trailing single character at 6 bits.
pub open spec fn alphanumeric_packets(s: Seq<u8>) -> Seq<BitsWithLength>
    recommends
        all_alphanumeric(s),
    decreases s.len(),
{
    if s.len() == 0 {
        Seq::empty()
    } else if s.len() == 1 {
        seq![BitsWithLength(alnum_value(s[0]) as u64, 6usize)]
    } else {
        seq![BitsWithLength(alnum_pair_value(s[0], s[1]) as u64, 11usize)] + alphanumeric_packets(
            s.skip(2),
        )
    }
}

/// The packets of a byte payload: one 8-bit packet per byte, no grouping.
pub open spec fn text_packets(s: Seq<u8>) -> Seq<BitsWithLength> {
    Seq::new(s.len(), |i: int| BitsWithLength(s[i] as u64, 8usize))
}

/// The packets of a payload under a mode. Kanji has no encoder: no packet
/// sequence is defined for it and every code path rejects it beforehand.
pub open spec fn segment_packets(mode: DataMode, s: Seq<u8>) -> Seq<BitsWithLength>
    recommends
        mode != DataMode::Kanji,
{
    match mode {
        DataMode::Numeric => numeric_packets(s),
        DataMode::Alphanumeric => alphanumeric_packets(s),
        DataMode::Text => text_packets(s),
        DataMode::Kanji => Seq::empty(),
    }
}

/// The bits one packet contributes to the stream.
pub open spec fn packet_bits(p: BitsWithLength) -> Seq<bool> {
    bit_seq(p.0, p.1 as nat)
}

/// The concatenated bits of a packet sequence, in order.
pub open spec fn packets_bits(ps: Seq<BitsWithLength>) -> Seq<bool>
    decreases ps.len(),
{
    if ps.len() == 0 {
        Seq::empty()
    } else {
        packet_bits(ps[0]) + packets_bits(ps.skip(1))
    }
}

/// Every packet's width fits the accumulator's single-append limit.
pub open spec fn packets_wf(ps: Seq<BitsWithLength>) -> bool {
    forall|k: int| 0 <= k < ps.len() ==> (#[trigger] ps[k]).1 <= 64
}

/// A run of at most three digits has at most three digits' worth of value.
proof fn lemma_digits_value_bound(s: Seq<u8>)
    requires
        all_numeric(s),
        s.len() <= 3,
    ensures
        digits_value(s) <= 999,
        s.len() <= 2 ==> digits_value(s) <= 99,
        s.len() <= 1 ==> digits_value(s) <= 9,
    decreases s.len(),
{
    if s.len() > 0 {
        assert(all_numeric(s.drop_last())) by {
            assert(forall|i: int| 0 <= i < s.len() - 1 ==> s.drop_last()[i] == s[i]);
        }
        lemma_digits_value_bound(s.drop_last());
        assert(digit_value(s.last()) <= 9);
    }
}

/// Splitting a packet sequence splits its bits.
pub proof fn lemma_packets_bits_split(ps: Seq<BitsWithLength>, i: int)
    requires
        0 <= i <= ps.len(),
    ensures
        packets_bits(ps) == packets_bits(ps.take(i)) + packets_bits(ps.skip(i)),
    decreases i,
{
    if i == 0 {
        assert(ps.take(0) =~= Seq::<BitsWithLength>::empty());
        assert(ps.skip(0) =~= ps);
        assert(packets_bits(ps.take(0)) + packets_bits(ps) =~= packets_bits(ps));
    } else {
        lemma_packets_bits_split(ps.skip(1), i - 1);
        assert(ps.skip(1).take(i - 1) =~= ps.take(i).skip(1));
        assert(ps.skip(1).skip(i - 1) =~= ps.skip(i));
        assert(ps.take(i)[0] == ps[0]);
        assert(packet_bits(ps[0]) + (packets_bits(ps.take(i).skip(1)) + packets_bits(ps.skip(i)))
            =~= (packet_bits(ps[0]) + packets_bits(ps.take(i).skip(1))) + packets_bits(ps.skip(i)));
    }
}

/// Extending the consumed prefix by one packet appends that packet's bits.
pub proof fn lemma_packets_bits_take_succ(ps: Seq<BitsWithLength>, i: int)
    requires
        0 <= i < ps.len(),
    ensures
        packets_bits(ps.take(i + 1)) == packets_bits(ps.take(i)) + packet_bits(ps[i]),
{
    lemma_packets_bits_split(ps.take(i + 1), i);
    assert(ps.take(i + 1).take(i) =~= ps.take(i));
    let single = seq![ps[i]];
    assert(ps.take(i + 1).skip(i) =~= single);
    assert(single.skip(1) =~= Seq::<BitsWithLength>::empty());
    assert(packets_bits(Seq::<BitsWithLength>::empty()) =~= Seq::<bool>::empty());
    assert(packets_bits(single) =~= packet_bits(ps[i]));
}

proof fn lemma_numeric_packets_wf(s: Seq<u8>)
    ensures
        packets_wf(numeric_packets(s)),
    decreases s.len(),
{
    if s.len() > 3 {
        lemma_numeric_packets_wf(s.skip(3));
    }
}

proof fn lemma_alphanumeric_packets_wf(s: Seq<u8>)
    ensures
        packets_wf(alphanumeric_packets(s)),
    decreases s.len(),
{
    if s.len() > 1 {
        lemma_alphanumeric_packets_wf(s.skip(2));
    }
}

proof fn lemma_text_packets_wf(s: Seq<u8>)
    ensures
        packets_wf(text_packets(s)),
{
}

/// Every packet a mode's encoder emits fits the accumulator's append limit.
pub proof fn lemma_segment_packets_wf(mode: DataMode, s: Seq<u8>)
    ensures
        packets_wf(segment_packets(mode, s)),
{
    match mode {
        DataMode::Numeric => lemma_numeric_packets_wf(s),
        DataMode::Alphanumeric => lemma_alphanumeric_packets_wf(s),
        DataMode::Text => lemma_text_packets_wf(s),
        DataMode::Kanji => {},
    }
}

/// Numeric grouping law: a payload of `L` digits yields `ceil(L / 3)`
/// packets, and the trailing run's width follows its character count:
/// 4 bits for one digit, 7 for two, 10 for three.
pub proof fn lemma_numeric_packet_shape(s: Seq<u8>)
    ensures
        numeric_packets(s).len() == (s.len() + 2) / 3,
        s.len() % 3 == 1 ==> numeric_packets(s).last().1 == 4,
        s.len() % 3 == 2 ==> numeric_packets(s).last().1 == 7,
        s.len() % 3 == 0 && s.len() > 0 ==> numeric_packets(s).last().1 == 10,
    decreases s.len(),
{
    if s.len() > 3 {
        lemma_numeric_packet_shape(s.skip(3));
        assert(numeric_packets(s).last() == numeric_packets(s.skip(3)).last());
    }
}

/// Encode a payload of decimal digits: runs of three digits, each run parsed
/// as a decimal integer, the trailing run at its own width.
pub fn encode_numeric(data: &[u8]) -> (r: Vec<BitsWithLength>)
    requires
        all_numeric(data@),
    ensures
        r@ == numeric_packets(data@),
{
    let mut r: Vec<BitsWithLength> = Vec::new();
    let mut i: usize = 0;
    let dlen: usize = data.len();
    proof {
        assert(data@.len() == dlen <= usize::MAX);
        assert(data@.skip(0) =~= data@);
        assert(r@ + numeric_packets(data@) =~= numeric_packets(data@));
    }
    while i < dlen
        invariant
            all_numeric(data@),
            dlen == data@.len() <= usize::MAX,
            i <= dlen,
            numeric_packets(data@) == r@ + numeric_packets(data@.skip(i as int)),
        decreases data@.len() - i,
    {
        let c: usize = if dlen - i >= 3 {
            3
        } else {
            dlen - i
        };
        let mut n: u64 = 0;
        let mut j: usize = 0;
        while j < c
            invariant
                all_numeric(data@),
                1 <= c <= 3,
                i + c <= data@.len() <= usize::MAX,
                j <= c,
                n == digits_value(data@.subrange(i as int, i + j)),
            decreases c - j,
        {
            proof {
                let run = data@.subrange(i as int, i + j);
                lemma_digits_value_bound(run);
                assert(data@.subrange(i as int, i + j + 1).drop_last() =~= run);
                assert(data@.subrange(i as int, i + j + 1).last() == data@[i + j]);
            }
            n = n * 10 + (data[i + j] - 48) as u64;
            j = j + 1;
        }
        let width: usize = if c == 3 {
            10
        } else if c == 2 {
            7
        } else {
            4
        };
        let ghost prev = r@;
        r.push(BitsWithLength(n, width));
        proof {
            let rem = data@.skip(i as int);
            let p = BitsWithLength(n, width);
            lemma_digits_value_bound(data@.subrange(i as int, i + c));
            if data@.len() - i > 3 {
                assert(rem.take(3) =~= data@.subrange(i as int, i + 3));
                assert(rem.skip(3) =~= data@.skip(i + c));
                assert(numeric_packets(rem) == seq![p] + numeric_packets(data@.skip(i + c)));
            } else {
                assert(rem =~= data@.subrange(i as int, i + c));
                assert(numeric_run_width(rem.len()) == width);
                assert(numeric_packets(rem) == seq![p]);
                assert(data@.skip(i + c) =~= Seq::<u8>::empty());
                assert(seq![p] =~= seq![p] + numeric_packets(data@.skip(i + c)));
            }
            assert(r@ =~= prev + seq![p]);
            assert(prev + (seq![p] + numeric_packets(data@.skip(i + c))) =~= (prev + seq![p])
                + numeric_packets(data@.skip(i + c)));
        }
        i = i + c;
    }
    proof {
        assert(data@.skip(data@.len() as int) =~= Seq::<u8>::empty());
        assert(r@ + Seq::<BitsWithLength>::empty() =~= r@);
    }
    r
}

/// Encode an alphanumeric payload: codebook pairs at 11 bits, a trailing
/// single character at 6 bits. Both characters of a pair go through the
/// codebook.
pub fn encode_alphanumeric(data: &[u8]) -> (r: Vec<BitsWithLength>)
    requires
        all_alphanumeric(data@),
    ensures
        r@ == alphanumeric_packets(data@),
{
    let mut r: Vec<BitsWithLength> = Vec::new();
    let mut i: usize = 0;
    let dlen: usize = data.len();
    proof {
        assert(data@.len() == dlen <= usize::MAX);
        assert(data@.skip(0) =~= data@);
        assert(r@ + alphanumeric_packets(data@) =~= alphanumeric_packets(data@));
    }
    while i < dlen
        invariant
            all_alphanumeric(data@),
            dlen == data@.len() <= usize::MAX,
            i <= dlen,
            alphanumeric_packets(data@) == r@ + alphanumeric_packets(data@.skip(i as int)),
        decreases data@.len() - i,
    {
        let c: usize = if dlen - i >= 2 {
            2
        } else {
            1
        };
        let p: BitsWithLength = if c == 2 {
            let a = alphanumeric_lookup(data[i]);
            let b = alphanumeric_lookup(data[i + 1]);
            BitsWithLength((a as u64) * 45 + (b as u64), 11)
        } else {
            BitsWithLength(alphanumeric_lookup(data[i]) as u64, 6)
        };
        let ghost prev = r@;
        r.push(p);
        proof {
            let rem = data@.skip(i as int);
            assert(rem[0] == data@[i as int]);
            if c == 2 {
                assert(rem[1] == data@[i + 1int]);
                assert(rem.skip(2) =~= data@.skip(i + c));
                assert(alphanumeric_packets(rem) == seq![p] + alphanumeric_packets(
                    data@.skip(i + c),
                ));
            } else {
                assert(rem.len() == 1);
                assert(alphanumeric_packets(rem) == seq![p]);
                assert(data@.skip(i + c) =~= Seq::<u8>::empty());
                assert(seq![p] =~= seq![p] + alphanumeric_packets(data@.skip(i + c)));
            }
            assert(r@ =~= prev + seq![p]);
            assert(prev + (seq![p] + alphanumeric_packets(data@.skip(i + c))) =~= (prev + seq![p])
                + alphanumeric_packets(data@.skip(i + c)));
        }
        i = i + c;
    }
    proof {
        assert(data@.skip(data@.len() as int) =~= Seq::<u8>::empty());
        assert(r@ + Seq::<BitsWithLength>::empty() =~= r@);
    }
    r
}

/// Encode an arbitrary byte payload: one 8-bit packet per byte.
pub fn encode_text(data: &[u8]) -> (r: Vec<BitsWithLength>)
    ensures
        r@ == text_packets(data@),
{
    let mut r: Vec<BitsWithLength> = Vec::new();
    let mut i: usize = 0;
    while i < data.len()
        invariant
            i <= data@.len(),
            r@.len() == i,
            forall|k: int| 0 <= k < i ==> r@[k] == BitsWithLength(data@[k] as u64, 8usize),
        decreases data@.len() - i,
    {
        r.push(BitsWithLength(data[i] as u64, 8));
        i = i + 1;
    }
    proof {
        assert(r@ =~= text_packets(data@));
    }
    r
}

/// The complete data-segment bitstream for a payload: the 4-bit one-hot mode
/// indicator, the character count at the width the capacity table gives for
/// (mode, version), then every packet's bits in input order.
pub open spec fn segment_bits(mode: DataMode, version: u8, payload: Seq<u8>) -> Seq<bool>
    recommends
        mode != DataMode::Kanji,
        payload.len() <= u64::MAX,
{
    bit_seq(mode_indicator(mode) as u64, 4) + bit_seq(
        payload.len() as u64,
        count_length_spec(mode, version) as nat,
    ) + packets_bits(segment_packets(mode, payload))
}

/// One QR data segment: the payload it owns, the mode selected for it, the
/// target symbol version and the (pass-through) error-correction level.
#[derive(Debug)]
pub struct QrCode {
    data: Vec<u8>,
    mode: DataMode,
    err_mode: ErrorCorrectionLevel,
    version: u8,
}

impl QrCode {
    /// The owned payload bytes.
    pub closed spec fn payload(&self) -> Seq<u8> {
        self.data@
    }

    /// The selected encoding mode.
    pub closed spec fn mode_spec(&self) -> DataMode {
        self.mode
    }

    /// The target symbol version.
    pub closed spec fn version_spec(&self) -> u8 {
        self.version
    }

    /// A segment is well formed when its mode is the classification of its
    /// payload; the classifier guarantees each encoder's alphabet
    /// precondition, and never selects Kanji.
    pub open spec fn wf(&self) -> bool {
        self.mode_spec() == classify(self.payload())
    }

    /// Build a segment for a payload, selecting the narrowest capable mode.
    /// The segment targets symbol version 1; versions 1 through 9 share the
    /// same count-indicator widths.
    pub fn new(data: &[u8]) -> (q: Self)
        ensures
            q.wf(),
            q.payload() == data@,
            q.mode_spec() == classify(data@),
            q.version_spec() == 1,
    {
        let mode = identify_data_mode(data);
        QrCode { data: slice_to_vec(data), mode, err_mode: ErrorCorrectionLevel::Low, version: 1 }
    }

    /// Emit the complete segment bitstream: mode indicator, character count,
    /// then the encoded payload.
    pub fn encode(&self) -> (r: Bitstring)
        requires
            self.wf(),
            segment_bits(self.mode_spec(), self.version_spec(), self.payload()).len()
                <= usize::MAX,
        ensures
            r.wf(),
            r@ == segment_bits(self.mode_spec(), self.version_spec(), self.payload()),
    {
        let mut bitstring = Bitstring::new();

        let mode = self.mode.encode();
        bitstring.push(mode as u64, 4);

        let char_count = self.data.len();
        let char_count_bitlength = count_length(self.mode, self.version);
        proof {
            assert(count_length_spec(self.mode, self.version) <= 16);
        }
        bitstring.push(char_count as u64, char_count_bitlength);

        self.encode_data(&mut bitstring);
        proof {
            let head = bit_seq(mode_indicator(self.mode) as u64, 4);
            let count = bit_seq(
                self.payload().len() as u64,
                count_length_spec(self.mode, self.version) as nat,
            );
            let body = packets_bits(segment_packets(self.mode, self.data@));
            assert((Seq::<bool>::empty() + head) =~= head);
            assert((head + count) + body =~= head + count + body);
        }
        bitstring
    }

    /// Append the payload's packets to a bitstream under the segment's mode.
    /// Kanji is rejected before any packet is produced; a well-formed
    /// segment never carries it.
    pub fn encode_data(&self, bitstring: &mut Bitstring)
        requires
            self.wf(),
            old(bitstring).wf(),
            old(bitstring)@.len() + packets_bits(
                segment_packets(self.mode_spec(), self.payload()),
            ).len() <= usize::MAX,
        ensures
            final(bitstring).wf(),
            final(bitstring)@ == old(bitstring)@ + packets_bits(
                segment_packets(self.mode_spec(), self.payload()),
            ),
    {
        let packets: Vec<BitsWithLength> = match self.mode {
            DataMode::Numeric => encode_numeric(self.data.as_slice()),
            DataMode::Alphanumeric => encode_alphanumeric(self.data.as_slice()),
            DataMode::Text => encode_text(self.data.as_slice()),
            DataMode::Kanji => unreached(),
        };
        let ghost ps = segment_packets(self.mode_spec(), self.payload());
        let ghost orig = bitstring@;
        proof {
            lemma_segment_packets_wf(self.mode_spec(), self.payload());
        }
        let mut i: usize = 0;
        while i < packets.len()
            invariant
                packets@ == ps,
                packets_wf(ps),
                i <= ps.len(),
                bitstring.wf(),
                orig.len() + packets_bits(ps).len() <= usize::MAX,
                bitstring@ == orig + packets_bits(ps.take(i as int)),
            decreases packets@.len() - i,
        {
            let p = packets[i];
            proof {
                lemma_packets_bits_split(ps, i as int);
                assert(ps.skip(i as int)[0] == ps[i as int]);
                assert(ps.skip(i as int).skip(1) =~= ps.skip(i + 1));
                assert(packets_bits(ps.skip(i as int)) == packet_bits(p) + packets_bits(
                    ps.skip(i + 1),
                ));
                lemma_packets_bits_take_succ(ps, i as int);
            }
            bitstring.push(p.0, p.1);
            i = i + 1;
        }
        proof {
            assert(ps.take(ps.len() as int) =~= ps);
        }
    }
}

} // verus!
