//! Acoustic profiles of the FSK control/fallback physical layer, and the
//! small checks (CRC-8, majority vote) that its frames carry.

use vstd::prelude::*;

verus! {

/// Sample rate used when synthesising audio.
pub const ENCODE_SR: u32 = 48_000;
/// Default fast profile tone length.
pub const TONE_SAMPLES: usize = 512;
/// Default fast profile guard interval.
pub const GUARD_SAMPLES: usize = 512;
/// Full symbol period (tone + guard).
pub const SYMBOL_SAMPLES: usize = TONE_SAMPLES + GUARD_SAMPLES;
/// Bin spacing between adjacent data tones.
pub const TONE_STEP: usize = 1;
/// Preamble length of the default profile, in symbols.
pub const PREAMBLE_SYMBOLS: usize = 10;
/// Byte that opens every frame, repeated for majority voting.
pub const SYNC_BYTE: u8 = 0xA5;
/// Largest payload a single frame carries.
pub const MAX_PAYLOAD: usize = 255;
/// Copies of the sync byte in the default profile.
pub const SYNC_REPEATS: usize = 5;
/// Copies of the length byte in the default profile.
pub const LEN_REPEATS: usize = 5;
/// Number of simultaneous frequency lanes.
pub const MAX_LANES: u8 = 2;

#[derive(Debug, Clone, Copy, PartialEq, Eq, Structural)]
pub enum PhyMode {
    Fast,
    Robust,
}

#[derive(Debug, Clone, Copy, PartialEq, Eq, Structural)]
pub struct AcousticProfile {
    mode: PhyMode,
    lane: u8,
}

impl AcousticProfile {
    /// The mode this profile was built with.
    pub closed spec fn spec_mode(self) -> PhyMode {
        self.mode
    }

    /// The lane this profile was built with.
    pub closed spec fn spec_lane(self) -> u8 {
        self.lane
    }

    /// A profile is well formed when its lane exists.
    pub open spec fn wf(self) -> bool {
        self.spec_lane() < MAX_LANES
    }

    pub open spec fn spec_tone_samples(self) -> usize {
        match self.spec_mode() {
            PhyMode::Fast => 512,
            PhyMode::Robust => 1024,
        }
    }

    pub open spec fn spec_preamble_symbols(self) -> usize {
        match self.spec_mode() {
            PhyMode::Fast => 10,
            PhyMode::Robust => 16,
        }
    }

    pub open spec fn spec_is_dual_tone(self) -> bool {
        self.spec_mode() == PhyMode::Fast
    }

    pub open spec fn spec_frame_symbols_per_byte(self) -> usize {
        if self.spec_is_dual_tone() { 1 } else { 2 }
    }

    pub open spec fn spec_data_start_bin(self) -> usize {
        match self.spec_mode() {
            PhyMode::Fast => (16 + self.spec_lane() as int * 48) as usize,
            PhyMode::Robust => (40 + self.spec_lane() as int * 48) as usize,
        }
    }

    pub open spec fn spec_marker_index(self) -> usize {
        if self.spec_is_dual_tone() { 32 } else { 16 }
    }

    /// Fast profile on `lane`.
    pub fn fast(lane: u8) -> (res: Self)
        requires
            lane < MAX_LANES,
        ensures
            res.spec_mode() == PhyMode::Fast,
            res.spec_lane() == lane,
            res.wf(),
    {
        AcousticProfile { mode: PhyMode::Fast, lane }
    }

    /// Robust profile on `lane`.
    pub fn robust(lane: u8) -> (res: Self)
        requires
            lane < MAX_LANES,
        ensures
            res.spec_mode() == PhyMode::Robust,
            res.spec_lane() == lane,
            res.wf(),
    {
        AcousticProfile { mode: PhyMode::Robust, lane }
    }

    /// The default profile.
    pub closed spec fn default_profile_spec() -> Self {
        AcousticProfile { mode: PhyMode::Fast, lane: 0 }
    }

    /// The default profile is the fast one on lane 0.
    pub proof fn lemma_default_profile()
        ensures
            Self::default_profile_spec().spec_mode() == PhyMode::Fast,
            Self::default_profile_spec().spec_lane() == 0,
    {
    }

    /// The default profile: fast, lane 0.
    pub fn default_profile() -> (res: Self)
        ensures
            res == Self::default_profile_spec(),
            res.spec_mode() == PhyMode::Fast,
            res.spec_lane() == 0,
            res.wf(),
    {
        Self::fast(0)
    }

    pub fn mode(self) -> (res: PhyMode)
        ensures
            res == self.spec_mode(),
    {
        self.mode
    }

    pub fn lane(self) -> (res: u8)
        ensures
            res == self.spec_lane(),
    {
        self.lane
    }

    pub fn tone_samples(self) -> (res: usize)
        ensures
            res == self.spec_tone_samples(),
    {
        match self.mode {
            PhyMode::Fast => 512,
            PhyMode::Robust => 1024,
        }
    }

    pub fn guard_samples(self) -> (res: usize)
        ensures
            res == self.spec_tone_samples(),
    {
        match self.mode {
            PhyMode::Fast => 512,
            PhyMode::Robust => 1024,
        }
    }

    pub fn symbol_samples(self) -> (res: usize)
        ensures
            res == 2 * self.spec_tone_samples(),
    {
        self.tone_samples() + self.guard_samples()
    }

    pub fn preamble_symbols(self) -> (res: usize)
        ensures
            res == self.spec_preamble_symbols(),
    {
        match self.mode {
            PhyMode::Fast => 10,
            PhyMode::Robust => 16,
        }
    }

    pub fn sync_repeats(self) -> (res: usize)
        ensures
            res == SYNC_REPEATS,
    {
        match self.mode {
            PhyMode::Fast => SYNC_REPEATS,
            PhyMode::Robust => 5,
        }
    }

    pub fn len_repeats(self) -> (res: usize)
        ensures
            res == LEN_REPEATS,
    {
        match self.mode {
            PhyMode::Fast => LEN_REPEATS,
            PhyMode::Robust => 5,
        }
    }

    pub fn is_dual_tone(self) -> (res: bool)
        ensures
            res == self.spec_is_dual_tone(),
    {
        match self.mode {
            PhyMode::Fast => true,
            PhyMode::Robust => false,
        }
    }

    pub fn frame_symbols_per_byte(self) -> (res: usize)
        ensures
            res == self.spec_frame_symbols_per_byte(),
    {
        if self.is_dual_tone() { 1 } else { 2 }
    }

    /// First FFT bin of the data band (the bin of nibble 0).
    pub fn data_start_bin(self) -> (res: usize)
        requires
            self.wf(),
        ensures
            res == self.spec_data_start_bin(),
    {
        match self.mode {
            PhyMode::Fast => 16 + self.lane as usize * 48,
            PhyMode::Robust => 40 + self.lane as usize * 48,
        }
    }

    /// FFT bin of the (first) tone of nibble `value`: every other bin in
    /// dual-tone profiles, every bin otherwise.
    pub open spec fn spec_data_bin(self, value: u8) -> int {
        self.spec_data_start_bin() + if self.spec_is_dual_tone() {
            2 * value
        } else {
            value as int
        }
    }

    /// FFT bin of the second tone of nibble `value` in a dual-tone symbol:
    /// the odd bin just above the first tone's.
    pub open spec fn spec_high_data_bin(self, value: u8) -> int {
        self.spec_data_start_bin() + 2 * value + 1
    }

    /// FFT bin of the preamble marker, above the data band.
    pub open spec fn spec_marker_bin(self) -> int {
        self.spec_data_start_bin() + if self.spec_is_dual_tone() {
            40int
        } else {
            24int
        }
    }

    /// FFT bin of the (first) tone of nibble `value`.
    pub fn data_bin(self, value: u8) -> (res: usize)
        requires
            self.wf(),
            value < 16,
        ensures
            res == self.spec_data_bin(value),
    {
        let offset = if self.is_dual_tone() {
            2 * value as usize
        } else {
            value as usize
        };
        self.data_start_bin() + offset
    }

    /// FFT bin of the second tone of nibble `value`.
    pub fn high_data_bin(self, value: u8) -> (res: usize)
        requires
            self.wf(),
            value < 16,
        ensures
            res == self.spec_high_data_bin(value),
    {
        self.data_start_bin() + 2 * value as usize + 1
    }

    /// FFT bin of the preamble marker.
    pub fn marker_bin(self) -> (res: usize)
        requires
            self.wf(),
        ensures
            res == self.spec_marker_bin(),
    {
        let offset: usize = if self.is_dual_tone() {
            40
        } else {
            24
        };
        self.data_start_bin() + offset
    }

    /// Index of the marker tone among the detector's tones.
    pub fn marker_index(self) -> (res: usize)
        ensures
            res == self.spec_marker_index(),
    {
        if self.is_dual_tone() { 32 } else { 16 }
    }

    /// Number of tones the detector measures (data tones plus the marker).
    pub fn detector_tone_count(self) -> (res: usize)
        ensures
            res == self.spec_marker_index() + 1,
    {
        self.marker_index() + 1
    }

    /// Samples per symbol period at `sample_rate`, rounded to the nearest
    /// sample and never zero.
    pub fn symbol_len(self, sample_rate: u32) -> (res: usize)
        ensures
            res == scaled_len(2 * self.spec_tone_samples(), sample_rate),
    {
        scale_samples(self.symbol_samples(), sample_rate)
    }

    /// Samples in the tone burst at `sample_rate`, rounded to the nearest
    /// sample and never zero.
    pub fn tone_len(self, sample_rate: u32) -> (res: usize)
        ensures
            res == scaled_len(self.spec_tone_samples() as int, sample_rate),
    {
        scale_samples(self.tone_samples(), sample_rate)
    }
}

/// `samples` at 48 kHz rescaled to `sample_rate`, rounded to nearest, at
/// least one.
pub open spec fn scaled_len(samples: int, sample_rate: u32) -> usize {
    let rounded = (2 * (samples * sample_rate) + 48_000) / 96_000;
    if rounded < 1 { 1 } else { rounded as usize }
}

fn scale_samples(samples: usize, sample_rate: u32) -> (res: usize)
    requires
        samples <= 2048,
    ensures
        res == scaled_len(samples as int, sample_rate),
{
    let s64: u64 = samples as u64;
    let r64: u64 = sample_rate as u64;
    assert(s64 * r64 <= 2048 * 0xffff_ffffu64) by (nonlinear_arith)
        requires
            s64 <= 2048,
            r64 <= 0xffff_ffffu64,
    ;
    let product: u64 = 2 * (s64 * r64) + 48_000;
    let rounded: u64 = product / 96_000;
    assert(rounded <= 200_000_000u64);
    if rounded < 1 {
        1
    } else {
        rounded as usize
    }
}

/// Samples per symbol period of the default profile at `sample_rate`.
pub fn symbol_len(sample_rate: u32) -> (res: usize)
    ensures
        res == scaled_len(SYMBOL_SAMPLES as int, sample_rate),
{
    AcousticProfile::default_profile().symbol_len(sample_rate)
}

/// Samples in the tone burst of the default profile at `sample_rate`.
pub fn tone_len(sample_rate: u32) -> (res: usize)
    ensures
        res == scaled_len(TONE_SAMPLES as int, sample_rate),
{
    AcousticProfile::default_profile().tone_len(sample_rate)
}

/// One CRC-8 (polynomial 0x07) shift step.
pub open spec fn crc8_shift(c: u8) -> u8 {
    if c & 0x80 != 0 { ((c << 1u8) ^ 0x07u8) as u8 } else { (c << 1u8) as u8 }
}

/// `k` CRC-8 shift steps.
pub open spec fn crc8_shifts(c: u8, k: nat) -> u8
    decreases k,
{
    if k == 0 { c } else { crc8_shifts(crc8_shift(c), (k - 1) as nat) }
}

/// CRC-8 (polynomial 0x07, initial value 0, no reflection) of `data`.
pub open spec fn crc8_spec(data: Seq<u8>) -> u8
    decreases data.len(),
{
    if data.len() == 0 {
        0
    } else {
        crc8_shifts((crc8_spec(data.drop_last()) ^ data.last()) as u8, 8)
    }
}

/// CRC-8 checksum of `data`.
pub fn crc8(data: &[u8]) -> (res: u8)
    ensures
        res == crc8_spec(data@),
{
    let mut checksum: u8 = 0;
    let mut i: usize = 0;
    while i < data.len()
        invariant
            0 <= i <= data@.len(),
            checksum == crc8_spec(data@.subrange(0, i as int)),
        decreases data@.len() - i,
    {
        let ghost prefix = data@.subrange(0, i as int + 1);
        assert(prefix.drop_last() =~= data@.subrange(0, i as int));
        checksum = checksum ^ data[i];
        let ghost start = checksum;
        let mut k: usize = 0;
        while k < 8
            invariant
                0 <= k <= 8,
                crc8_shifts(start, 8) == crc8_shifts(checksum, (8 - k) as nat),
            decreases 8 - k,
        {
            checksum = if checksum & 0x80 != 0 {
                (checksum << 1u8) ^ 0x07
            } else {
                checksum << 1u8
            };
            k = k + 1;
        }
        i = i + 1;
    }
    assert(data@.subrange(0, data@.len() as int) =~= data@);
    checksum
}

/// Number of occurrences of `v` in `values`.
pub open spec fn count_of(values: Seq<u8>, v: u8) -> nat
    decreases values.len(),
{
    if values.len() == 0 {
        0
    } else {
        count_of(values.drop_last(), v) + if values.last() == v { 1nat } else { 0nat }
    }
}

/// `v` occurs in more than half of `values`.
pub open spec fn is_majority(values: Seq<u8>, v: u8) -> bool {
    count_of(values, v) > values.len() / 2
}

proof fn lemma_count_bound(values: Seq<u8>, a: u8, b: u8)
    requires
        a != b,
    ensures
        count_of(values, a) + count_of(values, b) <= values.len(),
    decreases values.len(),
{
    if values.len() > 0 {
        lemma_count_bound(values.drop_last(), a, b);
    }
}

/// At most one value can be a majority.
pub proof fn lemma_majority_unique(values: Seq<u8>, a: u8, b: u8)
    requires
        is_majority(values, a),
        is_majority(values, b),
    ensures
        a == b,
{
    if a != b {
        lemma_count_bound(values, a, b);
    }
}

proof fn lemma_count_in(values: Seq<u8>, v: u8)
    requires
        count_of(values, v) > 0,
    ensures
        values.contains(v),
    decreases values.len(),
{
    if values.last() == v {
        assert(values[values.len() - 1] == v);
    } else {
        lemma_count_in(values.drop_last(), v);
        let j = choose|j: int| 0 <= j < values.drop_last().len() && values.drop_last()[j] == v;
        assert(values[j] == v);
    }
}

fn count_value(values: &[u8], v: u8) -> (res: usize)
    ensures
        res == count_of(values@, v),
{
    let mut count: usize = 0;
    let mut i: usize = 0;
    while i < values.len()
        invariant
            0 <= i <= values@.len(),
            count == count_of(values@.subrange(0, i as int), v),
            count <= i,
        decreases values@.len() - i,
    {
        assert(values@.subrange(0, i as int + 1).drop_last() =~= values@.subrange(0, i as int));
        if values[i] == v {
            count = count + 1;
        }
        i = i + 1;
    }
    assert(values@.subrange(0, values@.len() as int) =~= values@);
    count
}

/// The value held by more than half of `values`, if there is one.
pub fn majority(values: &[u8]) -> (res: Option<u8>)
    ensures
        match res {
            Some(v) => is_majority(values@, v),
            None => forall|v: u8| !is_majority(values@, v),
        },
{
    let mut i: usize = 0;
    while i < values.len()
        invariant
            0 <= i <= values@.len(),
            forall|j: int| 0 <= j < i ==> !is_majority(values@, #[trigger] values@[j]),
        decreases values@.len() - i,
    {
        let candidate = values[i];
        if count_value(values, candidate) > values.len() / 2 {
            return Some(candidate);
        }
        i = i + 1;
    }
    proof {
        assert forall|v: u8| !is_majority(values@, v) by {
            if is_majority(values@, v) {
                lemma_count_in(values@, v);
                let j = choose|j: int| 0 <= j < values@.len() && values@[j] == v;
                assert(!is_majority(values@, values@[j]));
            }
        }
    }
    None
}

/// `bin` carries a tone of `profile`: a data tone, the second tone of a
/// dual-tone symbol, or the marker.
pub open spec fn is_tone_bin(profile: AcousticProfile, bin: int) -> bool {
    ||| exists|v: u8| v < 16 && bin == #[trigger] profile.spec_data_bin(v)
    ||| profile.spec_is_dual_tone() && exists|v: u8|
        v < 16 && bin == #[trigger] profile.spec_high_data_bin(v)
    ||| bin == profile.spec_marker_bin()
}

/// Two profiles of one mode on different lanes use no common tone, so
/// simultaneous pairs on different lanes do not collide.
pub proof fn lemma_lanes_disjoint(a: AcousticProfile, b: AcousticProfile, bin: int)
    requires
        a.wf(),
        b.wf(),
        a.spec_mode() == b.spec_mode(),
        a.spec_lane() != b.spec_lane(),
    ensures
        !(is_tone_bin(a, bin) && is_tone_bin(b, bin)),
{
    assert forall|p: AcousticProfile, t: int| p.wf() && #[trigger] is_tone_bin(p, t) implies p.spec_data_start_bin()
        <= t <= p.spec_data_start_bin() + 40 by {
        if exists|v: u8| v < 16 && t == #[trigger] p.spec_data_bin(v) {
            let v = choose|v: u8| v < 16 && t == #[trigger] p.spec_data_bin(v);
        }
        if p.spec_is_dual_tone() && exists|v: u8| v < 16 && t == #[trigger] p.spec_high_data_bin(v) {
            let v = choose|v: u8| v < 16 && t == #[trigger] p.spec_high_data_bin(v);
        }
    }
}

} // verus!
