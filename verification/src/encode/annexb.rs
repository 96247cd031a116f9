//! H.264 samples as VideoToolbox gives them (AVCC: every NAL unit after its length) made
//! into Annex-B access units (every NAL unit after a start code).

use vstd::prelude::*;

use crate::bytes::append_bytes;
use crate::bytes::append_range;
use crate::bytes::be32;
use crate::encode::encoder::EncodedFrame;

verus! {

/// The NAL unit type of an IDR slice.
pub const NAL_IDR: u8 = 5;

/// Ticks of the presentation clock in a second.
pub const PTS_TIMESCALE: i32 = 90_000;

/// The number that four bytes stand for, most significant first.
pub open spec fn be32_at(s: Seq<u8>, i: int) -> int {
    s[i] * 0x100_0000 + s[i + 1] * 0x1_0000 + s[i + 2] * 0x100 + s[i + 3]
}

/// The types of the NAL units from position `i` on. A last unit that is cut short counts,
/// if its first byte is there.
pub open spec fn nal_types_from(avcc: Seq<u8>, i: int) -> Seq<u8>
    decreases avcc.len() - i,
{
    if i < 0 || i + 4 > avcc.len() {
        Seq::empty()
    } else {
        let header = i + 4;
        let next = header + be32_at(avcc, i);
        let rest = if next <= avcc.len() {
            nal_types_from(avcc, next)
        } else {
            Seq::empty()
        };
        if header < avcc.len() {
            seq![(avcc[header] % 32) as u8] + rest
        } else {
            rest
        }
    }
}

/// The whole NAL units from position `i` on, up to one that is cut short.
pub open spec fn nal_units_from(avcc: Seq<u8>, i: int) -> Seq<Seq<u8>>
    decreases avcc.len() - i,
{
    if i < 0 || i + 4 > avcc.len() {
        Seq::empty()
    } else {
        let start = i + 4;
        let end = start + be32_at(avcc, i);
        if end > avcc.len() {
            Seq::empty()
        } else {
            seq![avcc.subrange(start, end)] + nal_units_from(avcc, end)
        }
    }
}

/// NAL units one after the other, each after a start code.
pub open spec fn with_start_codes(units: Seq<Seq<u8>>) -> Seq<u8>
    decreases units.len(),
{
    if units.len() == 0 {
        Seq::empty()
    } else {
        with_start_codes(units.drop_last()) + seq![0u8, 0u8, 0u8, 1u8] + units.last()
    }
}

/// The sample holds an IDR slice.
pub open spec fn is_idr(avcc: Seq<u8>) -> bool {
    nal_types_from(avcc, 0).contains(NAL_IDR)
}

/// The contents of a list of byte strings.
pub open spec fn byte_strings(v: Seq<Vec<u8>>) -> Seq<Seq<u8>> {
    v.map_values(|b: Vec<u8>| b@)
}

/// The access unit of a sample. Before an IDR frame stand the parameter sets, so that a TV
/// can decode from there.
pub open spec fn access_unit(avcc: Seq<u8>, parameter_sets: Seq<Seq<u8>>) -> Seq<u8> {
    (if is_idr(avcc) {
        with_start_codes(parameter_sets)
    } else {
        Seq::empty()
    }) + with_start_codes(nal_units_from(avcc, 0))
}

/// The 90 kHz timestamp of a media time of `value / timescale` seconds: 0 for a time that
/// is negative, not valid, or past 64 bits.
pub open spec fn ticks_of(value: i64, timescale: i32) -> int {
    if timescale <= 0 || value < 0 {
        0
    } else {
        let n = value * 90_000 / (timescale as int);
        if n <= u64::MAX {
            n
        } else {
            0
        }
    }
}

fn read_be32(s: &[u8], i: usize) -> (n: u32)
    requires
        i + 4 <= s.len(),
    ensures
        n == be32_at(s@, i as int),
{
    s[i] as u32 * 0x100_0000 + s[i + 1] as u32 * 0x1_0000 + s[i + 2] as u32 * 0x100 + s[i
        + 3] as u32
}

/// The NAL types in an AVCC buffer (assumes 4-byte length prefixes).
pub fn avcc_nal_types(avcc: &[u8]) -> (types: Vec<u8>)
    ensures
        types@ == nal_types_from(avcc@, 0),
{
    let total: usize = avcc.len();
    let mut types: Vec<u8> = Vec::new();
    let mut i: usize = 0;
    assert(types@ + nal_types_from(avcc@, 0) =~= nal_types_from(avcc@, 0));
    while total - i >= 4
        invariant
            i <= total,
            total == avcc.len(),
            types@ + nal_types_from(avcc@, i as int) == nal_types_from(avcc@, 0),
        decreases total - i,
    {
        let len: u32 = read_be32(avcc, i);
        let header: usize = i + 4;
        let ghost before = types@;
        let ghost rest = if header + len <= total {
            nal_types_from(avcc@, header + len)
        } else {
            Seq::empty()
        };
        if header < total {
            types.push(avcc[header] % 32);
            assert(types@ + rest =~= before + (seq![(avcc@[header as int] % 32) as u8] + rest));
        }
        // A length that reaches past the end ends the walk.
        i = if len as u64 <= (total - header) as u64 {
            header + len as usize
        } else {
            total
        };
        assert(nal_types_from(avcc@, i as int) =~= rest);
    }
    assert(nal_types_from(avcc@, i as int) =~= Seq::<u8>::empty());
    assert(types@ =~= nal_types_from(avcc@, 0));
    types
}

fn append_unit(out: &mut Vec<u8>, data: &[u8], from: usize, to: usize)
    requires
        from <= to <= data@.len(),
    ensures
        final(out)@ == old(out)@ + seq![0u8, 0u8, 0u8, 1u8] + data@.subrange(
            from as int,
            to as int,
        ),
{
    append_bytes(out, &[0, 0, 0, 1]);
    append_range(out, data, from, to);
    assert(out@ =~= old(out)@ + seq![0u8, 0u8, 0u8, 1u8] + data@.subrange(from as int, to as int));
}

proof fn lemma_start_codes_push(units: Seq<Seq<u8>>, unit: Seq<u8>)
    ensures
        with_start_codes(units.push(unit)) == with_start_codes(units) + seq![0u8, 0u8, 0u8, 1u8]
            + unit,
{
    assert(units.push(unit).drop_last() =~= units);
}

/// The access unit of a sample with the given AVCC bytes, parameter sets and media time.
pub fn sample_to_encoded(
    avcc: &[u8],
    parameter_sets: &Vec<Vec<u8>>,
    time_value: i64,
    timescale: i32,
) -> (frame: EncodedFrame)
    ensures
        frame.data@ == access_unit(avcc@, byte_strings(parameter_sets@)),
        frame.keyframe == is_idr(avcc@),
        frame.pts == ticks_of(time_value, timescale),
{
    let pts: u64 = cmtime_to_90k(time_value, timescale);
    // Detect an IDR by NAL type 5.
    let types: Vec<u8> = avcc_nal_types(avcc);
    let keyframe: bool = contains_byte(&types, NAL_IDR);
    let mut out: Vec<u8> = Vec::new();
    let ghost sets = byte_strings(parameter_sets@);
    if keyframe {
        let mut k: usize = 0;
        assert(with_start_codes(sets.take(0)) =~= Seq::<u8>::empty());
        while k < parameter_sets.len()
            invariant
                k <= parameter_sets@.len(),
                sets == byte_strings(parameter_sets@),
                out@ == with_start_codes(sets.take(k as int)),
            decreases parameter_sets@.len() - k,
        {
            let set: &Vec<u8> = &parameter_sets[k];
            append_unit(&mut out, set, 0, set.len());
            proof {
                assert(set@.subrange(0, set@.len() as int) =~= set@);
                lemma_start_codes_push(sets.take(k as int), set@);
                assert(sets.take(k + 1) =~= sets.take(k as int).push(set@));
            }
            k += 1;
        }
        assert(sets.take(sets.len() as int) =~= sets);
    }
    let ghost front = out@;
    let total: usize = avcc.len();
    let mut i: usize = 0;
    let ghost mut units: Seq<Seq<u8>> = Seq::empty();
    assert(units + nal_units_from(avcc@, 0) =~= nal_units_from(avcc@, 0));
    assert(out@ =~= front + with_start_codes(units));
    while total - i >= 4
        invariant_except_break
            i <= total,
            total == avcc.len(),
            units + nal_units_from(avcc@, i as int) == nal_units_from(avcc@, 0),
            out@ == front + with_start_codes(units),
        ensures
            units == nal_units_from(avcc@, 0),
            out@ == front + with_start_codes(units),
        decreases total - i,
    {
        let len: u32 = read_be32(avcc, i);
        let start: usize = i + 4;
        if len as u64 > (total - start) as u64 {
            assert(nal_units_from(avcc@, i as int) =~= Seq::<Seq<u8>>::empty());
            assert(units =~= nal_units_from(avcc@, 0));
            break ;
        }
        let end: usize = start + len as usize;
        append_unit(&mut out, avcc, start, end);
        proof {
            let unit = avcc@.subrange(start as int, end as int);
            lemma_start_codes_push(units, unit);
            assert(units + nal_units_from(avcc@, i as int) =~= units.push(unit) + nal_units_from(
                avcc@,
                end as int,
            ));
            units = units.push(unit);
            assert(out@ =~= front + with_start_codes(units));
        }
        i = end;
        proof {
            if total - i < 4 {
                assert(nal_units_from(avcc@, i as int) =~= Seq::<Seq<u8>>::empty());
                assert(units =~= nal_units_from(avcc@, 0));
            }
        }
    }
    assert(out@ =~= access_unit(avcc@, sets));
    EncodedFrame { data: out, pts, keyframe }
}

fn contains_byte(v: &Vec<u8>, b: u8) -> (r: bool)
    ensures
        r == v@.contains(b),
{
    let mut i: usize = 0;
    while i < v.len()
        invariant
            i <= v@.len(),
            forall|k: int| 0 <= k < i ==> v@[k] != b,
        decreases v@.len() - i,
    {
        if v[i] == b {
            return true;
        }
        i += 1;
    }
    false
}

/// The 90 kHz timestamp of a media time of `value / timescale` seconds.
pub fn cmtime_to_90k(value: i64, timescale: i32) -> (pts: u64)
    ensures
        pts == ticks_of(value, timescale),
{
    if timescale <= 0 || value < 0 {
        return 0;
    }
    let n: u128 = value as u128 * 90_000 / timescale as u128;
    if n <= u64::MAX as u128 {
        n as u64
    } else {
        0
    }
}

/// A sample made of NAL units, each after its length.
pub open spec fn avcc_of(units: Seq<Seq<u8>>) -> Seq<u8>
    decreases units.len(),
{
    if units.len() == 0 {
        Seq::empty()
    } else {
        be32(units[0].len() as u32) + units[0] + avcc_of(units.skip(1))
    }
}

/// Exactly the NAL units that a sample was made of are found in it, so that its access unit
/// is those units after start codes.
pub proof fn law_units_are_found(units: Seq<Seq<u8>>)
    requires
        forall|k: int| 0 <= k < units.len() ==> (#[trigger] units[k]).len() <= u32::MAX,
    ensures
        nal_units_from(avcc_of(units), 0) == units,
{
    assert(Seq::<u8>::empty() + avcc_of(units) =~= avcc_of(units));
    lemma_units_are_found(Seq::empty(), units);
}

proof fn lemma_units_are_found(front: Seq<u8>, units: Seq<Seq<u8>>)
    requires
        forall|k: int| 0 <= k < units.len() ==> (#[trigger] units[k]).len() <= u32::MAX,
    ensures
        nal_units_from(front + avcc_of(units), front.len() as int) == units,
    decreases units.len(),
{
    let whole = front + avcc_of(units);
    let i = front.len() as int;
    if units.len() > 0 {
        let unit = units[0];
        let rest = units.skip(1);
        let n = unit.len() as u32;
        let next = front + be32(n) + unit;
        assert(whole =~= next + avcc_of(rest));
        assert(whole[i] == be32(n)[0]);
        assert(whole[i + 1] == be32(n)[1]);
        assert(whole[i + 2] == be32(n)[2]);
        assert(whole[i + 3] == be32(n)[3]);
        lemma_be32(n);
        assert(be32_at(whole, i) == n);
        assert(whole.subrange(i + 4, i + 4 + n) =~= unit);
        lemma_units_are_found(next, rest);
        assert(nal_units_from(whole, i) =~= seq![unit] + rest);
        assert(seq![unit] + rest =~= units);
    } else {
        assert(nal_units_from(whole, i) =~= units);
    }
}

proof fn lemma_be32(n: u32)
    ensures
        be32_at(be32(n), 0) == n,
{
    assert(n / 0x100_0000 * 0x100_0000 + n / 0x1_0000 % 256 * 0x1_0000 + n / 0x100 % 256 * 0x100 + n
        % 256 == n) by (bit_vector);
    assert(n / 0x100_0000 < 256) by (bit_vector);
}

/// The types that are found in a sample are those of the NAL units that it was made of: the
/// low five bits of the first byte of each.
pub proof fn law_types_are_found(units: Seq<Seq<u8>>)
    requires
        forall|k: int| 0 <= k < units.len() ==> 0 < (#[trigger] units[k]).len() <= u32::MAX,
    ensures
        nal_types_from(avcc_of(units), 0).len() == units.len(),
        forall|k: int|
            0 <= k < units.len() ==> #[trigger] nal_types_from(avcc_of(units), 0)[k]
                == units[k][0] % 32,
{
    assert(Seq::<u8>::empty() + avcc_of(units) =~= avcc_of(units));
    lemma_types_are_found(Seq::empty(), units);
}

proof fn lemma_types_are_found(front: Seq<u8>, units: Seq<Seq<u8>>)
    requires
        forall|k: int| 0 <= k < units.len() ==> 0 < (#[trigger] units[k]).len() <= u32::MAX,
    ensures
        nal_types_from(front + avcc_of(units), front.len() as int).len() == units.len(),
        forall|k: int|
            0 <= k < units.len() ==> #[trigger] nal_types_from(
                front + avcc_of(units),
                front.len() as int,
            )[k] == units[k][0] % 32,
    decreases units.len(),
{
    let whole = front + avcc_of(units);
    let i = front.len() as int;
    if units.len() > 0 {
        let unit = units[0];
        let rest = units.skip(1);
        let n = unit.len() as u32;
        let next = front + be32(n) + unit;
        assert(whole =~= next + avcc_of(rest));
        assert(whole[i] == be32(n)[0]);
        assert(whole[i + 1] == be32(n)[1]);
        assert(whole[i + 2] == be32(n)[2]);
        assert(whole[i + 3] == be32(n)[3]);
        lemma_be32(n);
        assert(be32_at(whole, i) == n);
        assert(whole[i + 4] == unit[0]);
        assert forall|k: int| 0 <= k < rest.len() implies 0 < (#[trigger] rest[k]).len()
            <= u32::MAX by {
            assert(rest[k] == units[k + 1]);
        }
        lemma_types_are_found(next, rest);
        let more = nal_types_from(whole, next.len() as int);
        assert(nal_types_from(whole, i) =~= seq![(unit[0] % 32) as u8] + more);
        assert forall|k: int| 0 <= k < units.len() implies #[trigger] nal_types_from(whole, i)[k]
            == units[k][0] % 32 by {
            if k > 0 {
                assert(more[k - 1] == rest[k - 1][0] % 32);
            }
        }
    } else {
        assert(nal_types_from(whole, i) =~= Seq::<u8>::empty());
    }
}

/// Some unit is a slice of an IDR picture: a NAL unit of type 5.
pub open spec fn has_idr_unit(units: Seq<Seq<u8>>) -> bool {
    exists|k: int| 0 <= k < units.len() && (#[trigger] units[k])[0] % 32 == 5
}

/// A sample is a keyframe exactly where one of its units is a slice of an IDR picture.
pub proof fn law_keyframe_is_recognised(units: Seq<Seq<u8>>)
    requires
        forall|k: int| 0 <= k < units.len() ==> 0 < (#[trigger] units[k]).len() <= u32::MAX,
    ensures
        is_idr(avcc_of(units)) <==> has_idr_unit(units),
{
    law_types_are_found(units);
    let types = nal_types_from(avcc_of(units), 0);
    if has_idr_unit(units) {
        let k = choose|k: int| 0 <= k < units.len() && (#[trigger] units[k])[0] % 32 == 5;
        assert(types[k] == 5);
    }
    if types.contains(5) {
        let k = choose|k: int| 0 <= k < types.len() && types[k] == 5;
        assert(units[k][0] % 32 == 5);
    }
}

/// Start codes are put before each unit on its own.
proof fn lemma_start_codes_concat(a: Seq<Seq<u8>>, b: Seq<Seq<u8>>)
    ensures
        with_start_codes(a + b) == with_start_codes(a) + with_start_codes(b),
    decreases b.len(),
{
    if b.len() == 0 {
        assert(a + b =~= a);
        assert(with_start_codes(a + b) =~= with_start_codes(a) + with_start_codes(b));
    } else {
        lemma_start_codes_concat(a, b.drop_last());
        assert((a + b).drop_last() =~= a + b.drop_last());
        assert(with_start_codes(a + b) =~= with_start_codes(a) + with_start_codes(b));
    }
}

/// The access unit of a keyframe is its parameter sets and then its NAL units; that of any
/// other sample is its NAL units alone.
pub proof fn law_access_unit(units: Seq<Seq<u8>>, sets: Seq<Seq<u8>>)
    requires
        forall|k: int| 0 <= k < units.len() ==> 0 < (#[trigger] units[k]).len() <= u32::MAX,
    ensures
        access_unit(avcc_of(units), sets) == with_start_codes(
            if has_idr_unit(units) {
                sets + units
            } else {
                units
            },
        ),
{
    law_units_are_found(units);
    law_keyframe_is_recognised(units);
    lemma_start_codes_concat(sets, units);
    assert(Seq::<u8>::empty() + with_start_codes(units) =~= with_start_codes(units));
}

/// Where a unit's start code stands: behind the units before it and their start codes.
pub open spec fn unit_offset(units: Seq<Seq<u8>>, k: int) -> int
    decreases k,
{
    if k <= 0 {
        0
    } else {
        unit_offset(units, k - 1) + 4 + units[k - 1].len()
    }
}

/// In an access unit each NAL unit stands whole, in its order, behind the four bytes 0, 0, 0
/// and 1, and nothing else is in it.
pub proof fn law_units_are_marked(units: Seq<Seq<u8>>, k: int)
    requires
        0 <= k < units.len(),
    ensures
        ({
            let at = unit_offset(units, k);
            let all = with_start_codes(units);
            &&& 0 <= at
            &&& at + 4 + units[k].len() <= all.len()
            &&& all.subrange(at, at + 4) == seq![0u8, 0u8, 0u8, 1u8]
            &&& all.subrange(at + 4, at + 4 + units[k].len()) == units[k]
            &&& all.len() == unit_offset(units, units.len() as int)
        }),
    decreases units.len(),
{
    let n = units.len() as int;
    let rest = units.drop_last();
    let front = with_start_codes(rest);
    let all = with_start_codes(units);
    lemma_offset_same(rest, units, n - 1);
    lemma_offset_same(rest, units, k);
    if n > 1 {
        law_units_are_marked(rest, if k < n - 1 {
            k
        } else {
            0
        });
    } else {
        assert(front =~= Seq::<u8>::empty());
    }
    let at = unit_offset(units, k);
    if k < n - 1 {
        assert(all.subrange(at, at + 4) =~= front.subrange(at, at + 4));
        assert(all.subrange(at + 4, at + 4 + units[k].len()) =~= front.subrange(
            at + 4,
            at + 4 + units[k].len(),
        ));
        assert(rest[k] == units[k]);
    } else {
        assert(at == front.len());
        assert(all.subrange(at, at + 4) =~= seq![0u8, 0u8, 0u8, 1u8]);
        assert(all.subrange(at + 4, at + 4 + units[k].len()) =~= units[k]);
    }
}

proof fn lemma_offset_same(a: Seq<Seq<u8>>, b: Seq<Seq<u8>>, k: int)
    requires
        a == b.drop_last(),
        b.len() > 0,
        k <= a.len(),
    ensures
        unit_offset(a, k) == unit_offset(b, k),
        0 <= unit_offset(b, k),
    decreases k,
{
    if k > 0 {
        lemma_offset_same(a, b, k - 1);
    }
}

/// A unit at the end that is shorter than its length says is left out; those before it are
/// not touched by it.
pub proof fn law_cut_unit_is_left_out(units: Seq<Seq<u8>>, n: u32, cut: Seq<u8>)
    requires
        forall|k: int| 0 <= k < units.len() ==> (#[trigger] units[k]).len() <= u32::MAX,
        cut.len() < n,
    ensures
        nal_units_from(avcc_of(units) + be32(n) + cut, 0) == units,
{
    let tail = be32(n) + cut;
    let none = Seq::<u8>::empty();
    lemma_cut_unit(none, units, n, cut);
    assert(none + avcc_of(units) + tail =~= avcc_of(units) + be32(n) + cut);
}

proof fn lemma_cut_unit(front: Seq<u8>, units: Seq<Seq<u8>>, n: u32, cut: Seq<u8>)
    requires
        forall|k: int| 0 <= k < units.len() ==> (#[trigger] units[k]).len() <= u32::MAX,
        cut.len() < n,
    ensures
        nal_units_from(front + avcc_of(units) + (be32(n) + cut), front.len() as int) == units,
    decreases units.len(),
{
    let tail = be32(n) + cut;
    let whole = front + avcc_of(units) + tail;
    let i = front.len() as int;
    if units.len() > 0 {
        let unit = units[0];
        let rest = units.skip(1);
        let m = unit.len() as u32;
        let next = front + be32(m) + unit;
        assert(whole =~= next + avcc_of(rest) + tail);
        assert(whole[i] == be32(m)[0]);
        assert(whole[i + 1] == be32(m)[1]);
        assert(whole[i + 2] == be32(m)[2]);
        assert(whole[i + 3] == be32(m)[3]);
        lemma_be32(m);
        assert(be32_at(whole, i) == m);
        assert(whole.subrange(i + 4, i + 4 + m) =~= unit);
        assert forall|k: int| 0 <= k < rest.len() implies (#[trigger] rest[k]).len()
            <= u32::MAX by {
            assert(rest[k] == units[k + 1]);
        }
        lemma_cut_unit(next, rest, n, cut);
        assert(nal_units_from(whole, i) =~= seq![unit] + rest);
        assert(seq![unit] + rest =~= units);
    } else {
        assert(whole =~= front + tail);
        assert(whole[i] == be32(n)[0]);
        assert(whole[i + 1] == be32(n)[1]);
        assert(whole[i + 2] == be32(n)[2]);
        assert(whole[i + 3] == be32(n)[3]);
        lemma_be32(n);
        assert(be32_at(whole, i) == n);
        assert(nal_units_from(whole, i) =~= units);
    }
}

/// A media time is the number of whole 90 kHz ticks in it; a time that is negative, not valid
/// or past 64 bits is 0. One second later is 90 000 ticks later.
pub proof fn law_media_time(value: i64, timescale: i32)
    ensures
        timescale <= 0 || value < 0 ==> ticks_of(value, timescale) == 0,
        timescale > 0 && value >= 0 ==> {
            let t = ticks_of(value, timescale);
            ||| t * timescale <= value * 90_000 < (t + 1) * timescale
            ||| t == 0 && value * 90_000 >= (u64::MAX + 1) * timescale
        },
        timescale > 0 && value >= 0 && value + timescale <= i64::MAX && (value + timescale)
            * 90_000 < (u64::MAX + 1) * timescale ==> ticks_of(
            (value + timescale) as i64,
            timescale,
        ) == ticks_of(value, timescale) + 90_000,
{
    if timescale > 0 && value >= 0 {
        let n = value * 90_000 / (timescale as int);
        let s = timescale as int;
        let v = value * 90_000;
        assert(n * s <= v < (n + 1) * s) by (nonlinear_arith)
            requires
                n == v / s,
                s > 0,
        ;
        if n > u64::MAX {
            assert((u64::MAX + 1) * s <= n * s) by (nonlinear_arith)
                requires
                    n >= u64::MAX + 1,
                    s > 0,
            ;
        }
        if value + timescale <= i64::MAX && (value + timescale) * 90_000 < (u64::MAX + 1)
            * timescale {
            let w = (value + timescale) * 90_000;
            assert(w / s == n + 90_000) by (nonlinear_arith)
                requires
                    w == v + 90_000 * s,
                    n == v / s,
                    s > 0,
            ;
            assert(w / s <= u64::MAX) by (nonlinear_arith)
                requires
                    w < (u64::MAX + 1) * s,
                    s > 0,
            ;
        }
    }
}

} // verus!
