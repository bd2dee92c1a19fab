//! The syntax of a raw data block, which is one AAC frame, and the places of
//! the gains in it.
use crate::aac_codebooks::BookSet;
use crate::bit_reader::{
    agree, aligned, field, fields, flag, lemma_field, lemma_fields, lemma_flag, lemma_small_powers,
    settled, skipped, Parsed,
};
use crate::bits::{bit, bit_len, bits_value, lemma_bits_bound};
use crate::error::parse_error;
use crate::ics_settled::{lemma_ics_info, lemma_ics_rest};
use crate::ics_syntax::{gain_at, ics, ics_info, IcsView};
use crate::location::AacGainLocation;
use vstd::prelude::*;

verus! {

/// The element of a single channel.
pub const ID_SCE: u32 = 0;

/// The element of a channel pair.
pub const ID_CPE: u32 = 1;

/// The element of a coupling channel.
pub const ID_CCE: u32 = 2;

/// The element of a low frequency channel.
pub const ID_LFE: u32 = 3;

/// The element of data that is no audio.
pub const ID_DSE: u32 = 4;

/// The element that describes the program.
pub const ID_PCE: u32 = 5;

/// The fill element.
pub const ID_FIL: u32 = 6;

/// The end of the block.
pub const ID_END: u32 = 7;

/// A single channel element.
#[verifier::opaque]
pub open spec fn sce(data: Seq<u8>, pos: int, set: BookSet, sample_rate: u32) -> Parsed<
    Seq<AacGainLocation>,
> {
    match field(data, pos, 4) {
        Err(f) => Err(f),
        Ok((_, p)) => match ics(data, p, set, 0, None, sample_rate) {
            Err(f) => Err(f),
            Ok(((loc, _), p)) => Ok((seq![loc], p)),
        },
    }
}

/// The window layout that the channels of a pair share, where they share one,
/// with the stereo mask behind it.
#[verifier::opaque]
pub open spec fn shared_layout(data: Seq<u8>, pos: int) -> Parsed<Option<IcsView>> {
    match flag(data, pos) {
        Err(f) => Err(f),
        Ok((common, p)) => if !common {
            Ok((None, p))
        } else {
            match ics_info(data, p) {
                Err(f) => Err(f),
                Ok((info, p)) => match field(data, p, 2) {
                    Err(f) => Err(f),
                    Ok((mask, p)) => match (if mask == 1 {
                        fields(data, p, 1, (info.groups.len() * info.max_sfb) as nat)
                    } else {
                        Ok(((), p))
                    }) {
                        Err(f) => Err(f),
                        Ok((_, p)) => Ok((Some(info), p)),
                    },
                },
            }
        },
    }
}

/// A channel pair element.
#[verifier::opaque]
pub open spec fn cpe(data: Seq<u8>, pos: int, set: BookSet, sample_rate: u32) -> Parsed<
    Seq<AacGainLocation>,
> {
    match field(data, pos, 4) {
        Err(f) => Err(f),
        Ok((_, p)) => match shared_layout(data, p) {
            Err(f) => Err(f),
            Ok((shared, p)) => match ics(data, p, set, 0, shared, sample_rate) {
                Err(f) => Err(f),
                Ok(((loc1, _), p)) => match ics(data, p, set, 1, shared, sample_rate) {
                    Err(f) => Err(f),
                    Ok(((loc2, _), p)) => Ok((seq![loc1, loc2], p)),
                },
            },
        },
    }
}

/// The byte count of a data stream element: 255 is added to by a second byte.
pub open spec fn dse_count(data: Seq<u8>, pos: int) -> Parsed<int> {
    match field(data, pos, 8) {
        Err(f) => Err(f),
        Ok((count, p)) => if count != 255 {
            Ok((count, p))
        } else {
            match field(data, p, 8) {
                Err(f) => Err(f),
                Ok((more, p)) => Ok((count + more, p)),
            }
        },
    }
}

/// A data stream element.
#[verifier::opaque]
pub open spec fn dse(data: Seq<u8>, pos: int) -> Parsed<()> {
    match field(data, pos, 4) {
        Err(f) => Err(f),
        Ok((_, p)) => match flag(data, p) {
            Err(f) => Err(f),
            Ok((align, p)) => match dse_count(data, p) {
                Err(f) => Err(f),
                Ok((count, p)) => skipped(
                    data,
                    if align {
                        aligned(p)
                    } else {
                        p
                    },
                    8 * count,
                ),
            },
        },
    }
}

/// The byte count of a fill element: 15 stands for 14 and a second byte.
pub open spec fn fil_count(data: Seq<u8>, pos: int) -> Parsed<int> {
    match field(data, pos, 4) {
        Err(f) => Err(f),
        Ok((count, p)) => if count != 15 {
            Ok((count, p))
        } else {
            match field(data, p, 8) {
                Err(f) => Err(f),
                Ok((more, p)) => Ok((14 + more, p)),
            }
        },
    }
}

/// A fill element.
#[verifier::opaque]
pub open spec fn fil(data: Seq<u8>, pos: int) -> Parsed<()> {
    match fil_count(data, pos) {
        Err(f) => Err(f),
        Ok((count, p)) => skipped(data, p, 8 * count),
    }
}

/// How many entries each list of a program config element has.
pub struct PceCounts {
    pub front: int,
    pub side: int,
    pub back: int,
    pub lfe: int,
    pub assoc_data: int,
    pub valid_cc: int,
}

/// The head of a program config element.
#[verifier::opaque]
pub open spec fn pce_counts(data: Seq<u8>, pos: int) -> Parsed<PceCounts> {
    match field(data, pos, 4) {
        Err(f) => Err(f),
        Ok((_, p)) => match field(data, p, 2) {
            Err(f) => Err(f),
            Ok((_, p)) => match field(data, p, 4) {
                Err(f) => Err(f),
                Ok((_, p)) => match field(data, p, 4) {
                    Err(f) => Err(f),
                    Ok((front, p)) => match field(data, p, 4) {
                        Err(f) => Err(f),
                        Ok((side, p)) => match field(data, p, 4) {
                            Err(f) => Err(f),
                            Ok((back, p)) => match field(data, p, 2) {
                                Err(f) => Err(f),
                                Ok((lfe, p)) => match field(data, p, 3) {
                                    Err(f) => Err(f),
                                    Ok((assoc_data, p)) => match field(data, p, 4) {
                                        Err(f) => Err(f),
                                        Ok((valid_cc, p)) => Ok(
                                            (
                                                PceCounts {
                                                    front,
                                                    side,
                                                    back,
                                                    lfe,
                                                    assoc_data,
                                                    valid_cc,
                                                },
                                                p,
                                            ),
                                        ),
                                    },
                                },
                            },
                        },
                    },
                },
            },
        },
    }
}

/// A bit that says whether a field of `n` bits follows it.
pub open spec fn optional(data: Seq<u8>, pos: int, n: nat) -> Parsed<()> {
    match flag(data, pos) {
        Err(f) => Err(f),
        Ok((present, p)) => if present {
            match field(data, p, n) {
                Err(f) => Err(f),
                Ok((_, p)) => Ok(((), p)),
            }
        } else {
            Ok(((), p))
        },
    }
}

/// The mixdown parameters of a program config element.
#[verifier::opaque]
pub open spec fn pce_mixdown(data: Seq<u8>, pos: int) -> Parsed<()> {
    match optional(data, pos, 4) {
        Err(f) => Err(f),
        Ok((_, p)) => match optional(data, p, 4) {
            Err(f) => Err(f),
            Ok((_, p)) => optional(data, p, 3),
        },
    }
}

/// The lists of a program config element.
#[verifier::opaque]
pub open spec fn pce_lists(data: Seq<u8>, pos: int, n: PceCounts) -> Parsed<()> {
    match fields(data, pos, 5, n.front as nat) {
        Err(f) => Err(f),
        Ok((_, p)) => match fields(data, p, 5, n.side as nat) {
            Err(f) => Err(f),
            Ok((_, p)) => match fields(data, p, 5, n.back as nat) {
                Err(f) => Err(f),
                Ok((_, p)) => match fields(data, p, 4, n.lfe as nat) {
                    Err(f) => Err(f),
                    Ok((_, p)) => match fields(data, p, 4, n.assoc_data as nat) {
                        Err(f) => Err(f),
                        Ok((_, p)) => fields(data, p, 5, n.valid_cc as nat),
                    },
                },
            },
        },
    }
}

/// A program config element.
#[verifier::opaque]
pub open spec fn pce(data: Seq<u8>, pos: int) -> Parsed<()> {
    match pce_counts(data, pos) {
        Err(f) => Err(f),
        Ok((n, p)) => match pce_mixdown(data, p) {
            Err(f) => Err(f),
            Ok((_, p)) => match pce_lists(data, p, n) {
                Err(f) => Err(f),
                Ok((_, p)) => match field(data, aligned(p), 8) {
                    Err(f) => Err(f),
                    Ok((comment, p)) => skipped(data, p, 8 * comment),
                },
            },
        },
    }
}

/// An element without gains.
pub open spec fn no_gains(r: Parsed<()>) -> Parsed<Seq<AacGainLocation>> {
    match r {
        Err(f) => Err(f),
        Ok((_, p)) => Ok((Seq::empty(), p)),
    }
}

/// The element with the number `id`, and the gains in it.
#[verifier::opaque]
pub open spec fn element(
    data: Seq<u8>,
    pos: int,
    set: BookSet,
    sample_rate: u32,
    id: int,
) -> Parsed<Seq<AacGainLocation>> {
    if id == ID_SCE || id == ID_LFE {
        sce(data, pos, set, sample_rate)
    } else if id == ID_CPE {
        cpe(data, pos, set, sample_rate)
    } else if id == ID_CCE {
        Err((parse_error("CCE element found - sample skipped"@), pos))
    } else if id == ID_DSE {
        no_gains(dse(data, pos))
    } else if id == ID_PCE {
        no_gains(pce(data, pos))
    } else {
        no_gains(fil(data, pos))
    }
}

/// The gains of a raw data block, when those of its first elements are known.
/// The block ends with an end element or where no element fits.
pub open spec fn raw_data_block(
    data: Seq<u8>,
    pos: int,
    set: BookSet,
    sample_rate: u32,
    known: Seq<AacGainLocation>,
) -> Parsed<Seq<AacGainLocation>>
    decreases bit_len(data) - pos,
    when set.valid() && 0 <= pos <= bit_len(data)
    via raw_data_block_decreases
{
    if bit_len(data) - pos < 3 {
        Ok((known, pos))
    } else {
        match field(data, pos, 3) {
            Err(f) => Err(f),
            Ok((id, p)) => if id == ID_END {
                Ok((known, p))
            } else {
                match element(data, p, set, sample_rate, id) {
                    Err(f) => Err(f),
                    Ok((locs, p)) => raw_data_block(data, p, set, sample_rate, known + locs),
                }
            },
        }
    }
}

#[via_fn]
proof fn raw_data_block_decreases(
    data: Seq<u8>,
    pos: int,
    set: BookSet,
    sample_rate: u32,
    known: Seq<AacGainLocation>,
) {
    if bit_len(data) - pos >= 3 {
        lemma_field(data, data, pos, 3);
        if let Ok((id, p)) = field(data, pos, 3) {
            lemma_element(data, data, p, set, sample_rate, id);
        }
    }
}

/// A channel moves forward within the data, and keeps its place and its
/// layout whatever its gain is.
pub proof fn lemma_ics(
    d1: Seq<u8>,
    d2: Seq<u8>,
    pos: int,
    set: BookSet,
    channel: u8,
    shared: Option<IcsView>,
    sample_rate: u32,
)
    requires
        0 <= pos <= bit_len(d1),
        set.valid(),
        shared matches Some(info) ==> info.valid(),
    ensures
        ics(d1, pos, set, channel, shared, sample_rate) matches Ok(((loc, info), q)) ==> pos + 8
            <= q <= bit_len(d1) && loc == gain_at(pos, channel, bits_value(d1, pos, 8) as int) && (
        set.prefix_free() && d1.len() == d2.len() && agree(d1, d2, pos + 8, q) ==> ics(
            d2,
            pos,
            set,
            channel,
            shared,
            sample_rate,
        ) == Ok::<_, (crate::error::ErrorView, int)>(
            ((gain_at(pos, channel, bits_value(d2, pos, 8) as int), info), q),
        )),
{
    reveal(ics);
    lemma_small_powers();
    lemma_field(d1, d2, pos, 8);
    lemma_bits_bound(d1, pos, 8);
    lemma_bits_bound(d2, pos, 8);
    if let Ok((_, p)) = field(d1, pos, 8) {
        lemma_ics_rest(d1, d2, p, set, shared, sample_rate);
    }
}

/// A shared window layout is settled and valid.
pub proof fn lemma_shared_layout(d1: Seq<u8>, d2: Seq<u8>, pos: int)
    requires
        0 <= pos <= bit_len(d1),
    ensures
        settled(true, d1, d2, pos, shared_layout(d1, pos), shared_layout(d2, pos)),
        shared_layout(d1, pos) matches Ok((Some(info), _)) ==> info.valid(),
{
    reveal(shared_layout);
    lemma_flag(d1, d2, pos);
    if let Ok((_, p)) = flag(d1, pos) {
        lemma_ics_info(d1, d2, p);
        if let Ok((info, p)) = ics_info(d1, p) {
            lemma_field(d1, d2, p, 2);
            if let Ok((_, p)) = field(d1, p, 2) {
                lemma_fields(d1, d2, p, 1, (info.groups.len() * info.max_sfb) as nat);
            }
        }
    }
}

/// A data stream element is settled.
pub proof fn lemma_dse(d1: Seq<u8>, d2: Seq<u8>, pos: int)
    requires
        0 <= pos <= bit_len(d1),
    ensures
        settled(true, d1, d2, pos, dse(d1, pos), dse(d2, pos)),
{
    reveal(dse);
    lemma_field(d1, d2, pos, 4);
    if let Ok((_, p)) = field(d1, pos, 4) {
        lemma_flag(d1, d2, p);
        if let Ok((_, p)) = flag(d1, p) {
            lemma_field(d1, d2, p, 8);
            if let Ok((_, p)) = field(d1, p, 8) {
                lemma_field(d1, d2, p, 8);
            }
        }
    }
}

/// A fill element is settled.
pub proof fn lemma_fil(d1: Seq<u8>, d2: Seq<u8>, pos: int)
    requires
        0 <= pos <= bit_len(d1),
    ensures
        settled(true, d1, d2, pos, fil(d1, pos), fil(d2, pos)),
{
    reveal(fil);
    lemma_field(d1, d2, pos, 4);
    if let Ok((_, p)) = field(d1, pos, 4) {
        lemma_field(d1, d2, p, 8);
    }
}

/// The head of a program config element is settled, and no count is negative.
proof fn lemma_pce_counts(d1: Seq<u8>, d2: Seq<u8>, pos: int)
    requires
        0 <= pos <= bit_len(d1),
    ensures
        settled(true, d1, d2, pos, pce_counts(d1, pos), pce_counts(d2, pos)),
{
    reveal(pce_counts);
    lemma_field(d1, d2, pos, 4);
    if let Ok((_, p)) = field(d1, pos, 4) {
        lemma_field(d1, d2, p, 2);
        if let Ok((_, p)) = field(d1, p, 2) {
            lemma_field(d1, d2, p, 4);
            if let Ok((_, p)) = field(d1, p, 4) {
                lemma_field(d1, d2, p, 4);
                if let Ok((_, p)) = field(d1, p, 4) {
                    lemma_field(d1, d2, p, 4);
                    if let Ok((_, p)) = field(d1, p, 4) {
                        lemma_field(d1, d2, p, 4);
                        if let Ok((_, p)) = field(d1, p, 4) {
                            lemma_field(d1, d2, p, 2);
                            if let Ok((_, p)) = field(d1, p, 2) {
                                lemma_field(d1, d2, p, 3);
                                if let Ok((_, p)) = field(d1, p, 3) {
                                    lemma_field(d1, d2, p, 4);
                                }
                            }
                        }
                    }
                }
            }
        }
    }
}

/// An optional field is settled.
proof fn lemma_optional(d1: Seq<u8>, d2: Seq<u8>, pos: int, n: nat)
    requires
        0 <= pos <= bit_len(d1),
    ensures
        settled(true, d1, d2, pos, optional(d1, pos, n), optional(d2, pos, n)),
{
    lemma_flag(d1, d2, pos);
    if let Ok((_, p)) = flag(d1, pos) {
        lemma_field(d1, d2, p, n);
    }
}

/// The mixdown parameters of a program config element are settled.
proof fn lemma_pce_mixdown(d1: Seq<u8>, d2: Seq<u8>, pos: int)
    requires
        0 <= pos <= bit_len(d1),
    ensures
        settled(true, d1, d2, pos, pce_mixdown(d1, pos), pce_mixdown(d2, pos)),
{
    reveal(pce_mixdown);
    lemma_optional(d1, d2, pos, 4);
    if let Ok((_, p)) = optional(d1, pos, 4) {
        lemma_optional(d1, d2, p, 4);
        if let Ok((_, p)) = optional(d1, p, 4) {
            lemma_optional(d1, d2, p, 3);
        }
    }
}

/// The lists of a program config element are settled.
proof fn lemma_pce_lists(d1: Seq<u8>, d2: Seq<u8>, pos: int, n: PceCounts)
    requires
        0 <= pos <= bit_len(d1),
    ensures
        settled(true, d1, d2, pos, pce_lists(d1, pos, n), pce_lists(d2, pos, n)),
{
    reveal(pce_lists);
    lemma_fields(d1, d2, pos, 5, n.front as nat);
    if let Ok((_, p)) = fields(d1, pos, 5, n.front as nat) {
        lemma_fields(d1, d2, p, 5, n.side as nat);
        if let Ok((_, p)) = fields(d1, p, 5, n.side as nat) {
            lemma_fields(d1, d2, p, 5, n.back as nat);
            if let Ok((_, p)) = fields(d1, p, 5, n.back as nat) {
                lemma_fields(d1, d2, p, 4, n.lfe as nat);
                if let Ok((_, p)) = fields(d1, p, 4, n.lfe as nat) {
                    lemma_fields(d1, d2, p, 4, n.assoc_data as nat);
                    if let Ok((_, p)) = fields(d1, p, 4, n.assoc_data as nat) {
                        lemma_fields(d1, d2, p, 5, n.valid_cc as nat);
                    }
                }
            }
        }
    }
}

/// A program config element is settled.
pub proof fn lemma_pce(d1: Seq<u8>, d2: Seq<u8>, pos: int)
    requires
        0 <= pos <= bit_len(d1),
    ensures
        settled(true, d1, d2, pos, pce(d1, pos), pce(d2, pos)),
{
    reveal(pce);
    lemma_pce_counts(d1, d2, pos);
    if let Ok((n, p)) = pce_counts(d1, pos) {
        lemma_pce_mixdown(d1, d2, p);
        if let Ok((_, p)) = pce_mixdown(d1, p) {
            lemma_pce_lists(d1, d2, p, n);
            if let Ok((_, p)) = pce_lists(d1, p, n) {
                lemma_field(d1, d2, aligned(p), 8);
            }
        }
    }
}

/// Whether bit `i` belongs to one of the gains from number `from` on.
pub open spec fn in_gain(locs: Seq<AacGainLocation>, from: int, i: int) -> bool {
    exists|k: int|
        from <= k < locs.len() && (#[trigger] locs[k]).sample_bit() <= i < locs[k].sample_bit() + 8
}

/// Whether two byte sequences have the same bits from `a` up to `b`, but for
/// the bits of the gains from number `from` on.
pub open spec fn agree_off_gains(
    d1: Seq<u8>,
    d2: Seq<u8>,
    a: int,
    b: int,
    locs: Seq<AacGainLocation>,
    from: int,
) -> bool {
    forall|i: int| a <= i < b ==> in_gain(locs, from, i) || #[trigger] bit(d1, i) == bit(d2, i)
}

/// What holds of gains found between `a` and `b`: they lie there, one behind
/// the other, and each was found with the value that the bits spell.
pub open spec fn gains_within(
    data: Seq<u8>,
    locs: Seq<AacGainLocation>,
    from: int,
    a: int,
    b: int,
) -> bool {
    &&& forall|k: int|
        from <= k < locs.len() ==> {
            &&& a <= (#[trigger] locs[k]).sample_bit()
            &&& locs[k].sample_bit() + 8 <= b
            &&& locs[k].bit_offset < 8
            &&& locs[k].sample_index == 0
            &&& locs[k].file_offset == 0
            &&& locs[k].original_gain == bits_value(data, locs[k].sample_bit(), 8)
        }
    &&& forall|j: int, k: int|
        from <= j < k < locs.len() ==> (#[trigger] locs[j]).sample_bit() + 8 <= (
        #[trigger] locs[k]).sample_bit()
}

/// Whether two lists name the same gains, found with whatever values.
pub open spec fn same_places(l1: Seq<AacGainLocation>, l2: Seq<AacGainLocation>) -> bool {
    &&& l1.len() == l2.len()
    &&& forall|k: int|
        0 <= k < l1.len() ==> #[trigger] l2[k] == l1[k].with_gain(l2[k].original_gain)
}

/// Where a gain at `pos` is said to be.
proof fn lemma_gain_at(data: Seq<u8>, pos: int, channel: u8, gain: int)
    requires
        0 <= pos,
        pos + 8 <= bit_len(data),
        data.len() <= u32::MAX,
    ensures
        gain_at(pos, channel, gain).sample_bit() == pos,
        gain_at(pos, channel, gain).bit_offset < 8,
{
}

/// An element moves forward within the data. Its gains lie in it, and its
/// extent and the places of its gains do not depend on their values.
pub proof fn lemma_element(
    d1: Seq<u8>,
    d2: Seq<u8>,
    pos: int,
    set: BookSet,
    sample_rate: u32,
    id: int,
)
    requires
        0 <= pos <= bit_len(d1),
        set.valid(),
    ensures
        element(d1, pos, set, sample_rate, id) matches Ok((locs, q)) ==> {
            &&& pos <= q <= bit_len(d1)
            &&& d1.len() <= u32::MAX ==> gains_within(d1, locs, 0, pos, q)
            &&& d1.len() <= u32::MAX && set.prefix_free() && d1.len() == d2.len()
                && agree_off_gains(d1, d2, pos, q, locs, 0) ==> (element(
                d2,
                pos,
                set,
                sample_rate,
                id,
            ) matches Ok((locs2, q2)) && q2 == q && same_places(locs, locs2))
        },
{
    reveal(element);
    reveal(sce);
    if id == ID_SCE || id == ID_LFE {
        lemma_field(d1, d2, pos, 4);
        if let Ok((_, p)) = field(d1, pos, 4) {
            lemma_ics(d1, d2, p, set, 0, None, sample_rate);
            if let Ok(((loc, info), q)) = ics(d1, p, set, 0, None, sample_rate) {
                let locs = seq![loc];
                lemma_small_powers();
                lemma_bits_bound(d1, p, 8);
                if d1.len() <= u32::MAX {
                    lemma_gain_at(d1, p, 0, bits_value(d1, p, 8) as int);
                    assert(gains_within(d1, locs, 0, pos, q));
                    if d1.len() == d2.len() && agree_off_gains(d1, d2, pos, q, locs, 0) {
                        assert(agree(d1, d2, pos, p));
                        assert(agree(d1, d2, p + 8, q));
                    }
                }
            }
        }
    } else if id == ID_CPE {
        lemma_cpe(d1, d2, pos, set, sample_rate);
    } else {
        lemma_dse(d1, d2, pos);
        lemma_pce(d1, d2, pos);
        lemma_fil(d1, d2, pos);
        let none = Seq::<AacGainLocation>::empty();
        if let Ok((locs, q)) = element(d1, pos, set, sample_rate, id) {
            assert(locs =~= none);
            if agree_off_gains(d1, d2, pos, q, locs, 0) {
                assert(agree(d1, d2, pos, q));
            }
        }
    }
}

/// A channel pair moves forward within the data. Its gains lie in it, and its
/// extent and the places of its gains do not depend on their values.
proof fn lemma_cpe(d1: Seq<u8>, d2: Seq<u8>, pos: int, set: BookSet, sample_rate: u32)
    requires
        0 <= pos <= bit_len(d1),
        set.valid(),
    ensures
        cpe(d1, pos, set, sample_rate) matches Ok((locs, q)) ==> {
            &&& pos <= q <= bit_len(d1)
            &&& d1.len() <= u32::MAX ==> gains_within(d1, locs, 0, pos, q)
            &&& d1.len() <= u32::MAX && set.prefix_free() && d1.len() == d2.len()
                && agree_off_gains(d1, d2, pos, q, locs, 0) ==> (cpe(
                d2,
                pos,
                set,
                sample_rate,
            ) matches Ok((locs2, q2)) && q2 == q && same_places(locs, locs2))
        },
{
    reveal(cpe);
    lemma_small_powers();
    lemma_field(d1, d2, pos, 4);
    if let Ok((_, p)) = field(d1, pos, 4) {
        lemma_shared_layout(d1, d2, p);
        if let Ok((shared, p1)) = shared_layout(d1, p) {
            lemma_ics(d1, d2, p1, set, 0, shared, sample_rate);
            if let Ok(((loc1, _), p2)) = ics(d1, p1, set, 0, shared, sample_rate) {
                lemma_ics(d1, d2, p2, set, 1, shared, sample_rate);
                if let Ok(((loc2, _), q)) = ics(d1, p2, set, 1, shared, sample_rate) {
                    let locs = seq![loc1, loc2];
                    lemma_bits_bound(d1, p1, 8);
                    lemma_bits_bound(d1, p2, 8);
                    if d1.len() <= u32::MAX {
                        lemma_gain_at(d1, p1, 0, bits_value(d1, p1, 8) as int);
                        lemma_gain_at(d1, p2, 1, bits_value(d1, p2, 8) as int);
                        assert(gains_within(d1, locs, 0, pos, q));
                        if d1.len() == d2.len() && agree_off_gains(d1, d2, pos, q, locs, 0) {
                            assert(agree(d1, d2, pos, p));
                            assert(agree(d1, d2, p, p1));
                            assert(agree(d1, d2, p1 + 8, p2));
                            assert(agree(d1, d2, p2 + 8, q));
                        }
                    }
                }
            }
        }
    }
}

/// A raw data block moves forward within the data, and its gains lie in it,
/// one behind the other, each found with the value that the bits spell.
pub proof fn lemma_raw_data_block(
    data: Seq<u8>,
    pos: int,
    set: BookSet,
    sample_rate: u32,
    known: Seq<AacGainLocation>,
)
    requires
        0 <= pos <= bit_len(data),
        set.valid(),
        data.len() <= u32::MAX,
    ensures
        raw_data_block(data, pos, set, sample_rate, known) matches Ok((locs, q)) ==> {
            &&& pos <= q <= bit_len(data)
            &&& locs.len() >= known.len()
            &&& locs.subrange(0, known.len() as int) == known
            &&& gains_within(data, locs, known.len() as int, pos, q)
        },
    decreases bit_len(data) - pos,
{
    lemma_field(data, data, pos, 3);
    if let Ok((id, p)) = field(data, pos, 3) {
        lemma_element(data, data, p, set, sample_rate, id);
        if let Ok((found, p)) = element(data, p, set, sample_rate, id) {
            let longer = known + found;
            lemma_raw_data_block(data, p, set, sample_rate, longer);
            if let Ok((locs, q)) = raw_data_block(data, p, set, sample_rate, longer) {
                assert(longer.subrange(0, known.len() as int) =~= known);
                assert(locs.subrange(0, known.len() as int) =~= locs.subrange(
                    0,
                    longer.len() as int,
                ).subrange(0, known.len() as int));
                let n = known.len() as int;
                assert forall|k: int| n <= k < longer.len() implies #[trigger] locs[k] == found[k
                    - n] by {
                    assert(locs.subrange(0, longer.len() as int)[k] == longer[k]);
                }
            }
        }
    }
    assert(known.subrange(0, known.len() as int) =~= known);
}

/// The extent of a raw data block and the places of its gains do not depend on
/// the values of the gains.
pub proof fn lemma_raw_data_block_stable(
    d1: Seq<u8>,
    d2: Seq<u8>,
    pos: int,
    set: BookSet,
    sample_rate: u32,
    known1: Seq<AacGainLocation>,
    known2: Seq<AacGainLocation>,
)
    requires
        0 <= pos <= bit_len(d1),
        set.valid(),
        set.prefix_free(),
        d1.len() <= u32::MAX,
        d1.len() == d2.len(),
        same_places(known1, known2),
        raw_data_block(d1, pos, set, sample_rate, known1) is Ok,
        agree_off_gains(
            d1,
            d2,
            pos,
            bit_len(d1),
            raw_data_block(d1, pos, set, sample_rate, known1)->Ok_0.0,
            known1.len() as int,
        ),
    ensures
        raw_data_block(d2, pos, set, sample_rate, known2) is Ok,
        raw_data_block(d2, pos, set, sample_rate, known2)->Ok_0.1 == raw_data_block(
            d1,
            pos,
            set,
            sample_rate,
            known1,
        )->Ok_0.1,
        same_places(
            raw_data_block(d1, pos, set, sample_rate, known1)->Ok_0.0,
            raw_data_block(d2, pos, set, sample_rate, known2)->Ok_0.0,
        ),
    decreases bit_len(d1) - pos,
{
    if bit_len(d1) - pos >= 3 {
        let (locs, q) = raw_data_block(d1, pos, set, sample_rate, known1)->Ok_0;
        lemma_raw_data_block(d1, pos, set, sample_rate, known1);
        lemma_field(d1, d2, pos, 3);
        let (id, p) = field(d1, pos, 3)->Ok_0;
        let n = known1.len() as int;
        if id == ID_END {
            assert(agree(d1, d2, pos, p));
        } else {
            lemma_element(d1, d2, p, set, sample_rate, id);
            let (found, p2) = element(d1, p, set, sample_rate, id)->Ok_0;
            let longer = known1 + found;
            lemma_raw_data_block(d1, p2, set, sample_rate, longer);
            assert forall|k: int| n <= k < longer.len() implies #[trigger] locs[k] == found[k
                - n] by {
                assert(locs.subrange(0, longer.len() as int)[k] == longer[k]);
            }
            assert(agree(d1, d2, pos, p)) by {
                assert forall|i: int| pos <= i < p implies #[trigger] bit(d1, i) == bit(d2, i) by {
                    if in_gain(locs, n, i) {
                        let k = choose|k: int|
                            n <= k < locs.len() && (#[trigger] locs[k]).sample_bit() <= i
                                < locs[k].sample_bit() + 8;
                        if k < longer.len() {
                            assert(locs[k] == found[k - n]);
                        }
                    }
                }
            }
            assert(agree_off_gains(d1, d2, p, p2, found, 0)) by {
                assert forall|i: int| p <= i < p2 implies in_gain(found, 0, i) || #[trigger] bit(
                    d1,
                    i,
                ) == bit(d2, i) by {
                    if in_gain(locs, n, i) {
                        let k = choose|k: int|
                            n <= k < locs.len() && (#[trigger] locs[k]).sample_bit() <= i
                                < locs[k].sample_bit() + 8;
                        assert(k < longer.len());
                        assert(locs[k] == found[k - n]);
                    }
                }
            }
            let found2 = element(d2, p, set, sample_rate, id)->Ok_0.0;
            assert(same_places(known1 + found, known2 + found2));
            assert(agree_off_gains(d1, d2, p2, bit_len(d1), locs, longer.len() as int)) by {
                assert forall|i: int|
                    p2 <= i < bit_len(d1) implies in_gain(locs, longer.len() as int, i)
                    || #[trigger] bit(d1, i) == bit(d2, i) by {
                    if in_gain(locs, n, i) {
                        let k = choose|k: int|
                            n <= k < locs.len() && (#[trigger] locs[k]).sample_bit() <= i
                                < locs[k].sample_bit() + 8;
                        if k < longer.len() {
                            assert(locs[k] == found[k - n]);
                        }
                    }
                }
            }
            lemma_raw_data_block_stable(
                d1,
                d2,
                p2,
                set,
                sample_rate,
                known1 + found,
                known2 + found2,
            );
        }
    }
}

} // verus!
