//! Locating satoshis in a wallet's outputs.
use std::collections::BTreeMap;
use std::collections::BTreeSet;
use vstd::prelude::*;

verus! {

broadcast use vstd::seq_lib::group_to_multiset_ensures;

/// A satoshi, by its ordinal number.
#[derive(Copy, Clone, Debug, Default, PartialEq, Eq, Structural, PartialOrd, Ord, Hash)]
pub struct Sat(pub u64);

/// A transaction id: its 32 bytes read as two little-endian halves, the
/// first 16 bytes in `.0`.
#[derive(Copy, Clone, Debug, Default, PartialEq, Eq, Structural, PartialOrd, Ord, Hash)]
pub struct Txid(pub u128, pub u128);

/// A transaction output: the transaction's id and the output's index in it.
#[derive(Copy, Clone, Debug, PartialEq, Eq, Structural, PartialOrd, Ord, Hash)]
pub struct OutPoint {
    pub txid: Txid,
    pub vout: u32,
}

/// A position inside an output: the output and the number of satoshis before
/// it there.
#[derive(Copy, Clone, Debug, PartialEq, Eq, Structural, PartialOrd, Ord, Hash)]
pub struct SatPoint {
    pub outpoint: OutPoint,
    pub offset: u64,
}

/// How rare a satoshi is, from least to most.
#[derive(Copy, Clone, Debug, PartialEq, Eq, Structural, PartialOrd, Ord, Hash)]
pub enum Rarity {
    Common,
    Uncommon,
    Rare,
    Epic,
    Legendary,
    Mythic,
}

/// The satoshis of a list that were found, where, and those that were not.
pub struct OutputTsv {
    pub found: BTreeMap<String, SatPoint>,
    pub lost: BTreeSet<String>,
}

/// A satoshi rarer than common, and where it stands.
pub struct OutputRare {
    pub sat: Sat,
    pub output: OutPoint,
    pub offset: u64,
    pub rarity: Rarity,
}

/// The command that lists satoshis: those named in a TSV file when one is
/// given, else the rare ones.
pub struct Sats {
    pub tsv: Option<String>,
}

/// A wallet's outputs, each with the ranges `[start, end)` of satoshis it holds, in order.
pub type OutputRanges = Seq<(OutPoint, Vec<(u64, u64)>)>;

/// The number of satoshis in the first `r` ranges of an output.
pub open spec fn offset_before(list: Seq<(u64, u64)>, r: int) -> int
    decreases r,
{
    if r <= 0 {
        0
    } else {
        offset_before(list, r - 1) + (list[r - 1].1 - list[r - 1].0)
    }
}

/// The ranges are well formed and each output's total fits in `u64`.
pub open spec fn ranges_ok(ranges: OutputRanges) -> bool {
    &&& forall|k: int, r: int|
        0 <= k < ranges.len() && 0 <= r < ranges[k].1@.len() ==> #[trigger] ranges[k].1@[r].0
            <= ranges[k].1@[r].1
    &&& forall|k: int|
        0 <= k < ranges.len() ==> #[trigger] offset_before(ranges[k].1@, ranges[k].1@.len() as int)
            <= u64::MAX
}

/// Whether range `r` of output `k` exists and holds `sat`.
pub open spec fn holds(ranges: OutputRanges, k: int, r: int, sat: u64) -> bool {
    0 <= k < ranges.len() && 0 <= r < ranges[k].1@.len() && ranges[k].1@[r].0 <= sat
        < ranges[k].1@[r].1
}

/// Whether some output holds `sat`.
pub open spec fn in_outputs(ranges: OutputRanges, sat: u64) -> bool {
    exists|k: int, r: int| #[trigger] holds(ranges, k, r, sat)
}

/// Whether `point` is where range `r` of output `k` holds `sat`.
pub open spec fn located(ranges: OutputRanges, sat: u64, point: SatPoint) -> bool {
    exists|k: int, r: int|
        #[trigger] holds(ranges, k, r, sat) && point == (SatPoint {
            outpoint: ranges[k].0,
            offset: (offset_before(ranges[k].1@, r) + sat - ranges[k].1@[r].0) as u64,
        })
}

/// Range `r` of output `k`, as start, end, offset in the output, and output.
pub open spec fn hay(ranges: OutputRanges, k: int, r: int) -> (u64, u64, u64, OutPoint) {
    (ranges[k].1@[r].0, ranges[k].1@[r].1, offset_before(ranges[k].1@, r) as u64, ranges[k].0)
}

pub open spec fn is_hay(ranges: OutputRanges, x: (u64, u64, u64, OutPoint)) -> bool {
    exists|k: int, r: int|
        0 <= k < ranges.len() && 0 <= r < ranges[k].1@.len() && x == #[trigger] hay(ranges, k, r)
}

proof fn lemma_offset_grows(list: Seq<(u64, u64)>, a: int, b: int)
    requires
        0 <= a <= b <= list.len(),
        forall|r: int| 0 <= r < list.len() ==> #[trigger] list[r].0 <= list[r].1,
    ensures
        0 <= offset_before(list, a) <= offset_before(list, b),
    decreases b,
{
    if b > a {
        lemma_offset_grows(list, a, b - 1);
    } else if a > 0 {
        lemma_offset_grows(list, a - 1, a - 1);
    }
}

/// Relies on `slice::sort_by_key`: it sorts the items, in place, by the key
/// that the closure picks.
#[verifier::external_body]
fn sort_by_start(haystacks: &mut Vec<(u64, u64, u64, OutPoint)>)
    ensures
        final(haystacks)@.to_multiset() == old(haystacks)@.to_multiset(),
        forall|a: int, b: int|
            0 <= a < b < final(haystacks)@.len() ==> #[trigger] final(haystacks)@[a].0
                <= #[trigger] final(haystacks)@[b].0,
{
    haystacks.sort_by_key(|h| h.0)
}

/// Whether range `x` (start, end, offset, output) holds `sat`.
pub open spec fn hay_holds(x: (u64, u64, u64, OutPoint), sat: u64) -> bool {
    x.0 <= sat < x.1
}

/// Whether `entry` holds the text of one of the first `bound` needles and a
/// place where an output holds that needle's satoshi.
pub open spec fn found_among<'a>(
    needles: Seq<(Sat, &'a str)>,
    ranges: OutputRanges,
    entry: (String, SatPoint),
    bound: int,
) -> bool {
    exists|i: int|
        0 <= i < bound && i < needles.len() && (#[trigger] needles[i]).1@ == entry.0@ && located(
            ranges,
            needles[i].0.0,
            entry.1,
        )
}

/// Whether the needles are in order of their satoshis.
pub open spec fn needles_sorted<'a>(needles: Seq<(Sat, &'a str)>) -> bool {
    forall|a: int, b: int|
        0 <= a < b < needles.len() ==> (#[trigger] needles[a]).0.0 <= (#[trigger] needles[b]).0.0
}

/// Whether some entry of `results` holds `text`.
pub open spec fn recorded(results: Seq<(String, SatPoint)>, text: Seq<char>) -> bool {
    exists|e: int| 0 <= e < results.len() && (#[trigger] results[e]).0@ == text
}

/// Whether some text of `texts` is `text`.
pub open spec fn listed(texts: Seq<String>, text: Seq<char>) -> bool {
    exists|k: int| 0 <= k < texts.len() && (#[trigger] texts[k])@ == text
}

/// Whether `text` is the text of a needle that `found` does not record.
pub open spec fn lost_needle<'a>(
    needles: Seq<(Sat, &'a str)>,
    found: Seq<(String, SatPoint)>,
    text: Seq<char>,
) -> bool {
    exists|i: int|
        0 <= i < needles.len() && (#[trigger] needles[i]).1@ == text && !recorded(found, text)
}

impl Sats {
    /// The texts of the needles that `found` does not record.
    pub fn lost(needles: &[(Sat, &str)], found: &Vec<(String, SatPoint)>) -> (r: Vec<String>)
        ensures
            forall|k: int| 0 <= k < r@.len() ==> lost_needle(needles@, found@, (#[trigger] r@[k])@),
            forall|i: int|
                0 <= i < needles@.len() && !recorded(found@, (#[trigger] needles@[i]).1@)
                    ==> listed(r@, needles@[i].1@),
    {
        let mut lost: Vec<String> = Vec::new();
        let mut i: usize = 0;
        while i < needles.len()
            invariant
                i <= needles@.len(),
                forall|k: int|
                    0 <= k < lost@.len() ==> lost_needle(needles@, found@, (#[trigger] lost@[k])@),
                forall|i2: int|
                    0 <= i2 < i && !recorded(found@, (#[trigger] needles@[i2]).1@) ==> listed(
                        lost@,
                        needles@[i2].1@,
                    ),
            decreases needles@.len() - i,
        {
            let text = needles[i].1.to_owned();
            let mut seen = false;
            let mut e: usize = 0;
            while e < found.len()
                invariant
                    e <= found@.len(),
                    text@ == needles@[i as int].1@,
                    seen <==> exists|e2: int| 0 <= e2 < e && (#[trigger] found@[e2]).0@ == text@,
                decreases found@.len() - e,
            {
                if found[e].0 == text {
                    seen = true;
                }
                e = e + 1;
            }
            if !seen {
                let ghost before = lost@;
                lost.push(text);
                proof {
                    assert(lost@[before.len() as int]@ == needles@[i as int].1@);
                    assert forall|k: int| 0 <= k < lost@.len() implies lost_needle(
                        needles@,
                        found@,
                        (#[trigger] lost@[k])@,
                    ) by {
                        if k < before.len() {
                            assert(lost@[k] == before[k]);
                        }
                    }
                    assert forall|i2: int|
                        0 <= i2 < i + 1 && !recorded(found@, (#[trigger] needles@[i2]).1@)
                            implies listed(lost@, needles@[i2].1@) by {
                        if i2 < i {
                            let k = choose|k: int|
                                0 <= k < before.len() && (#[trigger] before[k])@ == needles@[i2].1@;
                            assert(lost@[k] == before[k]);
                        }
                    }
                }
            }
            i = i + 1;
        }
        lost
    }

    /// Finds where needles stand: each entry is the text of a needle and a
    /// place where an output holds its satoshi. Where the needles are sorted by
    /// satoshi, every needle that some output holds has an entry.
    pub fn find(needles: &[(Sat, &str)], ranges: &[(OutPoint, Vec<(u64, u64)>)]) -> (r: Vec<
        (String, SatPoint),
    >)
        requires
            ranges_ok(ranges@),
        ensures
            forall|e: int|
                0 <= e < r@.len() ==> found_among(needles@, ranges@, #[trigger] r@[e], needles@.len() as int),
            needles_sorted(needles@) ==> forall|i: int|
                0 <= i < needles@.len() && in_outputs(ranges@, (#[trigger] needles@[i]).0.0)
                    ==> recorded(r@, needles@[i].1@),
    {
        let ghost rs = ranges@;
        let mut haystacks: Vec<(u64, u64, u64, OutPoint)> = Vec::new();
        let mut k: usize = 0;
        while k < ranges.len()
            invariant
                rs == ranges@,
                ranges_ok(rs),
                k <= rs.len(),
                forall|x: (u64, u64, u64, OutPoint)|
                    haystacks@.contains(x) ==> #[trigger] is_hay(rs, x),
                forall|k2: int, r2: int|
                    0 <= k2 < k && 0 <= r2 < rs[k2].1@.len() ==> haystacks@.contains(
                        #[trigger] hay(rs, k2, r2),
                    ),
            decreases rs.len() - k,
        {
            let outpoint = ranges[k].0;
            let list = &ranges[k].1;
            let mut offset: u64 = 0;
            let mut r: usize = 0;
            proof {
                lemma_offset_grows(list@, 0, list@.len() as int);
            }
            while r < list.len()
                invariant
                    rs == ranges@,
                    ranges_ok(rs),
                    k < rs.len(),
                    list@ == rs[k as int].1@,
                    outpoint == rs[k as int].0,
                    r <= list@.len(),
                    offset == offset_before(list@, r as int),
                    forall|x: (u64, u64, u64, OutPoint)|
                        haystacks@.contains(x) ==> #[trigger] is_hay(rs, x),
                    forall|k2: int, r2: int|
                        (0 <= k2 < k && 0 <= r2 < rs[k2].1@.len()) || (k2 == k && 0 <= r2 < r)
                            ==> haystacks@.contains(#[trigger] hay(rs, k2, r2)),
                decreases list@.len() - r,
            {
                let (start, end) = list[r];
                let item = (start, end, offset, outpoint);
                proof {
                    assert(item == hay(rs, k as int, r as int));
                    assert(is_hay(rs, item));
                    lemma_offset_grows(list@, (r + 1) as int, list@.len() as int);
                    assert(start <= end);
                }
                let ghost before = haystacks@;
                haystacks.push(item);
                proof {
                    assert forall|x: (u64, u64, u64, OutPoint)| haystacks@.contains(x) implies #[trigger] is_hay(rs, x) by {
                        if x != item {
                            assert(before.contains(x));
                        }
                    }
                    assert forall|k2: int, r2: int|
                        (0 <= k2 < k && 0 <= r2 < rs[k2].1@.len()) || (k2 == k && 0 <= r2 < r + 1)
                            implies haystacks@.contains(#[trigger] hay(rs, k2, r2)) by {
                        if k2 == k && r2 == r {
                            assert(haystacks@[before.len() as int] == item);
                        } else {
                            assert(before.contains(hay(rs, k2, r2)));
                            let w = choose|w: int| 0 <= w < before.len() && before[w] == hay(rs, k2, r2);
                            assert(haystacks@[w] == hay(rs, k2, r2));
                        }
                    }
                }
                offset = offset + (end - start);
                r = r + 1;
            }
            k = k + 1;
        }
        let ghost unsorted = haystacks@;
        sort_by_start(&mut haystacks);
        proof {
            assert forall|x: (u64, u64, u64, OutPoint)| haystacks@.contains(x) <==> unsorted.contains(x) by {
                assert(haystacks@.to_multiset().count(x) == unsorted.to_multiset().count(x));
            }
        }
        let mut i: usize = 0;
        let mut j: usize = 0;
        let mut results: Vec<(String, SatPoint)> = Vec::new();
        while i < needles.len() && j < haystacks.len()
            invariant
                rs == ranges@,
                ranges_ok(rs),
                i <= needles@.len(),
                j <= haystacks@.len(),
                forall|a: int, b: int|
                    0 <= a < b < haystacks@.len() ==> #[trigger] haystacks@[a].0
                        <= #[trigger] haystacks@[b].0,
                forall|x: (u64, u64, u64, OutPoint)|
                    haystacks@.contains(x) ==> #[trigger] is_hay(rs, x),
                forall|e: int|
                    0 <= e < results@.len() ==> found_among(needles@, rs, #[trigger] results@[e], i as int),
                needles_sorted(needles@) ==> forall|i2: int, h: int|
                    0 <= i2 < i && 0 <= h < haystacks@.len() && #[trigger] hay_holds(
                        haystacks@[h],
                        needles@[i2].0.0,
                    ) ==> recorded(results@, needles@[i2].1@),
                needles_sorted(needles@) ==> forall|h: int, i2: int|
                    0 <= h < j && i <= i2 < needles@.len() ==> (#[trigger] needles@[i2]).0.0
                        >= (#[trigger] haystacks@[h]).1,
            decreases needles@.len() - i + haystacks@.len() - j,
        {
            let (needle, value) = needles[i];
            let (start, end, offset, outpoint) = haystacks[j];
            if needle.0 >= start && needle.0 < end {
                proof {
                    assert(haystacks@.contains(haystacks@[j as int]));
                    assert(is_hay(rs, haystacks@[j as int]));
                }
                let ghost (hk, hr) = choose|hk: int, hr: int|
                    0 <= hk < rs.len() && 0 <= hr < rs[hk].1@.len() && haystacks@[j as int]
                        == #[trigger] hay(rs, hk, hr);
                proof {
                    let list = rs[hk].1@;
                    lemma_offset_grows(list, hr, hr + 1);
                    lemma_offset_grows(list, hr + 1, list.len() as int);
                    assert(offset_before(list, list.len() as int) <= u64::MAX);
                    assert(offset_before(list, hr + 1) == offset_before(list, hr) + (end - start));
                    assert(holds(rs, hk, hr, needle.0));
                }
                let point = SatPoint { outpoint, offset: offset + (needle.0 - start) };
                proof {
                    assert(holds(rs, hk, hr, needle.0) && point == (SatPoint {
                        outpoint: rs[hk].0,
                        offset: (offset_before(rs[hk].1@, hr) + needle.0 - rs[hk].1@[hr].0) as u64,
                    }));
                }
                let text = value.to_owned();
                let ghost before = results@;
                results.push((text, point));
                proof {
                    assert(located(rs, needle.0, point));
                    assert forall|e: int| 0 <= e < results@.len() implies found_among(
                        needles@,
                        rs,
                        #[trigger] results@[e],
                        i + 1,
                    ) by {
                        if e < before.len() {
                            assert(results@[e] == before[e]);
                            assert(found_among(needles@, rs, before[e], i as int));
                        } else {
                            assert(results@[e].0@ == needles@[i as int].1@);
                            assert(needles@[i as int].1@ == results@[e].0@);
                        }
                    }
                    if needles_sorted(needles@) {
                        assert forall|i2: int, h: int|
                            0 <= i2 < i && 0 <= h < haystacks@.len() && #[trigger] hay_holds(
                                haystacks@[h],
                                needles@[i2].0.0,
                            ) implies recorded(results@, needles@[i2].1@) by {
                            assert(recorded(before, needles@[i2].1@));
                            let e = choose|e: int|
                                0 <= e < before.len() && (#[trigger] before[e]).0@ == needles@[i2].1@;
                            assert(results@[e] == before[e]);
                        }
                    }
                }
            }
            if needle.0 >= end {
                j = j + 1;
            } else {
                proof {
                    if needles_sorted(needles@) {
                        assert forall|i2: int, h: int|
                            0 <= i2 < i + 1 && 0 <= h < haystacks@.len() && #[trigger] hay_holds(
                                haystacks@[h],
                                needles@[i2].0.0,
                            ) implies recorded(results@, needles@[i2].1@) by {
                            if i2 == i {
                                if h < j {
                                    assert(needles@[i2].0.0 >= haystacks@[h].1);
                                } else if h > j {
                                    assert(haystacks@[j as int].0 <= haystacks@[h].0);
                                }
                                assert(results@[results@.len() - 1].0@ == needles@[i2].1@);
                            }
                        }
                    }
                }
                i = i + 1;
            }
        }
        proof {
            if needles_sorted(needles@) {
                assert forall|i2: int|
                    0 <= i2 < needles@.len() && in_outputs(rs, (#[trigger] needles@[i2]).0.0)
                        implies recorded(results@, needles@[i2].1@) by {
                    let sat = needles@[i2].0.0;
                    let (k2, r2) = choose|k2: int, r2: int| #[trigger] holds(rs, k2, r2, sat);
                    let x = hay(rs, k2, r2);
                    assert(unsorted.contains(x));
                    assert(haystacks@.contains(x));
                    let h = choose|h: int| 0 <= h < haystacks@.len() && haystacks@[h] == x;
                    assert(hay_holds(haystacks@[h], needles@[i2].0.0));
                    if i2 >= i {
                        assert(j == haystacks@.len());
                        assert(needles@[i2].0.0 >= haystacks@[h].1);
                    }
                }
            }
            assert forall|e: int| 0 <= e < results@.len() implies found_among(
                needles@,
                ranges@,
                #[trigger] results@[e],
                needles@.len() as int,
            ) by {
                assert(found_among(needles@, rs, results@[e], i as int));
            }
        }
        results
    }
}

} // verus!
