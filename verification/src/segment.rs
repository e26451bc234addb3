//! Numbered log segments: their names, their digests and what a restart has to send of them.

use vstd::prelude::*;

use sha2::Digest;

use crate::ledger::LocalLedger;
use crate::paths::file_name;
use crate::scanner::ScanItem;
use crate::text::chars_of;

verus! {

use crate::ledger::advanced_row;
use crate::ledger::sealed_row;
use crate::ledger::SegmentRow;
use crate::paths::file_name_spec;
use crate::paths::law_file_name;
use crate::text::all_digits;
use crate::text::decimal;
use crate::text::decimal_value;
use crate::text::law_decimal_reads_back;
use crate::text::law_digits_count_by_place;

/// The digits of a segment's name, which is `segment_`, at least one ASCII digit, `.wal`.
pub open spec fn segment_digits(name: Seq<char>) -> Option<Seq<char>> {
    if name.len() > 12 && "segment_"@.is_prefix_of(name) && ".wal"@.is_suffix_of(name)
        && all_digits(name.subrange(8, name.len() - 4)) {
        Some(name.subrange(8, name.len() - 4))
    } else {
        None
    }
}

/// The number of the segment that a path names, if it names one and the number fits 32 bits.
pub open spec fn segment_seq(path: Seq<char>) -> Option<u32> {
    match file_name_spec(path) {
        None => None,
        Some(name) => match segment_digits(name) {
            None => None,
            Some(digits) => if decimal_value(digits) <= u32::MAX {
                Some(decimal_value(digits) as u32)
            } else {
                None
            },
        },
    }
}

/// The segment number that a path names: `segment_0007.wal` gives 7, any other file gives none.
pub fn parse_segment_seq(file_path: &str) -> (r: Option<u32>)
    ensures
        r == segment_seq(file_path@),
{
    let name = match file_name(file_path) {
        None => {
            return None;
        },
        Some(n) => n,
    };
    let chars = chars_of(name);
    let n: usize = chars.len();
    proof {
        reveal_strlit("segment_");
        reveal_strlit(".wal");
    }
    if n <= 12 {
        return None;
    }
    let ghost head = name@.subrange(0, 8);
    let ghost tail = name@.subrange(n - 4, n as int);
    if !(chars[0] == 's' && chars[1] == 'e' && chars[2] == 'g' && chars[3] == 'm' && chars[4] == 'e'
        && chars[5] == 'n' && chars[6] == 't' && chars[7] == '_') {
        proof {
            if "segment_"@.is_prefix_of(name@) {
                assert(head == "segment_"@);
                assert(head[0] == 's' && head[1] == 'e' && head[2] == 'g' && head[3] == 'm');
                assert(head[4] == 'e' && head[5] == 'n' && head[6] == 't' && head[7] == '_');
            }
        }
        return None;
    }
    assert(head =~= "segment_"@);
    if !(chars[n - 4] == '.' && chars[n - 3] == 'w' && chars[n - 2] == 'a' && chars[n - 1] == 'l') {
        proof {
            if ".wal"@.is_suffix_of(name@) {
                assert(tail == ".wal"@);
                assert(tail[0] == '.' && tail[1] == 'w' && tail[2] == 'a' && tail[3] == 'l');
            }
        }
        return None;
    }
    assert(tail =~= ".wal"@);
    parse_digits(&chars, 8, n - 4)
}

/// The 32-bit number that the characters from `from` up to `to` denote, if they are all digits.
fn parse_digits(chars: &Vec<char>, from: usize, to: usize) -> (r: Option<u32>)
    requires
        from <= to <= chars@.len(),
    ensures
        r == (if all_digits(chars@.subrange(from as int, to as int)) && decimal_value(
            chars@.subrange(from as int, to as int),
        ) <= u32::MAX {
            Some(decimal_value(chars@.subrange(from as int, to as int)) as u32)
        } else {
            None::<u32>
        }),
{
    let ghost digits = chars@.subrange(from as int, to as int);
    let mut value: u64 = 0;
    let mut fits: bool = true;
    let mut i: usize = from;
    while i < to
        invariant
            from <= i <= to,
            to <= chars@.len(),
            digits == chars@.subrange(from as int, to as int),
            all_digits(digits.take(i - from)),
            fits ==> value == decimal_value(digits.take(i - from)) && value <= u32::MAX,
            !fits ==> decimal_value(digits.take(i - from)) > u32::MAX,
        decreases to - i,
    {
        let c: char = chars[i];
        let ghost before = digits.take(i - from);
        let ghost after = digits.take(i + 1 - from);
        assert(after.drop_last() =~= before);
        assert(after.last() == c);
        if c < '0' || c > '9' {
            assert(digits[i - from] == c);
            return None;
        }
        let d: u64 = c as u64 - '0' as u64;
        if fits {
            value = value * 10 + d;
            if value > u32::MAX as u64 {
                fits = false;
            }
        }
        i = i + 1;
    }
    assert(digits.take(to - from) =~= digits);
    if fits {
        Some(value as u32)
    } else {
        None
    }
}

/// Whether a path names a segment.
pub fn is_segment_file(file_path: &str) -> (r: bool)
    ensures
        r == segment_seq(file_path@) is Some,
{
    parse_segment_seq(file_path).is_some()
}

/// What `Sha256::digest` gives for a byte string.
pub uninterp spec fn sha256_digest(data: Seq<u8>) -> Seq<u8>;

/// `sha2::Sha256::digest`, whose 32 bytes depend on the data alone.
#[verifier::external_body]
fn sha256(data: &Vec<u8>) -> (r: [u8; 32])
    ensures
        r@ == sha256_digest(data@),
{
    sha2::Sha256::digest(data).into()
}

/// The SHA-256 digest of a file's content, if the file could be read.
pub fn sha256_file(content: Option<&Vec<u8>>) -> (r: Option<[u8; 32]>)
    ensures
        r is Some == content is Some,
        r matches Some(digest) ==> digest@ == sha256_digest(content->0@),
{
    match content {
        None => None,
        Some(data) => Some(sha256(data)),
    }
}

/// What a restart does about a segment.
#[derive(Debug, Clone, PartialEq)]
pub enum SegmentPlan {
    /// Send all of it: nothing is known of it, or it was rewritten.
    FullSync { file_path: String },
    /// Send what follows the offset.
    TailSync { file_path: String, start_offset: u64 },
    /// All of it was sent.
    Skip,
}

/// Why no plan could be made.
#[derive(Debug, Clone, PartialEq)]
pub enum PlanError {
    /// A sealed segment could not be read to take its digest.
    DigestFailed { file_path: String },
}

impl PlanError {
    /// The error as a sentence.
    pub fn message(&self) -> (r: String)
        ensures
            r@ == "sha256 failed: "@ + self->file_path@,
    {
        match self {
            PlanError::DigestFailed { file_path } => {
                let mut r: String = "sha256 failed: ".to_string();
                r.append(file_path);
                r
            },
        }
    }
}

/// A signed count as an unsigned one: nothing below zero.
pub open spec fn nonneg(x: i64) -> u64 {
    if x < 0 {
        0
    } else {
        x as u64
    }
}

/// A signed count as an unsigned one.
pub fn clamp_nonneg(x: i64) -> (r: u64)
    ensures
        r == nonneg(x),
{
    if x < 0 {
        0
    } else {
        x as u64
    }
}

/// The segment number of a scanned file.
pub open spec fn item_seq(scan: Seq<ScanItem>, i: int) -> Option<u32> {
    segment_seq(scan[i].file_path@)
}

/// Where a segment number goes in a list that is in order: behind all that are not greater.
pub open spec fn place(scan: Seq<ScanItem>, order: Seq<int>, seq: u32) -> int
    decreases order.len(),
{
    if order.len() == 0 || item_seq(scan, order.last())->0 <= seq {
        order.len() as int
    } else {
        place(scan, order.drop_last(), seq)
    }
}

/// The indices of the segments among the first `n` scanned files, by number and then as scanned.
pub open spec fn segment_order(scan: Seq<ScanItem>, n: int) -> Seq<int>
    decreases n,
{
    if n <= 0 {
        Seq::empty()
    } else {
        let before = segment_order(scan, n - 1);
        match item_seq(scan, n - 1) {
            None => before,
            Some(seq) => before.insert(place(scan, before, seq), n - 1),
        }
    }
}

/// The greatest segment number of a scan belongs to the segment that is still being written.
pub open spec fn is_active(scan: Seq<ScanItem>, seq: u32) -> bool {
    let order = segment_order(scan, scan.len() as int);
    order.len() > 0 && item_seq(scan, order.last()) == Some(seq)
}

/// What is left to send of a segment of which the bytes up to `synced` were sent.
pub open spec fn tail_plan(item: ScanItem, synced: u64) -> SegmentPlan {
    if synced >= nonneg(item.file_size) {
        SegmentPlan::Skip
    } else {
        SegmentPlan::TailSync { file_path: item.file_path, start_offset: synced }
    }
}

/// What to do about a segment. The active one is continued. A sealed one is compared with the
/// digest it was sealed with: if it is the same the rest is sent, else everything. Without a digest
/// nothing can be decided.
pub open spec fn plan_for(
    item: ScanItem,
    active: bool,
    row: Option<SegmentRow>,
    digest: Option<Seq<u8>>,
) -> Option<SegmentPlan> {
    if active {
        Some(
            tail_plan(
                item,
                match row {
                    Some(r) => nonneg(r.synced_offset),
                    None => 0,
                },
            ),
        )
    } else {
        match digest {
            None => None,
            Some(d) => match row {
                Some(r) if r.sealed_hash == Some(d) => Some(tail_plan(item, nonneg(r.synced_offset))),
                _ => Some(SegmentPlan::FullSync { file_path: item.file_path }),
            },
        }
    }
}

/// The bytes of an optional digest.
pub open spec fn digest_bytes(digest: Option<[u8; 32]>) -> Option<Seq<u8>> {
    match digest {
        Some(d) => Some(d@),
        None => None,
    }
}

/// The row of a segment, if it is known.
pub open spec fn row_of(segments: Map<u32, SegmentRow>, seq: u32) -> Option<SegmentRow> {
    if segments.contains_key(seq) {
        Some(segments[seq])
    } else {
        None
    }
}

/// What to do about the scanned file `i`, which is a segment.
pub open spec fn plan_at(
    scan: Seq<ScanItem>,
    segments: Map<u32, SegmentRow>,
    digests: Seq<Option<[u8; 32]>>,
    i: int,
) -> Option<SegmentPlan> {
    let seq = item_seq(scan, i)->0;
    plan_for(scan[i], is_active(scan, seq), row_of(segments, seq), digest_bytes(digests[i]))
}

/// Whether a sealed digest is a given one.
fn same_digest(sealed: &Option<Vec<u8>>, digest: &[u8; 32]) -> (r: bool)
    ensures
        r == (sealed is Some && sealed->0@ == digest@),
{
    match sealed {
        None => false,
        Some(bytes) => {
            if bytes.len() != 32 {
                return false;
            }
            let mut i: usize = 0;
            while i < 32
                invariant
                    i <= 32,
                    bytes@.len() == 32,
                    *sealed == Some(*bytes),
                    forall|j: int| 0 <= j < i ==> bytes@[j] == digest@[j],
                decreases 32 - i,
            {
                if bytes[i] != digest[i] {
                    return false;
                }
                i = i + 1;
            }
            assert(bytes@ =~= digest@);
            true
        },
    }
}

/// The indices of the segments of a scan in order, with their numbers.
fn ordered_segments(scan: &Vec<ScanItem>) -> (r: Vec<(usize, u32)>)
    ensures
        r@.len() == segment_order(scan@, scan@.len() as int).len(),
        forall|k: int|
            0 <= k < r@.len() ==> {
                &&& (#[trigger] r@[k]).0 == segment_order(scan@, scan@.len() as int)[k]
                &&& r@[k].0 < scan@.len()
                &&& item_seq(scan@, r@[k].0 as int) == Some(r@[k].1)
            },
{
    let n: usize = scan.len();
    let mut order: Vec<(usize, u32)> = Vec::new();
    let mut i: usize = 0;
    while i < n
        invariant
            i <= n,
            n == scan@.len(),
            order@.len() == segment_order(scan@, i as int).len(),
            forall|k: int|
                0 <= k < order@.len() ==> {
                    &&& (#[trigger] order@[k]).0 == segment_order(scan@, i as int)[k]
                    &&& order@[k].0 < i
                    &&& item_seq(scan@, order@[k].0 as int) == Some(order@[k].1)
                },
        decreases n - i,
    {
        let ghost before = segment_order(scan@, i as int);
        if let Some(seq) = parse_segment_seq(&scan[i].file_path) {
            let mut at: usize = order.len();
            assert(before.take(at as int) =~= before);
            while at > 0 && order[at - 1].1 > seq
                invariant
                    at <= order@.len(),
                    order@.len() == before.len(),
                    forall|k: int|
                        0 <= k < order@.len() ==> {
                            &&& (#[trigger] order@[k]).0 == before[k]
                            &&& item_seq(scan@, order@[k].0 as int) == Some(order@[k].1)
                        },
                    place(scan@, before.take(at as int), seq) == place(scan@, before, seq),
                decreases at,
            {
                proof {
                    let cut = before.take(at as int);
                    assert(order@[at - 1].0 == before[at - 1]);
                    assert(cut.last() == before[at - 1]);
                    assert(cut.drop_last() =~= before.take(at - 1));
                }
                at = at - 1;
                assert(before.take(at as int) =~= before.take((at + 1) as int).drop_last());
            }
            proof {
                let cut = before.take(at as int);
                if at > 0 {
                    assert(order@[at - 1].0 == before[at - 1]);
                    assert(cut.last() == before[at - 1]);
                }
                assert(place(scan@, cut, seq) == at);
            }
            let ghost held = order@;
            order.insert(at, (i, seq));
            assert(order@ =~= held.insert(at as int, (i, seq)));
            proof {
                let after = segment_order(scan@, i + 1);
                assert(after == before.insert(at as int, i as int));
                assert forall|k: int| 0 <= k < order@.len() implies {
                    &&& (#[trigger] order@[k]).0 == after[k]
                    &&& order@[k].0 < i + 1
                    &&& item_seq(scan@, order@[k].0 as int) == Some(order@[k].1)
                } by {
                    if k < at {
                        assert(order@[k] == held[k]);
                    } else if k > at {
                        assert(order@[k] == held[k - 1]);
                    }
                }
            }
        }
        i = i + 1;
    }
    order
}

/// Which scanned files are sealed segments, so that a plan needs their digests.
pub fn needs_digest(scan: &Vec<ScanItem>) -> (r: Vec<bool>)
    ensures
        r@.len() == scan@.len(),
        forall|i: int|
            0 <= i < scan@.len() ==> #[trigger] r@[i] == (item_seq(scan@, i) matches Some(seq)
                && !is_active(scan@, seq)),
{
    let order = ordered_segments(scan);
    let active: Option<u32> = if order.len() == 0 {
        None
    } else {
        Some(order[order.len() - 1].1)
    };
    assert(forall|seq: u32| #[trigger] is_active(scan@, seq) == (active == Some(seq)));
    let n: usize = scan.len();
    let mut r: Vec<bool> = Vec::new();
    let mut i: usize = 0;
    while i < n
        invariant
            i <= n,
            n == scan@.len(),
            r@.len() == i,
            forall|seq: u32| #[trigger] is_active(scan@, seq) == (active == Some(seq)),
            forall|k: int|
                0 <= k < i ==> #[trigger] r@[k] == (item_seq(scan@, k) matches Some(seq)
                    && !is_active(scan@, seq)),
        decreases n - i,
    {
        let needed: bool = match parse_segment_seq(&scan[i].file_path) {
            None => false,
            Some(seq) => match active {
                None => true,
                Some(a) => a != seq,
            },
        };
        r.push(needed);
        i = i + 1;
    }
    r
}

/// Plans what a restart sends of each segment of a scan, in order of their numbers. `digests` holds
/// for each scanned file the digest of its content, where it is needed and could be taken; the first
/// sealed segment without one is the error.
pub fn plan_segments(
    scan: &Vec<ScanItem>,
    ledger: &LocalLedger,
    digests: &Vec<Option<[u8; 32]>>,
) -> (r: Result<Vec<SegmentPlan>, PlanError>)
    requires
        digests@.len() == scan@.len(),
    ensures
        ({
            let order = segment_order(scan@, scan@.len() as int);
            match r {
                Ok(plans) => {
                    &&& plans@.len() == order.len()
                    &&& forall|k: int|
                        0 <= k < order.len() ==> plan_at(
                            scan@,
                            ledger@.segments,
                            digests@,
                            order[k],
                        ) == Some(#[trigger] plans@[k])
                },
                Err(e) => exists|k: int|
                    {
                        &&& 0 <= k < order.len()
                        &&& plan_at(scan@, ledger@.segments, digests@, #[trigger] order[k]) is None
                        &&& e == (PlanError::DigestFailed { file_path: scan@[order[k]].file_path })
                        &&& forall|j: int|
                            0 <= j < k ==> plan_at(
                                scan@,
                                ledger@.segments,
                                digests@,
                                #[trigger] order[j],
                            ) is Some
                    },
            }
        }),
{
    let order = ordered_segments(scan);
    let ghost all = segment_order(scan@, scan@.len() as int);
    let n: usize = order.len();
    let mut plans: Vec<SegmentPlan> = Vec::new();
    if n == 0 {
        return Ok(plans);
    }
    let max_seq: u32 = order[n - 1].1;
    assert(order@[n - 1].0 == all.last());
    let mut k: usize = 0;
    while k < n
        invariant
            k <= n,
            n == order@.len(),
            n == all.len(),
            all == segment_order(scan@, scan@.len() as int),
            digests@.len() == scan@.len(),
            n > 0,
            item_seq(scan@, all.last()) == Some(max_seq),
            forall|j: int|
                0 <= j < n ==> {
                    &&& (#[trigger] order@[j]).0 == all[j]
                    &&& order@[j].0 < scan@.len()
                    &&& item_seq(scan@, order@[j].0 as int) == Some(order@[j].1)
                },
            plans@.len() == k,
            forall|j: int|
                0 <= j < k ==> plan_at(scan@, ledger@.segments, digests@, all[j]) == Some(
                    #[trigger] plans@[j],
                ),
        decreases n - k,
    {
        let (i, seq) = order[k];
        assert(order@[k as int] == (i, seq));
        let item = &scan[i];
        let size: u64 = clamp_nonneg(item.file_size);
        let state = ledger.get_segment(seq);
        let ghost row = row_of(ledger@.segments, seq);
        let ghost wanted = plan_at(scan@, ledger@.segments, digests@, i as int);
        let synced: u64 = match &state {
            None => 0,
            Some(s) => clamp_nonneg(s.synced_offset),
        };
        let rest = if synced >= size {
            SegmentPlan::Skip
        } else {
            SegmentPlan::TailSync { file_path: item.file_path.clone(), start_offset: synced }
        };
        let plan = if seq == max_seq {
            rest
        } else {
            match &digests[i] {
                None => {
                    assert(wanted is None);
                    assert(all[k as int] == i);
                    proof {
                        assert forall|j: int| 0 <= j < k implies plan_at(
                            scan@,
                            ledger@.segments,
                            digests@,
                            #[trigger] all[j],
                        ) is Some by {
                            assert(plan_at(scan@, ledger@.segments, digests@, all[j]) == Some(
                                plans@[j],
                            ));
                        }
                    }
                    return Err(PlanError::DigestFailed { file_path: item.file_path.clone() });
                },
                Some(digest) => {
                    let matching: bool = match &state {
                        None => false,
                        Some(s) => same_digest(&s.sealed_hash, digest),
                    };
                    if matching {
                        rest
                    } else {
                        SegmentPlan::FullSync { file_path: item.file_path.clone() }
                    }
                },
            }
        };
        assert(wanted == Some(plan));
        plans.push(plan);
        k = k + 1;
    }
    Ok(plans)
}

/// The list of segments is in order: by number, and as scanned where numbers are equal.
pub open spec fn in_order(scan: Seq<ScanItem>, order: Seq<int>) -> bool {
    forall|j: int, k: int|
        0 <= j < k < order.len() ==> {
            ||| item_seq(scan, #[trigger] order[j])->0 < item_seq(scan, #[trigger] order[k])->0
            ||| item_seq(scan, order[j]) == item_seq(scan, order[k]) && order[j] < order[k]
        }
}

proof fn lemma_place(scan: Seq<ScanItem>, order: Seq<int>, seq: u32)
    requires
        in_order(scan, order),
    ensures
        0 <= place(scan, order, seq) <= order.len(),
        forall|j: int|
            0 <= j < place(scan, order, seq) ==> item_seq(scan, #[trigger] order[j])->0 <= seq,
        forall|j: int|
            place(scan, order, seq) <= j < order.len() ==> item_seq(scan, #[trigger] order[j])->0
                > seq,
    decreases order.len(),
{
    if order.len() > 0 {
        let last = order.len() - 1;
        if item_seq(scan, order.last())->0 <= seq {
            assert forall|j: int| 0 <= j < order.len() implies item_seq(
                scan,
                #[trigger] order[j],
            )->0 <= seq by {
                if j < last {
                    assert(item_seq(scan, order[j])->0 <= item_seq(scan, order[last])->0);
                }
            }
        } else {
            let front = order.drop_last();
            assert(in_order(scan, front));
            lemma_place(scan, front, seq);
            assert forall|j: int| 0 <= j < place(scan, order, seq) implies item_seq(
                scan,
                #[trigger] order[j],
            )->0 <= seq by {
                assert(front[j] == order[j]);
            }
            assert forall|j: int| place(scan, order, seq) <= j < order.len() implies item_seq(
                scan,
                #[trigger] order[j],
            )->0 > seq by {
                if j < last {
                    assert(front[j] == order[j]);
                }
            }
        }
    }
}

/// Every scanned segment comes exactly once in the order of a plan, ascending by number, and
/// nothing else does: no segment is left out of a restart.
pub proof fn law_every_segment_planned(scan: Seq<ScanItem>, n: int)
    requires
        0 <= n <= scan.len(),
    ensures
        in_order(scan, segment_order(scan, n)),
        segment_order(scan, n).no_duplicates(),
        forall|i: int| #[trigger]
            segment_order(scan, n).contains(i) == (0 <= i < n && item_seq(scan, i) is Some),
    decreases n,
{
    let all = segment_order(scan, n);
    if n > 0 {
        let before = segment_order(scan, n - 1);
        law_every_segment_planned(scan, n - 1);
        if let Some(seq) = item_seq(scan, n - 1) {
            lemma_place(scan, before, seq);
            let at = place(scan, before, seq);
            assert(all =~= before.insert(at, n - 1));
            assert forall|k: int| 0 <= k < all.len() implies #[trigger] all[k] == (if k < at {
                before[k]
            } else if k == at {
                n - 1
            } else {
                before[k - 1]
            }) by {}
            assert forall|k: int| 0 <= k < before.len() implies 0 <= #[trigger] before[k] < n - 1
                && item_seq(scan, before[k]) is Some by {
                assert(before.contains(before[k]));
            }
            assert forall|j: int, k: int| 0 <= j < k < all.len() implies {
                ||| item_seq(scan, #[trigger] all[j])->0 < item_seq(scan, #[trigger] all[k])->0
                ||| item_seq(scan, all[j]) == item_seq(scan, all[k]) && all[j] < all[k]
            } by {
                if j < at && k < at {
                    assert(before[j] == all[j] && before[k] == all[k]);
                } else if j < at && k == at {
                    assert(before[j] == all[j]);
                } else if j < at {
                    assert(before[j] == all[j] && before[k - 1] == all[k]);
                } else if j == at {
                    assert(before[k - 1] == all[k]);
                } else {
                    assert(before[j - 1] == all[j] && before[k - 1] == all[k]);
                }
            }
            assert forall|i: int| #[trigger] all.contains(i) == (0 <= i < n && item_seq(
                scan,
                i,
            ) is Some) by {
                if all.contains(i) {
                    let k = choose|k: int| 0 <= k < all.len() && all[k] == i;
                    if k < at {
                        assert(before.contains(before[k]));
                    } else if k > at {
                        assert(before.contains(before[k - 1]));
                    }
                }
                if 0 <= i < n && item_seq(scan, i) is Some {
                    if i == n - 1 {
                        assert(all[at] == i);
                    } else {
                        assert(before.contains(i));
                        let k = choose|k: int| 0 <= k < before.len() && before[k] == i;
                        if k < at {
                            assert(all[k] == i);
                        } else {
                            assert(all[k + 1] == i);
                        }
                    }
                }
            }
            assert(all.no_duplicates()) by {
                assert forall|j: int, k: int| 0 <= j < all.len() && 0 <= k < all.len() && j
                    != k implies all[j] != all[k] by {
                    if j < k {
                        assert(item_seq(scan, all[j])->0 < item_seq(scan, all[k])->0 || all[j]
                            < all[k]);
                    } else {
                        assert(item_seq(scan, all[k])->0 < item_seq(scan, all[j])->0 || all[k]
                            < all[j]);
                    }
                }
            }
        } else {
            assert forall|i: int| #[trigger] all.contains(i) == (0 <= i < n && item_seq(
                scan,
                i,
            ) is Some) by {
                assert(before.contains(i) == (0 <= i < n - 1 && item_seq(scan, i) is Some));
            }
        }
    }
}

/// A segment of which nothing is recorded is never skipped, unless it is the active one and empty.
pub proof fn law_unrecorded_is_sent(item: ScanItem, active: bool, digest: Seq<u8>)
    ensures
        active && nonneg(item.file_size) > 0 ==> plan_for(item, active, None, Some(digest)) == Some(
            SegmentPlan::TailSync { file_path: item.file_path, start_offset: 0 },
        ),
        !active ==> plan_for(item, active, None, Some(digest)) == Some(
            SegmentPlan::FullSync { file_path: item.file_path },
        ),
{
}

/// A sealed segment whose content no longer has the digest it was sealed with is sent in full.
pub proof fn law_rewritten_is_sent_in_full(item: ScanItem, row: SegmentRow, digest: Seq<u8>)
    requires
        row.sealed_hash != Some(digest),
    ensures
        plan_for(item, false, Some(row), Some(digest)) == Some(
            SegmentPlan::FullSync { file_path: item.file_path },
        ),
{
}

/// A plan goes by path, size and content alone: when a file was changed, and which inode it has,
/// makes no difference.
pub proof fn law_plan_ignores_times(
    a: ScanItem,
    b: ScanItem,
    active: bool,
    row: Option<SegmentRow>,
    digest: Option<Seq<u8>>,
)
    requires
        a.file_path == b.file_path,
        a.file_size == b.file_size,
    ensures
        plan_for(a, active, row, digest) == plan_for(b, active, row, digest),
{
}

/// A segment that was sealed with all of its bytes sent, and has not changed, is skipped.
pub proof fn law_sealed_is_skipped(
    item: ScanItem,
    path: Seq<char>,
    size: u64,
    digest: Seq<u8>,
    now: i64,
)
    requires
        item.file_size == size,
    ensures
        plan_for(item, false, Some(sealed_row(path, size, digest, size, now)), Some(digest)) == Some(
            SegmentPlan::Skip,
        ),
{
}

/// The active segment is continued from where it was recorded to be, with neither a gap nor a
/// repetition, and skipped when nothing was appended.
pub proof fn law_active_is_continued(
    segments: Map<u32, SegmentRow>,
    seq: u32,
    item: ScanItem,
    synced: u64,
    now: i64,
)
    requires
        synced <= i64::MAX,
    ensures
        plan_for(
            item,
            true,
            Some(
                advanced_row(segments, seq, item.file_path@, "UNFINISHED"@, synced, now),
            ),
            None,
        ) == Some(
            if item.file_size <= synced {
                SegmentPlan::Skip
            } else {
                SegmentPlan::TailSync { file_path: item.file_path, start_offset: synced }
            },
        ),
{
}

/// A segment that is continued, be it the active one or a sealed one whose content has the digest
/// it was sealed with, is skipped exactly if all of it was sent; else what follows the bytes that
/// were sent is planned, from the first of them on.
pub proof fn law_rest_is_planned(
    item: ScanItem,
    active: bool,
    row: SegmentRow,
    digest: Option<Seq<u8>>,
)
    requires
        active || (digest is Some && row.sealed_hash == digest),
        row.synced_offset >= 0,
    ensures
        item.file_size > row.synced_offset ==> plan_for(item, active, Some(row), digest) == Some(
            SegmentPlan::TailSync {
                file_path: item.file_path,
                start_offset: row.synced_offset as u64,
            },
        ),
        item.file_size <= row.synced_offset ==> plan_for(item, active, Some(row), digest) == Some(
            SegmentPlan::Skip,
        ),
{
}

/// An offset below zero counts as nothing sent.
pub proof fn law_negative_offset_is_none(
    item: ScanItem,
    active: bool,
    row: SegmentRow,
    digest: Option<Seq<u8>>,
)
    requires
        active || (digest is Some && row.sealed_hash == digest),
        row.synced_offset < 0,
        item.file_size > 0,
    ensures
        plan_for(item, active, Some(row), digest) == Some(
            SegmentPlan::TailSync { file_path: item.file_path, start_offset: 0 },
        ),
{
}

/// A plan fails only for want of the digest of a segment that is not the active one, and the active
/// one needs none.
pub proof fn law_plan_needs_digest(
    item: ScanItem,
    active: bool,
    row: Option<SegmentRow>,
    digest: Option<Seq<u8>>,
    other: Option<Seq<u8>>,
)
    ensures
        plan_for(item, active, row, digest) is None <==> !active && digest is None,
        active ==> plan_for(item, active, row, digest) == plan_for(item, active, row, other),
{
}

/// The active segment is the one with the greatest number of the scan.
pub proof fn law_active_is_greatest(scan: Seq<ScanItem>, seq: u32)
    ensures
        is_active(scan, seq) <==> {
            &&& exists|i: int| 0 <= i < scan.len() && #[trigger] item_seq(scan, i) == Some(seq)
            &&& forall|j: int|
                0 <= j < scan.len() && (#[trigger] item_seq(scan, j)) is Some ==> item_seq(
                    scan,
                    j,
                )->0 <= seq
        },
{
    let n = scan.len() as int;
    let order = segment_order(scan, n);
    law_every_segment_planned(scan, n);
    if is_active(scan, seq) {
        let last = order.last();
        assert(order.contains(last));
        assert(item_seq(scan, last) == Some(seq));
        assert forall|j: int|
            0 <= j < scan.len() && (#[trigger] item_seq(scan, j)) is Some implies item_seq(
            scan,
            j,
        )->0 <= seq by {
            assert(order.contains(j));
            let k = choose|k: int| 0 <= k < order.len() && order[k] == j;
            if k < order.len() - 1 {
                assert(item_seq(scan, order[k])->0 <= item_seq(scan, order[order.len() - 1])->0);
            }
        }
    }
    if (exists|i: int| 0 <= i < scan.len() && #[trigger] item_seq(scan, i) == Some(seq)) && (
    forall|j: int|
        0 <= j < scan.len() && (#[trigger] item_seq(scan, j)) is Some ==> item_seq(scan, j)->0
            <= seq) {
        let i = choose|i: int| 0 <= i < scan.len() && #[trigger] item_seq(scan, i) == Some(seq);
        assert(order.contains(i));
        let k = choose|k: int| 0 <= k < order.len() && order[k] == i;
        let last = order.last();
        assert(order.contains(last));
        if k < order.len() - 1 {
            assert(item_seq(scan, order[k])->0 <= item_seq(scan, order[order.len() - 1])->0);
        }
    }
}

/// The plan of a scanned segment goes by its own path, size, row and digest, and by whether it is
/// the one with the greatest number: what was recorded of it as sent is not sent again, and nothing
/// else is left out.
pub proof fn law_plan_of_a_scanned_segment(
    scan: Seq<ScanItem>,
    segments: Map<u32, SegmentRow>,
    digests: Seq<Option<[u8; 32]>>,
    i: int,
    seq: u32,
)
    requires
        0 <= i < scan.len(),
        segment_seq(scan[i].file_path@) == Some(seq),
    ensures
        ({
            let plan = plan_at(scan, segments, digests, i);
            let sent = if segments.contains_key(seq) && segments[seq].synced_offset > 0 {
                segments[seq].synced_offset as int
            } else {
                0
            };
            let newest = forall|j: int|
                0 <= j < scan.len() && (#[trigger] item_seq(scan, j)) is Some ==> item_seq(
                    scan,
                    j,
                )->0 <= seq;
            let unchanged = digests[i] is Some && segments.contains_key(seq)
                && segments[seq].sealed_hash == Some(digests[i]->0@);
            let rest = if sent < scan[i].file_size {
                SegmentPlan::TailSync { file_path: scan[i].file_path, start_offset: sent as u64 }
            } else {
                SegmentPlan::Skip
            };
            &&& newest || unchanged ==> plan == Some(rest)
            &&& !newest && !unchanged && digests[i] is Some ==> plan == Some(
                SegmentPlan::FullSync { file_path: scan[i].file_path },
            )
            &&& !newest && digests[i] is None ==> plan is None
        }),
{
    law_active_is_greatest(scan, seq);
    assert(item_seq(scan, i) == Some(seq));
}

/// A file named `segment_`, digits and `.wal` is the segment of the number that the digits denote,
/// in whichever directory it lies; a number that does not fit 32 bits is none.
pub proof fn law_segment_names(dir: Seq<char>, digits: Seq<char>)
    requires
        digits.len() > 0,
        all_digits(digits),
    ensures
        ({
            let name = "segment_"@ + digits + ".wal"@;
            let seq = if decimal_value(digits) <= u32::MAX {
                Some(decimal_value(digits) as u32)
            } else {
                None
            };
            segment_seq(name) == seq && segment_seq(dir.push('/') + name) == seq
        }),
{
    reveal_strlit("segment_");
    reveal_strlit(".wal");
    let name = "segment_"@ + digits + ".wal"@;
    assert("segment_"@.len() == 8 && ".wal"@.len() == 4);
    assert forall|i: int| 0 <= i < name.len() implies name[i] != '/' && name[i] != '\\' by {
        if 8 <= i < name.len() - 4 {
            assert(name[i] == digits[i - 8]);
        } else if i < 8 {
            assert(name[i] == "segment_"@[i]);
        } else {
            assert(name[i] == ".wal"@[i - name.len() + 4]);
        }
    }
    assert(name.subrange(0, 8) =~= "segment_"@);
    assert(name.subrange(name.len() - 4, name.len() as int) =~= ".wal"@);
    assert(name.subrange(8, name.len() - 4) =~= digits);
    assert(seq!['.'].len() == 1 && seq!['.', '.'].len() == 2);
    law_file_name(dir, name);
}

/// What is a segment is named so.
pub proof fn law_segments_are_named(path: Seq<char>) -> (digits: Seq<char>)
    requires
        segment_seq(path) is Some,
    ensures
        file_name_spec(path) == Some("segment_"@ + digits + ".wal"@),
        digits.len() > 0,
        all_digits(digits),
        segment_seq(path)->0 == decimal_value(digits),
{
    reveal_strlit("segment_");
    reveal_strlit(".wal");
    let name = file_name_spec(path)->0;
    let digits = segment_digits(name)->0;
    assert("segment_"@.len() == 8 && ".wal"@.len() == 4);
    assert(name.subrange(0, 8) == "segment_"@);
    assert(name.subrange(name.len() - 4, name.len() as int) == ".wal"@);
    assert(name =~= "segment_"@ + digits + ".wal"@);
    digits
}

/// The segment with a number is found under the number in decimal notation, with any number of zeros
/// in front.
pub proof fn law_segment_number_reads_back(dir: Seq<char>, seq: u32, zeros: nat)
    ensures
        segment_seq(
            dir.push('/') + ("segment_"@ + (Seq::new(zeros, |i: int| '0') + decimal(seq as nat))
                + ".wal"@),
        ) == Some(seq),
{
    let digits = Seq::new(zeros, |i: int| '0') + decimal(seq as nat);
    law_decimal_reads_back(seq as nat);
    lemma_leading_zeros(decimal(seq as nat), zeros);
    assert forall|i: int| 0 <= i < digits.len() implies '0' <= #[trigger] digits[i] <= '9' by {
        if i >= zeros {
            assert(digits[i] == decimal(seq as nat)[i - zeros]);
        }
    }
    law_segment_names(dir, digits);
}

proof fn lemma_leading_zeros(digits: Seq<char>, zeros: nat)
    ensures
        decimal_value(Seq::new(zeros, |i: int| '0') + digits) == decimal_value(digits),
    decreases zeros,
{
    let all = Seq::new(zeros, |i: int| '0') + digits;
    if zeros == 0 {
        assert(all =~= digits);
    } else {
        let fewer = Seq::new((zeros - 1) as nat, |i: int| '0') + digits;
        lemma_leading_zeros(digits, (zeros - 1) as nat);
        law_digits_count_by_place(fewer, '0');
        assert(all =~= seq!['0'] + fewer);
    }
}

} // verus!
