//! HEVC sequence parameter sets: finding and raising the level in raw bytes.

use vstd::prelude::*;

verus! {

/// The level that a sequence parameter set is raised to (6.0).
pub const LEVEL: u8 = 180;

/// The raw byte of a sequence parameter set, behind its header, that holds the level.
pub const LEVEL_BYTE: usize = 12;

/// An emulation prevention sequence stands at `pos`: two raw bytes and one that is not raw.
pub open spec fn prevention(data: Seq<u8>, pos: int) -> bool {
    data[pos] == 0 && data[pos + 1] == 0 && data[pos + 2] == 3
}

/// Walks over raw bytes from `pos` on, `raw` of which are behind it already, until the level byte
/// is reached or fewer than three bytes are left: how many raw bytes were passed, and where the
/// walk ended.
pub open spec fn walk(data: Seq<u8>, pos: int, raw: int) -> (int, int)
    decreases data.len() - pos,
{
    if raw < LEVEL_BYTE && pos + 2 < data.len() {
        if prevention(data, pos) {
            walk(data, pos + 3, raw + 2)
        } else {
            walk(data, pos + 1, raw + 1)
        }
    } else {
        (raw, pos)
    }
}

/// Where the level stands in a parameter set whose header ends at `start`.
pub open spec fn level_position(data: Seq<u8>, start: int) -> Option<int> {
    let (raw, pos) = walk(data, start, 0);
    if raw == LEVEL_BYTE && pos < data.len() {
        Some(pos)
    } else {
        None
    }
}

/// The position of a level that is to be raised.
pub open spec fn low_level(data: Seq<u8>, start: int) -> Option<int> {
    match level_position(data, start) {
        Some(pos) => if data[pos] < LEVEL {
            Some(pos)
        } else {
            None
        },
        None => None,
    }
}

proof fn lemma_walk_end(data: Seq<u8>, pos: int, raw: int)
    ensures
        walk(data, pos, raw).1 >= pos,
    decreases data.len() - pos,
{
    if raw < LEVEL_BYTE && pos + 2 < data.len() {
        if prevention(data, pos) {
            lemma_walk_end(data, pos + 3, raw + 2);
        } else {
            lemma_walk_end(data, pos + 1, raw + 1);
        }
    }
}

/// Raising the level that a walk found does not change where the walk ends.
proof fn lemma_walk_raised(data: Seq<u8>, pos: int, raw: int)
    requires
        0 <= pos,
        0 <= raw,
        walk(data, pos, raw).0 == LEVEL_BYTE,
        walk(data, pos, raw).1 < data.len(),
    ensures
        walk(data.update(walk(data, pos, raw).1, LEVEL), pos, raw) == walk(data, pos, raw),
    decreases data.len() - pos,
{
    let end = walk(data, pos, raw).1;
    let after = data.update(end, LEVEL);
    if raw < LEVEL_BYTE && pos + 2 < data.len() {
        if prevention(data, pos) {
            lemma_walk_end(data, pos + 3, raw + 2);
            lemma_walk_raised(data, pos + 3, raw + 2);
            assert(prevention(after, pos));
        } else {
            lemma_walk_end(data, pos + 1, raw + 1);
            lemma_walk_raised(data, pos + 1, raw + 1);
            assert(!prevention(after, pos));
        }
    }
}

/// Finds the level that is to be raised in a parameter set whose header ends at `start`.
pub fn find_low_level(data: &[u8], start: usize) -> (r: Option<usize>)
    ensures
        match r {
            Some(pos) => low_level(data@, start as int) == Some(pos as int) && pos < data@.len(),
            None => low_level(data@, start as int) is None,
        },
{
    let len = data.len();
    let mut raw: usize = 0;
    let mut pos: usize = start;
    if start > len {
        return None;
    }
    while raw < LEVEL_BYTE && len - pos > 2
        invariant
            len == data@.len(),
            pos <= len,
            raw <= LEVEL_BYTE + 1,
            walk(data@, start as int, 0) == walk(data@, pos as int, raw as int),
        decreases len - pos,
    {
        if data[pos] == 0 && data[pos + 1] == 0 && data[pos + 2] == 3 {
            raw += 2;
            pos += 3;
        } else {
            raw += 1;
            pos += 1;
        }
    }
    if raw == LEVEL_BYTE && pos < len && data[pos] < LEVEL {
        Some(pos)
    } else {
        None
    }
}

/// A parameter set with its level raised, if it is a low one.
pub open spec fn raised(data: Seq<u8>, start: int) -> Option<Seq<u8>> {
    match low_level(data, start) {
        Some(pos) => Some(data.update(pos, LEVEL)),
        None => None,
    }
}

/// A raised level is not raised again, and stands in data that are not empty.
pub proof fn law_raised_once(data: Seq<u8>, start: int)
    requires
        0 <= start,
        raised(data, start) is Some,
    ensures
        raised(data, start)->0.len() > 0,
        raised(raised(data, start)->0, start) is None,
{
    lemma_walk_end(data, start, 0);
    lemma_walk_raised(data, start, 0);
}

/// `b` is `a`, where bytes below the level may have been raised to it.
pub open spec fn only_raised(a: Seq<u8>, b: Seq<u8>) -> bool {
    a.len() == b.len() && forall|i: int|
        0 <= i < a.len() ==> #[trigger] b[i] == a[i] || (a[i] < LEVEL && b[i] == LEVEL)
}

/// The length of the start code at `i`: none has length 0.
pub open spec fn start_code(data: Seq<u8>, i: int) -> int {
    if data[i] == 0 && data[i + 1] == 0 {
        if data[i + 2] == 0 && data[i + 3] == 1 {
            4
        } else if data[i + 2] == 1 {
            3
        } else {
            0
        }
    } else {
        0
    }
}

/// The type of a unit, in the first byte of its header.
pub open spec fn unit_type(header: u8) -> int {
    header as int / 2 % 64
}

/// The bytes with the level raised in the unit at `nal`, if that is a sequence parameter set.
pub open spec fn unit_raised(data: Seq<u8>, nal: int) -> Seq<u8> {
    if unit_type(data[nal]) == 33 {
        match raised(data, nal + 2) {
            Some(after) => after,
            None => data,
        }
    } else {
        data
    }
}

/// The bytes with the level raised in each sequence parameter set behind a start code from `i` on.
/// The last twenty bytes hold no start code that counts.
pub open spec fn stream_raised(data: Seq<u8>, i: int) -> Seq<u8>
    decreases data.len() - i,
    when 0 <= i
    via stream_raised_decreases
{
    if i + 20 >= data.len() {
        data
    } else {
        let n = start_code(data, i);
        if n == 0 {
            stream_raised(data, i + 1)
        } else {
            stream_raised(unit_raised(data, i + n), i + n + 1)
        }
    }
}

#[via_fn]
proof fn stream_raised_decreases(data: Seq<u8>, i: int) {
    if i + 20 < data.len() {
        lemma_unit_raised(data, i + start_code(data, i));
    }
}

proof fn lemma_unit_raised(data: Seq<u8>, nal: int)
    requires
        0 <= nal,
    ensures
        only_raised(data, unit_raised(data, nal)),
        unit_raised(data, nal).len() == data.len(),
{
    lemma_walk_end(data, nal + 2, 0);
}

/// Raising the levels in a stream keeps its length, and changes no byte but from below the level
/// to the level.
pub proof fn law_stream_only_raised(data: Seq<u8>, i: int)
    requires
        0 <= i,
    ensures
        only_raised(data, stream_raised(data, i)),
    decreases data.len() - i,
{
    if i + 20 < data.len() {
        let n = start_code(data, i);
        if n == 0 {
            law_stream_only_raised(data, i + 1);
        } else {
            lemma_unit_raised(data, i + n);
            law_stream_only_raised(unit_raised(data, i + n), i + n + 1);
        }
    }
}

/// How many raw bytes are behind a walk that comes to `target`, if it does.
spec fn raw_at(data: Seq<u8>, pos: int, raw: int, target: int) -> Option<int>
    decreases data.len() - pos,
{
    if pos == target {
        Some(raw)
    } else if raw < LEVEL_BYTE && pos + 2 < data.len() && pos < target {
        if prevention(data, pos) {
            raw_at(data, pos + 3, raw + 2, target)
        } else {
            raw_at(data, pos + 1, raw + 1, target)
        }
    } else {
        None
    }
}

/// A walk goes on from every position that it comes to.
proof fn lemma_walk_from(data: Seq<u8>, pos: int, raw: int, target: int)
    requires
        raw_at(data, pos, raw, target) is Some,
    ensures
        walk(data, pos, raw) == walk(data, target, raw_at(data, pos, raw, target)->0),
    decreases data.len() - pos,
{
    if pos != target {
        if prevention(data, pos) {
            lemma_walk_from(data, pos + 3, raw + 2, target);
        } else {
            lemma_walk_from(data, pos + 1, raw + 1, target);
        }
    }
}

/// The start of a sequence parameter set: a start code at `i`, and the header's first byte.
spec fn set_at(data: Seq<u8>, i: int) -> bool {
    &&& 0 <= i
    &&& i + 20 < data.len()
    &&& start_code(data, i) > 0
    &&& unit_type(data[i + start_code(data, i)]) == 33
}

/// A walk cannot pass the start of a parameter set but byte by byte: it ends before the second
/// byte of the header, or comes to it with at least three raw bytes behind it.
proof fn lemma_walk_meets_set(data: Seq<u8>, pos: int, raw: int, i: int)
    requires
        set_at(data, i),
        0 <= raw <= LEVEL_BYTE + 1,
        0 <= pos <= i + start_code(data, i) + 1,
    ensures
        ({
            let target = i + start_code(data, i) + 1;
            match raw_at(data, pos, raw, target) {
                Some(r) => {
                    &&& r >= raw + target - (if pos > i {
                        pos
                    } else {
                        i
                    })
                    &&& r <= LEVEL_BYTE + 1
                },
                None => walk(data, pos, raw).1 <= target,
            }
        }),
    decreases data.len() - pos,
{
    let target = i + start_code(data, i) + 1;
    if pos != target && raw < LEVEL_BYTE && pos + 2 < data.len() {
        if prevention(data, pos) {
            assert(pos + 3 <= i);
            lemma_walk_meets_set(data, pos + 3, raw + 2, i);
        } else {
            lemma_walk_meets_set(data, pos + 1, raw + 1, i);
        }
    }
}

/// A walk to the level byte passes at least as many positions as raw bytes.
proof fn lemma_walk_length(data: Seq<u8>, pos: int, raw: int)
    requires
        0 <= pos,
    ensures
        walk(data, pos, raw).1 - pos >= walk(data, pos, raw).0 - raw,
    decreases data.len() - pos,
{
    if raw < LEVEL_BYTE && pos + 2 < data.len() {
        if prevention(data, pos) {
            lemma_walk_length(data, pos + 3, raw + 2);
        } else {
            lemma_walk_length(data, pos + 1, raw + 1);
        }
    }
}

/// Of two walks that go on from the same position, the one with three raw bytes more behind it
/// ends first, with a byte between the ends.
proof fn lemma_walk_ahead(data: Seq<u8>, pos: int, ahead: int, behind: int)
    requires
        0 <= pos,
        0 <= behind,
        behind + 3 <= ahead <= LEVEL_BYTE + 1,
        walk(data, pos, behind).0 == LEVEL_BYTE,
        walk(data, pos, behind).1 < data.len(),
    ensures
        walk(data, pos, ahead).0 >= LEVEL_BYTE,
        walk(data, pos, ahead).1 + 1 < walk(data, pos, behind).1,
    decreases data.len() - pos,
{
    if ahead >= LEVEL_BYTE {
        lemma_walk_length(data, pos, behind);
    } else if prevention(data, pos) {
        lemma_walk_ahead(data, pos + 3, ahead + 2, behind + 2);
    } else {
        lemma_walk_ahead(data, pos + 1, ahead + 1, behind + 1);
    }
}

/// A walk depends only on the bytes up to the one behind its end.
proof fn lemma_walk_local(a: Seq<u8>, b: Seq<u8>, pos: int, raw: int, m: int)
    requires
        0 <= pos,
        a.len() == b.len(),
        forall|i: int| 0 <= i < m && i < a.len() ==> #[trigger] a[i] == b[i],
        walk(a, pos, raw).1 + 1 < m,
    ensures
        walk(b, pos, raw) == walk(a, pos, raw),
    decreases a.len() - pos,
{
    if raw < LEVEL_BYTE && pos + 2 < a.len() {
        if prevention(a, pos) {
            lemma_walk_end(a, pos + 3, raw + 2);
            assert(prevention(b, pos));
            lemma_walk_local(a, b, pos + 3, raw + 2, m);
        } else {
            lemma_walk_end(a, pos + 1, raw + 1);
            assert(!prevention(b, pos));
            lemma_walk_local(a, b, pos + 1, raw + 1, m);
        }
    }
}

/// Raising the level of a parameter set does not change what is found in a set before it.
proof fn lemma_earlier_set(data: Seq<u8>, start: int, i: int)
    requires
        0 <= start <= i + 1,
        set_at(data, i),
        low_level(data, i + start_code(data, i) + 2) is Some,
    ensures
        low_level(
            data.update(low_level(data, i + start_code(data, i) + 2)->0, LEVEL),
            start,
        ) == low_level(data, start),
{
    let target = i + start_code(data, i) + 1;
    let later = target + 1;
    let p = low_level(data, later)->0;
    let after = data.update(p, LEVEL);
    let e = walk(data, start, 0).1;
    lemma_walk_length(data, later, 0);
    lemma_walk_meets_set(data, start, 0, i);
    match raw_at(data, start, 0, target) {
        None => {},
        Some(r) => {
            lemma_walk_from(data, start, 0, target);
            if r >= LEVEL_BYTE {
            } else if prevention(data, target) {
                assert(!prevention(data, target + 1));
                assert(walk(data, later, 0) == walk(data, target + 2, 1));
                assert(!prevention(data, target + 2));
                assert(walk(data, later, 0) == walk(data, target + 3, 2));
                lemma_walk_ahead(data, target + 3, r + 2, 2);
            } else {
                lemma_walk_ahead(data, target + 1, r + 1, 0);
            }
        },
    }
    lemma_walk_end(data, start, 0);
    lemma_walk_local(data, after, start, 0, p);
    assert(after[e] == data[e]);
}

/// Where the scan of a stream goes on after `i`.
spec fn next_scan(data: Seq<u8>, i: int) -> int {
    let n = start_code(data, i);
    if n == 0 {
        i + 1
    } else {
        i + n + 1
    }
}

/// Scanning a stream from `i` on comes to `k` without raising a level.
spec fn quiet(data: Seq<u8>, i: int, k: int) -> bool
    decreases k - i,
{
    i == k || {
        let n = start_code(data, i);
        &&& 0 <= i < k
        &&& i + 20 < data.len()
        &&& n > 0 && unit_type(data[i + n]) == 33 ==> low_level(data, i + n + 2) is None
        &&& next_scan(data, i) <= k
        &&& quiet(data, next_scan(data, i), k)
    }
}

proof fn lemma_quiet_scan(data: Seq<u8>, i: int, k: int)
    requires
        0 <= i,
        quiet(data, i, k),
    ensures
        stream_raised(data, i) == stream_raised(data, k),
    decreases k - i,
{
    if i != k {
        lemma_quiet_scan(data, next_scan(data, i), k);
    }
}

proof fn lemma_quiet_on(data: Seq<u8>, i: int, k: int, m: int)
    requires
        quiet(data, i, k),
        quiet(data, k, m),
        k <= m,
    ensures
        quiet(data, i, m),
    decreases k - i,
{
    if i != k {
        lemma_quiet_on(data, next_scan(data, i), k, m);
    }
}

proof fn lemma_quiet_kept(data: Seq<u8>, i: int, k: int)
    requires
        0 <= i,
        quiet(data, i, k),
        set_at(data, k),
        low_level(data, k + start_code(data, k) + 2) is Some,
    ensures
        quiet(data.update(low_level(data, k + start_code(data, k) + 2)->0, LEVEL), i, k),
    decreases k - i,
{
    let p = low_level(data, k + start_code(data, k) + 2)->0;
    let after = data.update(p, LEVEL);
    lemma_walk_length(data, k + start_code(data, k) + 2, 0);
    assert(p >= k + 17);
    if i != k {
        let n = start_code(data, i);
        assert(start_code(after, i) == n);
        let next = next_scan(data, i);
        if n > 0 && unit_type(data[i + n]) == 33 {
            lemma_earlier_set(data, i + n + 2, k);
        }
        lemma_quiet_kept(data, next, k);
    }
}

proof fn lemma_raised_stays(data: Seq<u8>, k: int)
    requires
        0 <= k,
        quiet(data, 0, k),
    ensures
        stream_raised(stream_raised(data, k), 0) == stream_raised(data, k),
    decreases data.len() - k,
{
    if k + 20 >= data.len() {
        lemma_quiet_scan(data, 0, k);
    } else {
        let n = start_code(data, k);
        if n == 0 {
            assert(quiet(data, k + 1, k + 1));
            assert(quiet(data, k, k + 1));
            lemma_quiet_on(data, 0, k, k + 1);
            lemma_raised_stays(data, k + 1);
        } else {
            let nal = k + n;
            let after = unit_raised(data, nal);
            lemma_unit_raised(data, nal);
            if unit_type(data[nal]) == 33 && low_level(data, nal + 2) is Some {
                lemma_quiet_kept(data, 0, k);
                law_raised_once(data, nal + 2);
                lemma_walk_length(data, nal + 2, 0);
                assert(start_code(after, k) == n);
            }
            assert(quiet(after, nal + 1, nal + 1));
            assert(quiet(after, k, nal + 1));
            lemma_quiet_on(after, 0, k, nal + 1);
            lemma_raised_stays(after, nal + 1);
        }
    }
}

/// Raising the levels in a stream again changes nothing.
pub proof fn law_stream_raised_once(data: Seq<u8>)
    ensures
        stream_raised(stream_raised(data, 0), 0) == stream_raised(data, 0),
{
    lemma_raised_stays(data, 0);
}

/// Raises the level to 6.0 in the sequence parameter sets of an HEVC byte stream, and says whether
/// a byte was changed.
pub fn rewrite_hevc_sps_in_buffer(data: &mut [u8]) -> (r: bool)
    ensures
        final(data)@ == stream_raised(old(data)@, 0),
        only_raised(old(data)@, final(data)@),
        r == (final(data)@ != old(data)@),
{
    let mut modified = false;
    let len = data.len();
    proof {
        law_stream_only_raised(data@, 0);
    }
    if len < 20 {
        return false;
    }
    let mut i: usize = 0;
    while len - i > 20
        invariant
            i <= len,
            len == data@.len(),
            len == old(data)@.len(),
            stream_raised(data@, i as int) == stream_raised(old(data)@, 0),
            only_raised(old(data)@, data@),
            modified == (data@ != old(data)@),
        decreases len - i,
    {
        let code: usize = if data[i] == 0 && data[i + 1] == 0 {
            if data[i + 2] == 0 && data[i + 3] == 1 {
                4
            } else if data[i + 2] == 1 {
                3
            } else {
                0
            }
        } else {
            0
        };
        if code > 0 {
            let nal: usize = i + code;
            let header: u8 = data[nal];
            assert((header >> 1u8) & 0x3fu8 == (header / 2) % 64) by (bit_vector);
            proof {
                lemma_unit_raised(data@, nal as int);
            }
            if (header >> 1) & 0x3f == 33 {
                match find_low_level(data, nal + 2) {
                    Some(pos) => {
                        let ghost before = data@;
                        data[pos] = LEVEL;
                        modified = true;
                        assert(data@[pos as int] != old(data)@[pos as int]) by {
                            assert(before[pos as int] == old(data)@[pos as int] || before[pos as int]
                                == LEVEL);
                        }
                    },
                    None => {},
                }
            }
            i = nal + 1;
        } else {
            i += 1;
        }
    }
    modified
}

/// Bytes without the threes that prevent emulation: those behind two zeros.
pub open spec fn unescaped(s: Seq<u8>) -> Seq<u8>
    decreases s.len(),
{
    if s.len() == 0 {
        s
    } else if s.len() >= 3 && s[0] == 0 && s[1] == 0 && s[2] == 3 {
        seq![0u8, 0u8] + unescaped(s.skip(3))
    } else {
        seq![s[0]] + unescaped(s.skip(1))
    }
}

proof fn lemma_walk_counts(data: Seq<u8>, pos: int, raw: int)
    requires
        0 <= pos,
        0 <= raw <= 12,
        walk(data, pos, raw).0 == 12,
        walk(data, pos, raw).1 <= data.len(),
    ensures
        pos <= walk(data, pos, raw).1,
        unescaped(data.subrange(pos, walk(data, pos, raw).1)).len() == 12 - raw,
    decreases data.len() - pos,
{
    let end = walk(data, pos, raw).1;
    lemma_walk_end(data, pos, raw);
    lemma_walk_length(data, pos, raw);
    let s = data.subrange(pos, end);
    if raw < 12 && pos + 2 < data.len() {
        if prevention(data, pos) {
            lemma_walk_length(data, pos + 3, raw + 2);
            lemma_walk_end(data, pos + 3, raw + 2);
            if raw + 2 <= 12 {
                lemma_walk_counts(data, pos + 3, raw + 2);
            }
            assert(s.skip(3) =~= data.subrange(pos + 3, end));
        } else {
            lemma_walk_end(data, pos + 1, raw + 1);
            lemma_walk_counts(data, pos + 1, raw + 1);
            assert(s.skip(1) =~= data.subrange(pos + 1, end));
        }
    }
}

/// The level is the thirteenth raw byte behind the header: twelve bytes stand before it, those that
/// prevent emulation not counted.
pub proof fn law_level_is_thirteenth(data: Seq<u8>, start: int)
    requires
        0 <= start,
    ensures
        level_position(data, start) matches Some(pos) ==> {
            &&& start <= pos < data.len()
            &&& unescaped(data.subrange(start, pos)).len() == 12
        },
        start + 13 < data.len() && (forall|p: int|
            start <= p < start + 12 ==> !(#[trigger] data[p] == 0 && data[p + 1] == 0 && data[p + 2]
                == 3)) ==> level_position(data, start) == Some(start + 12),
{
    if level_position(data, start) is Some {
        lemma_walk_counts(data, start, 0);
    }
    if start + 13 < data.len() && (forall|p: int|
        start <= p < start + 12 ==> !(#[trigger] data[p] == 0 && data[p + 1] == 0 && data[p + 2] == 3)) {
        lemma_plain_walk(data, start, 0);
    }
}

proof fn lemma_plain_walk(data: Seq<u8>, start: int, raw: int)
    requires
        0 <= start,
        0 <= raw <= 12,
        start + 13 < data.len(),
        forall|p: int|
            start <= p < start + 12 ==> !(#[trigger] data[p] == 0 && data[p + 1] == 0 && data[p + 2]
                == 3),
    ensures
        walk(data, start + raw, raw) == (12int, start + 12),
    decreases 12 - raw,
{
    if raw < 12 {
        assert(!(data[start + raw] == 0 && data[start + raw + 1] == 0 && data[start + raw + 2] == 3));
        lemma_plain_walk(data, start, raw + 1);
    }
}

/// A level below 6.0, which is 180, becomes 180; a parameter set with another level, or without
/// one, stays as it is.
pub proof fn law_level_becomes_180(data: Seq<u8>, start: int)
    ensures
        match level_position(data, start) {
            Some(pos) => if data[pos] < 180 {
                raised(data, start) == Some(data.update(pos, 180))
            } else {
                raised(data, start) is None
            },
            None => raised(data, start) is None,
        },
{
}

/// A stream that raising does not change has no low level in a parameter set that the scan comes to.
proof fn lemma_nothing_low(data: Seq<u8>, i: int, nal: int)
    requires
        0 <= i <= nal - 3,
        stream_raised(data, i) == data,
        nal + 17 < data.len(),
        data[nal - 3] == 0 && data[nal - 2] == 0 && data[nal - 1] == 1,
        nal == 3 || data[nal - 4] != 1,
        data[nal] as int / 2 % 64 == 33,
    ensures
        low_level(data, nal + 2) is None,
    decreases nal - i,
{
    let n = start_code(data, i);
    if n == 0 {
        lemma_nothing_low(data, i + 1, nal);
    } else {
        let here = i + n;
        let after = unit_raised(data, here);
        lemma_unit_raised(data, here);
        if unit_type(data[here]) == 33 && low_level(data, here + 2) is Some {
            let pos = low_level(data, here + 2)->0;
            lemma_walk_end(data, here + 2, 0);
            law_stream_only_raised(after, here + 1);
            assert(after[pos] == LEVEL);
            assert(stream_raised(after, here + 1)[pos] == LEVEL);
        }
        if here != nal {
            lemma_nothing_low(data, here + 1, nal);
        }
    }
}

/// After raising the levels of a stream, every sequence parameter set has at least the level 6.0:
/// a unit of type 33 behind a start code, which does not begin right behind another one.
pub proof fn law_no_low_level_is_left(data: Seq<u8>, nal: int)
    requires
        3 <= nal,
        nal + 17 < data.len(),
    ensures
        ({
            let r = stream_raised(data, 0);
            r[nal - 3] == 0 && r[nal - 2] == 0 && r[nal - 1] == 1 && (nal == 3 || r[nal - 4] != 1)
                && r[nal] as int / 2 % 64 == 33 ==> (level_position(r, nal + 2) matches Some(pos)
                ==> r[pos] >= 180)
        }),
{
    let r = stream_raised(data, 0);
    law_stream_raised_once(data);
    law_stream_only_raised(data, 0);
    if r[nal - 3] == 0 && r[nal - 2] == 0 && r[nal - 1] == 1 && (nal == 3 || r[nal - 4] != 1)
        && r[nal] as int / 2 % 64 == 33 {
        lemma_nothing_low(r, 0, nal);
    }
}

/// The level of a parameter set that a stream begins with is 180 afterwards, if it was below; and
/// nothing before it has changed.
pub proof fn law_first_level_is_raised(data: Seq<u8>, nal: int, pos: int)
    requires
        nal == 3 || (nal == 4 && data[0] == 0),
        data[nal - 3] == 0 && data[nal - 2] == 0 && data[nal - 1] == 1,
        data[nal] as int / 2 % 64 == 33,
        data.len() > 20,
        level_position(data, nal + 2) == Some(pos),
    ensures
        data[pos] < 180 ==> stream_raised(data, 0)[pos] == 180,
        data[pos] >= 180 ==> stream_raised(data, 0)[pos] == data[pos],
        forall|i: int| 0 <= i < nal + 2 ==> #[trigger] stream_raised(data, 0)[i] == data[i],
{
    let after = unit_raised(data, nal);
    lemma_walk_end(data, nal + 2, 0);
    lemma_unit_raised(data, nal);
    law_stream_only_raised(after, nal + 1);
    lemma_front_stays(after, nal + 1);
    lemma_front_stays(data, 0);
    assert(start_code(data, 0) == nal);
    assert forall|i: int| 0 <= i < nal + 2 implies #[trigger] stream_raised(data, 0)[i] == data[i] by {
        assert(after[i] == data[i]);
    }
}

/// Raising the levels from a position on changes nothing up to what can be behind the next header.
proof fn lemma_front_stays(data: Seq<u8>, i: int)
    requires
        0 <= i,
    ensures
        forall|j: int|
            0 <= j < i + 5 && j < data.len() ==> #[trigger] stream_raised(data, i)[j] == data[j],
    decreases data.len() - i,
{
    if i + 20 >= data.len() {
        assert(stream_raised(data, i) == data);
    } else {
        let n = start_code(data, i);
        if n == 0 {
            lemma_front_stays(data, i + 1);
            assert(stream_raised(data, i) == stream_raised(data, i + 1));
        } else {
            let after = unit_raised(data, i + n);
            lemma_unit_raised(data, i + n);
            lemma_walk_end(data, i + n + 2, 0);
            lemma_front_stays(after, i + n + 1);
            assert forall|j: int| 0 <= j < i + 5 && j < data.len() implies #[trigger] stream_raised(
                data,
                i,
            )[j] == data[j] by {
                assert(stream_raised(after, i + n + 1)[j] == after[j]);
            }
        }
    }
}

/// A stream without a sequence parameter set behind a start code, and a short one, stay as they are.
pub proof fn law_other_units_stay(data: Seq<u8>)
    requires
        data.len() <= 20 || forall|i: int|
            3 <= i < data.len() && data[i - 3] == 0 && data[i - 2] == 0 && data[i - 1] == 1
                ==> #[trigger] data[i] as int / 2 % 64 != 33,
    ensures
        stream_raised(data, 0) == data,
{
    lemma_other_units(data, 0);
}

proof fn lemma_other_units(data: Seq<u8>, i: int)
    requires
        0 <= i,
        data.len() <= 20 || forall|i: int|
            3 <= i < data.len() && data[i - 3] == 0 && data[i - 2] == 0 && data[i - 1] == 1
                ==> #[trigger] data[i] as int / 2 % 64 != 33,
    ensures
        stream_raised(data, i) == data,
    decreases data.len() - i,
{
    if i + 20 < data.len() {
        let n = start_code(data, i);
        if n == 0 {
            lemma_other_units(data, i + 1);
        } else {
            assert(data[i + n] as int / 2 % 64 != 33);
            lemma_other_units(data, i + n + 1);
        }
    }
}

} // verus!
