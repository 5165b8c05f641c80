//! Freeze flags: anomaly booleans read off a text payload.
//!
//! Three independent checks run over the bytes of the trimmed text: how many
//! adjacent 3-byte windows repeat, how few distinct bytes there are, and
//! whether a stock assistant phrase occurs.

use vstd::prelude::*;
use vstd::seq_lib::seq_to_set_is_finite;
use vstd::slice::slice_subrange;
use vstd::string::StringSliceAdditionalSpecFns;
use vstd::utf8::encode_utf8;
use crate::trim::{lemma_encoding_empty, trim_bounds, trimmed};

verus! {

/// What the text heuristics found.
#[derive(Clone, Copy, Debug, PartialEq, Eq, Structural)]
pub struct FreezeFlags {
    /// Many adjacent 3-byte windows repeat.
    pub rep_3p: bool,
    /// Very few distinct bytes for the length, or no text at all.
    pub stall: bool,
    /// The text holds a stock assistant phrase.
    pub ai_tell: bool,
}

impl FreezeFlags {
    /// The flags of `self` and `other`, each set where either has it set.
    pub open spec fn merged(self, other: FreezeFlags) -> FreezeFlags {
        FreezeFlags {
            rep_3p: self.rep_3p || other.rep_3p,
            stall: self.stall || other.stall,
            ai_tell: self.ai_tell || other.ai_tell,
        }
    }

    /// No flag set.
    pub open spec fn clear() -> FreezeFlags {
        FreezeFlags { rep_3p: false, stall: false, ai_tell: false }
    }

    pub fn merge(self, other: FreezeFlags) -> (r: FreezeFlags)
        ensures
            r == self.merged(other),
    {
        FreezeFlags {
            rep_3p: self.rep_3p || other.rep_3p,
            stall: self.stall || other.stall,
            ai_tell: self.ai_tell || other.ai_tell,
        }
    }
}

impl Default for FreezeFlags {
    fn default() -> (r: FreezeFlags)
        ensures
            r == FreezeFlags::clear(),
    {
        FreezeFlags { rep_3p: false, stall: false, ai_tell: false }
    }
}

/// How many 3-byte windows of a text of `n` bytes are held against their
/// right neighbour: those that start at 0, 3, 6, ... and leave room for the
/// neighbour.
pub open spec fn windows(n: int) -> int {
    if n >= 6 {
        (n - 6) / 3 + 1
    } else {
        0
    }
}

/// The `k`-th window equals its right neighbour.
pub open spec fn window_repeats(b: Seq<u8>, k: int) -> bool {
    b.subrange(3 * k, 3 * k + 3) == b.subrange(3 * k + 3, 3 * k + 6)
}

/// How many of the first `k` windows equal their right neighbour.
pub open spec fn repeats_among(b: Seq<u8>, k: int) -> int
    decreases k,
{
    if k <= 0 {
        0
    } else {
        repeats_among(b, k - 1) + if window_repeats(b, k - 1) {
            1int
        } else {
            0int
        }
    }
}

/// More than three in ten windows repeat.
pub open spec fn repetitive(b: Seq<u8>) -> bool {
    10 * repeats_among(b, windows(b.len() as int)) > 3 * windows(b.len() as int)
}

/// The distinct bytes are fewer than twelve in a hundred of the length.
pub open spec fn low_diversity(b: Seq<u8>) -> bool {
    25 * b.to_set().len() < 3 * b.len()
}

/// The byte with an ASCII capital letter turned into its small letter.
pub open spec fn ascii_lower(c: u8) -> u8 {
    if 0x41 <= c <= 0x5a {
        (c + 0x20) as u8
    } else {
        c
    }
}

/// `phrase` stands in `b` at position `i`, letter case aside.
pub open spec fn occurs_at(b: Seq<u8>, phrase: Seq<u8>, i: int) -> bool {
    &&& 0 <= i
    &&& i + phrase.len() <= b.len()
    &&& forall|j: int| 0 <= j < phrase.len() ==> ascii_lower(#[trigger] b[i + j]) == phrase[j]
}

/// `phrase` stands somewhere in `b`, letter case aside.
pub open spec fn mentions(b: Seq<u8>, phrase: Seq<u8>) -> bool {
    exists|i: int| occurs_at(b, phrase, i)
}

/// The flags of a text whose trimmed bytes are `b`, where `b` is not empty.
pub open spec fn flags_of_bytes(b: Seq<u8>) -> FreezeFlags {
    FreezeFlags {
        rep_3p: repetitive(b),
        stall: low_diversity(b),
        ai_tell: mentions(b, encode_utf8("as an ai"@)) || mentions(b, encode_utf8("as a language model"@)),
    }
}

/// The flags of a text.
pub open spec fn flags_of(text: Seq<char>) -> FreezeFlags {
    if trimmed(text).len() == 0 {
        FreezeFlags { rep_3p: false, stall: true, ai_tell: false }
    } else {
        flags_of_bytes(encode_utf8(trimmed(text)))
    }
}

/// A text of fewer than six bytes, white space around it aside, is never
/// repetitive.
pub proof fn lemma_short_text_not_repetitive(text: Seq<char>)
    requires
        encode_utf8(trimmed(text)).len() < 6,
    ensures
        !flags_of(text).rep_3p,
{
}

/// The three checks are independent: each flag of a text that is not empty
/// is what its own check finds.
pub proof fn lemma_flags_independent(text: Seq<char>)
    requires
        trimmed(text).len() > 0,
    ensures
        flags_of(text).rep_3p == repetitive(encode_utf8(trimmed(text))),
        flags_of(text).stall == low_diversity(encode_utf8(trimmed(text))),
        flags_of(text).ai_tell == (mentions(encode_utf8(trimmed(text)), encode_utf8("as an ai"@)) || mentions(
            encode_utf8(trimmed(text)),
            encode_utf8("as a language model"@),
        )),
{
}

fn to_ascii_lower(c: u8) -> (r: u8)
    ensures
        r == ascii_lower(c),
{
    if 0x41 <= c && c <= 0x5a {
        c + 0x20
    } else {
        c
    }
}

/// Whether `phrase` stands somewhere in `b`, letter case aside.
fn mentions_phrase(b: &[u8], phrase: &[u8]) -> (r: bool)
    ensures
        r == mentions(b@, phrase@),
{
    if phrase.len() > b.len() {
        return false;
    }
    let last: usize = b.len() - phrase.len();
    let mut i: usize = 0;
    while i <= last
        invariant
            last == b@.len() - phrase@.len(),
            b@.len() <= usize::MAX,
            i <= last + 1,
            forall|k: int| 0 <= k < i ==> !occurs_at(b@, phrase@, k),
        decreases last + 1 - i,
    {
        let mut j: usize = 0;
        while j < phrase.len() && to_ascii_lower(b[i + j]) == phrase[j]
            invariant
                last == b@.len() - phrase@.len(),
                b@.len() <= usize::MAX,
                i <= last,
                j <= phrase@.len(),
                forall|t: int| 0 <= t < j ==> ascii_lower(#[trigger] b@[i + t]) == phrase@[t],
            decreases phrase.len() - j,
        {
            j += 1;
        }
        if j == phrase.len() {
            assert(occurs_at(b@, phrase@, i as int));
            return true;
        }
        assert(!occurs_at(b@, phrase@, i as int)) by {
            assert(ascii_lower(b@[i + j]) != phrase@[j as int]);
        }
        i += 1;
    }
    false
}

/// How many windows there are, and how many of them repeat.
fn count_repeats(b: &[u8]) -> (r: (usize, usize))
    ensures
        r.0 == windows(b@.len() as int),
        r.1 == repeats_among(b@, windows(b@.len() as int)),
        r.1 <= r.0,
{
    let n = b.len();
    let mut total: usize = 0;
    let mut reps: usize = 0;
    if n >= 6 {
        let mut i: usize = 0;
        while i <= n - 6
            invariant
                n == b@.len(),
                n >= 6,
                i == 3 * total,
                i <= n - 6 + 3,
                total <= windows(n as int),
                reps == repeats_among(b@, total as int),
                reps <= total,
            decreases n - i,
        {
            let same = b[i] == b[i + 3] && b[i + 1] == b[i + 4] && b[i + 2] == b[i + 5];
            proof {
                let w = b@.subrange(3 * total, 3 * total + 3);
                let x = b@.subrange(3 * total + 3, 3 * total + 6);
                if same {
                    assert(w =~= x);
                } else {
                    assert(w[0] == b@[i as int] && w[1] == b@[i + 1] && w[2] == b@[i + 2]);
                    assert(x[0] == b@[i + 3] && x[1] == b@[i + 4] && x[2] == b@[i + 5]);
                }
                assert(same == window_repeats(b@, total as int));
            }
            total += 1;
            if same {
                reps += 1;
            }
            i += 3;
        }
    }
    (total, reps)
}

/// How many distinct bytes `b` holds.
fn count_distinct(b: &[u8]) -> (r: usize)
    ensures
        r == b@.to_set().len(),
        r <= 256,
{
    let mut seen_byte = [false;256];
    let mut seen: usize = 0;
    let mut i: usize = 0;
    proof {
        assert(b@.take(0).to_set() =~= Set::<u8>::empty());
    }
    while i < b.len()
        invariant
            i <= b@.len(),
            forall|v: u8| #[trigger] seen_byte@[v as int] <==> b@.take(i as int).contains(v),
            seen == b@.take(i as int).to_set().len(),
            seen <= i,
            seen <= 256,
        decreases b.len() - i,
    {
        let idx: usize = b[i] as usize;
        proof {
            let before = b@.take(i as int);
            let after = b@.take(i + 1);
            seq_to_set_is_finite(before);
            assert(after =~= before.push(b@[i as int]));
            assert(after.to_set() =~= before.to_set().insert(b@[i as int])) by {
                assert forall|v: u8| after.to_set().contains(v) <==> before.to_set().insert(b@[i as int]).contains(v) by {
                    if before.contains(v) {
                        let k = choose|k: int| 0 <= k < before.len() && before[k] == v;
                        assert(after[k] == v);
                    }
                    if v == b@[i as int] {
                        assert(after[i as int] == v);
                    }
                }
            }
            assert forall|v: u8| #[trigger] after.contains(v) <==> (v == b@[i as int] || before.contains(v)) by {
                assert(after.to_set().contains(v) <==> after.contains(v));
                assert(before.to_set().contains(v) <==> before.contains(v));
            }
            assert(before.to_set().contains(b@[i as int]) <==> seen_byte@[b@[i as int] as int]);
            if !seen_byte@[idx as int] {
                lemma_distinct_at_most_256(after);
            }
        }
        if !seen_byte[idx] {
            seen_byte[idx] = true;
            seen += 1;
        }
        i += 1;
    }
    assert(b@.take(b@.len() as int) =~= b@);
    seen
}

/// No byte string holds more than 256 distinct bytes.
proof fn lemma_distinct_at_most_256(b: Seq<u8>)
    ensures
        b.to_set().len() <= 256,
{
    let all = Set::<u8>::new(|v: u8| true);
    let ints = vstd::set_lib::set_int_range(0, 256);
    seq_to_set_is_finite(b);
    vstd::set_lib::lemma_int_range(0, 256);
    let f = |i: int| i as u8;
    assert(ints.map(f) =~= all) by {
        assert forall|v: u8| all.contains(v) implies ints.map(f).contains(v) by {
            assert(ints.contains(v as int));
            assert(f(v as int) == v);
        }
    }
    vstd::set_lib::lemma_map_size_bound(ints, all, f);
    ints.lemma_map_finite(f);
    vstd::set_lib::lemma_len_subset(b.to_set(), all);
}

/// Reads the freeze flags off `text`.
///
/// White space around the text is ignored. A text that is empty then is a
/// stall and nothing else. Any other text is repetitive when more than three
/// in ten of its 3-byte windows equal their right neighbour, a stall when it
/// has fewer than twelve distinct bytes per hundred, and an assistant tell
/// when it holds "as an ai" or "as a language model" in any letter case.
pub fn freeze_flags(text: &str) -> (r: FreezeFlags)
    ensures
        r == flags_of(text@),
{
    let (start, end) = trim_bounds(text);
    proof {
        lemma_encoding_empty(trimmed(text@));
    }
    if start == end {
        return FreezeFlags { rep_3p: false, stall: true, ai_tell: false };
    }
    let b = slice_subrange(text.as_bytes(), start, end);
    let (total, reps) = count_repeats(b);
    let rep_3p = total > 0 && 10 * (reps as u128) > 3 * (total as u128);
    let seen = count_distinct(b);
    let stall = 25 * (seen as u128) < 3 * (b.len() as u128);
    let ai_tell = mentions_phrase(b, "as an ai".as_bytes()) || mentions_phrase(b, "as a language model".as_bytes());
    FreezeFlags { rep_3p, stall, ai_tell }
}

} // verus!
