//! The snapshot wire format.
//!
//! ```text
//! u32 magic = 0x31425241   ("ARB1")
//! u32 version = 1
//! u32 count
//! count times:
//!   u32 length of the identifier in bytes
//!   the identifier, UTF-8
//!   u32 hyst_rep
//!   u32 hyst_stall
//! ```
//!
//! Every integer is little-endian. A reader checks the whole input before it
//! returns anything: either all entries or one error.

use vstd::prelude::*;
use vstd::slice::slice_subrange;
use vstd::string::StringSliceAdditionalSpecFns;
use vstd::utf8::{decode_utf8, encode_utf8, valid_utf8};
use crate::snapshot::{entries_view, SupervisorSnapshot};
use crate::state::ArbiterState;

verus! {

/// The first four bytes of a snapshot, read as a little-endian integer.
pub const SNAP_MAGIC: u32 = 0x3142_5241;

/// The only version of the format.
pub const SNAP_VERSION: u32 = 1;

/// Why an input is not a snapshot.
#[derive(Clone, Copy, Debug, PartialEq, Eq, Structural)]
pub enum SnapshotError {
    /// Fewer than the twelve bytes of the header.
    TruncatedHeader,
    /// The first four bytes are not the magic number.
    BadMagic,
    /// A version other than 1.
    UnsupportedVersion,
    /// The input ends inside the length of an identifier.
    TruncatedLength,
    /// An identifier is longer than what is left of the input.
    IdOutOfBounds,
    /// An identifier is not UTF-8.
    InvalidUtf8,
    /// The input ends inside a repetition counter.
    TruncatedRep,
    /// The input ends inside a stall counter.
    TruncatedStall,
}

impl SnapshotError {
    /// The status code that stands for the error at a foreign boundary.
    pub open spec fn status(self) -> int {
        match self {
            SnapshotError::TruncatedHeader => -1,
            SnapshotError::TruncatedLength => -3,
            SnapshotError::IdOutOfBounds => -4,
            SnapshotError::InvalidUtf8 => -5,
            SnapshotError::TruncatedRep => -6,
            SnapshotError::TruncatedStall => -7,
            SnapshotError::BadMagic => -8,
            SnapshotError::UnsupportedVersion => -9,
        }
    }

    /// The status code that stands for the error at a foreign boundary:
    /// negative, and a different one for each error.
    pub fn code(&self) -> (r: i32)
        ensures
            r == self.status(),
    {
        match self {
            SnapshotError::TruncatedHeader => -1,
            SnapshotError::TruncatedLength => -3,
            SnapshotError::IdOutOfBounds => -4,
            SnapshotError::InvalidUtf8 => -5,
            SnapshotError::TruncatedRep => -6,
            SnapshotError::TruncatedStall => -7,
            SnapshotError::BadMagic => -8,
            SnapshotError::UnsupportedVersion => -9,
        }
    }
}

/// The four bytes of `x`, least significant first.
pub open spec fn le32(x: u32) -> Seq<u8> {
    seq![(x % 256) as u8, (x / 256 % 256) as u8, (x / 65536 % 256) as u8, (x / 16777216) as u8]
}

/// The integer whose four bytes, least significant first, are `b`.
pub open spec fn from_le32(b: Seq<u8>) -> u32
    recommends
        b.len() == 4,
{
    (b[0] + 256 * b[1] + 65536 * b[2] + 16777216 * b[3]) as u32
}

/// Reading what was written gives the integer back.
pub proof fn lemma_le32_round_trip(x: u32)
    ensures
        le32(x).len() == 4,
        from_le32(le32(x)) == x,
{
    let b0: u32 = x % 256;
    let b1: u32 = x / 256 % 256;
    let b2: u32 = x / 65536 % 256;
    let b3: u32 = x / 16777216;
    assert(b0 < 256 && b1 < 256 && b2 < 256 && b3 < 256 && x == b0 + 256 * b1 + 65536 * b2 + 16777216 * b3) by (bit_vector)
        requires
            b0 == x % 256,
            b1 == x / 256 % 256,
            b2 == x / 65536 % 256,
            b3 == x / 16777216,
    ;
    let b = le32(x);
    assert(b[0] == b0 && b[1] == b1 && b[2] == b2 && b[3] == b3);
}

/// The bytes of one entry.
pub open spec fn entry_bytes(entry: (Seq<char>, ArbiterState)) -> Seq<u8> {
    le32(encode_utf8(entry.0).len() as u32) + encode_utf8(entry.0) + le32(entry.1.hyst_rep) + le32(entry.1.hyst_stall)
}

/// The bytes of the entries, one after the other.
pub open spec fn entries_bytes(e: Seq<(Seq<char>, ArbiterState)>) -> Seq<u8>
    decreases e.len(),
{
    if e.len() == 0 {
        Seq::empty()
    } else {
        entry_bytes(e.first()) + entries_bytes(e.drop_first())
    }
}

/// The bytes of a snapshot with the entries `e`.
pub open spec fn snapshot_bytes(e: Seq<(Seq<char>, ArbiterState)>) -> Seq<u8> {
    le32(SNAP_MAGIC) + le32(SNAP_VERSION) + le32(e.len() as u32) + entries_bytes(e)
}

/// The format can hold `e`: the number of entries and the length of every
/// identifier fit into 32 bits.
pub open spec fn encodable(e: Seq<(Seq<char>, ArbiterState)>) -> bool {
    &&& e.len() <= u32::MAX
    &&& forall|i: int| 0 <= i < e.len() ==> encode_utf8((#[trigger] e[i]).0).len() <= u32::MAX
}

/// What reading one entry at position `at` of `data` gives: the entry and
/// the position behind it, or the error.
pub open spec fn parse_entry(data: Seq<u8>, at: int) -> Result<((Seq<char>, ArbiterState), int), SnapshotError> {
    if at + 4 > data.len() {
        Err(SnapshotError::TruncatedLength)
    } else {
        let n = from_le32(data.subrange(at, at + 4)) as int;
        let start = at + 4;
        if start + n > data.len() {
            Err(SnapshotError::IdOutOfBounds)
        } else if !valid_utf8(data.subrange(start, start + n)) {
            Err(SnapshotError::InvalidUtf8)
        } else if start + n + 4 > data.len() {
            Err(SnapshotError::TruncatedRep)
        } else if start + n + 8 > data.len() {
            Err(SnapshotError::TruncatedStall)
        } else {
            Ok(
                (
                    (
                        decode_utf8(data.subrange(start, start + n)),
                        ArbiterState {
                            hyst_rep: from_le32(data.subrange(start + n, start + n + 4)),
                            hyst_stall: from_le32(data.subrange(start + n + 4, start + n + 8)),
                        },
                    ),
                    start + n + 8,
                ),
            )
        }
    }
}

/// `first` in front of what `rest` gives, where `rest` gives entries.
pub open spec fn in_front(first: Seq<(Seq<char>, ArbiterState)>, rest: Result<Seq<(Seq<char>, ArbiterState)>, SnapshotError>) -> Result<
    Seq<(Seq<char>, ArbiterState)>,
    SnapshotError,
> {
    match rest {
        Ok(e) => Ok(first + e),
        Err(err) => Err(err),
    }
}

/// What reading `count` entries from position `at` of `data` gives: the
/// entries, or the first error.
pub open spec fn parse_entries(data: Seq<u8>, at: int, count: nat) -> Result<Seq<(Seq<char>, ArbiterState)>, SnapshotError>
    decreases count,
{
    if count == 0 {
        Ok(Seq::empty())
    } else {
        match parse_entry(data, at) {
            Err(err) => Err(err),
            Ok((entry, next)) => in_front(seq![entry], parse_entries(data, next, (count - 1) as nat)),
        }
    }
}

/// What reading `data` as a snapshot gives: the entries, or the first error.
/// Bytes behind the last entry are not looked at.
pub open spec fn parse_snapshot(data: Seq<u8>) -> Result<Seq<(Seq<char>, ArbiterState)>, SnapshotError> {
    if data.len() < 12 {
        Err(SnapshotError::TruncatedHeader)
    } else if from_le32(data.subrange(0, 4)) != SNAP_MAGIC {
        Err(SnapshotError::BadMagic)
    } else if from_le32(data.subrange(4, 8)) != SNAP_VERSION {
        Err(SnapshotError::UnsupportedVersion)
    } else {
        parse_entries(data, 12, from_le32(data.subrange(8, 12)) as nat)
    }
}

/// Appends the four bytes of `x`, least significant first.
fn put_le32(buf: &mut Vec<u8>, x: u32)
    ensures
        final(buf)@ == old(buf)@ + le32(x),
{
    buf.push((x % 256) as u8);
    buf.push((x / 256 % 256) as u8);
    buf.push((x / 65536 % 256) as u8);
    buf.push((x / 16777216) as u8);
    assert(buf@ =~= old(buf)@ + le32(x));
}

/// Reads four bytes at `at`, least significant first.
fn read_le32(data: &[u8], at: usize) -> (r: u32)
    requires
        at + 4 <= data@.len(),
    ensures
        r == from_le32(data@.subrange(at as int, at + 4)),
{
    let b0 = data[at] as u32;
    let b1 = data[at + 1] as u32;
    let b2 = data[at + 2] as u32;
    let b3 = data[at + 3] as u32;
    b0 + 256 * b1 + 65536 * b2 + 16777216 * b3
}

/// The string that `bytes` encode, by `str::from_utf8` of the standard
/// library: there is one exactly when the bytes are valid UTF-8, and it is
/// the string whose encoding they are.
#[verifier::external_body]
fn string_from_utf8(bytes: &[u8]) -> (r: Option<String>)
    ensures
        r is Some <==> valid_utf8(bytes@),
        r matches Some(s) ==> s@ == decode_utf8(bytes@),
{
    match std::str::from_utf8(bytes) {
        Ok(s) => Some(s.to_owned()),
        Err(_) => None,
    }
}

/// One more entry at the end adds its bytes at the end.
proof fn lemma_entries_bytes_push(e: Seq<(Seq<char>, ArbiterState)>, entry: (Seq<char>, ArbiterState))
    ensures
        entries_bytes(e.push(entry)) == entries_bytes(e) + entry_bytes(entry),
    decreases e.len(),
{
    if e.len() == 0 {
        let none = Seq::<(Seq<char>, ArbiterState)>::empty();
        assert(e =~= none);
        assert(e.push(entry).drop_first() =~= none);
        assert(e.push(entry).first() == entry);
        assert(entries_bytes(none) =~= Seq::<u8>::empty());
        assert(entries_bytes(e.push(entry)) =~= entry_bytes(entry) + Seq::<u8>::empty());
        assert(entries_bytes(e.push(entry)) =~= entries_bytes(e) + entry_bytes(entry));
    } else {
        assert(e.push(entry).drop_first() =~= e.drop_first().push(entry));
        assert(e.push(entry).first() == e.first());
        lemma_entries_bytes_push(e.drop_first(), entry);
        assert(entries_bytes(e.push(entry)) =~= entries_bytes(e) + entry_bytes(entry));
    }
}

/// Writes `snap` in the wire format. There is no encoding where the number
/// of entries or the length of an identifier does not fit into 32 bits.
pub fn encode_snapshot(snap: &SupervisorSnapshot) -> (r: Option<Vec<u8>>)
    ensures
        r is Some <==> encodable(snap@),
        r matches Some(bytes) ==> bytes@ == snapshot_bytes(snap@),
{
    let n = snap.states.len();
    if n > u32::MAX as usize {
        return None;
    }
    let mut buf: Vec<u8> = Vec::new();
    put_le32(&mut buf, SNAP_MAGIC);
    put_le32(&mut buf, SNAP_VERSION);
    put_le32(&mut buf, n as u32);
    let ghost header = buf@;
    let ghost e = snap@;
    let mut i: usize = 0;
    assert(e.take(0) =~= Seq::<(Seq<char>, ArbiterState)>::empty());
    while i < n
        invariant
            n == snap.states@.len(),
            e == snap@,
            i <= n,
            header == le32(SNAP_MAGIC) + le32(SNAP_VERSION) + le32(n as u32),
            buf@ == header + entries_bytes(e.take(i as int)),
            forall|j: int| 0 <= j < i ==> encode_utf8((#[trigger] e[j]).0).len() <= u32::MAX,
        decreases n - i,
    {
        let id = snap.states[i].0.as_str();
        let state = snap.states[i].1;
        let id_bytes = id.as_bytes();
        if id_bytes.len() > u32::MAX as usize {
            assert(e[i as int].0 == id@);
            return None;
        }
        let ghost before = buf@;
        put_le32(&mut buf, id_bytes.len() as u32);
        buf.extend_from_slice(id_bytes);
        put_le32(&mut buf, state.hyst_rep);
        put_le32(&mut buf, state.hyst_stall);
        proof {
            assert(e[i as int] == (id@, state));
            assert(e.take(i + 1) =~= e.take(i as int).push(e[i as int]));
            lemma_entries_bytes_push(e.take(i as int), e[i as int]);
            assert(buf@ =~= before + entry_bytes(e[i as int]));
            assert(buf@ =~= header + entries_bytes(e.take(i + 1)));
        }
        i += 1;
    }
    assert(e.take(n as int) =~= e);
    assert(buf@ =~= snapshot_bytes(e));
    Some(buf)
}

/// Associativity of putting entries in front.
proof fn lemma_in_front_push(
    acc: Seq<(Seq<char>, ArbiterState)>,
    entry: (Seq<char>, ArbiterState),
    rest: Result<Seq<(Seq<char>, ArbiterState)>, SnapshotError>,
)
    ensures
        in_front(acc, in_front(seq![entry], rest)) == in_front(acc.push(entry), rest),
{
    match rest {
        Ok(e) => {
            assert(acc + (seq![entry] + e) =~= acc.push(entry) + e);
        },
        Err(_) => {},
    }
}

/// Reads a snapshot in the wire format: all of its entries, in their order,
/// or the first error. Nothing is returned for an input that is wrong
/// anywhere.
pub fn decode_snapshot(data: &[u8]) -> (r: Result<SupervisorSnapshot, SnapshotError>)
    ensures
        match parse_snapshot(data@) {
            Ok(e) => r matches Ok(snap) && snap@ == e,
            Err(err) => r == Err::<SupervisorSnapshot, SnapshotError>(err),
        },
{
    let len = data.len();
    if len < 12 {
        return Err(SnapshotError::TruncatedHeader);
    }
    if read_le32(data, 0) != SNAP_MAGIC {
        return Err(SnapshotError::BadMagic);
    }
    if read_le32(data, 4) != SNAP_VERSION {
        return Err(SnapshotError::UnsupportedVersion);
    }
    let count = read_le32(data, 8);
    let mut states: Vec<(String, ArbiterState)> = Vec::new();
    let mut at: usize = 12;
    let mut done: u32 = 0;
    let ghost whole = parse_snapshot(data@);
    assert(entries_view(states@) =~= Seq::empty());
    assert(in_front(entries_view(states@), parse_entries(data@, 12, count as nat)) == whole) by {
        match parse_entries(data@, 12, count as nat) {
            Ok(e) => {
                assert(entries_view(states@) + e =~= e);
            },
            Err(_) => {},
        }
    }
    while done < count
        invariant
            len == data@.len(),
            12 <= at <= len,
            done <= count,
            whole == parse_snapshot(data@),
            in_front(entries_view(states@), parse_entries(data@, at as int, (count - done) as nat)) == whole,
        decreases count - done,
    {
        let ghost step = parse_entry(data@, at as int);
        if len - at < 4 {
            return Err(SnapshotError::TruncatedLength);
        }
        let n = read_le32(data, at) as usize;
        let start = at + 4;
        if n > len - start {
            return Err(SnapshotError::IdOutOfBounds);
        }
        let id = match string_from_utf8(slice_subrange(data, start, start + n)) {
            Some(s) => s,
            None => {
                return Err(SnapshotError::InvalidUtf8);
            },
        };
        let after = start + n;
        if len - after < 4 {
            return Err(SnapshotError::TruncatedRep);
        }
        let hyst_rep = read_le32(data, after);
        if len - after < 8 {
            return Err(SnapshotError::TruncatedStall);
        }
        let hyst_stall = read_le32(data, after + 4);
        let state = ArbiterState { hyst_rep, hyst_stall };
        proof {
            let entry = (id@, state);
            assert(step == Ok::<((Seq<char>, ArbiterState), int), SnapshotError>((entry, after + 8)));
            lemma_in_front_push(entries_view(states@), entry, parse_entries(data@, after + 8, (count - done - 1) as nat));
            assert(entries_view(states@.push((id, state))) =~= entries_view(states@).push(entry));
        }
        states.push((id, state));
        at = after + 8;
        done += 1;
    }
    proof {
        assert(entries_view(states@) + Seq::<(Seq<char>, ArbiterState)>::empty() =~= entries_view(states@));
    }
    Ok(SupervisorSnapshot { states })
}

/// Reading the bytes of entries gives the entries back, wherever in the
/// input they stand.
proof fn lemma_parse_entries_of_bytes(data: Seq<u8>, at: int, e: Seq<(Seq<char>, ArbiterState)>)
    requires
        0 <= at,
        at + entries_bytes(e).len() <= data.len(),
        data.subrange(at, at + entries_bytes(e).len()) == entries_bytes(e),
        forall|i: int| 0 <= i < e.len() ==> encode_utf8((#[trigger] e[i]).0).len() <= u32::MAX,
    ensures
        parse_entries(data, at, e.len()) == Ok::<Seq<(Seq<char>, ArbiterState)>, SnapshotError>(e),
    decreases e.len(),
{
    if e.len() == 0 {
        assert(e =~= Seq::empty());
    } else {
        let first = e.first();
        let rest = e.drop_first();
        let id_bytes = encode_utf8(first.0);
        let n = id_bytes.len() as int;
        let all = entries_bytes(e);
        let one = entry_bytes(first);
        let start = at + 4;
        let next = start + n + 8;
        assert(e[0] == first);
        lemma_le32_round_trip(n as u32);
        lemma_le32_round_trip(first.1.hyst_rep);
        lemma_le32_round_trip(first.1.hyst_stall);
        assert(one.len() == n + 12);
        assert(all == one + entries_bytes(rest));
        assert(all.len() == one.len() + entries_bytes(rest).len());
        let window = data.subrange(at, at + all.len());
        assert(data.subrange(at, at + 4) =~= le32(n as u32)) by {
            assert forall|j: int| 0 <= j < 4 implies #[trigger] data.subrange(at, at + 4)[j] == le32(n as u32)[j] by {
                assert(window[j] == all[j]);
                assert(all[j] == one[j]);
            }
        }
        assert(data.subrange(start, start + n) =~= id_bytes) by {
            assert forall|j: int| 0 <= j < n implies #[trigger] data.subrange(start, start + n)[j] == id_bytes[j] by {
                assert(window[4 + j] == all[4 + j]);
                assert(all[4 + j] == one[4 + j]);
            }
        }
        assert(data.subrange(start + n, start + n + 4) =~= le32(first.1.hyst_rep)) by {
            assert forall|j: int| 0 <= j < 4 implies #[trigger] data.subrange(start + n, start + n + 4)[j] == le32(first.1.hyst_rep)[j] by {
                assert(window[4 + n + j] == all[4 + n + j]);
                assert(all[4 + n + j] == one[4 + n + j]);
            }
        }
        assert(data.subrange(start + n + 4, start + n + 8) =~= le32(first.1.hyst_stall)) by {
            assert forall|j: int| 0 <= j < 4 implies #[trigger] data.subrange(start + n + 4, start + n + 8)[j] == le32(first.1.hyst_stall)[j] by {
                assert(window[8 + n + j] == all[8 + n + j]);
                assert(all[8 + n + j] == one[8 + n + j]);
            }
        }
        vstd::utf8::encode_utf8_valid_utf8(first.0);
        vstd::utf8::encode_utf8_decode_utf8(first.0);
        assert(parse_entry(data, at) == Ok::<((Seq<char>, ArbiterState), int), SnapshotError>((first, next)));
        assert(data.subrange(next, next + entries_bytes(rest).len()) =~= entries_bytes(rest)) by {
            assert forall|j: int| 0 <= j < entries_bytes(rest).len() implies #[trigger] data.subrange(next, next + entries_bytes(rest).len())[j]
                == entries_bytes(rest)[j] by {
                assert(window[n + 12 + j] == all[n + 12 + j]);
            }
        }
        assert forall|i: int| 0 <= i < rest.len() implies encode_utf8((#[trigger] rest[i]).0).len() <= u32::MAX by {
            assert(rest[i] == e[i + 1]);
        }
        lemma_parse_entries_of_bytes(data, next, rest);
        assert(seq![first] + rest =~= e);
    }
}

/// Reading what was written gives the entries back, whatever follows them
/// in the input.
pub proof fn lemma_snapshot_round_trip(e: Seq<(Seq<char>, ArbiterState)>, tail: Seq<u8>)
    requires
        encodable(e),
    ensures
        parse_snapshot(snapshot_bytes(e) + tail) == Ok::<Seq<(Seq<char>, ArbiterState)>, SnapshotError>(e),
{
    let data = snapshot_bytes(e) + tail;
    lemma_le32_round_trip(SNAP_MAGIC);
    lemma_le32_round_trip(SNAP_VERSION);
    lemma_le32_round_trip(e.len() as u32);
    assert(data.subrange(0, 4) =~= le32(SNAP_MAGIC));
    assert(data.subrange(4, 8) =~= le32(SNAP_VERSION));
    assert(data.subrange(8, 12) =~= le32(e.len() as u32));
    assert(data.subrange(12, 12 + entries_bytes(e).len() as int) =~= entries_bytes(e));
    lemma_parse_entries_of_bytes(data, 12, e);
}

} // verus!
