//! White space around a text, found on its UTF-8 bytes.
//!
//! Trimming is stated over characters and done over bytes: the text is
//! walked scalar by scalar from the front and from the back, never leaving
//! the character boundaries.

use vstd::prelude::*;
use vstd::utf8::*;

verus! {

/// The code point has the Unicode property White_Space.
pub open spec fn white_space_code(u: u32) -> bool {
    ||| 0x09 <= u <= 0x0d
    ||| u == 0x20
    ||| u == 0x85
    ||| u == 0xa0
    ||| u == 0x1680
    ||| 0x2000 <= u <= 0x200a
    ||| u == 0x2028
    ||| u == 0x2029
    ||| u == 0x202f
    ||| u == 0x205f
    ||| u == 0x3000
}

/// The character has the Unicode property White_Space.
pub open spec fn is_white_space(c: char) -> bool {
    white_space_code(c as u32)
}

/// `s` without its leading white space.
pub open spec fn trim_front(s: Seq<char>) -> Seq<char>
    decreases s.len(),
{
    if s.len() > 0 && is_white_space(s.first()) {
        trim_front(s.drop_first())
    } else {
        s
    }
}

/// `s` without its trailing white space.
pub open spec fn trim_back(s: Seq<char>) -> Seq<char>
    decreases s.len(),
{
    if s.len() > 0 && is_white_space(s.last()) {
        trim_back(s.drop_last())
    } else {
        s
    }
}

/// `s` without the white space around it.
pub open spec fn trimmed(s: Seq<char>) -> Seq<char> {
    trim_back(trim_front(s))
}

/// Only the empty text has an empty encoding.
pub proof fn lemma_encoding_empty(s: Seq<char>)
    ensures
        encode_utf8(s).len() == 0 <==> s.len() == 0,
{
    if s.len() > 0 {
        assert(encode_scalar(s[0] as u32).len() >= 1);
    }
}

/// The encoding of a text is the encoding of all but its last character,
/// followed by the encoding of the last.
proof fn lemma_encoding_last(s: Seq<char>)
    requires
        s.len() > 0,
    ensures
        encode_utf8(s) == encode_utf8(s.drop_last()) + encode_scalar(s.last() as u32),
    decreases s.len(),
{
    if s.len() == 1 {
        assert(s.drop_last() =~= Seq::<char>::empty());
        assert(s.drop_first() =~= Seq::<char>::empty());
        assert(encode_utf8(s) =~= encode_scalar(s[0] as u32) + encode_utf8(s.drop_first()));
        assert(encode_utf8(s) =~= encode_utf8(s.drop_last()) + encode_scalar(s.last() as u32));
    } else {
        lemma_encoding_last(s.drop_first());
        assert(s.drop_first().drop_last() =~= s.drop_last().drop_first());
        assert(s.drop_first().last() == s.last());
        assert(s.drop_last().first() == s.first());
        assert(encode_utf8(s.drop_last()) == encode_scalar(s[0] as u32) + encode_utf8(s.drop_last().drop_first()));
        assert(encode_utf8(s) =~= encode_utf8(s.drop_last()) + encode_scalar(s.last() as u32));
    }
}

/// The encoding of one scalar is a leading byte for its length, followed by
/// continuation bytes, and decodes to the scalar.
proof fn lemma_scalar_shape(c: char)
    ensures
        ({
            let e = encode_scalar(c as u32);
            &&& 1 <= e.len() <= 4
            &&& !is_continuation_byte(e[0])
            &&& forall|i: int| 1 <= i < e.len() ==> is_continuation_byte(#[trigger] e[i])
            &&& e.len() == 1 ==> codepoint_width_1(e[0]) == c as u32
            &&& e.len() == 2 ==> codepoint_width_2(e[0], e[1]) == c as u32
            &&& e.len() == 3 ==> codepoint_width_3(e[0], e[1], e[2]) == c as u32
            &&& e.len() == 4 ==> codepoint_width_4(e[0], e[1], e[2], e[3]) == c as u32
        }),
{
    let s = seq![c];
    let e = encode_scalar(c as u32);
    assert(s[0] == c);
    assert(s.drop_first() =~= Seq::<char>::empty());
    assert(encode_utf8(s.drop_first()) =~= Seq::<u8>::empty());
    assert(encode_utf8(s) =~= e + encode_utf8(s.drop_first()));
    assert(encode_utf8(s) =~= e);
    encode_utf8_first_scalar(s);
}

fn is_continuation(b: u8) -> (r: bool)
    ensures
        r == is_continuation_byte(b),
{
    0x80 <= b && b <= 0xbf
}

fn is_white_space_code(u: u32) -> (r: bool)
    ensures
        r == white_space_code(u),
{
    (0x09 <= u && u <= 0x0d) || u == 0x20 || u == 0x85 || u == 0xa0 || u == 0x1680 || (0x2000 <= u && u <= 0x200a) || u == 0x2028
        || u == 0x2029 || u == 0x202f || u == 0x205f || u == 0x3000
}

fn scalar_of_1(b1: u8) -> (r: u32)
    ensures
        r == codepoint_width_1(b1),
{
    (b1 & 0x7F) as u32
}

fn scalar_of_2(b1: u8, b2: u8) -> (r: u32)
    ensures
        r == codepoint_width_2(b1, b2),
{
    (((b1 & 0x1F) as u32) << 6) | ((b2 & 0x3f) as u32)
}

fn scalar_of_3(b1: u8, b2: u8, b3: u8) -> (r: u32)
    ensures
        r == codepoint_width_3(b1, b2, b3),
{
    (((b1 & 0x0F) as u32) << 12) | (((b2 & 0x3f) as u32) << 6) | ((b3 & 0x3f) as u32)
}

fn scalar_of_4(b1: u8, b2: u8, b3: u8, b4: u8) -> (r: u32)
    ensures
        r == codepoint_width_4(b1, b2, b3, b4),
{
    (((b1 & 0x07) as u32) << 18) | (((b2 & 0x3f) as u32) << 12) | (((b3 & 0x3f) as u32) << 6) | ((b4 & 0x3f) as u32)
}

/// Where the text without the white space around it starts and ends among
/// the bytes of `text`.
pub fn trim_bounds(text: &str) -> (r: (usize, usize))
    ensures
        r.0 <= r.1 <= encode_utf8(text@).len(),
        encode_utf8(text@).subrange(r.0 as int, r.1 as int) == encode_utf8(trimmed(text@)),
{
    let b = text.as_bytes();
    let len = b.len();
    let ghost chars = text@;
    let ghost bytes = b@;
    let mut start: usize = 0;
    let ghost mut k: int = 0;
    proof {
        assert(chars.skip(0) =~= chars);
        assert(bytes.subrange(0, len as int) =~= bytes);
    }
    loop
        invariant_except_break
            trim_front(chars) == trim_front(chars.skip(k)),
        invariant
            bytes == b@,
            bytes == encode_utf8(chars),
            len == bytes.len(),
            start <= len,
            0 <= k <= chars.len(),
            bytes.subrange(start as int, len as int) == encode_utf8(chars.skip(k)),
        ensures
            bytes.subrange(start as int, len as int) == encode_utf8(trim_front(chars)),
            trim_front(chars) == chars.skip(k),
        decreases len - start,
    {
        let ghost rest = chars.skip(k);
        let ghost rem = bytes.subrange(start as int, len as int);
        proof {
            lemma_encoding_empty(rest);
        }
        if start == len {
            break ;
        }
        proof {
            encode_utf8_first_scalar(rest);
            assert(rem[0] == bytes[start as int]);
            if rem.len() >= 2 {
                assert(rem[1] == bytes[start + 1]);
            }
            if rem.len() >= 3 {
                assert(rem[2] == bytes[start + 2]);
            }
            if rem.len() >= 4 {
                assert(rem[3] == bytes[start + 3]);
            }
        }
        let b0 = b[start];
        let (code, width): (u32, usize) = if b0 <= 0x7f {
            (scalar_of_1(b0), 1)
        } else if 0xc0 <= b0 && b0 <= 0xdf {
            (scalar_of_2(b0, b[start + 1]), 2)
        } else if 0xe0 <= b0 && b0 <= 0xef {
            (scalar_of_3(b0, b[start + 1], b[start + 2]), 3)
        } else {
            (scalar_of_4(b0, b[start + 1], b[start + 2], b[start + 3]), 4)
        };
        assert(code == rest[0] as u32);
        assert(width == encode_scalar(rest[0] as u32).len());
        if !is_white_space_code(code) {
            break ;
        }
        proof {
            assert(rest.drop_first() =~= chars.skip(k + 1));
            assert(rem == encode_scalar(rest[0] as u32) + encode_utf8(rest.drop_first()));
            assert(bytes.subrange(start + width, len as int) =~= encode_utf8(chars.skip(k + 1))) by {
                assert(bytes.subrange(start + width, len as int) =~= rem.subrange(width as int, rem.len() as int));
            }
            k = k + 1;
        }
        start = start + width;
    }
    let ghost front = chars.skip(k);
    let mut end: usize = len;
    let ghost mut m: int = front.len() as int;
    proof {
        assert(front.take(m) =~= front);
    }
    loop
        invariant_except_break
            trim_back(front) == trim_back(front.take(m)),
        invariant
            bytes == b@,
            len == bytes.len(),
            start <= end <= len,
            0 <= m <= front.len(),
            bytes.subrange(start as int, end as int) == encode_utf8(front.take(m)),
        ensures
            bytes.subrange(start as int, end as int) == encode_utf8(trim_back(front)),
        decreases end - start,
    {
        let ghost held = front.take(m);
        let ghost cur = bytes.subrange(start as int, end as int);
        proof {
            lemma_encoding_empty(held);
        }
        if end == start {
            break ;
        }
        let ghost last = encode_scalar(held.last() as u32);
        proof {
            lemma_encoding_last(held);
            lemma_scalar_shape(held.last());
            let n = cur.len() as int;
            let w = last.len() as int;
            assert(cur == encode_utf8(held.drop_last()) + last);
            assert forall|i: int| 0 <= i < w implies cur[n - w + i] == last[i] && cur[n - w + i] == bytes[end - w + i] by {}
            assert(cur[n - w] == last[0]);
        }
        let b1 = b[end - 1];
        let (code, width): (u32, usize) = if !is_continuation(b1) {
            (scalar_of_1(b1), 1)
        } else if !is_continuation(b[end - 2]) {
            (scalar_of_2(b[end - 2], b1), 2)
        } else if !is_continuation(b[end - 3]) {
            (scalar_of_3(b[end - 3], b[end - 2], b1), 3)
        } else {
            (scalar_of_4(b[end - 4], b[end - 3], b[end - 2], b1), 4)
        };
        assert(width == last.len());
        assert(code == held.last() as u32);
        if !is_white_space_code(code) {
            break ;
        }
        proof {
            assert(held.drop_last() =~= front.take(m - 1));
            assert(bytes.subrange(start as int, end - width) =~= encode_utf8(front.take(m - 1))) by {
                assert(bytes.subrange(start as int, end - width) =~= cur.subrange(0, cur.len() - width));
            }
            m = m - 1;
        }
        end = end - width;
    }
    (start, end)
}

} // verus!
