//! JSON string escaping.
//!
//! Clean runs are found eight bytes at a time with a SWAR predicate and
//! copied in bulk; only the bytes JSON requires escaping are rewritten.
use vstd::prelude::*;
use vstd::string::StringSliceAdditionalSpecFns;

verus! {

/// The exact set JSON requires escaping: `"`, `\` and control characters.
pub open spec fn needs_escape_spec(b: u8) -> bool {
    b < 0x20 || b == 0x22 || b == 0x5c
}

/// Lowercase hexadecimal digit of a nibble.
pub open spec fn hex_digit(n: int) -> u8 {
    if n < 10 {
        (0x30 + n) as u8
    } else {
        (0x61 + n - 10) as u8
    }
}

/// The escaped form of one byte, as `json.dumps` and serde_json write it:
/// short forms for `\b \t \n \f \r`, `\u00xx` (lowercase) for the other
/// controls; any other byte stands for itself.
pub open spec fn escape_byte(b: u8) -> Seq<u8> {
    if b == 0x22 {
        seq![0x5cu8, 0x22u8]
    } else if b == 0x5c {
        seq![0x5cu8, 0x5cu8]
    } else if b == 0x08 {
        seq![0x5cu8, 0x62u8]
    } else if b == 0x09 {
        seq![0x5cu8, 0x74u8]
    } else if b == 0x0a {
        seq![0x5cu8, 0x6eu8]
    } else if b == 0x0c {
        seq![0x5cu8, 0x66u8]
    } else if b == 0x0d {
        seq![0x5cu8, 0x72u8]
    } else if b < 0x20 {
        seq![0x5cu8, 0x75u8, 0x30u8, 0x30u8, hex_digit(b as int / 16), hex_digit(b as int % 16)]
    } else {
        seq![b]
    }
}

/// `s` with every byte replaced by its escaped form.
pub open spec fn json_escape(s: Seq<u8>) -> Seq<u8>
    decreases s.len(),
{
    if s.len() == 0 {
        Seq::empty()
    } else {
        json_escape(s.drop_last()) + escape_byte(s.last())
    }
}

/// No byte of `s` needs escaping.
pub open spec fn all_clean(s: Seq<u8>) -> bool {
    forall|i: int| 0 <= i < s.len() ==> !needs_escape_spec(#[trigger] s[i])
}

/// Escaping distributes over concatenation.
pub proof fn lemma_escape_concat(a: Seq<u8>, b: Seq<u8>)
    ensures
        json_escape(a + b) == json_escape(a) + json_escape(b),
    decreases b.len(),
{
    if b.len() == 0 {
        assert(a + b =~= a);
        assert(json_escape(a) + json_escape(b) =~= json_escape(a));
    } else {
        lemma_escape_concat(a, b.drop_last());
        assert((a + b).drop_last() =~= a + b.drop_last());
        assert((a + b).last() == b.last());
        assert(json_escape(a) + json_escape(b) =~= json_escape(a) + json_escape(b.drop_last())
            + escape_byte(b.last()));
    }
}

/// A run with nothing to escape is copied unchanged.
pub proof fn lemma_escape_clean(s: Seq<u8>)
    requires
        all_clean(s),
    ensures
        json_escape(s) == s,
    decreases s.len(),
{
    if s.len() > 0 {
        assert(all_clean(s.drop_last()));
        lemma_escape_clean(s.drop_last());
        assert(s =~= s.drop_last().push(s.last()));
    }
}

#[inline(always)]
fn needs_escape(b: u8) -> (r: bool)
    ensures
        r == needs_escape_spec(b),
{
    b < 0x20 || b == 0x22 || b == 0x5c
}

pub const LANE: u64 = 0x0101_0101_0101_0101;

pub const HIGH: u64 = 0x8080_8080_8080_8080;

/// The SWAR predicate: high bit set in lanes of `word` holding a byte that
/// needs escaping. Only the lowest set lane is exact: a borrow out of a
/// matching lane can set the lane above it.
pub open spec fn lanes_spec(word: u64) -> u64 {
    let below_0x20 = vstd::wrapping::u64_specs::wrapping_sub(word, 0x2020_2020_2020_2020)
        & !word;
    let quote = word ^ 0x2222_2222_2222_2222;
    let quote = vstd::wrapping::u64_specs::wrapping_sub(quote, LANE) & !quote;
    let backslash = word ^ 0x5c5c_5c5c_5c5c_5c5c;
    let backslash = vstd::wrapping::u64_specs::wrapping_sub(backslash, LANE) & !backslash;
    (below_0x20 | quote | backslash) & HIGH
}

/// Byte `j` (little-endian) of `w`.
pub open spec fn word_byte(w: u64, j: int) -> u8 {
    if j == 0 {
        (w & 0xff) as u8
    } else if j == 1 {
        ((w >> 8u64) & 0xff) as u8
    } else if j == 2 {
        ((w >> 16u64) & 0xff) as u8
    } else if j == 3 {
        ((w >> 24u64) & 0xff) as u8
    } else if j == 4 {
        ((w >> 32u64) & 0xff) as u8
    } else if j == 5 {
        ((w >> 40u64) & 0xff) as u8
    } else if j == 6 {
        ((w >> 48u64) & 0xff) as u8
    } else {
        ((w >> 56u64) & 0xff) as u8
    }
}

#[inline(always)]
fn escape_lanes(word: u64) -> (r: u64)
    ensures
        r == lanes_spec(word),
{
    let below_0x20 = word.wrapping_sub(0x20 * LANE) & !word;
    let quote = word ^ (0x22 * LANE);
    let quote = quote.wrapping_sub(LANE) & !quote;
    let backslash = word ^ (0x5C * LANE);
    let backslash = backslash.wrapping_sub(LANE) & !backslash;
    (below_0x20 | quote | backslash) & HIGH
}

/// For each lane: when every lower lane is clean, its bit is set exactly
/// when its byte needs escaping; with all lanes clean nothing is set; and
/// only the lanes' high bits can be set.
proof fn lemma_lane_bits(w: u64)
    by (bit_vector)
    ensures
        (((lanes_spec(w) >> 7u64) & 1 == 1) == needs_escape_spec(word_byte(w, 0))),
        (!needs_escape_spec(word_byte(w, 0))) ==> (((lanes_spec(w) >> 15u64) & 1 == 1) == needs_escape_spec(word_byte(w, 1))),
        (!needs_escape_spec(word_byte(w, 0)) && !needs_escape_spec(word_byte(w, 1))) ==> (((lanes_spec(w) >> 23u64) & 1 == 1) == needs_escape_spec(word_byte(w, 2))),
        (!needs_escape_spec(word_byte(w, 0)) && !needs_escape_spec(word_byte(w, 1)) && !needs_escape_spec(word_byte(w, 2))) ==> (((lanes_spec(w) >> 31u64) & 1 == 1) == needs_escape_spec(word_byte(w, 3))),
        (!needs_escape_spec(word_byte(w, 0)) && !needs_escape_spec(word_byte(w, 1)) && !needs_escape_spec(word_byte(w, 2)) && !needs_escape_spec(word_byte(w, 3))) ==> (((lanes_spec(w) >> 39u64) & 1 == 1) == needs_escape_spec(word_byte(w, 4))),
        (!needs_escape_spec(word_byte(w, 0)) && !needs_escape_spec(word_byte(w, 1)) && !needs_escape_spec(word_byte(w, 2)) && !needs_escape_spec(word_byte(w, 3)) && !needs_escape_spec(word_byte(w, 4))) ==> (((lanes_spec(w) >> 47u64) & 1 == 1) == needs_escape_spec(word_byte(w, 5))),
        (!needs_escape_spec(word_byte(w, 0)) && !needs_escape_spec(word_byte(w, 1)) && !needs_escape_spec(word_byte(w, 2)) && !needs_escape_spec(word_byte(w, 3)) && !needs_escape_spec(word_byte(w, 4)) && !needs_escape_spec(word_byte(w, 5))) ==> (((lanes_spec(w) >> 55u64) & 1 == 1) == needs_escape_spec(word_byte(w, 6))),
        (!needs_escape_spec(word_byte(w, 0)) && !needs_escape_spec(word_byte(w, 1)) && !needs_escape_spec(word_byte(w, 2)) && !needs_escape_spec(word_byte(w, 3)) && !needs_escape_spec(word_byte(w, 4)) && !needs_escape_spec(word_byte(w, 5)) && !needs_escape_spec(word_byte(w, 6))) ==> (((lanes_spec(w) >> 63u64) & 1 == 1) == needs_escape_spec(word_byte(w, 7))),
        (!needs_escape_spec(word_byte(w, 0)) && !needs_escape_spec(word_byte(w, 1)) && !needs_escape_spec(word_byte(w, 2)) && !needs_escape_spec(word_byte(w, 3)) && !needs_escape_spec(word_byte(w, 4)) && !needs_escape_spec(word_byte(w, 5)) && !needs_escape_spec(word_byte(w, 6)) && !needs_escape_spec(word_byte(w, 7))) ==> lanes_spec(w) == 0,
        lanes_spec(w) & !HIGH == 0,
{
}

/// The lowest set lane of the SWAR predicate is the first byte of the word
/// that needs escaping.
proof fn lemma_first_dirty(w: u64)
    requires
        lanes_spec(w) != 0,
    ensures
        ({
            let k = (vstd::std_specs::bits::u64_trailing_zeros(lanes_spec(w)) / 8) as int;
            &&& 0 <= k < 8
            &&& needs_escape_spec(word_byte(w, k))
            &&& forall|j: int| 0 <= j < k ==> !needs_escape_spec(#[trigger] word_byte(w, j))
        }),
{
    let l = lanes_spec(w);
    lemma_lane_bits(w);
    vstd::std_specs::bits::axiom_u64_trailing_zeros(l);
    let t = vstd::std_specs::bits::u64_trailing_zeros(l) as u64;
    assert(t < 64);
    assert(t % 8 == 7) by (bit_vector)
        requires
            t < 64,
            (l >> t) & 1 == 1,
            l & !HIGH == 0,
    ;
    if t > 7 {
        assert((l >> 7u64) & 1 == 0);
    }
    if t > 15 {
        assert((l >> 15u64) & 1 == 0);
    }
    if t > 23 {
        assert((l >> 23u64) & 1 == 0);
    }
    if t > 31 {
        assert((l >> 31u64) & 1 == 0);
    }
    if t > 39 {
        assert((l >> 39u64) & 1 == 0);
    }
    if t > 47 {
        assert((l >> 47u64) & 1 == 0);
    }
    if t > 55 {
        assert((l >> 55u64) & 1 == 0);
    }
    let k = (t / 8) as int;
    assert forall|j: int| 0 <= j < k implies !needs_escape_spec(#[trigger] word_byte(w, j)) by {
        if j == 0 {
        } else if j == 1 {
        } else if j == 2 {
        } else if j == 3 {
        } else if j == 4 {
        } else if j == 5 {
        } else {
        }
    }
    if t == 7 {
    } else if t == 15 {
    } else if t == 23 {
    } else if t == 31 {
    } else if t == 39 {
    } else if t == 47 {
    } else if t == 55 {
    } else {
        assert(t == 63);
    }
}

/// Byte `j` of a little-endian word built from `b`.
proof fn lemma_le_word(b0: u8, b1: u8, b2: u8, b3: u8, b4: u8, b5: u8, b6: u8, b7: u8, w: u64)
    requires
        w == (b0 as u64) | ((b1 as u64) << 8u64) | ((b2 as u64) << 16u64) | ((b3 as u64) << 24u64) | ((
        b4 as u64) << 32u64) | ((b5 as u64) << 40u64) | ((b6 as u64) << 48u64) | ((b7 as u64)
            << 56u64),
    ensures
        word_byte(w, 0) == b0,
        word_byte(w, 1) == b1,
        word_byte(w, 2) == b2,
        word_byte(w, 3) == b3,
        word_byte(w, 4) == b4,
        word_byte(w, 5) == b5,
        word_byte(w, 6) == b6,
        word_byte(w, 7) == b7,
{
    assert((w & 0xff) == b0 as u64 && ((w >> 8u64) & 0xff) == b1 as u64 && ((w >> 16u64) & 0xff)
        == b2 as u64 && ((w >> 24u64) & 0xff) == b3 as u64 && ((w >> 32u64) & 0xff) == b4 as u64
        && ((w >> 40u64) & 0xff) == b5 as u64 && ((w >> 48u64) & 0xff) == b6 as u64 && ((w
        >> 56u64) & 0xff) == b7 as u64) by (bit_vector)
        requires
            w == (b0 as u64) | ((b1 as u64) << 8u64) | ((b2 as u64) << 16u64) | ((b3 as u64)
                << 24u64) | ((b4 as u64) << 32u64) | ((b5 as u64) << 40u64) | ((b6 as u64)
                << 48u64) | ((b7 as u64) << 56u64),
    ;
}

fn hex_digit_exec(n: u8) -> (r: u8)
    requires
        n < 16,
    ensures
        r == hex_digit(n as int),
{
    if n < 10 {
        0x30 + n
    } else {
        0x61 + n - 10
    }
}

/// Writes one byte in its escaped form.
pub fn write_escaped_byte(buf: &mut Vec<u8>, b: u8)
    requires
        needs_escape_spec(b),
    ensures
        final(buf)@ == old(buf)@ + escape_byte(b),
{
    if b == 0x22 {
        buf.push(0x5c);
        buf.push(0x22);
    } else if b == 0x5c {
        buf.push(0x5c);
        buf.push(0x5c);
    } else if b == 0x08 {
        buf.push(0x5c);
        buf.push(0x62);
    } else if b == 0x09 {
        buf.push(0x5c);
        buf.push(0x74);
    } else if b == 0x0a {
        buf.push(0x5c);
        buf.push(0x6e);
    } else if b == 0x0c {
        buf.push(0x5c);
        buf.push(0x66);
    } else if b == 0x0d {
        buf.push(0x5c);
        buf.push(0x72);
    } else {
        buf.push(0x5c);
        buf.push(0x75);
        buf.push(0x30);
        buf.push(0x30);
        buf.push(hex_digit_exec(b / 16));
        buf.push(hex_digit_exec(b % 16));
    }
    assert(final(buf)@ =~= old(buf)@ + escape_byte(b));
}

/// One escaped byte after a clean run extends the escaped prefix.
pub proof fn lemma_escape_step(s: Seq<u8>, clean_from: int, at: int)
    requires
        0 <= clean_from <= at < s.len(),
        all_clean(s.subrange(clean_from, at)),
    ensures
        json_escape(s.subrange(0, clean_from)) + s.subrange(clean_from, at) + escape_byte(s[at])
            == json_escape(s.subrange(0, at + 1)),
{
    lemma_escape_clean(s.subrange(clean_from, at));
    lemma_escape_concat(s.subrange(0, clean_from), s.subrange(clean_from, at));
    assert(s.subrange(0, clean_from) + s.subrange(clean_from, at) =~= s.subrange(0, at));
    assert(s.subrange(0, at + 1).drop_last() =~= s.subrange(0, at));
}

/// Appends `s` escaped for a JSON string (without the surrounding quotes),
/// copying clean runs in bulk.
pub fn escape_into(buf: &mut Vec<u8>, s: &str)
    ensures
        final(buf)@ == old(buf)@ + json_escape(s.spec_bytes()),
{
    let bytes = s.as_bytes();
    let len = bytes.len();
    let mut clean_from: usize = 0;
    let mut i: usize = 0;
    assert(bytes@.subrange(0, 0) =~= Seq::<u8>::empty());
    while len - i >= 8
        invariant
            len == bytes@.len(),
            clean_from <= i <= len,
            buf@ == old(buf)@ + json_escape(bytes@.subrange(0, clean_from as int)),
            all_clean(bytes@.subrange(clean_from as int, i as int)),
        decreases len - i,
    {
        let word = (bytes[i] as u64) | ((bytes[i + 1] as u64) << 8u64) | ((bytes[i + 2] as u64)
            << 16u64) | ((bytes[i + 3] as u64) << 24u64) | ((bytes[i + 4] as u64) << 32u64) | ((
        bytes[i + 5] as u64) << 40u64) | ((bytes[i + 6] as u64) << 48u64) | ((bytes[i + 7] as u64)
            << 56u64);
        proof {
            lemma_le_word(
                bytes[i as int],
                bytes[i + 1],
                bytes[i + 2],
                bytes[i + 3],
                bytes[i + 4],
                bytes[i + 5],
                bytes[i + 6],
                bytes[i + 7],
                word,
            );
            lemma_lane_bits(word);
        }
        let lanes = escape_lanes(word);
        if lanes == 0 {
            proof {
                let z = lanes_spec(word);
                assert(z == 0 ==> (z >> 7u64) & 1 == 0 && (z >> 15u64) & 1 == 0 && (z >> 23u64)
                    & 1 == 0 && (z >> 31u64) & 1 == 0 && (z >> 39u64) & 1 == 0 && (z >> 47u64) & 1
                    == 0 && (z >> 55u64) & 1 == 0 && (z >> 63u64) & 1 == 0) by (bit_vector);
                assert(!needs_escape_spec(word_byte(word, 0)));
                assert(!needs_escape_spec(word_byte(word, 1)));
                assert(!needs_escape_spec(word_byte(word, 2)));
                assert(!needs_escape_spec(word_byte(word, 3)));
                assert(!needs_escape_spec(word_byte(word, 4)));
                assert(!needs_escape_spec(word_byte(word, 5)));
                assert(!needs_escape_spec(word_byte(word, 6)));
                assert(!needs_escape_spec(word_byte(word, 7)));
                assert(all_clean(bytes@.subrange(clean_from as int, i + 8))) by {
                    assert forall|k: int| 0 <= k < i + 8 - clean_from implies !needs_escape_spec(
                        #[trigger] bytes@.subrange(clean_from as int, i + 8)[k],
                    ) by {
                        if k + clean_from >= i {
                            assert(bytes@[clean_from + k] == word_byte(word, clean_from + k - i));
                        } else {
                            assert(bytes@.subrange(clean_from as int, i as int)[k] == bytes@[clean_from + k]);
                        }
                    }
                }
            }
            i += 8;
        } else {
            let at = i + (lanes.trailing_zeros() / 8) as usize;
            proof {
                lemma_first_dirty(word);
                let k = at - i;
                assert(all_clean(bytes@.subrange(clean_from as int, at as int))) by {
                    assert forall|m: int| 0 <= m < at - clean_from implies !needs_escape_spec(
                        #[trigger] bytes@.subrange(clean_from as int, at as int)[m],
                    ) by {
                        if m + clean_from >= i {
                            assert(bytes@[clean_from + m] == word_byte(word, clean_from + m - i));
                        } else {
                            assert(bytes@.subrange(clean_from as int, i as int)[m] == bytes@[clean_from + m]);
                        }
                    }
                }
                assert(bytes@[at as int] == word_byte(word, k));
                lemma_escape_step(bytes@, clean_from as int, at as int);
            }
            crate::text::extend_bytes(buf, vstd::slice::slice_subrange(bytes, clean_from, at));
            write_escaped_byte(buf, bytes[at]);
            i = at + 1;
            clean_from = i;
            assert(bytes@.subrange(clean_from as int, i as int) =~= Seq::<u8>::empty());
        }
    }
    while i < len
        invariant
            len == bytes@.len(),
            clean_from <= i <= len,
            buf@ == old(buf)@ + json_escape(bytes@.subrange(0, clean_from as int)),
            all_clean(bytes@.subrange(clean_from as int, i as int)),
        decreases len - i,
    {
        let b = bytes[i];
        if needs_escape(b) {
            proof {
                lemma_escape_step(bytes@, clean_from as int, i as int);
            }
            crate::text::extend_bytes(buf, vstd::slice::slice_subrange(bytes, clean_from, i));
            write_escaped_byte(buf, b);
            clean_from = i + 1;
            i += 1;
            assert(bytes@.subrange(clean_from as int, i as int) =~= Seq::<u8>::empty());
        } else {
            assert(bytes@.subrange(clean_from as int, i + 1) =~= bytes@.subrange(
                clean_from as int,
                i as int,
            ).push(b));
            i += 1;
        }
    }
    proof {
        lemma_escape_clean(bytes@.subrange(clean_from as int, len as int));
        lemma_escape_concat(bytes@.subrange(0, clean_from as int), bytes@.subrange(clean_from as int, len as int));
        assert(bytes@.subrange(0, clean_from as int) + bytes@.subrange(clean_from as int, len as int) =~= bytes@);
    }
    crate::text::extend_bytes(buf, vstd::slice::slice_subrange(bytes, clean_from, len));
}

} // verus!
