use vstd::prelude::*;

verus! {

/// Mask of the value bits of a continuation byte.
pub const UTF8_CONT_MASK: u8 = 0x3F;

pub const UTF8_END_CP_1B: u32 = 0x80;

pub const UTF8_END_CP_2B: u32 = 0x800;

pub const UTF8_END_CP_3B: u32 = 0x10000;

pub const UTF16_END_CP_1C: u32 = 0x10000;

/// Number of bytes of the sequence that a lead byte opens.
pub open spec fn lead_width(b: u8) -> nat {
    if b < 0x80 {
        1
    } else if b < 0xE0 {
        2
    } else if b < 0xF0 {
        3
    } else {
        4
    }
}

/// Whether a byte is a continuation byte (`10xx_xxxx`).
pub open spec fn is_cont(b: u8) -> bool {
    0x80 <= b < 0xC0
}

/// Whether a byte may open a sequence (ASCII, or `110x_xxxx` up to `1111_0xxx`).
pub open spec fn is_lead(b: u8) -> bool {
    b < 0x80 || (0xC0 <= b < 0xF8)
}

/// The code point that the sequence of `w` bytes starting at `i` encodes.
pub open spec fn decode_at(s: Seq<u8>, i: int) -> nat {
    let x = s[i];
    let w = lead_width(x);
    if w == 1 {
        x as nat
    } else if w == 2 {
        (x as nat % 32) * 64 + s[i + 1] as nat % 64
    } else if w == 3 {
        (x as nat % 16) * 4096 + (s[i + 1] as nat % 64) * 64 + s[i + 2] as nat % 64
    } else {
        (x as nat % 8) * 262144 + (s[i + 1] as nat % 64) * 4096 + (s[i + 2] as nat % 64) * 64
            + s[i + 3] as nat % 64
    }
}

/// A byte sequence made of well-formed sequences: each opens with a lead byte and
/// goes on with as many continuation bytes as the lead byte asks for.
pub open spec fn well_formed(s: Seq<u8>) -> bool
    decreases s.len(),
{
    if s.len() == 0 {
        true
    } else {
        let w = lead_width(s[0]);
        &&& is_lead(s[0])
        &&& w <= s.len()
        &&& forall|k: int| 1 <= k < w ==> is_cont(#[trigger] s[k])
        &&& well_formed(s.skip(w as int))
    }
}

/// The UTF-16 code units of one code point.
pub open spec fn encode16(cp: nat) -> Seq<u16> {
    if cp < 0x10000 {
        seq![cp as u16]
    } else {
        seq![(0xD800 + (cp - 0x10000) / 1024) as u16, (0xDC00 + (cp - 0x10000) % 1024) as u16]
    }
}

/// The UTF-16 code units of a well-formed byte sequence.
pub open spec fn utf16_of(s: Seq<u8>) -> Seq<u16>
    decreases s.len(),
{
    if s.len() == 0 {
        seq![]
    } else {
        let w = lead_width(s[0]);
        if w <= s.len() {
            encode16(decode_at(s, 0)) + utf16_of(s.skip(w as int))
        } else {
            seq![]
        }
    }
}

/// Returns the initial code point accumulator for the first byte of a sequence
/// that holds `width` bytes: its low `7 - width` bits.
pub fn utf8_first_byte(byte: u8, width: u32) -> (r: u32)
    requires
        width < 8,
    ensures
        r == (byte as nat) % pow2_7(width as nat),
{
    let mask: u8 = 0x7F >> (width as u8);
    let r = (byte & mask) as u32;
    proof {
        lemma_low_mask(byte, width as u8);
    }
    r
}

/// `2^(7 - w)`.
pub open spec fn pow2_7(w: nat) -> nat {
    if w == 0 {
        128
    } else if w == 1 {
        64
    } else if w == 2 {
        32
    } else if w == 3 {
        16
    } else if w == 4 {
        8
    } else if w == 5 {
        4
    } else if w == 6 {
        2
    } else {
        1
    }
}

proof fn lemma_low_mask(b: u8, w: u8)
    requires
        w < 8,
    ensures
        (b & (0x7Fu8 >> w)) as nat == (b as nat) % pow2_7(w as nat),
{
    if w == 0 {
        assert((b & (0x7Fu8 >> 0u8)) == b % 128) by (bit_vector);
    } else if w == 1 {
        assert((b & (0x7Fu8 >> 1u8)) == b % 64) by (bit_vector);
    } else if w == 2 {
        assert((b & (0x7Fu8 >> 2u8)) == b % 32) by (bit_vector);
    } else if w == 3 {
        assert((b & (0x7Fu8 >> 3u8)) == b % 16) by (bit_vector);
    } else if w == 4 {
        assert((b & (0x7Fu8 >> 4u8)) == b % 8) by (bit_vector);
    } else if w == 5 {
        assert((b & (0x7Fu8 >> 5u8)) == b % 4) by (bit_vector);
    } else if w == 6 {
        assert((b & (0x7Fu8 >> 6u8)) == b % 2) by (bit_vector);
    } else {
        assert((b & (0x7Fu8 >> 7u8)) == 0) by (bit_vector);
    }
}

/// Returns the value of `ch` updated with continuation byte `byte`: its six
/// value bits are appended below those of `ch`.
pub fn utf8_acc_cont_byte(ch: u32, byte: u8) -> (r: u32)
    requires
        ch < 0x400_0000,
    ensures
        r == ch * 64 + (byte as nat) % 64,
{
    let r = (ch << 6u32) | ((byte & UTF8_CONT_MASK) as u32);
    assert(r == ch * 64 + (byte as u32) % 64) by (bit_vector)
        requires
            r == (ch << 6u32) | ((byte & 0x3Fu8) as u32),
            ch < 0x400_0000,
    ;
    r
}

/// Reads the code point that starts at `cursor`, with the index just past it;
/// `None` at the end of the bytes.
pub fn utf8_next_code_point(bytes: &[u8], cursor: usize) -> (r: Option<(u32, usize)>)
    requires
        cursor < bytes@.len() ==> cursor + lead_width(bytes@[cursor as int]) <= bytes@.len(),
    ensures
        cursor >= bytes@.len() ==> r is None,
        cursor < bytes@.len() ==> r == Some(
            (
                decode_at(bytes@, cursor as int) as u32,
                (cursor + lead_width(bytes@[cursor as int])) as usize,
            ),
        ),
        cursor < bytes@.len() ==> decode_at(bytes@, cursor as int) < 0x20_0000,
{
    if cursor >= bytes.len() {
        return None;
    }
    let x = bytes[cursor];
    if x < 128 {
        return Some((x as u32, cursor + 1));
    }
    let init = utf8_first_byte(x, 2);
    let y = bytes[cursor + 1];
    let mut ch = utf8_acc_cont_byte(init, y);
    let mut next: usize = cursor + 2;
    if x >= 0xE0 {
        let z = bytes[cursor + 2];
        let y_z = utf8_acc_cont_byte((y & UTF8_CONT_MASK) as u32, z);
        assert((y & 0x3Fu8) as u32 == (y as u32) % 64) by (bit_vector);
        next = cursor + 3;
        if x >= 0xF0 {
            let w = bytes[cursor + 3];
            let low = utf8_acc_cont_byte(y_z, w);
            let top = init & 7;
            assert(top == init % 8) by (bit_vector)
                requires
                    top == init & 7u32,
            ;
            assert((x as nat % 32) % 8 == x as nat % 8) by (nonlinear_arith);
            ch = (top << 18u32) | low;
            assert(ch == top * 262144 + low) by (bit_vector)
                requires
                    ch == (top << 18u32) | low,
                    top < 8,
                    low < 262144,
            ;
            next = cursor + 4;
        } else {
            assert(init == x as nat % 16) by (bit_vector)
                requires
                    init == (x as u32) % 32,
                    0xE0u8 <= x < 0xF0u8,
            ;
            ch = (init << 12u32) | y_z;
            assert(ch == init * 4096 + y_z) by (bit_vector)
                requires
                    ch == (init << 12u32) | y_z,
                    init < 16,
                    y_z < 4096,
            ;
        }
    }
    Some((ch, next))
}

/// Number of UTF-8 bytes that encode `cp`.
pub fn utf8_len(cp: u32) -> (r: usize)
    ensures
        r == (if cp < 0x80 {
            1int
        } else if cp < 0x800 {
            2int
        } else if cp < 0x10000 {
            3int
        } else {
            4int
        }),
{
    if cp < UTF8_END_CP_1B {
        1
    } else if cp < UTF8_END_CP_2B {
        2
    } else if cp < UTF8_END_CP_3B {
        3
    } else {
        4
    }
}

/// Number of UTF-16 code units that encode `cp`.
pub fn utf16_len(cp: u32) -> (r: usize)
    ensures
        r == (if cp < 0x10000 {
            1int
        } else {
            2int
        }),
{
    if cp < UTF16_END_CP_1C {
        1
    } else {
        2
    }
}


/// Encodes `cp` as UTF-16 into the front of `buffer`; returns whether it took two
/// units (a surrogate pair). Units past those written are left as they were.
pub fn utf16_encode(cp: u32, buffer: &mut [u16]) -> (r: bool)
    requires
        old(buffer)@.len() >= 2,
        cp < 0x20_0000,
    ensures
        r == (cp >= 0x10000),
        !r ==> final(buffer)@ == old(buffer)@.update(0, encode16(cp as nat)[0]),
        r ==> final(buffer)@ == old(buffer)@.update(0, encode16(cp as nat)[0]).update(
            1,
            encode16(cp as nat)[1],
        ),
{
    if cp < UTF16_END_CP_1C {
        buffer[0] = cp as u16;
        false
    } else {
        let c = cp - 0x1_0000;
        let hi: u16 = 0xD800 | ((c >> 10u32) as u16);
        let lo: u16 = 0xDC00 | ((c as u16) & 0x3FF);
        assert(hi == 0xD800 + c / 1024 && lo == 0xDC00 + c % 1024) by (bit_vector)
            requires
                hi == 0xD800u16 | ((c >> 10u32) as u16),
                lo == 0xDC00u16 | ((c as u16) & 0x3FFu16),
                c < 0x1F_0000,
        ;
        buffer[0] = hi;
        buffer[1] = lo;
        true
    }
}

/// Text in UTF-16, with the maps between its positions and those of the UTF-8
/// bytes it came from.
pub struct Utf16Text {
    /// The UTF-16 code units.
    pub units: Vec<u16>,
    /// For each unit, the byte offset of the code point it belongs to; one more
    /// entry maps the end of the units to the end of the bytes.
    pub to_utf8: Vec<u32>,
    /// For each byte, the unit offset of the code point it belongs to; one more
    /// entry maps the end of the bytes to the end of the units.
    pub to_utf16: Vec<u32>,
}

/// Whether byte offset `b` starts a code point of `s`, or is its end.
pub open spec fn is_boundary(s: Seq<u8>, b: int) -> bool {
    b == s.len() || (0 <= b < s.len() && !is_cont(s[b]))
}

proof fn lemma_skip_skip(s: Seq<u8>, a: int, b: int)
    requires
        0 <= a,
        0 <= b,
        a + b <= s.len(),
    ensures
        s.skip(a).skip(b) == s.skip(a + b),
{
    assert(s.skip(a).skip(b) =~= s.skip(a + b));
}

/// Transcodes well-formed UTF-8 to UTF-16, with the position maps both ways.
pub fn utf8_to_utf16(bytes: &[u8]) -> (r: Utf16Text)
    requires
        well_formed(bytes@),
        bytes@.len() < 0x7FFF_FFFF,
    ensures
        r.units@ == utf16_of(bytes@),
        r.to_utf8@.len() == r.units@.len() + 1,
        r.to_utf16@.len() == bytes@.len() + 1,
        r.to_utf8@[r.units@.len() as int] == bytes@.len(),
        r.to_utf16@[bytes@.len() as int] == r.units@.len(),
        forall|b: int|
            0 <= b <= bytes@.len() ==> #[trigger] r.to_utf16@[b] <= r.units@.len(),
        forall|j: int|
            0 <= j <= r.units@.len() ==> #[trigger] r.to_utf8@[j] <= bytes@.len(),
        forall|b: int|
            #[trigger] is_boundary(bytes@, b) ==> r.to_utf8@[r.to_utf16@[b] as int] == b,
        forall|j: int|
            0 <= j < r.units@.len() ==> r.to_utf16@[#[trigger] r.to_utf8@[j] as int] == j || (
            j > 0 && r.to_utf8@[j] == r.to_utf8@[j - 1]),
{
    let ghost s = bytes@;
    let mut units: Vec<u16> = Vec::new();
    let mut to_utf8: Vec<u32> = Vec::new();
    let mut to_utf16: Vec<u32> = Vec::new();
    let mut cursor: usize = 0;
    proof {
        assert(s.skip(0) =~= s);
    }
    while cursor < bytes.len()
        invariant
            s == bytes@,
            s.len() < 0x7FFF_FFFF,
            cursor <= s.len(),
            well_formed(s.skip(cursor as int)),
            units@ + utf16_of(s.skip(cursor as int)) == utf16_of(s),
            units@.len() <= 2 * cursor,
            to_utf8@.len() == units@.len(),
            to_utf16@.len() == cursor,
            forall|b: int| 0 <= b < cursor ==> #[trigger] to_utf16@[b] < units@.len(),
            forall|j: int| 0 <= j < units@.len() ==> #[trigger] to_utf8@[j] < cursor,
            forall|b: int|
                0 <= b < cursor && #[trigger] is_boundary(s, b) ==> to_utf8@[to_utf16@[b] as int]
                    == b,
            forall|j: int|
                0 <= j < units@.len() ==> to_utf16@[#[trigger] to_utf8@[j] as int] == j || (j > 0
                    && to_utf8@[j] == to_utf8@[j - 1]),
        decreases s.len() - cursor,
    {
        let ghost rest = s.skip(cursor as int);
        let ghost w = lead_width(s[cursor as int]);
        assert(rest[0] == s[cursor as int]);
        assert forall|k: int| 1 <= k < w implies is_cont(#[trigger] s[cursor + k]) by {
            assert(rest[k] == s[cursor + k]);
        }
        let next = utf8_next_code_point(bytes, cursor);
        let (cp, new_cursor) = match next {
            Some(p) => p,
            None => (0, cursor),
        };
        assert(decode_at(rest, 0) == decode_at(s, cursor as int)) by {
            if w >= 2 {
                assert(rest[1] == s[cursor + 1]);
            }
            if w >= 3 {
                assert(rest[2] == s[cursor + 2]);
            }
            if w >= 4 {
                assert(rest[3] == s[cursor + 3]);
            }
        }
        proof {
            lemma_skip_skip(s, cursor as int, w as int);
        }
        let ghost old_units = units@;
        let ghost old_to_utf8 = to_utf8@;
        let ghost old_to_utf16 = to_utf16@;
        let u = units.len() as u32;
        let mut buffer: [u16; 2] = [0; 2];
        let is_double = utf16_encode(cp, &mut buffer);
        units.push(buffer[0]);
        to_utf8.push(cursor as u32);
        if is_double {
            units.push(buffer[1]);
            to_utf8.push(cursor as u32);
        }
        assert(units@ =~= old_units + encode16(cp as nat));
        assert(utf16_of(rest) == encode16(cp as nat) + utf16_of(s.skip(new_cursor as int)));
        assert(units@ + utf16_of(s.skip(new_cursor as int)) =~= old_units + utf16_of(rest));
        let mut b: usize = cursor;
        while b < new_cursor
            invariant
                cursor <= b <= new_cursor,
                new_cursor == cursor + w,
                to_utf16@.len() == b,
                old_to_utf16.len() == cursor,
                forall|i: int| 0 <= i < cursor ==> to_utf16@[i] == old_to_utf16[i],
                forall|i: int| cursor <= i < b ==> to_utf16@[i] == u,
            decreases new_cursor - b,
        {
            to_utf16.push(u);
            b = b + 1;
        }
        assert forall|bb: int| 0 <= bb < new_cursor implies #[trigger] to_utf16@[bb] < units@.len() by {
            if bb < cursor {
                assert(to_utf16@[bb] == old_to_utf16[bb]);
            }
        }
        assert forall|bb: int|
            0 <= bb < new_cursor && #[trigger] is_boundary(s, bb) implies to_utf8@[to_utf16@[bb] as int]
            == bb by {
            if bb >= cursor + 1 {
                assert(is_cont(s[cursor + (bb - cursor)]));
            }
        }
        assert forall|j: int|
            0 <= j < units@.len() implies to_utf16@[#[trigger] to_utf8@[j] as int] == j || (j > 0
                && to_utf8@[j] == to_utf8@[j - 1]) by {
            if j < old_units.len() {
                assert(to_utf8@[j] == old_to_utf8[j]);
            }
        }
        cursor = new_cursor;
    }
    proof {
        assert(s.skip(cursor as int) =~= Seq::<u8>::empty());
        assert(units@ =~= utf16_of(s));
    }
    let u = units.len() as u32;
    to_utf8.push(cursor as u32);
    to_utf16.push(u);
    Utf16Text { units, to_utf8, to_utf16 }
}

} // verus!
