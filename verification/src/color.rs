use vstd::prelude::*;
use vstd::string::StringSliceAdditionalSpecFns;

verus! {

/// The byte of `#`.
pub const HASH: u8 = 35;

/// The byte of `+`.
pub const PLUS: u8 = 43;

/// The value of a hexadecimal digit, either case.
pub open spec fn hex_digit(b: u8) -> Option<u8> {
    if 48 <= b <= 57 {
        Some((b - 48) as u8)
    } else if 97 <= b <= 102 {
        Some((b - 87) as u8)
    } else if 65 <= b <= 70 {
        Some((b - 55) as u8)
    } else {
        None
    }
}

/// The byte that two characters denote in base 16, as `u8::from_str_radix`
/// reads them: two digits, or a `+` sign and one digit.
pub open spec fn hex_pair(hi: u8, lo: u8) -> Option<u8> {
    match (hex_digit(hi), hex_digit(lo)) {
        (Some(h), Some(l)) => Some((16 * h + l) as u8),
        (None, Some(l)) => if hi == PLUS {
            Some(l)
        } else {
            None
        },
        _ => None,
    }
}

/// The text without the `#` signs that it starts with.
pub open spec fn trim_hashes(s: Seq<u8>) -> Seq<u8>
    decreases s.len(),
{
    if s.len() > 0 && s[0] == HASH {
        trim_hashes(s.drop_first())
    } else {
        s
    }
}

/// The six digits of an RGB color: short form doubled, an alpha pair dropped.
pub open spec fn rgb_digits(h: Seq<u8>) -> Option<Seq<u8>> {
    if h.len() == 3 {
        Some(seq![h[0], h[0], h[1], h[1], h[2], h[2]])
    } else if h.len() == 6 {
        Some(h)
    } else if h.len() == 8 {
        Some(h.take(6))
    } else {
        None
    }
}

/// The eight digits of an RGBA color: short form doubled, an opaque alpha
/// added to the six-digit form.
pub open spec fn rgba_digits(h: Seq<u8>) -> Option<Seq<u8>> {
    if h.len() == 4 {
        Some(seq![h[0], h[0], h[1], h[1], h[2], h[2], h[3], h[3]])
    } else if h.len() == 6 {
        Some(h + seq![102u8, 102u8])
    } else if h.len() == 8 {
        Some(h)
    } else {
        None
    }
}

/// The channel that digits `2 * i` and `2 * i + 1` of `d` denote.
pub open spec fn channel(d: Seq<u8>, i: int) -> Option<u8> {
    hex_pair(d[2 * i], d[2 * i + 1])
}

/// The red, green and blue bytes that a hex color code denotes.
pub open spec fn spec_rgb_from_hex(s: Seq<u8>) -> Option<(u8, u8, u8)> {
    match rgb_digits(trim_hashes(s)) {
        Some(d) => match (channel(d, 0), channel(d, 1), channel(d, 2)) {
            (Some(r), Some(g), Some(b)) => Some((r, g, b)),
            _ => None,
        },
        None => None,
    }
}

/// The red, green, blue and alpha bytes that a hex color code denotes.
pub open spec fn spec_rgba_from_hex(s: Seq<u8>) -> Option<(u8, u8, u8, u8)> {
    match rgba_digits(trim_hashes(s)) {
        Some(d) => match (channel(d, 0), channel(d, 1), channel(d, 2), channel(d, 3)) {
            (Some(r), Some(g), Some(b), Some(a)) => Some((r, g, b, a)),
            _ => None,
        },
        None => None,
    }
}

/// Leading `#` signs do not change the color a code denotes.
pub proof fn law_hash_prefix_ignored(s: Seq<u8>)
    ensures
        spec_rgb_from_hex(seq![HASH] + s) == spec_rgb_from_hex(s),
        spec_rgba_from_hex(seq![HASH] + s) == spec_rgba_from_hex(s),
{
    let t = seq![HASH] + s;
    assert(t.len() > 0 && t[0] == HASH);
    assert(t.drop_first() =~= s);
}

/// The short form `rgb` denotes the same color as `rrggbb`.
pub proof fn law_short_form(x: u8, y: u8, z: u8)
    requires
        x != HASH,
    ensures
        spec_rgb_from_hex(seq![x, y, z]) == spec_rgb_from_hex(seq![x, x, y, y, z, z]),
{
    assert(trim_hashes(seq![x, y, z]) == seq![x, y, z]);
    assert(trim_hashes(seq![x, x, y, y, z, z]) == seq![x, x, y, y, z, z]);
    assert(rgb_digits(seq![x, y, z]) == Some(seq![x, x, y, y, z, z]));
}

/// An RGB reading ignores the alpha pair of an eight-digit code.
pub proof fn law_alpha_ignored(d: Seq<u8>)
    requires
        d.len() == 8,
        d[0] != HASH,
    ensures
        spec_rgb_from_hex(d) == spec_rgb_from_hex(d.take(6)),
{
    assert(trim_hashes(d) == d);
    assert(trim_hashes(d.take(6)) == d.take(6));
}

/// A six-digit code is opaque: it denotes the same RGBA color as the code
/// with alpha `ff`.
pub proof fn law_six_digits_opaque(d: Seq<u8>)
    requires
        d.len() == 6,
        d[0] != HASH,
    ensures
        spec_rgba_from_hex(d) == spec_rgba_from_hex(d + seq![102u8, 102u8]),
        spec_rgba_from_hex(d) matches Some(c) ==> c.3 == 255,
{
    let e = d + seq![102u8, 102u8];
    assert(trim_hashes(d) == d);
    assert(e[0] == d[0]);
    assert(trim_hashes(e) == e);
    assert(channel(e, 3) == Some(255u8));
}

/// On six- and eight-digit codes the RGB and RGBA readings agree on the
/// color channels.
pub proof fn law_rgb_agrees_with_rgba(s: Seq<u8>)
    requires
        trim_hashes(s).len() == 6 || trim_hashes(s).len() == 8,
    ensures
        spec_rgba_from_hex(s) matches Some(c) ==> spec_rgb_from_hex(s) == Some((c.0, c.1, c.2)),
{
    let h = trim_hashes(s);
    if h.len() == 6 {
        let e = h + seq![102u8, 102u8];
        assert(e[0] == h[0] && e[1] == h[1] && e[2] == h[2] && e[3] == h[3] && e[4] == h[4] && e[5] == h[5]);
    } else {
        let e = h.take(6);
        assert(e[0] == h[0] && e[1] == h[1] && e[2] == h[2] && e[3] == h[3] && e[4] == h[4] && e[5] == h[5]);
    }
}

/// Hex codes are read in base 16: for any six bytes each of which is a
/// decimal digit (worth 0 to 9), a letter `a`..`f` or `A`..`F` (worth 10 to
/// 15), the code denotes the color whose channels are `16 * hi + lo` of its
/// three pairs, with or without a leading `#`, and opaque when read with
/// alpha.
pub proof fn law_six_digits_read_base_16(d: Seq<u8>)
    requires
        d.len() == 6,
        forall|i: int| 0 <= i < 6 ==> (48 <= #[trigger] d[i] <= 57 || 97 <= d[i] <= 102 || 65 <= d[i] <= 70),
    ensures
        ({
            let w = |b: u8| if b <= 57 {
                b - 48
            } else if b >= 97 {
                b - 87
            } else {
                b - 55
            };
            let c = (
                (16 * w(d[0]) + w(d[1])) as u8,
                (16 * w(d[2]) + w(d[3])) as u8,
                (16 * w(d[4]) + w(d[5])) as u8,
            );
            &&& spec_rgb_from_hex(d) == Some(c)
            &&& spec_rgb_from_hex(seq![HASH] + d) == Some(c)
            &&& spec_rgba_from_hex(d) == Some((c.0, c.1, c.2, 255u8))
            &&& 0 <= w(d[0]) < 16 && 0 <= w(d[1]) < 16 && 0 <= w(d[2]) < 16
            &&& 0 <= w(d[3]) < 16 && 0 <= w(d[4]) < 16 && 0 <= w(d[5]) < 16
        }),
{
    assert(d[0] != HASH);
    assert(trim_hashes(d) == d);
    law_hash_prefix_ignored(d);
    law_six_digits_opaque(d);
    law_rgb_agrees_with_rgba(d);
    let e = d + seq![102u8, 102u8];
    assert(e[0] == d[0] && e[1] == d[1] && e[2] == d[2] && e[3] == d[3] && e[4] == d[4] && e[5] == d[5]);
    assert(d[0] == d[0]);
    assert(48 <= d[1] <= 57 || 97 <= d[1] <= 102 || 65 <= d[1] <= 70);
    assert(48 <= d[2] <= 57 || 97 <= d[2] <= 102 || 65 <= d[2] <= 70);
    assert(48 <= d[3] <= 57 || 97 <= d[3] <= 102 || 65 <= d[3] <= 70);
    assert(48 <= d[4] <= 57 || 97 <= d[4] <= 102 || 65 <= d[4] <= 70);
    assert(48 <= d[5] <= 57 || 97 <= d[5] <= 102 || 65 <= d[5] <= 70);
}

fn hex_digit_exec(b: u8) -> (r: Option<u8>)
    ensures
        r == hex_digit(b),
{
    if 48 <= b && b <= 57 {
        Some(b - 48)
    } else if 97 <= b && b <= 102 {
        Some(b - 87)
    } else if 65 <= b && b <= 70 {
        Some(b - 55)
    } else {
        None
    }
}

fn hex_pair_exec(hi: u8, lo: u8) -> (r: Option<u8>)
    ensures
        r == hex_pair(hi, lo),
{
    match (hex_digit_exec(hi), hex_digit_exec(lo)) {
        (Some(h), Some(l)) => Some(16 * h + l),
        (None, Some(l)) => if hi == PLUS {
            Some(l)
        } else {
            None
        },
        _ => None,
    }
}

/// Where the text starts once its leading `#` signs are skipped.
fn skip_hashes(b: &[u8]) -> (start: usize)
    ensures
        start <= b@.len(),
        trim_hashes(b@) == b@.skip(start as int),
{
    let mut start: usize = 0;
    assert(b@.skip(0) =~= b@);
    while start < b.len() && b[start] == HASH
        invariant
            start <= b@.len(),
            trim_hashes(b@) == trim_hashes(b@.skip(start as int)),
        decreases b@.len() - start,
    {
        assert(b@.skip(start as int).drop_first() =~= b@.skip(start + 1));
        start = start + 1;
    }
    start
}

/// The red, green and blue bytes of a color written as `#rgb`, `#rrggbb` or
/// `#rrggbbaa` (alpha ignored), with any number of leading `#`; `None` for
/// any other text.
pub fn rgb_from_hex(hex: &str) -> (r: Option<(u8, u8, u8)>)
    ensures
        r == spec_rgb_from_hex(hex.spec_bytes()),
{
    let b = hex.as_bytes();
    let start = skip_hashes(b);
    let ghost h = b@.skip(start as int);
    let n = b.len() - start;
    let mut d: [u8; 6] = [0u8; 6];
    if n == 3 {
        d = [b[start], b[start], b[start + 1], b[start + 1], b[start + 2], b[start + 2]];
    } else if n == 6 || n == 8 {
        d = [b[start], b[start + 1], b[start + 2], b[start + 3], b[start + 4], b[start + 5]];
    } else {
        return None;
    }
    assert(rgb_digits(h) matches Some(e) && e =~= d@);
    let red = hex_pair_exec(d[0], d[1]);
    let green = hex_pair_exec(d[2], d[3]);
    let blue = hex_pair_exec(d[4], d[5]);
    match (red, green, blue) {
        (Some(r), Some(g), Some(bl)) => Some((r, g, bl)),
        _ => None,
    }
}

/// The red, green, blue and alpha bytes of a color written as `#rgba`,
/// `#rrggbb` (opaque) or `#rrggbbaa`, with any number of leading `#`;
/// `None` for any other text.
pub fn rgba_from_hex(hex: &str) -> (r: Option<(u8, u8, u8, u8)>)
    ensures
        r == spec_rgba_from_hex(hex.spec_bytes()),
{
    let b = hex.as_bytes();
    let start = skip_hashes(b);
    let ghost h = b@.skip(start as int);
    let n = b.len() - start;
    let mut d: [u8; 8] = [0u8; 8];
    if n == 4 {
        d = [
            b[start],
            b[start],
            b[start + 1],
            b[start + 1],
            b[start + 2],
            b[start + 2],
            b[start + 3],
            b[start + 3],
        ];
    } else if n == 6 {
        d = [b[start], b[start + 1], b[start + 2], b[start + 3], b[start + 4], b[start + 5], 102u8, 102u8];
    } else if n == 8 {
        d = [
            b[start],
            b[start + 1],
            b[start + 2],
            b[start + 3],
            b[start + 4],
            b[start + 5],
            b[start + 6],
            b[start + 7],
        ];
    } else {
        return None;
    }
    assert(rgba_digits(h) matches Some(e) && e =~= d@);
    let red = hex_pair_exec(d[0], d[1]);
    let green = hex_pair_exec(d[2], d[3]);
    let blue = hex_pair_exec(d[4], d[5]);
    let alpha = hex_pair_exec(d[6], d[7]);
    match (red, green, blue, alpha) {
        (Some(r), Some(g), Some(bl), Some(a)) => Some((r, g, bl, a)),
        _ => None,
    }
}

} // verus!
