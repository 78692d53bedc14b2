//! Lossless byte-stream image encoding: runs of the previous pixel, indexing
//! into a cache of recently seen colors, small and medium deltas, and
//! literal color bytes.
//!
//! The contract of the encoder is a round trip: a specification-level
//! decoder, written against the published format, recovers exactly the
//! encoded pixels from the produced byte stream.

use vstd::prelude::*;

verus! {

/// Op tag for a run of the previous pixel.
pub const QOI_OP_RUN: u8 = 0b1100_0000;

/// Op tag for an index into the color cache.
pub const QOI_OP_INDEX: u8 = 0b0000_0000;

/// Op tag for a small per-channel delta.
pub const QOI_OP_DIFF: u8 = 0b0100_0000;

/// Op tag for a medium, green-anchored delta.
pub const QOI_OP_LUMA: u8 = 0b1000_0000;

/// Op tag for literal color bytes.
pub const QOI_OP_RGB: u8 = 0b1111_1110;

/// A pixel as byte channels.
#[derive(Debug, Clone, Copy, PartialEq, Eq, Structural)]
pub struct QOIColor {
    pub r: u8,
    pub g: u8,
    pub b: u8,
}

impl Default for QOIColor {
    /// The all-zero color, which is also what the cache starts out filled
    /// with and what the previous-pixel state starts out as.
    fn default() -> (r: QOIColor)
        ensures
            r == qoi_black(),
    {
        QOIColor { r: 0, g: 0, b: 0 }
    }
}

/// The all-zero color.
pub open spec fn qoi_black() -> QOIColor {
    QOIColor { r: 0, g: 0, b: 0 }
}

/// The cache slot of a color.
pub open spec fn qoi_hash_spec(c: QOIColor) -> int {
    (3 * c.r + 5 * c.g + 7 * c.b + 2805) % 64
}

/// The cache as the encoder and decoder start out with it: 64 zero colors.
pub open spec fn init_index() -> Seq<QOIColor> {
    Seq::new(64, |i: int| qoi_black())
}

/// A channel value moved by a (possibly negative) delta, wrapping around.
pub open spec fn wrap_channel(base: u8, delta: int) -> u8 {
    (((base + delta) % 256 + 256) % 256) as u8
}

impl QOIColor {
    /// The cache slot of this color: a weighted channel sum taken modulo the
    /// cache size (byte-wrapping the sum first changes nothing, since the
    /// cache size divides the byte range).
    pub fn hash(self) -> (r: u8)
        ensures
            r == qoi_hash_spec(self),
    {
        ((3 * (self.r as u32) + 5 * (self.g as u32) + 7 * (self.b as u32) + 2805) % 64) as u8
    }

    /// The color packed as one 32-bit word, low byte first, with an opaque
    /// alpha byte on top.
    pub fn v(self) -> (r: u32)
        ensures
            r == self.r + self.g * 0x100 + self.b * 0x1_0000 + 0xFF00_0000,
    {
        (self.r as u32) + (self.g as u32) * 0x100 + (self.b as u32) * 0x1_0000 + 0xFF00_0000
    }
}

/// How a color relates to its predecessor: near enough for a one-byte
/// delta, for a two-byte delta, or only for literal bytes.
#[derive(Debug, Clone, Copy, PartialEq, Eq, Structural)]
pub enum ColorDiff {
    Small(u8),
    Medium(u8, u8),
    Large,
}

/// Each channel moved by at most a small step since `p`.
pub open spec fn small_diff_ok(c: QOIColor, p: QOIColor) -> bool {
    &&& -2 <= c.r - p.r <= 1
    &&& -2 <= c.g - p.g <= 1
    &&& -2 <= c.b - p.b <= 1
}

/// The one-byte delta op: two bits per channel, biased by 2.
pub open spec fn small_diff_byte(c: QOIColor, p: QOIColor) -> u8 {
    (QOI_OP_DIFF + (c.r - p.r + 2) * 16 + (c.g - p.g + 2) * 4 + (c.b - p.b + 2)) as u8
}

/// The green channel moved moderately and the red and blue channels moved
/// nearly as much as the green one.
pub open spec fn medium_diff_ok(c: QOIColor, p: QOIColor) -> bool {
    &&& -32 <= c.g - p.g <= 31
    &&& -8 <= (c.r - p.r) - (c.g - p.g) <= 6
    &&& -8 <= (c.b - p.b) - (c.g - p.g) <= 6
}

/// The two-byte delta op: the green delta biased by 32, then the red and
/// blue deltas relative to green, biased by 8.
pub open spec fn medium_diff_bytes(c: QOIColor, p: QOIColor) -> (u8, u8) {
    (
        (QOI_OP_LUMA + (c.g - p.g + 32)) as u8,
        (((c.r - p.r) - (c.g - p.g) + 8) * 16 + ((c.b - p.b) - (c.g - p.g) + 8)) as u8,
    )
}

impl QOIColor {
    /// How this color can be encoded relative to its predecessor `other`.
    pub fn difference(self, other: Self) -> (r: ColorDiff)
        ensures
            small_diff_ok(self, other) ==> r == ColorDiff::Small(small_diff_byte(self, other)),
            !small_diff_ok(self, other) && medium_diff_ok(self, other) ==> r == ColorDiff::Medium(
                medium_diff_bytes(self, other).0,
                medium_diff_bytes(self, other).1,
            ),
            !small_diff_ok(self, other) && !medium_diff_ok(self, other) ==> r == ColorDiff::Large,
    {
        let dr = self.r as i16 - other.r as i16;
        let dg = self.g as i16 - other.g as i16;
        let db = self.b as i16 - other.b as i16;
        if -2 <= dr && dr <= 1 && -2 <= dg && dg <= 1 && -2 <= db && db <= 1 {
            let byte = QOI_OP_DIFF + ((dr + 2) as u8) * 16 + ((dg + 2) as u8) * 4 + ((db + 2)
                as u8);
            return ColorDiff::Small(byte);
        }
        let drdg = dr - dg;
        let dbdg = db - dg;
        if -32 <= dg && dg <= 31 && -8 <= drdg && drdg <= 6 && -8 <= dbdg && dbdg <= 6 {
            let first_byte = QOI_OP_LUMA + ((dg + 32) as u8);
            let second_byte = ((drdg + 8) as u8) * 16 + ((dbdg + 8) as u8);
            return ColorDiff::Medium(first_byte, second_byte);
        }
        ColorDiff::Large
    }
}

/// What a byte stream of ops decodes to, starting from the previous pixel
/// `prev` and the cache `idx`: the decoded pixels together with the final
/// previous pixel and cache, or nothing when the stream is malformed. After
/// each decoded pixel the cache takes that pixel at its slot. The
/// alpha-carrying literal op never arises in three-channel streams and is
/// rejected.
#[verifier::opaque]
pub open spec fn qoi_decode_ops(bytes: Seq<u8>, prev: QOIColor, idx: Seq<QOIColor>) -> Option<
    (Seq<QOIColor>, QOIColor, Seq<QOIColor>),
>
    decreases bytes.len(),
{
    if bytes.len() == 0 {
        Some((Seq::empty(), prev, idx))
    } else {
        let b0 = bytes[0];
        if b0 == QOI_OP_RGB {
            if bytes.len() >= 4 {
                let c = QOIColor { r: bytes[1], g: bytes[2], b: bytes[3] };
                match qoi_decode_ops(bytes.skip(4), c, idx.update(qoi_hash_spec(c), c)) {
                    Some(t) => Some((seq![c] + t.0, t.1, t.2)),
                    None => None,
                }
            } else {
                None
            }
        } else if b0 == 0xFF {
            None
        } else if 0xC0 <= b0 {
            let n = (b0 - 0xC0) + 1;
            match qoi_decode_ops(bytes.skip(1), prev, idx.update(qoi_hash_spec(prev), prev)) {
                Some(t) => Some((Seq::new(n as nat, |j: int| prev) + t.0, t.1, t.2)),
                None => None,
            }
        } else if 0x80 <= b0 {
            if bytes.len() >= 2 {
                let dg = (b0 - 0x80) - 32;
                let drdg = (bytes[1] / 16) - 8;
                let dbdg = (bytes[1] % 16) - 8;
                let c = QOIColor {
                    r: wrap_channel(prev.r, dg + drdg),
                    g: wrap_channel(prev.g, dg),
                    b: wrap_channel(prev.b, dg + dbdg),
                };
                match qoi_decode_ops(bytes.skip(2), c, idx.update(qoi_hash_spec(c), c)) {
                    Some(t) => Some((seq![c] + t.0, t.1, t.2)),
                    None => None,
                }
            } else {
                None
            }
        } else if 0x40 <= b0 {
            let dr = ((b0 - 0x40) / 16) - 2;
            let dg = (((b0 - 0x40) / 4) % 4) - 2;
            let db = ((b0 - 0x40) % 4) - 2;
            let c = QOIColor {
                r: wrap_channel(prev.r, dr),
                g: wrap_channel(prev.g, dg),
                b: wrap_channel(prev.b, db),
            };
            match qoi_decode_ops(bytes.skip(1), c, idx.update(qoi_hash_spec(c), c)) {
                Some(t) => Some((seq![c] + t.0, t.1, t.2)),
                None => None,
            }
        } else {
            let c = idx[b0 as int];
            match qoi_decode_ops(bytes.skip(1), c, idx.update(qoi_hash_spec(c), c)) {
                Some(t) => Some((seq![c] + t.0, t.1, t.2)),
                None => None,
            }
        }
    }
}

/// The pixels a stream of ops decodes to from the initial state.
pub open spec fn qoi_pixels_of(bytes: Seq<u8>) -> Option<Seq<QOIColor>> {
    match qoi_decode_ops(bytes, qoi_black(), init_index()) {
        Some(t) => Some(t.0),
        None => None,
    }
}

/// Decoding a well-formed stream followed by more bytes decodes the stream
/// first and continues from its final state.
#[verifier::rlimit(100)]
#[verifier::spinoff_prover]
pub proof fn lemma_decode_append(a: Seq<u8>, b: Seq<u8>, prev: QOIColor, idx: Seq<QOIColor>)
    requires
        qoi_decode_ops(a, prev, idx) is Some,
    ensures
        ({
            let t1 = qoi_decode_ops(a, prev, idx).unwrap();
            qoi_decode_ops(a + b, prev, idx) == (match qoi_decode_ops(b, t1.1, t1.2) {
                Some(t2) => Some((t1.0 + t2.0, t2.1, t2.2)),
                None => None::<(Seq<QOIColor>, QOIColor, Seq<QOIColor>)>,
            })
        }),
    decreases a.len(),
{
    reveal_with_fuel(qoi_decode_ops, 1);
    let t1 = qoi_decode_ops(a, prev, idx).unwrap();
    if a.len() == 0 {
        assert(a + b =~= b);
        match qoi_decode_ops(b, prev, idx) {
            Some(t2) => {
                assert(t1.0 + t2.0 =~= t2.0);
            },
            None => {
            },
        }
    } else {
        let b0 = a[0];
        let ab = a + b;
        assert(ab[0] == b0);
        assert(ab.len() == a.len() + b.len());
        if b0 == QOI_OP_RGB {
            assert(a.len() >= 4);
            assert(ab[1] == a[1] && ab[2] == a[2] && ab[3] == a[3]);
            let c = QOIColor { r: a[1], g: a[2], b: a[3] };
            let idx2 = idx.update(qoi_hash_spec(c), c);
            assert(ab.skip(4) =~= a.skip(4) + b);
            lemma_decode_append(a.skip(4), b, c, idx2);
            let t1r = qoi_decode_ops(a.skip(4), c, idx2).unwrap();
            match qoi_decode_ops(b, t1.1, t1.2) {
                Some(t2) => {
                    assert(seq![c] + (t1r.0 + t2.0) =~= (seq![c] + t1r.0) + t2.0);
                },
                None => {
                },
            }
        } else if b0 == 0xFF {
        } else if 0xC0 <= b0 {
            let idx2 = idx.update(qoi_hash_spec(prev), prev);
            assert(ab.skip(1) =~= a.skip(1) + b);
            lemma_decode_append(a.skip(1), b, prev, idx2);
            let n = (b0 - 0xC0) + 1;
            let run = Seq::new(n as nat, |j: int| prev);
            let t1r = qoi_decode_ops(a.skip(1), prev, idx2).unwrap();
            match qoi_decode_ops(b, t1.1, t1.2) {
                Some(t2) => {
                    assert(run + (t1r.0 + t2.0) =~= (run + t1r.0) + t2.0);
                },
                None => {
                },
            }
        } else if 0x80 <= b0 {
            assert(a.len() >= 2);
            assert(ab[1] == a[1]);
            let dg = (b0 - 0x80) - 32;
            let drdg = (a[1] / 16) - 8;
            let dbdg = (a[1] % 16) - 8;
            let c = QOIColor {
                r: wrap_channel(prev.r, dg + drdg),
                g: wrap_channel(prev.g, dg),
                b: wrap_channel(prev.b, dg + dbdg),
            };
            let idx2 = idx.update(qoi_hash_spec(c), c);
            assert(ab.skip(2) =~= a.skip(2) + b);
            lemma_decode_append(a.skip(2), b, c, idx2);
            let t1r = qoi_decode_ops(a.skip(2), c, idx2).unwrap();
            match qoi_decode_ops(b, t1.1, t1.2) {
                Some(t2) => {
                    assert(seq![c] + (t1r.0 + t2.0) =~= (seq![c] + t1r.0) + t2.0);
                },
                None => {
                },
            }
        } else if 0x40 <= b0 {
            let dr = ((b0 - 0x40) / 16) - 2;
            let dg = (((b0 - 0x40) / 4) % 4) - 2;
            let db = ((b0 - 0x40) % 4) - 2;
            let c = QOIColor {
                r: wrap_channel(prev.r, dr),
                g: wrap_channel(prev.g, dg),
                b: wrap_channel(prev.b, db),
            };
            let idx2 = idx.update(qoi_hash_spec(c), c);
            assert(ab.skip(1) =~= a.skip(1) + b);
            lemma_decode_append(a.skip(1), b, c, idx2);
            let t1r = qoi_decode_ops(a.skip(1), c, idx2).unwrap();
            match qoi_decode_ops(b, t1.1, t1.2) {
                Some(t2) => {
                    assert(seq![c] + (t1r.0 + t2.0) =~= (seq![c] + t1r.0) + t2.0);
                },
                None => {
                },
            }
        } else {
            let c = idx[b0 as int];
            let idx2 = idx.update(qoi_hash_spec(c), c);
            assert(ab.skip(1) =~= a.skip(1) + b);
            lemma_decode_append(a.skip(1), b, c, idx2);
            let t1r = qoi_decode_ops(a.skip(1), c, idx2).unwrap();
            match qoi_decode_ops(b, t1.1, t1.2) {
                Some(t2) => {
                    assert(seq![c] + (t1r.0 + t2.0) =~= (seq![c] + t1r.0) + t2.0);
                },
                None => {
                },
            }
        }
    }
}

/// A channel moved by a delta that stays in byte range is just the sum.
proof fn lemma_wrap_identity(base: u8, delta: int)
    requires
        0 <= base + delta < 256,
    ensures
        wrap_channel(base, delta) == base + delta,
{
    let x = base + delta;
    vstd::arithmetic::div_mod::lemma_small_mod(x as nat, 256);
}

/// One literal-color op decodes to that color.
proof fn lemma_decode_rgb(c: QOIColor, prev: QOIColor, idx: Seq<QOIColor>)
    ensures
        qoi_decode_ops(seq![QOI_OP_RGB, c.r, c.g, c.b], prev, idx) == Some(
            (seq![c], c, idx.update(qoi_hash_spec(c), c)),
        ),
{
    reveal_with_fuel(qoi_decode_ops, 2);
    let bytes = seq![QOI_OP_RGB, c.r, c.g, c.b];
    assert(bytes.skip(4) =~= Seq::<u8>::empty());
    let idx2 = idx.update(qoi_hash_spec(c), c);
    assert(qoi_decode_ops(bytes.skip(4), c, idx2) == Some(
        (Seq::<QOIColor>::empty(), c, idx2),
    ));
    assert(seq![c] + Seq::<QOIColor>::empty() =~= seq![c]);
}

/// One run op decodes to that many copies of the previous pixel.
proof fn lemma_decode_run(n: u8, prev: QOIColor, idx: Seq<QOIColor>)
    requires
        1 <= n <= 62,
    ensures
        qoi_decode_ops(seq![(QOI_OP_RUN + (n - 1)) as u8], prev, idx) == Some(
            (Seq::new(n as nat, |j: int| prev), prev, idx.update(qoi_hash_spec(prev), prev)),
        ),
{
    reveal_with_fuel(qoi_decode_ops, 2);
    let bytes = seq![(QOI_OP_RUN + (n - 1)) as u8];
    let b0 = bytes[0];
    assert(0xC0 <= b0 <= 0xFD);
    assert((b0 - 0xC0) + 1 == n);
    assert(bytes.skip(1) =~= Seq::<u8>::empty());
    let idx2 = idx.update(qoi_hash_spec(prev), prev);
    assert(qoi_decode_ops(bytes.skip(1), prev, idx2) == Some(
        (Seq::<QOIColor>::empty(), prev, idx2),
    ));
    assert(Seq::new(n as nat, |j: int| prev) + Seq::<QOIColor>::empty() =~= Seq::new(
        n as nat,
        |j: int| prev,
    ));
}

/// One small-delta op decodes to the stepped color.
proof fn lemma_decode_small(c: QOIColor, prev: QOIColor, idx: Seq<QOIColor>)
    requires
        small_diff_ok(c, prev),
    ensures
        qoi_decode_ops(seq![small_diff_byte(c, prev)], prev, idx) == Some(
            (seq![c], c, idx.update(qoi_hash_spec(c), c)),
        ),
{
    reveal_with_fuel(qoi_decode_ops, 2);
    let dr = c.r - prev.r;
    let dg = c.g - prev.g;
    let db = c.b - prev.b;
    let bytes = seq![small_diff_byte(c, prev)];
    let b0 = bytes[0];
    assert(b0 == 0x40 + (dr + 2) * 16 + (dg + 2) * 4 + (db + 2));
    assert(0x40 <= b0 < 0x80);
    let rem = (dg + 2) * 4 + (db + 2);
    vstd::arithmetic::div_mod::lemma_fundamental_div_mod_converse(
        b0 - 0x40,
        16,
        dr + 2,
        rem,
    );
    assert((b0 - 0x40) / 16 == dr + 2);
    vstd::arithmetic::div_mod::lemma_fundamental_div_mod_converse(
        b0 - 0x40,
        4,
        (dr + 2) * 4 + (dg + 2),
        db + 2,
    );
    assert((b0 - 0x40) / 4 == (dr + 2) * 4 + (dg + 2));
    assert((b0 - 0x40) % 4 == db + 2);
    vstd::arithmetic::div_mod::lemma_fundamental_div_mod_converse(
        (dr + 2) * 4 + (dg + 2),
        4,
        dr + 2,
        dg + 2,
    );
    assert(((b0 - 0x40) / 4) % 4 == dg + 2);
    lemma_wrap_identity(prev.r, dr);
    lemma_wrap_identity(prev.g, dg);
    lemma_wrap_identity(prev.b, db);
    assert(bytes.skip(1) =~= Seq::<u8>::empty());
    let idx2 = idx.update(qoi_hash_spec(c), c);
    assert(qoi_decode_ops(bytes.skip(1), c, idx2) == Some(
        (Seq::<QOIColor>::empty(), c, idx2),
    ));
    assert(seq![c] + Seq::<QOIColor>::empty() =~= seq![c]);
}

/// One medium-delta op decodes to the stepped color.
proof fn lemma_decode_medium(c: QOIColor, prev: QOIColor, idx: Seq<QOIColor>)
    requires
        medium_diff_ok(c, prev),
    ensures
        qoi_decode_ops(
            seq![medium_diff_bytes(c, prev).0, medium_diff_bytes(c, prev).1],
            prev,
            idx,
        ) == Some((seq![c], c, idx.update(qoi_hash_spec(c), c))),
{
    reveal_with_fuel(qoi_decode_ops, 2);
    let dr = c.r - prev.r;
    let dg = c.g - prev.g;
    let db = c.b - prev.b;
    let drdg = dr - dg;
    let dbdg = db - dg;
    let b0 = medium_diff_bytes(c, prev).0;
    let b1 = medium_diff_bytes(c, prev).1;
    let bytes = seq![b0, b1];
    assert(b0 == 0x80 + (dg + 32));
    assert(0x80 <= b0 < 0xC0);
    assert(b1 == (drdg + 8) * 16 + (dbdg + 8));
    vstd::arithmetic::div_mod::lemma_fundamental_div_mod_converse(
        b1 as int,
        16,
        drdg + 8,
        dbdg + 8,
    );
    assert(b1 / 16 == drdg + 8);
    assert(b1 % 16 == dbdg + 8);
    assert((b0 - 0x80) - 32 == dg);
    lemma_wrap_identity(prev.r, dg + drdg);
    lemma_wrap_identity(prev.g, dg);
    lemma_wrap_identity(prev.b, dg + dbdg);
    assert(bytes.skip(2) =~= Seq::<u8>::empty());
    let idx2 = idx.update(qoi_hash_spec(c), c);
    assert(qoi_decode_ops(bytes.skip(2), c, idx2) == Some(
        (Seq::<QOIColor>::empty(), c, idx2),
    ));
    assert(seq![c] + Seq::<QOIColor>::empty() =~= seq![c]);
}

/// One cache-index op decodes to the cached color.
proof fn lemma_decode_index(h: u8, prev: QOIColor, idx: Seq<QOIColor>)
    requires
        h < 64,
        idx.len() == 64,
    ensures
        ({
            let c = idx[h as int];
            qoi_decode_ops(seq![h], prev, idx) == Some(
                (seq![c], c, idx.update(qoi_hash_spec(c), c)),
            )
        }),
{
    reveal_with_fuel(qoi_decode_ops, 2);
    let c = idx[h as int];
    let bytes = seq![h];
    assert(bytes.skip(1) =~= Seq::<u8>::empty());
    let idx2 = idx.update(qoi_hash_spec(c), c);
    assert(qoi_decode_ops(bytes.skip(1), c, idx2) == Some(
        (Seq::<QOIColor>::empty(), c, idx2),
    ));
    assert(seq![c] + Seq::<QOIColor>::empty() =~= seq![c]);
}

/// The stream header: magic bytes, big-endian width and height, three
/// channels, linear colorspace.
pub open spec fn qoi_header(width: u32, height: u32) -> Seq<u8> {
    seq![
        0x71u8,
        0x6Fu8,
        0x69u8,
        0x66u8,
        ((width / 0x100_0000) % 256) as u8,
        ((width / 0x1_0000) % 256) as u8,
        ((width / 0x100) % 256) as u8,
        (width % 256) as u8,
        ((height / 0x100_0000) % 256) as u8,
        ((height / 0x1_0000) % 256) as u8,
        ((height / 0x100) % 256) as u8,
        (height % 256) as u8,
        3u8,
        0u8,
    ]
}

/// The end marker: seven zero bytes and a one.
pub open spec fn qoi_footer() -> Seq<u8> {
    seq![0u8, 0u8, 0u8, 0u8, 0u8, 0u8, 0u8, 1u8]
}

fn push1(out: &mut Vec<u8>, a: u8)
    ensures
        final(out)@ == old(out)@ + seq![a],
{
    out.push(a);
    proof {
        assert(final(out)@ =~= old(out)@ + seq![a]);
    }
}

fn push2(out: &mut Vec<u8>, a: u8, b: u8)
    ensures
        final(out)@ == old(out)@ + seq![a, b],
{
    out.push(a);
    out.push(b);
    proof {
        assert(final(out)@ =~= old(out)@ + seq![a, b]);
    }
}

fn push4(out: &mut Vec<u8>, a: u8, b: u8, c: u8, d: u8)
    ensures
        final(out)@ == old(out)@ + seq![a, b, c, d],
{
    out.push(a);
    out.push(b);
    out.push(c);
    out.push(d);
    proof {
        assert(final(out)@ =~= old(out)@ + seq![a, b, c, d]);
    }
}

/// Appending ops to a well-formed stream extends what it decodes to.
proof fn lemma_extend(
    data: Seq<u8>,
    op: Seq<u8>,
    decoded: Seq<QOIColor>,
    prev: QOIColor,
    idx: Seq<QOIColor>,
    opx: Seq<QOIColor>,
    prev2: QOIColor,
    idx2: Seq<QOIColor>,
)
    requires
        qoi_decode_ops(data, qoi_black(), init_index()) == Some((decoded, prev, idx)),
        qoi_decode_ops(op, prev, idx) == Some((opx, prev2, idx2)),
    ensures
        qoi_decode_ops(data + op, qoi_black(), init_index()) == Some((decoded + opx, prev2, idx2)),
{
    lemma_decode_append(data, op, qoi_black(), init_index());
}

/// Writes the pending run op for `run` repetitions of `prev`.
fn flush_run(
    out: &mut Vec<u8>,
    run: u8,
    prev: QOIColor,
    index: &Vec<QOIColor>,
    Ghost(decoded): Ghost<Seq<QOIColor>>,
)
    requires
        1 <= run <= 62,
        index@.len() == 64,
        index@[qoi_hash_spec(prev)] == prev,
        old(out)@.len() >= 14,
        qoi_decode_ops(old(out)@.skip(14), qoi_black(), init_index()) == Some(
            (decoded, prev, index@),
        ),
    ensures
        final(out)@.len() > old(out)@.len(),
        final(out)@.take(old(out)@.len() as int) == old(out)@,
        qoi_decode_ops(final(out)@.skip(14), qoi_black(), init_index()) == Some(
            (decoded + Seq::new(run as nat, |j: int| prev), prev, index@),
        ),
{
    proof {
        lemma_decode_run(run, prev, index@);
        assert(index@.update(qoi_hash_spec(prev), prev) =~= index@);
        lemma_extend(
            old(out)@.skip(14),
            seq![(QOI_OP_RUN + (run - 1)) as u8],
            decoded,
            prev,
            index@,
            Seq::new(run as nat, |j: int| prev),
            prev,
            index@,
        );
    }
    let b = QOI_OP_RUN | (run - 1);
    proof {
        let r0 = run;
        assert((QOI_OP_RUN | (r0 - 1) as u8) == (QOI_OP_RUN + (r0 - 1)) as u8) by (bit_vector)
            requires
                1 <= r0 <= 62,
        ;
    }
    push1(out, b);
    proof {
        assert(out@.skip(14) =~= old(out)@.skip(14) + seq![(QOI_OP_RUN + (run - 1)) as u8]);
        assert(out@.take(old(out)@.len() as int) =~= old(out)@);
    }
}

/// Writes the ops for one pixel `c` that differs from the previous pixel,
/// after any pending run has been flushed.
fn encode_new_color(
    out: &mut Vec<u8>,
    index: &mut Vec<QOIColor>,
    c: QOIColor,
    prev: QOIColor,
    Ghost(decoded): Ghost<Seq<QOIColor>>,
)
    requires
        c != prev,
        old(index)@.len() == 64,
        old(out)@.len() >= 14,
        qoi_decode_ops(old(out)@.skip(14), qoi_black(), init_index()) == Some(
            (decoded, prev, old(index)@),
        ),
    ensures
        final(index)@.len() == 64,
        final(index)@[qoi_hash_spec(c)] == c,
        final(out)@.len() > old(out)@.len(),
        final(out)@.take(old(out)@.len() as int) == old(out)@,
        qoi_decode_ops(final(out)@.skip(14), qoi_black(), init_index()) == Some(
            (decoded + seq![c], c, final(index)@),
        ),
{
    let ghost data1 = old(out)@.skip(14);
    let h = c.hash();
    if index[h as usize] == c {
        proof {
            lemma_decode_index(h, prev, index@);
            assert(index@.update(qoi_hash_spec(c), c) =~= index@);
            lemma_extend(data1, seq![h], decoded, prev, index@, seq![c], c, index@);
            assert((QOI_OP_INDEX | h) == h) by (bit_vector)
                requires
                    h < 64,
            ;
        }
        push1(out, QOI_OP_INDEX | h);
        proof {
            assert(out@.skip(14) =~= data1 + seq![h]);
            assert(out@.take(old(out)@.len() as int) =~= old(out)@);
        }
    } else {
        let ghost idx0 = index@;
        index.set(h as usize, c);
        match c.difference(prev) {
            ColorDiff::Small(byte) => {
                proof {
                    lemma_decode_small(c, prev, idx0);
                    lemma_extend(
                        data1,
                        seq![small_diff_byte(c, prev)],
                        decoded,
                        prev,
                        idx0,
                        seq![c],
                        c,
                        index@,
                    );
                }
                push1(out, byte);
                proof {
                    assert(out@.skip(14) =~= data1 + seq![small_diff_byte(c, prev)]);
                    assert(out@.take(old(out)@.len() as int) =~= old(out)@);
                }
            },
            ColorDiff::Medium(b1, b2) => {
                proof {
                    lemma_decode_medium(c, prev, idx0);
                    lemma_extend(
                        data1,
                        seq![medium_diff_bytes(c, prev).0, medium_diff_bytes(c, prev).1],
                        decoded,
                        prev,
                        idx0,
                        seq![c],
                        c,
                        index@,
                    );
                }
                push2(out, b1, b2);
                proof {
                    assert(out@.skip(14) =~= data1 + seq![
                        medium_diff_bytes(c, prev).0,
                        medium_diff_bytes(c, prev).1,
                    ]);
                    assert(out@.take(old(out)@.len() as int) =~= old(out)@);
                }
            },
            ColorDiff::Large => {
                proof {
                    lemma_decode_rgb(c, prev, idx0);
                    lemma_extend(
                        data1,
                        seq![QOI_OP_RGB, c.r, c.g, c.b],
                        decoded,
                        prev,
                        idx0,
                        seq![c],
                        c,
                        index@,
                    );
                }
                push4(out, QOI_OP_RGB, c.r, c.g, c.b);
                proof {
                    assert(out@.skip(14) =~= data1 + seq![QOI_OP_RGB, c.r, c.g, c.b]);
                    assert(out@.take(old(out)@.len() as int) =~= old(out)@);
                }
            },
        }
    }
}

/// A complete encoded stream for a `width` by `height` image with the given
/// pixels: the header, then ops that decode back to exactly those pixels,
/// then the end marker.
pub open spec fn is_qoi_stream(
    bytes: Seq<u8>,
    width: u32,
    height: u32,
    pixels: Seq<QOIColor>,
) -> bool {
    &&& bytes.len() >= 22
    &&& bytes.subrange(0, 14) == qoi_header(width, height)
    &&& bytes.subrange(bytes.len() - 8, bytes.len() as int) == qoi_footer()
    &&& qoi_pixels_of(bytes.subrange(14, bytes.len() - 8)) == Some(pixels)
}

/// Encodes the pixels of a `width` by `height` image, given in row order,
/// as one complete byte stream: the header, an op stream that decodes back
/// to exactly the given pixels, and the end marker.
#[verifier::rlimit(100)]
pub fn qoi_encode(width: u32, height: u32, pixels: &Vec<QOIColor>) -> (out: Vec<u8>)
    requires
        pixels@.len() == width * height,
    ensures
        is_qoi_stream(out@, width, height, pixels@),
{
    let mut out: Vec<u8> = Vec::new();
    push4(&mut out, 0x71, 0x6F, 0x69, 0x66);
    push4(
        &mut out,
        ((width >> 24) & 0xFF) as u8,
        ((width >> 16) & 0xFF) as u8,
        ((width >> 8) & 0xFF) as u8,
        (width & 0xFF) as u8,
    );
    push4(
        &mut out,
        ((height >> 24) & 0xFF) as u8,
        ((height >> 16) & 0xFF) as u8,
        ((height >> 8) & 0xFF) as u8,
        (height & 0xFF) as u8,
    );
    push2(&mut out, 3, 0);
    proof {
        lemma_be_bytes(width);
        lemma_be_bytes(height);
        assert(out@ =~= qoi_header(width, height));
        assert(out@.skip(14) =~= Seq::<u8>::empty());
        assert(qoi_decode_ops(Seq::<u8>::empty(), qoi_black(), init_index()) == Some(
            (Seq::<QOIColor>::empty(), qoi_black(), init_index()),
        )) by {
            reveal_with_fuel(qoi_decode_ops, 1);
        }
        assert(Seq::<QOIColor>::empty() =~= pixels@.take(0));
    }
    let mut index: Vec<QOIColor> = Vec::new();
    let mut k: usize = 0;
    while k < 64
        invariant
            k <= 64,
            index@.len() == k,
            forall|j: int| 0 <= j < k ==> index@[j] == qoi_black(),
        decreases 64 - k,
    {
        index.push(QOIColor { r: 0, g: 0, b: 0 });
        k = k + 1;
    }
    proof {
        assert(index@ =~= init_index());
    }
    let mut prev = QOIColor { r: 0, g: 0, b: 0 };
    let mut run: u8 = 0;
    let mut i: usize = 0;
    let n = pixels.len();
    while i < n
        invariant
            n == pixels@.len(),
            i <= n,
            run < 62,
            run <= i,
            index@.len() == 64,
            index@[qoi_hash_spec(prev)] == prev,
            forall|j: int| i - run <= j < i ==> pixels@[j] == prev,
            out@.len() >= 14,
            out@.subrange(0, 14) == qoi_header(width, height),
            qoi_decode_ops(out@.skip(14), qoi_black(), init_index()) == Some(
                (pixels@.take(i - run), prev, index@),
            ),
        decreases n - i,
    {
        let ghost out0 = out@;
        let c = pixels[i];
        if c == prev {
            run = run + 1;
            if run == 62 {
                flush_run(&mut out, run, prev, &index, Ghost(pixels@.take(i + 1 - 62)));
                run = 0;
                proof {
                    assert(pixels@.take(i + 1 - 62) + Seq::new(62, |j: int| prev) =~= pixels@.take(
                        i + 1,
                    ));
                    assert(out@.subrange(0, 14) =~= out0.subrange(0, 14));
                }
            }
        } else {
            if run != 0 {
                let ghost r0 = run;
                flush_run(&mut out, run, prev, &index, Ghost(pixels@.take(i - run)));
                run = 0;
                proof {
                    assert(pixels@.take(i - r0) + Seq::new(r0 as nat, |j: int| prev)
                        =~= pixels@.take(i as int));
                    assert(out@.subrange(0, 14) =~= out0.subrange(0, 14));
                }
            }
            let ghost out1 = out@;
            encode_new_color(&mut out, &mut index, c, prev, Ghost(pixels@.take(i as int)));
            prev = c;
            proof {
                assert(pixels@.take(i as int) + seq![c] =~= pixels@.take(i + 1));
                assert(out@.subrange(0, 14) =~= out1.subrange(0, 14));
                assert(out1.subrange(0, 14) =~= out0.subrange(0, 14));
            }
        }
        i = i + 1;
    }
    if run != 0 {
        let ghost out0 = out@;
        let ghost r0 = run;
        flush_run(&mut out, run, prev, &index, Ghost(pixels@.take(n - run)));
        proof {
            assert(pixels@.take(n - r0) + Seq::new(r0 as nat, |j: int| prev) =~= pixels@.take(
                n as int,
            ));
            assert(out@.subrange(0, 14) =~= out0.subrange(0, 14));
        }
    }
    proof {
        assert(pixels@.take(n as int) =~= pixels@);
    }
    let ghost out_pre = out@;
    let ghost data_end = out@.len() as int;
    push4(&mut out, 0, 0, 0, 0);
    push4(&mut out, 0, 0, 0, 1);
    proof {
        assert(out@.subrange(0, 14) =~= qoi_header(width, height));
        assert(out@.subrange(out@.len() - 8, out@.len() as int) =~= qoi_footer());
        assert(out@.subrange(14, out@.len() - 8) =~= out_pre.skip(14));
    }
    out
}

/// The big-endian byte decomposition by shift and mask agrees with the one
/// by division.
proof fn lemma_be_bytes(w: u32)
    ensures
        (w >> 24) & 0xFF == (w / 0x100_0000) % 256,
        (w >> 16) & 0xFF == (w / 0x1_0000) % 256,
        (w >> 8) & 0xFF == (w / 0x100) % 256,
        w & 0xFF == w % 256,
{
    assert((w >> 24) & 0xFF == (w / 0x100_0000) % 256 && (w >> 16) & 0xFF == (w / 0x1_0000) % 256
        && (w >> 8) & 0xFF == (w / 0x100) % 256 && w & 0xFF == w % 256) by (bit_vector);
}

} // verus!
