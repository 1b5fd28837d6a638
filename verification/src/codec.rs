//! The region file format.
//!
//! Every scalar of a region is laid down as one little-endian 64-bit
//! word; signed values are shifted into the unsigned range first.  The
//! byte layer below turns words into bytes and back; the layers above
//! it, in this file further down, turn a [`Region`] into words and back.
//! Decoding is exact: it returns the one region a byte string encodes,
//! and nothing for every other byte string.

use vstd::prelude::*;
use crate::params::{FbmParams, TerrainParams};
use crate::save::{Block, RegionV, SaveChunkV};

verus! {

/// `256 ^ n`.
pub open spec fn pow256(n: nat) -> int
    decreases n,
{
    if n == 0 {
        1
    } else {
        256 * pow256((n - 1) as nat)
    }
}

/// The `n` little-endian bytes of `v`.
pub open spec fn le_bytes(v: int, n: nat) -> Seq<u8>
    decreases n,
{
    if n == 0 {
        Seq::empty()
    } else {
        seq![(v % 256) as u8] + le_bytes(v / 256, (n - 1) as nat)
    }
}

/// The value read back from little-endian bytes.
pub open spec fn from_le(s: Seq<u8>) -> int
    decreases s.len(),
{
    if s.len() == 0 {
        0
    } else {
        s[0] + 256 * from_le(s.drop_first())
    }
}

/// Writing a value small enough for its width and reading it back is
/// the identity.
pub proof fn lemma_le_round_trip(v: int, n: nat)
    requires
        0 <= v < pow256(n),
    ensures
        le_bytes(v, n).len() == n,
        from_le(le_bytes(v, n)) == v,
    decreases n,
{
    if n == 0 {
    } else {
        let m = (n - 1) as nat;
        vstd::arithmetic::div_mod::lemma_fundamental_div_mod(v, 256);
        vstd::arithmetic::div_mod::lemma_mod_division_less_than_divisor(v, 256);
        assert(256 * (v / 256) <= v);
        assert(v / 256 < pow256(m));
        lemma_le_round_trip(v / 256, m);
        assert((seq![(v % 256) as u8] + le_bytes(v / 256, m)).drop_first() =~= le_bytes(
            v / 256, m));
    }
}

/// The word starting at byte offset `i`.
pub open spec fn word_at(s: Seq<u8>, i: int) -> int {
    from_le(s.subrange(i, i + 8))
}

/// The byte string split into words.
pub open spec fn words_of(s: Seq<u8>) -> Seq<int> {
    Seq::new((s.len() / 8) as nat, |i: int| word_at(s, 8 * i))
}

/// The byte string that lays the words down in order.
pub open spec fn bytes_of_words(ws: Seq<int>) -> Seq<u8>
    decreases ws.len(),
{
    if ws.len() == 0 {
        Seq::empty()
    } else {
        le_bytes(ws[0], 8) + bytes_of_words(ws.drop_first())
    }
}

/// A word list survives the trip through bytes.
pub proof fn lemma_words_round_trip(ws: Seq<int>)
    requires
        forall|i: int| 0 <= i < ws.len() ==> 0 <= #[trigger] ws[i] < pow256(8),
    ensures
        bytes_of_words(ws).len() == 8 * ws.len(),
        words_of(bytes_of_words(ws)) == ws,
    decreases ws.len(),
{
    if ws.len() == 0 {
        assert(words_of(bytes_of_words(ws)) =~= ws);
    } else {
        let rest = ws.drop_first();
        lemma_words_round_trip(rest);
        lemma_le_round_trip(ws[0], 8);
        let s = bytes_of_words(ws);
        let tail = bytes_of_words(rest);
        assert(s.len() == 8 * ws.len());
        assert forall|i: int| 0 <= i < ws.len() implies words_of(s)[i] == ws[i] by {
            if i == 0 {
                assert(s.subrange(0, 8) =~= le_bytes(ws[0], 8));
            } else {
                assert(s.subrange(8 * i, 8 * i + 8) =~= tail.subrange(
                    8 * (i - 1), 8 * (i - 1) + 8));
                assert(words_of(tail)[i - 1] == rest[i - 1]);
            }
        }
        assert(words_of(s) =~= ws);
    }
}

/// Appends the eight little-endian bytes of one word.
fn push_word(out: &mut Vec<u8>, v: u64)
    ensures
        final(out)@ == old(out)@ + le_bytes(v as int, 8),
{
    let b0 = (v % 256) as u8;
    let v1 = v / 256;
    let b1 = (v1 % 256) as u8;
    let v2 = v1 / 256;
    let b2 = (v2 % 256) as u8;
    let v3 = v2 / 256;
    let b3 = (v3 % 256) as u8;
    let v4 = v3 / 256;
    let b4 = (v4 % 256) as u8;
    let v5 = v4 / 256;
    let b5 = (v5 % 256) as u8;
    let v6 = v5 / 256;
    let b6 = (v6 % 256) as u8;
    let v7 = v6 / 256;
    let b7 = (v7 % 256) as u8;
    out.push(b0);
    out.push(b1);
    out.push(b2);
    out.push(b3);
    out.push(b4);
    out.push(b5);
    out.push(b6);
    out.push(b7);
    proof {
        reveal_with_fuel(le_bytes, 9);
        assert(out@ =~= old(out)@ + le_bytes(v as int, 8));
    }
}

/// Reads the word at byte offset `i`.
fn read_word(s: &Vec<u8>, i: usize) -> (r: u64)
    requires
        i + 8 <= s@.len(),
    ensures
        r as int == word_at(s@, i as int),
{
    let n = s.len();
    proof {
        // `n` is a machine word, which bounds the sequence length.
        assert(s@.len() == n);
    }
    let mut r: u64 = s[i + 7] as u64;
    r = r * 256 + s[i + 6] as u64;
    r = r * 256 + s[i + 5] as u64;
    r = r * 256 + s[i + 4] as u64;
    r = r * 256 + s[i + 3] as u64;
    r = r * 256 + s[i + 2] as u64;
    r = r * 256 + s[i + 1] as u64;
    r = r * 256 + s[i] as u64;
    proof {
        let j = i as int;
        let s0 = s@.subrange(j, j + 8);
        let s1 = s@.subrange(j + 1, j + 8);
        let s2 = s@.subrange(j + 2, j + 8);
        let s3 = s@.subrange(j + 3, j + 8);
        let s4 = s@.subrange(j + 4, j + 8);
        let s5 = s@.subrange(j + 5, j + 8);
        let s6 = s@.subrange(j + 6, j + 8);
        let s7 = s@.subrange(j + 7, j + 8);
        let s8 = s@.subrange(j + 8, j + 8);
        assert(s0.drop_first() =~= s1);
        assert(s1.drop_first() =~= s2);
        assert(s2.drop_first() =~= s3);
        assert(s3.drop_first() =~= s4);
        assert(s4.drop_first() =~= s5);
        assert(s5.drop_first() =~= s6);
        assert(s6.drop_first() =~= s7);
        assert(s7.drop_first() =~= s8);
        assert(s8.len() == 0);
        assert(from_le(s8) == 0);
        assert(from_le(s7) == s@[j + 7] + 256 * from_le(s8));
        assert(from_le(s6) == s@[j + 6] + 256 * from_le(s7));
        assert(from_le(s5) == s@[j + 5] + 256 * from_le(s6));
        assert(from_le(s4) == s@[j + 4] + 256 * from_le(s5));
        assert(from_le(s3) == s@[j + 3] + 256 * from_le(s4));
        assert(from_le(s2) == s@[j + 2] + 256 * from_le(s3));
        assert(from_le(s1) == s@[j + 1] + 256 * from_le(s2));
        assert(from_le(s0) == s@[j] + 256 * from_le(s1));
    }
    r
}

/// Splits a byte string into words; a string whose length is not a
/// multiple of eight is not a word string.
fn read_words(bytes: &Vec<u8>) -> (r: Option<Vec<u64>>)
    ensures
        match r {
            Some(ws) => bytes@.len() % 8 == 0 && ws@.len() == words_of(bytes@).len()
                && forall|i: int|
                    0 <= i < ws@.len() ==> (#[trigger] ws@[i]) as int == words_of(bytes@)[i],
            None => bytes@.len() % 8 != 0,
        },
{
    if bytes.len() % 8 != 0 {
        return None;
    }
    let blen = bytes.len();
    let n = blen / 8;
    proof {
        vstd::arithmetic::div_mod::lemma_fundamental_div_mod(blen as int, 8);
    }
    let mut ws: Vec<u64> = Vec::new();
    while ws.len() < n
        invariant
            blen == bytes@.len(),
            n == bytes@.len() / 8,
            bytes@.len() % 8 == 0,
            8 * n == blen,
            ws@.len() <= n,
            forall|i: int|
                0 <= i < ws@.len() ==> (#[trigger] ws@[i]) as int == words_of(bytes@)[i],
        decreases n - ws@.len(),
    {
        let i = ws.len();
        let w = read_word(bytes, 8 * i);
        ws.push(w);
    }
    Some(ws)
}

// ---------------------------------------------------------------------
// Words of a region.

/// The word of a boolean.
pub open spec fn word_of_bool(b: bool) -> int {
    if b {
        1
    } else {
        0
    }
}

/// The word of a signed 32-bit value, shifted into `0 .. 2^32`.
pub open spec fn word_of_i32(x: int) -> int {
    x + 0x8000_0000
}

/// The word of a signed 64-bit value, shifted into `0 .. 2^64`.
pub open spec fn word_of_i64(x: int) -> int {
    x + 0x8000_0000_0000_0000
}

/// The four words of an fbm parameter set.
pub open spec fn fbm_words(f: FbmParams) -> Seq<int> {
    seq![f.point_scaling as int, f.octaves as int, f.lacunarity as int, f.persistence as int]
}

/// The sixteen words of a terrain parameter set, field by field.
pub open spec fn params_words(p: TerrainParams) -> Seq<int> {
    seq![word_of_bool(p.enable_gravel)] + fbm_words(p.gravel_height) + seq![
        word_of_bool(p.enable_sand),
        word_of_i32(p.sand_offset as int),
    ] + fbm_words(p.sand_height) + seq![
        word_of_bool(p.enable_stone),
        p.stone_point_scaling as int,
        word_of_bool(p.enable_grass),
        word_of_bool(p.enable_water),
        p.seed as int,
    ]
}

/// The four words of one saved cell.
pub open spec fn block_words(b: Block) -> Seq<int> {
    seq![b.x as int, b.y as int, b.z as int, b.kind as int]
}

/// The words of a saved cell list, in order.
pub open spec fn blocks_words(bs: Seq<Block>) -> Seq<int>
    decreases bs.len(),
{
    if bs.len() == 0 {
        Seq::empty()
    } else {
        block_words(bs[0]) + blocks_words(bs.drop_first())
    }
}

/// The words of one saved chunk: its position, its cell count, its
/// cells.
pub open spec fn chunk_words(c: SaveChunkV) -> Seq<int> {
    seq![word_of_i32(c.pos.0), word_of_i32(c.pos.1), c.blocks.len() as int] + blocks_words(
        c.blocks)
}

/// The words of a saved chunk list, in order.
pub open spec fn chunks_words(cs: Seq<SaveChunkV>) -> Seq<int>
    decreases cs.len(),
{
    if cs.len() == 0 {
        Seq::empty()
    } else {
        chunk_words(cs[0]) + chunks_words(cs.drop_first())
    }
}

/// The full word list of a region: its position, the parameters that
/// produced it, its chunk count, its chunks.
pub open spec fn region_words(r: RegionV) -> Seq<int> {
    seq![word_of_i64(r.pos.0), word_of_i64(r.pos.1)] + params_words(r.settings) + seq![
        r.chunks.len() as int,
    ] + chunks_words(r.chunks)
}

/// The byte string of a region.
pub open spec fn spec_encode_region(r: RegionV) -> Seq<u8> {
    bytes_of_words(region_words(r))
}

// ---------------------------------------------------------------------
// Parsing words back into a region.

/// A boolean field: only the words 0 and 1 read back.
pub open spec fn parse_bool_at(w: Seq<int>, i: int) -> Option<bool> {
    if w[i] == 0 {
        Some(false)
    } else if w[i] == 1 {
        Some(true)
    } else {
        None
    }
}

/// An fbm parameter set at offset `i` (four words).
pub open spec fn parse_fbm_at(w: Seq<int>, i: int) -> Option<FbmParams> {
    if 0 <= w[i + 1] < 0x1_0000_0000 {
        Some(
            FbmParams {
                point_scaling: w[i] as u64,
                octaves: w[i + 1] as u32,
                lacunarity: w[i + 2] as u64,
                persistence: w[i + 3] as u64,
            },
        )
    } else {
        None
    }
}

/// A terrain parameter set at offset `i` (sixteen words).
pub open spec fn parse_params_at(w: Seq<int>, i: int) -> Option<TerrainParams> {
    match (
        parse_bool_at(w, i),
        parse_fbm_at(w, i + 1),
        parse_bool_at(w, i + 5),
        parse_fbm_at(w, i + 7),
        parse_bool_at(w, i + 11),
        parse_bool_at(w, i + 13),
        parse_bool_at(w, i + 14),
    ) {
        (Some(eg), Some(gh), Some(es), Some(sh), Some(est), Some(egr), Some(ew)) => {
            if 0 <= w[i + 6] < 0x1_0000_0000 && 0 <= w[i + 15] < 0x1_0000_0000 {
                Some(
                    TerrainParams {
                        enable_gravel: eg,
                        gravel_height: gh,
                        enable_sand: es,
                        sand_offset: (w[i + 6] - 0x8000_0000) as i32,
                        sand_height: sh,
                        enable_stone: est,
                        stone_point_scaling: w[i + 12] as u64,
                        enable_grass: egr,
                        enable_water: ew,
                        seed: w[i + 15] as u32,
                    },
                )
            } else {
                None
            }
        },
        _ => None,
    }
}

/// One saved cell at offset `i` (four words); its offsets must lie
/// inside the chunk box and its code inside sixteen bits.
pub open spec fn parse_block_at(w: Seq<int>, i: int) -> Option<Block> {
    if 0 <= w[i] < 16 && 0 <= w[i + 1] < 384 && 0 <= w[i + 2] < 16 && 0 <= w[i + 3] < 0x1_0000 {
        Some(
            Block {
                x: w[i] as usize,
                y: w[i + 1] as usize,
                z: w[i + 2] as usize,
                kind: w[i + 3] as u16,
            },
        )
    } else {
        None
    }
}

/// `n` saved cells starting at offset `i`.
pub open spec fn parse_blocks_at(w: Seq<int>, i: int, n: nat) -> Option<Seq<Block>>
    decreases n,
{
    if n == 0 {
        Some(Seq::empty())
    } else if !(0 <= i && i + 4 <= w.len()) {
        None
    } else {
        match (parse_block_at(w, i), parse_blocks_at(w, i + 4, (n - 1) as nat)) {
            (Some(b), Some(bs)) => Some(seq![b] + bs),
            _ => None,
        }
    }
}

/// One saved chunk at offset `i`, and the offset just past it.
pub open spec fn parse_chunk_at(w: Seq<int>, i: int) -> Option<(SaveChunkV, int)> {
    if !(0 <= i && i + 3 <= w.len()) {
        None
    } else if !(0 <= w[i] < 0x1_0000_0000 && 0 <= w[i + 1] < 0x1_0000_0000 && 0 <= w[i + 2]) {
        None
    } else {
        match parse_blocks_at(w, i + 3, w[i + 2] as nat) {
            Some(bs) => Some(
                (
                    SaveChunkV {
                        pos: (w[i] - 0x8000_0000, w[i + 1] - 0x8000_0000),
                        blocks: bs,
                    },
                    i + 3 + 4 * w[i + 2],
                ),
            ),
            None => None,
        }
    }
}

/// `n` saved chunks starting at offset `i`, and the offset just past
/// them.
pub open spec fn parse_chunks_at(w: Seq<int>, i: int, n: nat) -> Option<(Seq<SaveChunkV>, int)>
    decreases n,
{
    if n == 0 {
        Some((Seq::empty(), i))
    } else {
        match parse_chunk_at(w, i) {
            Some((c, j)) => match parse_chunks_at(w, j, (n - 1) as nat) {
                Some((cs, e)) => Some((seq![c] + cs, e)),
                None => None,
            },
            None => None,
        }
    }
}

/// A whole region from a word list.  The list must be consumed exactly:
/// trailing words make the string unreadable.
pub open spec fn parse_region_words(w: Seq<int>) -> Option<RegionV> {
    if w.len() < 19 {
        None
    } else {
        match parse_params_at(w, 2) {
            Some(settings) => {
                if 0 <= w[18] {
                    match parse_chunks_at(w, 19, w[18] as nat) {
                        Some((cs, e)) => {
                            if e == w.len() {
                                Some(
                                    RegionV {
                                        pos: (
                                            w[0] - 0x8000_0000_0000_0000,
                                            w[1] - 0x8000_0000_0000_0000,
                                        ),
                                        settings,
                                        chunks: cs,
                                    },
                                )
                            } else {
                                None
                            }
                        },
                        None => None,
                    }
                } else {
                    None
                }
            },
            None => None,
        }
    }
}

/// What a byte string holds: the one region it encodes, or nothing.
pub open spec fn spec_decode_region(bytes: Seq<u8>) -> Option<RegionV> {
    if bytes.len() % 8 == 0 {
        parse_region_words(words_of(bytes))
    } else {
        None
    }
}

// ---------------------------------------------------------------------
// The decoder inverts the encoder.

proof fn lemma_pow256_8()
    ensures
        pow256(8) == 0x1_0000_0000_0000_0000,
{
    reveal_with_fuel(pow256, 9);
}

/// A saved cell list takes four words per cell.
proof fn lemma_blocks_words_len(bs: Seq<Block>)
    ensures
        blocks_words(bs).len() == 4 * bs.len(),
    decreases bs.len(),
{
    if bs.len() > 0 {
        lemma_blocks_words_len(bs.drop_first());
    }
}

proof fn lemma_parse_blocks_of_words(bs: Seq<Block>, w: Seq<int>, i: int)
    requires
        0 <= i,
        i + 4 * bs.len() <= w.len(),
        forall|j: int| 0 <= j < bs.len() ==> (#[trigger] bs[j]).wf(),
        forall|k: int| 0 <= k < 4 * bs.len() ==> #[trigger] w[i + k] == blocks_words(bs)[k],
    ensures
        parse_blocks_at(w, i, bs.len()) == Some(bs),
    decreases bs.len(),
{
    lemma_blocks_words_len(bs);
    if bs.len() == 0 {
        assert(parse_blocks_at(w, i, 0) == Some(Seq::<Block>::empty()));
        assert(bs =~= Seq::<Block>::empty());
    } else {
        let rest = bs.drop_first();
        lemma_blocks_words_len(rest);
        assert(w[i + 0] == blocks_words(bs)[0]);
        assert(w[i + 1] == blocks_words(bs)[1]);
        assert(w[i + 2] == blocks_words(bs)[2]);
        assert(w[i + 3] == blocks_words(bs)[3]);
        assert(blocks_words(bs)[0] == block_words(bs[0])[0]);
        assert(blocks_words(bs)[1] == block_words(bs[0])[1]);
        assert(blocks_words(bs)[2] == block_words(bs[0])[2]);
        assert(blocks_words(bs)[3] == block_words(bs[0])[3]);
        assert(bs[0].wf());
        assert(parse_block_at(w, i) == Some(bs[0]));
        assert forall|k: int| 0 <= k < 4 * rest.len() implies #[trigger] w[i + 4 + k]
            == blocks_words(rest)[k] by {
            assert(w[i + (4 + k)] == blocks_words(bs)[4 + k]);
            assert(blocks_words(bs)[4 + k] == blocks_words(rest)[k]);
        }
        lemma_parse_blocks_of_words(rest, w, i + 4);
        assert(seq![bs[0]] + rest =~= bs);
    }
}

proof fn lemma_parse_chunk_of_words(c: SaveChunkV, w: Seq<int>, i: int)
    requires
        c.wf(),
        0 <= i,
        i + chunk_words(c).len() <= w.len(),
        forall|k: int|
            0 <= k < chunk_words(c).len() ==> #[trigger] w[i + k] == chunk_words(c)[k],
    ensures
        chunk_words(c).len() == 3 + 4 * c.blocks.len(),
        parse_chunk_at(w, i) == Some((c, i + 3 + 4 * c.blocks.len())),
{
    lemma_blocks_words_len(c.blocks);
    assert(w[i + 0] == chunk_words(c)[0]);
    assert(w[i + 1] == chunk_words(c)[1]);
    assert(w[i + 2] == chunk_words(c)[2]);
    assert(w[i + 2] == c.blocks.len() as int);
    assert forall|k: int| 0 <= k < 4 * c.blocks.len() implies #[trigger] w[i + 3 + k]
        == blocks_words(c.blocks)[k] by {
        assert(w[i + (3 + k)] == chunk_words(c)[3 + k]);
        assert(chunk_words(c)[3 + k] == blocks_words(c.blocks)[k]);
    }
    lemma_parse_blocks_of_words(c.blocks, w, i + 3);
}

proof fn lemma_parse_chunks_of_words(cs: Seq<SaveChunkV>, w: Seq<int>, i: int)
    requires
        0 <= i,
        i + chunks_words(cs).len() <= w.len(),
        forall|j: int| 0 <= j < cs.len() ==> (#[trigger] cs[j]).wf(),
        forall|k: int|
            0 <= k < chunks_words(cs).len() ==> #[trigger] w[i + k] == chunks_words(cs)[k],
    ensures
        parse_chunks_at(w, i, cs.len()) == Some((cs, i + chunks_words(cs).len())),
    decreases cs.len(),
{
    if cs.len() == 0 {
        assert(cs =~= Seq::<SaveChunkV>::empty());
    } else {
        let c = cs[0];
        let rest = cs.drop_first();
        let cw = chunk_words(c);
        assert(chunks_words(cs) == cw + chunks_words(rest));
        assert forall|k: int| 0 <= k < cw.len() implies #[trigger] w[i + k] == cw[k] by {
            assert(w[i + k] == chunks_words(cs)[k]);
        }
        lemma_parse_chunk_of_words(c, w, i);
        let j = i + cw.len();
        assert forall|k: int| 0 <= k < chunks_words(rest).len() implies #[trigger] w[j + k]
            == chunks_words(rest)[k] by {
            assert(w[i + (cw.len() + k)] == chunks_words(cs)[cw.len() + k]);
            assert(chunks_words(cs)[cw.len() + k] == chunks_words(rest)[k]);
        }
        lemma_parse_chunks_of_words(rest, w, j);
        assert(seq![c] + rest =~= cs);
    }
}

/// Every word of a well-formed region fits its eight bytes.
proof fn lemma_blocks_words_bounded(bs: Seq<Block>)
    requires
        forall|j: int| 0 <= j < bs.len() ==> (#[trigger] bs[j]).wf(),
    ensures
        forall|k: int|
            0 <= k < blocks_words(bs).len() ==> 0 <= #[trigger] blocks_words(bs)[k]
                < 0x1_0000_0000_0000_0000,
    decreases bs.len(),
{
    if bs.len() > 0 {
        lemma_blocks_words_bounded(bs.drop_first());
        assert forall|k: int|
            0 <= k < blocks_words(bs).len() implies 0 <= #[trigger] blocks_words(bs)[k]
            < 0x1_0000_0000_0000_0000 by {
            if k < 4 {
                assert(blocks_words(bs)[k] == block_words(bs[0])[k]);
                assert(bs[0].wf());
            } else {
                assert(blocks_words(bs)[k] == blocks_words(bs.drop_first())[k - 4]);
            }
        }
    }
}

proof fn lemma_chunks_words_bounded(cs: Seq<SaveChunkV>)
    requires
        forall|j: int| 0 <= j < cs.len() ==> (#[trigger] cs[j]).wf(),
    ensures
        forall|k: int|
            0 <= k < chunks_words(cs).len() ==> 0 <= #[trigger] chunks_words(cs)[k]
                < 0x1_0000_0000_0000_0000,
    decreases cs.len(),
{
    if cs.len() > 0 {
        let c = cs[0];
        let rest = cs.drop_first();
        lemma_chunks_words_bounded(rest);
        lemma_blocks_words_bounded(c.blocks);
        lemma_blocks_words_len(c.blocks);
        assert forall|k: int|
            0 <= k < chunks_words(cs).len() implies 0 <= #[trigger] chunks_words(cs)[k]
            < 0x1_0000_0000_0000_0000 by {
            let cw = chunk_words(c);
            if k < cw.len() {
                assert(chunks_words(cs)[k] == cw[k]);
                if k >= 3 {
                    assert(cw[k] == blocks_words(c.blocks)[k - 3]);
                }
            } else {
                assert(chunks_words(cs)[k] == chunks_words(rest)[k - cw.len()]);
            }
        }
    }
}

proof fn lemma_region_words_bounded(r: RegionV)
    requires
        r.wf(),
    ensures
        forall|k: int|
            0 <= k < region_words(r).len() ==> 0 <= #[trigger] region_words(r)[k] < pow256(8),
{
    lemma_pow256_8();
    lemma_chunks_words_bounded(r.chunks);
    let w = region_words(r);
    let pw = params_words(r.settings);
    assert forall|k: int| 0 <= k < w.len() implies 0 <= #[trigger] w[k] < pow256(8) by {
        if k < 2 {
        } else if k < 18 {
            assert(w[k] == pw[k - 2]);
            if 1 <= k - 2 <= 4 {
                assert(pw[k - 2] == fbm_words(r.settings.gravel_height)[k - 3]);
            }
            if 7 <= k - 2 <= 10 {
                assert(pw[k - 2] == fbm_words(r.settings.sand_height)[k - 9]);
            }
        } else if k == 18 {
        } else {
            assert(w[k] == chunks_words(r.chunks)[k - 19]);
        }
    }
}

proof fn lemma_region_words_parse(r: RegionV)
    requires
        r.wf(),
    ensures
        parse_region_words(region_words(r)) == Some(r),
{
    let w = region_words(r);
    let pw = params_words(r.settings);
    assert(pw.len() == 16);
    assert(w.len() == 19 + chunks_words(r.chunks).len());
    assert forall|k: int| 0 <= k < 16 implies #[trigger] w[2 + k] == pw[k] by {}
    assert(parse_params_at(w, 2) == Some(r.settings)) by {
        assert(w[2] == word_of_bool(r.settings.enable_gravel));
        assert(w[3] == fbm_words(r.settings.gravel_height)[0]);
        assert(w[4] == fbm_words(r.settings.gravel_height)[1]);
        assert(w[5] == fbm_words(r.settings.gravel_height)[2]);
        assert(w[6] == fbm_words(r.settings.gravel_height)[3]);
        assert(w[7] == word_of_bool(r.settings.enable_sand));
        assert(w[8] == word_of_i32(r.settings.sand_offset as int));
        assert(w[9] == fbm_words(r.settings.sand_height)[0]);
        assert(w[10] == fbm_words(r.settings.sand_height)[1]);
        assert(w[11] == fbm_words(r.settings.sand_height)[2]);
        assert(w[12] == fbm_words(r.settings.sand_height)[3]);
        assert(w[13] == word_of_bool(r.settings.enable_stone));
        assert(w[14] == r.settings.stone_point_scaling as int);
        assert(w[15] == word_of_bool(r.settings.enable_grass));
        assert(w[16] == word_of_bool(r.settings.enable_water));
        assert(w[17] == r.settings.seed as int);
    }
    assert(w[18] == r.chunks.len() as int);
    assert forall|k: int|
        0 <= k < chunks_words(r.chunks).len() implies #[trigger] w[19 + k] == chunks_words(
        r.chunks)[k] by {}
    lemma_parse_chunks_of_words(r.chunks, w, 19);
    assert(w[0] == word_of_i64(r.pos.0));
    assert(w[1] == word_of_i64(r.pos.1));
}

proof fn lemma_bytes_of_words_concat(a: Seq<int>, b: Seq<int>)
    ensures
        bytes_of_words(a + b) == bytes_of_words(a) + bytes_of_words(b),
    decreases a.len(),
{
    if a.len() == 0 {
        assert(a + b =~= b);
        assert(bytes_of_words(a) + bytes_of_words(b) =~= bytes_of_words(b));
    } else {
        assert((a + b).drop_first() =~= a.drop_first() + b);
        lemma_bytes_of_words_concat(a.drop_first(), b);
        assert((a + b)[0] == a[0]);
        assert(bytes_of_words(a + b) =~= bytes_of_words(a) + bytes_of_words(b));
    }
}

proof fn lemma_bytes_of_words_push(ws: Seq<int>, v: int)
    ensures
        bytes_of_words(ws.push(v)) == bytes_of_words(ws) + le_bytes(v, 8),
{
    reveal_with_fuel(bytes_of_words, 3);
    assert(ws.push(v) =~= ws + seq![v]);
    lemma_bytes_of_words_concat(ws, seq![v]);
    assert(seq![v].drop_first() =~= Seq::<int>::empty());
    assert(bytes_of_words(seq![v]) =~= le_bytes(v, 8));
}

proof fn lemma_blocks_words_snoc(bs: Seq<Block>, b: Block)
    ensures
        blocks_words(bs.push(b)) == blocks_words(bs) + block_words(b),
    decreases bs.len(),
{
    if bs.len() == 0 {
        reveal_with_fuel(blocks_words, 3);
        assert(bs.push(b).drop_first() =~= Seq::<Block>::empty());
        assert(bs.push(b)[0] == b);
        assert(blocks_words(bs.push(b)) =~= blocks_words(bs) + block_words(b));
    } else {
        assert(bs.push(b).drop_first() =~= bs.drop_first().push(b));
        lemma_blocks_words_snoc(bs.drop_first(), b);
        assert(blocks_words(bs.push(b)) =~= blocks_words(bs) + block_words(b));
    }
}

proof fn lemma_chunks_words_snoc(cs: Seq<SaveChunkV>, c: SaveChunkV)
    ensures
        chunks_words(cs.push(c)) == chunks_words(cs) + chunk_words(c),
    decreases cs.len(),
{
    if cs.len() == 0 {
        reveal_with_fuel(chunks_words, 3);
        assert(cs.push(c).drop_first() =~= Seq::<SaveChunkV>::empty());
        assert(cs.push(c)[0] == c);
        assert(chunks_words(cs.push(c)) =~= chunks_words(cs) + chunk_words(c));
    } else {
        assert(cs.push(c).drop_first() =~= cs.drop_first().push(c));
        lemma_chunks_words_snoc(cs.drop_first(), c);
        assert(chunks_words(cs.push(c)) =~= chunks_words(cs) + chunk_words(c));
    }
}

// ---------------------------------------------------------------------
// The executable encoder.

/// The word of a signed 32-bit value.
fn enc_i32(x: i32) -> (r: u64)
    ensures
        r as int == word_of_i32(x as int),
{
    ((x as i64) + 0x8000_0000) as u64
}

/// The word of a signed 64-bit value.
fn enc_i64(x: i64) -> (r: u64)
    ensures
        r as int == word_of_i64(x as int),
{
    if x >= 0 {
        (x as u64) + 0x8000_0000_0000_0000
    } else {
        ((x + 0x4000_0000_0000_0000) + 0x4000_0000_0000_0000) as u64
    }
}

fn enc_bool(b: bool) -> (r: u64)
    ensures
        r as int == word_of_bool(b),
{
    if b {
        1
    } else {
        0
    }
}

fn push_fbm(out: &mut Vec<u8>, f: &FbmParams)
    ensures
        final(out)@ == old(out)@ + bytes_of_words(fbm_words(*f)),
{
    let ghost base = out@;
    let ghost mut ws: Seq<int> = Seq::empty();
    push_word(out, f.point_scaling);
    proof {
        lemma_bytes_of_words_push(ws, f.point_scaling as int);
        ws = ws.push(f.point_scaling as int);
    }
    push_word(out, f.octaves as u64);
    proof {
        lemma_bytes_of_words_push(ws, f.octaves as int);
        ws = ws.push(f.octaves as int);
    }
    push_word(out, f.lacunarity);
    proof {
        lemma_bytes_of_words_push(ws, f.lacunarity as int);
        ws = ws.push(f.lacunarity as int);
    }
    push_word(out, f.persistence);
    proof {
        lemma_bytes_of_words_push(ws, f.persistence as int);
        ws = ws.push(f.persistence as int);
        assert(ws =~= fbm_words(*f));
        assert(out@ =~= base + bytes_of_words(fbm_words(*f)));
    }
}

#[verifier::rlimit(100)]
fn push_params(out: &mut Vec<u8>, p: &TerrainParams)
    ensures
        final(out)@ == old(out)@ + bytes_of_words(params_words(*p)),
{
    let ghost base = out@;
    let ghost mut ws: Seq<int> = Seq::empty();
    let w0 = enc_bool(p.enable_gravel);
    push_word(out, w0);
    proof {
        lemma_bytes_of_words_push(ws, w0 as int);
        ws = ws.push(w0 as int);
        assert(out@ == base + bytes_of_words(ws));
    }
    push_fbm(out, &p.gravel_height);
    proof {
        lemma_bytes_of_words_concat(ws, fbm_words(p.gravel_height));
        ws = ws + fbm_words(p.gravel_height);
        assert(out@ == base + bytes_of_words(ws));
    }
    let w1 = enc_bool(p.enable_sand);
    push_word(out, w1);
    proof {
        lemma_bytes_of_words_push(ws, w1 as int);
        ws = ws.push(w1 as int);
        assert(out@ == base + bytes_of_words(ws));
    }
    let w2 = enc_i32(p.sand_offset);
    push_word(out, w2);
    proof {
        lemma_bytes_of_words_push(ws, w2 as int);
        ws = ws.push(w2 as int);
        assert(out@ == base + bytes_of_words(ws));
    }
    push_fbm(out, &p.sand_height);
    proof {
        lemma_bytes_of_words_concat(ws, fbm_words(p.sand_height));
        ws = ws + fbm_words(p.sand_height);
        assert(out@ == base + bytes_of_words(ws));
    }
    let w3 = enc_bool(p.enable_stone);
    push_word(out, w3);
    proof {
        lemma_bytes_of_words_push(ws, w3 as int);
        ws = ws.push(w3 as int);
        assert(out@ == base + bytes_of_words(ws));
    }
    push_word(out, p.stone_point_scaling);
    proof {
        lemma_bytes_of_words_push(ws, p.stone_point_scaling as int);
        ws = ws.push(p.stone_point_scaling as int);
        assert(out@ == base + bytes_of_words(ws));
    }
    let w4 = enc_bool(p.enable_grass);
    push_word(out, w4);
    proof {
        lemma_bytes_of_words_push(ws, w4 as int);
        ws = ws.push(w4 as int);
        assert(out@ == base + bytes_of_words(ws));
    }
    let w5 = enc_bool(p.enable_water);
    push_word(out, w5);
    proof {
        lemma_bytes_of_words_push(ws, w5 as int);
        ws = ws.push(w5 as int);
        assert(out@ == base + bytes_of_words(ws));
    }
    push_word(out, p.seed as u64);
    proof {
        lemma_bytes_of_words_push(ws, p.seed as int);
        ws = ws.push(p.seed as int);
        assert(out@ == base + bytes_of_words(ws));
        let flat: Seq<int> = seq![
            word_of_bool(p.enable_gravel),
            p.gravel_height.point_scaling as int,
            p.gravel_height.octaves as int,
            p.gravel_height.lacunarity as int,
            p.gravel_height.persistence as int,
            word_of_bool(p.enable_sand),
            word_of_i32(p.sand_offset as int),
            p.sand_height.point_scaling as int,
            p.sand_height.octaves as int,
            p.sand_height.lacunarity as int,
            p.sand_height.persistence as int,
            word_of_bool(p.enable_stone),
            p.stone_point_scaling as int,
            word_of_bool(p.enable_grass),
            word_of_bool(p.enable_water),
            p.seed as int,
        ];
        assert(ws =~= flat);
        assert(params_words(*p) =~= flat);
        assert(out@ == base + bytes_of_words(params_words(*p)));
    }
}

fn push_save_chunk(out: &mut Vec<u8>, c: &crate::save::SaveChunk)
    ensures
        final(out)@ == old(out)@ + bytes_of_words(chunk_words(c@)),
{
    let ghost base = out@;
    let ghost mut ws: Seq<int> = Seq::empty();
    let w0 = enc_i32(c.pos.0);
    push_word(out, w0);
    proof {
        lemma_bytes_of_words_push(ws, w0 as int);
        ws = ws.push(w0 as int);
    }
    let w1 = enc_i32(c.pos.1);
    push_word(out, w1);
    proof {
        lemma_bytes_of_words_push(ws, w1 as int);
        ws = ws.push(w1 as int);
    }
    let n = c.blocks.len();
    push_word(out, n as u64);
    proof {
        lemma_bytes_of_words_push(ws, n as int);
        ws = ws.push(n as int);
    }
    let mut i: usize = 0;
    while i < n
        invariant
            i <= n,
            n == c.blocks@.len(),
            out@ == base + bytes_of_words(ws + blocks_words(c.blocks@.take(i as int))),
        decreases n - i,
    {
        let b = c.blocks[i];
        let ghost pre = ws + blocks_words(c.blocks@.take(i as int));
        push_word(out, b.x as u64);
        push_word(out, b.y as u64);
        push_word(out, b.z as u64);
        push_word(out, b.kind as u64);
        proof {
            lemma_bytes_of_words_push(pre, b.x as int);
            lemma_bytes_of_words_push(pre.push(b.x as int), b.y as int);
            lemma_bytes_of_words_push(pre.push(b.x as int).push(b.y as int), b.z as int);
            lemma_bytes_of_words_push(
                pre.push(b.x as int).push(b.y as int).push(b.z as int), b.kind as int);
            lemma_blocks_words_snoc(c.blocks@.take(i as int), b);
            assert(c.blocks@.take(i as int).push(b) =~= c.blocks@.take(i as int + 1));
            assert(pre.push(b.x as int).push(b.y as int).push(b.z as int).push(b.kind as int)
                =~= ws + blocks_words(c.blocks@.take(i as int + 1)));
        }
        i = i + 1;
    }
    proof {
        assert(c.blocks@.take(n as int) =~= c.blocks@);
        assert(ws + blocks_words(c.blocks@) =~= chunk_words(c@));
        assert(out@ =~= base + bytes_of_words(chunk_words(c@)));
    }
}

/// Lays a region down as bytes.
pub fn encode_region(r: &crate::save::Region) -> (out: Vec<u8>)
    requires
        r.wf(),
    ensures
        out@ == spec_encode_region(r@),
        r@.wf(),
{
    let mut out: Vec<u8> = Vec::new();
    let ghost mut ws: Seq<int> = Seq::empty();
    let w0 = enc_i64(r.pos.x);
    push_word(&mut out, w0);
    proof {
        lemma_bytes_of_words_push(ws, w0 as int);
        ws = ws.push(w0 as int);
    }
    let w1 = enc_i64(r.pos.z);
    push_word(&mut out, w1);
    proof {
        lemma_bytes_of_words_push(ws, w1 as int);
        ws = ws.push(w1 as int);
    }
    push_params(&mut out, &r.settings);
    proof {
        lemma_bytes_of_words_concat(ws, params_words(r.settings));
        ws = ws + params_words(r.settings);
    }
    let n = r.chunks.len();
    push_word(&mut out, n as u64);
    proof {
        lemma_bytes_of_words_push(ws, n as int);
        ws = ws.push(n as int);
    }
    let mut i: usize = 0;
    while i < n
        invariant
            i <= n,
            n == r.chunks@.len(),
            r.wf(),
            out@ == bytes_of_words(ws + chunks_words(r@.chunks.take(i as int))),
            forall|j: int| 0 <= j < i ==> (#[trigger] r@.chunks[j]).wf(),
        decreases n - i,
    {
        let ghost pre = ws + chunks_words(r@.chunks.take(i as int));
        let blen = r.chunks[i].blocks.len();
        push_save_chunk(&mut out, &r.chunks[i]);
        proof {
            lemma_bytes_of_words_concat(pre, chunk_words(r@.chunks[i as int]));
            lemma_chunks_words_snoc(r@.chunks.take(i as int), r@.chunks[i as int]);
            assert(r@.chunks.take(i as int).push(r@.chunks[i as int]) =~= r@.chunks.take(
                i as int + 1));
            assert(pre + chunk_words(r@.chunks[i as int]) =~= ws + chunks_words(r@.chunks.take(
                i as int + 1)));
            assert(r@.chunks[i as int].blocks.len() == blen);
            assert((r@.chunks[i as int]).wf());
        }
        i = i + 1;
    }
    proof {
        assert(r@.chunks.take(n as int) =~= r@.chunks);
        assert(ws + chunks_words(r@.chunks) =~= region_words(r@));
        assert(out@ =~= bytes_of_words(region_words(r@)));
        assert(r@.chunks.len() == n);
        assert(r@.wf());
    }
    out
}

// ---------------------------------------------------------------------
// The executable decoder.

/// The words of a word vector, as unbounded integers.
pub open spec fn ints_of(ws: Seq<u64>) -> Seq<int> {
    ws.map_values(|x: u64| x as int)
}

fn dec_bool_at(ws: &Vec<u64>, i: usize) -> (r: Option<bool>)
    requires
        i < ws@.len(),
    ensures
        r == parse_bool_at(ints_of(ws@), i as int),
{
    if ws[i] == 0 {
        Some(false)
    } else if ws[i] == 1 {
        Some(true)
    } else {
        None
    }
}

fn dec_fbm_at(ws: &Vec<u64>, i: usize) -> (r: Option<FbmParams>)
    requires
        i + 4 <= ws@.len(),
    ensures
        r == parse_fbm_at(ints_of(ws@), i as int),
{
    let n = ws.len();
    proof {
        assert(ws@.len() == n);
    }
    if ws[i + 1] < 0x1_0000_0000 {
        Some(
            FbmParams {
                point_scaling: ws[i],
                octaves: ws[i + 1] as u32,
                lacunarity: ws[i + 2],
                persistence: ws[i + 3],
            },
        )
    } else {
        None
    }
}

fn dec_params_at(ws: &Vec<u64>, i: usize) -> (r: Option<TerrainParams>)
    requires
        i + 16 <= ws@.len(),
    ensures
        r == parse_params_at(ints_of(ws@), i as int),
{
    let n = ws.len();
    proof {
        assert(ws@.len() == n);
    }
    let eg = dec_bool_at(ws, i);
    let gh = dec_fbm_at(ws, i + 1);
    let es = dec_bool_at(ws, i + 5);
    let sh = dec_fbm_at(ws, i + 7);
    let est = dec_bool_at(ws, i + 11);
    let egr = dec_bool_at(ws, i + 13);
    let ew = dec_bool_at(ws, i + 14);
    match (eg, gh, es, sh, est, egr, ew) {
        (Some(eg), Some(gh), Some(es), Some(sh), Some(est), Some(egr), Some(ew)) => {
            if ws[i + 6] < 0x1_0000_0000 && ws[i + 15] < 0x1_0000_0000 {
                Some(
                    TerrainParams {
                        enable_gravel: eg,
                        gravel_height: gh,
                        enable_sand: es,
                        sand_offset: ((ws[i + 6] as i64) - 0x8000_0000) as i32,
                        sand_height: sh,
                        enable_stone: est,
                        stone_point_scaling: ws[i + 12],
                        enable_grass: egr,
                        enable_water: ew,
                        seed: ws[i + 15] as u32,
                    },
                )
            } else {
                None
            }
        },
        _ => None,
    }
}

fn dec_chunk_at(ws: &Vec<u64>, off: usize) -> (r: Option<(crate::save::SaveChunk, usize)>)
    ensures
        match r {
            Some((c, j)) => parse_chunk_at(ints_of(ws@), off as int) == Some((c@, j as int))
                && c.wf() && off < j <= ws@.len(),
            None => parse_chunk_at(ints_of(ws@), off as int) is None,
        },
{
    let ghost wi = ints_of(ws@);
    let total = ws.len();
    if off >= total || total - off < 3 {
        return None;
    }
    let p0 = ws[off];
    let p1 = ws[off + 1];
    let bcount = ws[off + 2];
    if !(p0 < 0x1_0000_0000 && p1 < 0x1_0000_0000) {
        return None;
    }
    let cx = ((p0 as i64) - 0x8000_0000) as i32;
    let cz = ((p1 as i64) - 0x8000_0000) as i32;
    let mut blocks: Vec<Block> = Vec::new();
    let mut boff: usize = off + 3;
    let mut brem: u64 = bcount;
    while brem > 0
        invariant
            off + 3 <= boff <= ws@.len(),
            total == ws@.len(),
            wi == ints_of(ws@),
            bcount == wi[off + 2],
            brem <= bcount,
            boff == off + 3 + 4 * (bcount - brem),
            forall|j: int| 0 <= j < blocks@.len() ==> (#[trigger] blocks@[j]).wf(),
            match parse_blocks_at(wi, boff as int, brem as nat) {
                Some(tail) => parse_blocks_at(wi, off + 3, bcount as nat) == Some(
                    blocks@ + tail),
                None => parse_blocks_at(wi, off + 3, bcount as nat) is None,
            },
        decreases brem,
    {
        if total - boff < 4 {
            return None;
        }
        let bx = ws[boff];
        let by = ws[boff + 1];
        let bz = ws[boff + 2];
        let bk = ws[boff + 3];
        if !(bx < 16 && by < 384 && bz < 16 && bk < 0x1_0000) {
            return None;
        }
        let b = Block { x: bx as usize, y: by as usize, z: bz as usize, kind: bk as u16 };
        proof {
            assert(parse_block_at(wi, boff as int) == Some(b));
        }
        blocks.push(b);
        proof {
            if let Some(tail) = parse_blocks_at(wi, boff as int + 4, (brem - 1) as nat) {
                assert(blocks@.drop_last() + (seq![b] + tail) =~= blocks@ + tail);
                assert(blocks@.drop_last() =~= blocks@.subrange(0, blocks@.len() - 1));
            }
        }
        boff = boff + 4;
        brem = brem - 1;
    }
    let c = crate::save::SaveChunk { pos: (cx, cz), blocks };
    proof {
        assert(c.blocks@ + Seq::<Block>::empty() =~= c.blocks@);
        assert(parse_blocks_at(wi, off + 3, bcount as nat) == Some(c.blocks@));
        assert(parse_chunk_at(wi, off as int) == Some((c@, boff as int)));
    }
    Some((c, boff))
}

/// Reads a region back from bytes.  Exactly the encodings of regions
/// decode; everything else is refused.
pub fn decode_region(bytes: &Vec<u8>) -> (r: Option<crate::save::Region>)
    ensures
        match r {
            Some(reg) => spec_decode_region(bytes@) == Some(reg@) && reg.wf(),
            None => spec_decode_region(bytes@) is None,
        },
{
    let ws = match read_words(bytes) {
        Some(ws) => ws,
        None => {
            return None;
        },
    };
    let ghost wi = ints_of(ws@);
    proof {
        assert(wi =~= words_of(bytes@));
    }
    let total = ws.len();
    if total < 19 {
        return None;
    }
    let settings = match dec_params_at(&ws, 2) {
        Some(p) => p,
        None => {
            return None;
        },
    };
    let count = ws[18];
    let mut chunks: Vec<crate::save::SaveChunk> = Vec::new();
    let mut off: usize = 19;
    let mut rem: u64 = count;
    while rem > 0
        invariant
            19 <= off <= ws@.len(),
            total == ws@.len(),
            wi == ints_of(ws@),
            wi == words_of(bytes@),
            bytes@.len() % 8 == 0,
            total >= 19,
            parse_params_at(wi, 2) == Some(settings),
            count == wi[18],
            rem <= count,
            forall|j: int| 0 <= j < chunks@.len() ==> (#[trigger] chunks@[j]).wf(),
            match parse_chunks_at(wi, off as int, rem as nat) {
                Some((cs, e)) => parse_chunks_at(wi, 19, count as nat) == Some(
                    (chunks@.map_values(|c: crate::save::SaveChunk| c@) + cs, e)),
                None => parse_chunks_at(wi, 19, count as nat) is None,
            },
        decreases rem,
    {
        let step = dec_chunk_at(&ws, off);
        match step {
            None => {
                return None;
            },
            Some((c, j)) => {
                proof {
                    let m = chunks@.map_values(|ch: crate::save::SaveChunk| ch@);
                    assert(chunks@.push(c).map_values(|ch: crate::save::SaveChunk| ch@)
                        =~= m.push(c@));
                    if let Some((cs, e)) = parse_chunks_at(wi, j as int, (rem - 1) as nat) {
                        assert(m.push(c@) + cs =~= m + (seq![c@] + cs));
                    }
                }
                chunks.push(c);
                off = j;
                rem = rem - 1;
            },
        }
    }
    if off != total {
        return None;
    }
    let rx = if ws[0] >= 0x8000_0000_0000_0000 {
        (ws[0] - 0x8000_0000_0000_0000) as i64
    } else {
        ((ws[0] as i64) - 0x4000_0000_0000_0000) - 0x4000_0000_0000_0000
    };
    let rz = if ws[1] >= 0x8000_0000_0000_0000 {
        (ws[1] - 0x8000_0000_0000_0000) as i64
    } else {
        ((ws[1] as i64) - 0x4000_0000_0000_0000) - 0x4000_0000_0000_0000
    };
    let reg = crate::save::Region {
        pos: crate::pos::RegionPos { x: rx, z: rz },
        settings,
        chunks,
    };
    proof {
        let m = reg@.chunks;
        assert(m + Seq::<SaveChunkV>::empty() =~= m);
        assert(parse_chunks_at(wi, 19, count as nat) == Some((m, total as int)));
        assert(spec_decode_region(bytes@) == Some(reg@));
    }
    Some(reg)
}

/// Round trip: a well-formed region read back from its own bytes is
/// itself.  Together with the exactness of [`spec_decode_region`] this
/// pins the file format: a byte string decodes to a region if and only
/// if it is that region's encoding.
pub proof fn lemma_region_codec_round_trip(r: RegionV)
    requires
        r.wf(),
    ensures
        spec_decode_region(spec_encode_region(r)) == Some(r),
{
    lemma_region_words_bounded(r);
    lemma_words_round_trip(region_words(r));
    let bytes = spec_encode_region(r);
    assert(bytes.len() == 8 * region_words(r).len());
    assert(bytes.len() % 8 == 0) by {
        vstd::arithmetic::div_mod::lemma_mod_multiples_basic(
            region_words(r).len() as int, 8);
    }
    lemma_region_words_parse(r);
}

} // verus!
