use vstd::prelude::*;
use crate::gpu::{bytes_to_words, bytes_words, words_bytes, lemma_bytes_words_roundtrip};

verus! {

/// One node of the MLS-MPM background grid as the GPU stores it: momentum and
/// mass in fixed point, accumulated with integer atomics.
#[derive(Clone, Copy, Debug, PartialEq, Eq, Structural)]
pub struct Grid {
    pub vx: i32,
    pub vy: i32,
    pub vz: i32,
    pub mass: i32,
}

/// The grid nodes held by GPU words, four per node (vx, vy, vz, mass), each
/// word read as a two's-complement `i32`.
pub open spec fn grid_from_word_seq(w: Seq<u32>) -> Seq<Grid> {
    Seq::new(
        w.len() / 4,
        |i: int|
            Grid {
                vx: w[4 * i] as i32,
                vy: w[4 * i + 1] as i32,
                vz: w[4 * i + 2] as i32,
                mass: w[4 * i + 3] as i32,
            },
    )
}

/// Reads grid nodes from GPU words (see `grid_from_word_seq`).
pub fn grid_from_words(words: &Vec<u32>) -> (g: Vec<Grid>)
    requires
        words@.len() % 4 == 0,
    ensures
        g@ == grid_from_word_seq(words@),
{
    let n = words.len() / 4;
    assert(4 * n == words@.len());
    let mut g: Vec<Grid> = Vec::new();
    let mut i: usize = 0;
    while i < n
        invariant
            n == words@.len() / 4,
            4 * n == words@.len(),
            i <= n,
            g@ =~= grid_from_word_seq(words@.take(4 * i)),
        decreases n - i,
    {
        assert(4 * i + 3 < words.len());
        let j = i + i + i + i;
        g.push(
            Grid {
                vx: words[j] as i32,
                vy: words[j + 1] as i32,
                vz: words[j + 2] as i32,
                mass: words[j + 3] as i32,
            },
        );
        i = i + 1;
        assert(g@ =~= grid_from_word_seq(words@.take(4 * i)));
    }
    assert(words@.take(4 * n) =~= words@);
    g
}

/// Reads grid nodes from bytes read back from the GPU, sixteen bytes per
/// node. `None` when the bytes are not aligned for `u32` words.
pub fn grid_from_bytes(bytes: &[u8]) -> (g: Option<Vec<Grid>>)
    requires
        bytes@.len() % 16 == 0,
    ensures
        g matches Some(v) ==> v@.len() * 16 == bytes@.len() && v@ == grid_from_word_seq(
            bytes_words(bytes@),
        ),
{
    match bytes_to_words(bytes) {
        Some(w) => {
            assert(w@.len() % 4 == 0);
            Some(grid_from_words(&w))
        },
        None => None,
    }
}

/// The GPU words of grid nodes: four per node, vx, vy, vz and mass, each the
/// two's-complement bits of the `i32`.
pub open spec fn grid_words(g: Seq<Grid>) -> Seq<u32> {
    Seq::new(
        4 * g.len(),
        |w: int|
            {
                let n = g[w / 4];
                let f = if w % 4 == 0 {
                    n.vx
                } else if w % 4 == 1 {
                    n.vy
                } else if w % 4 == 2 {
                    n.vz
                } else {
                    n.mass
                };
                f as u32
            },
    )
}

/// Node `i` read from bytes holding the words of nodes `g` is `g[i]`: reading
/// grid bytes gives back every field of every node, in order.
pub proof fn lemma_grid_bytes_roundtrip(g: Seq<Grid>)
    ensures
        grid_from_word_seq(bytes_words(words_bytes(grid_words(g)))) == g,
{
    let w = grid_words(g);
    lemma_bytes_words_roundtrip(w);
    assert forall|i: int| 0 <= i < g.len() implies #[trigger] grid_from_word_seq(w)[i] == g[i] by {
        assert((4 * i) / 4 == i && (4 * i) % 4 == 0);
        assert((4 * i + 1) / 4 == i && (4 * i + 1) % 4 == 1);
        assert((4 * i + 2) / 4 == i && (4 * i + 2) % 4 == 2);
        assert((4 * i + 3) / 4 == i && (4 * i + 3) % 4 == 3);
        let n = g[i];
        let (a, b, c, d) = (n.vx, n.vy, n.vz, n.mass);
        assert((a as u32) as i32 == a && (b as u32) as i32 == b && (c as u32) as i32 == c && (d as u32)
            as i32 == d) by (bit_vector);
    }
    assert(grid_from_word_seq(w) =~= g);
}

} // verus!
