use vstd::prelude::*;
use crate::gpu::{bytes_to_words, words_to_bytes, bytes_words, words_bytes, lemma_bytes_words_roundtrip};
use vstd::set_lib::{lemma_int_range, lemma_subset_equality, set_int_range};

verus! {

/// One entry of the spatial hash: a particle (by its index in the particle
/// buffer) and the key of the hash-grid cell that holds it.
#[derive(Clone, Copy, Debug, PartialEq, Eq, Structural)]
pub struct SpatialLookup {
    pub index: u32,
    pub key: u32,
}

/// `a` (taken from input position `pa`) comes strictly before `b` (taken from
/// input position `pb`) in a stable ordering by key.
pub open spec fn key_order(a: SpatialLookup, pa: int, b: SpatialLookup, pb: int) -> bool {
    a.key < b.key || (a.key == b.key && pa < pb)
}

/// `out` holds, in key order, the entries of `src` found at the positions
/// `lo .. hi`; `perm[t]` is the position in `src` of `out[t]`, and entries of
/// equal key keep the order they had in `src`.
pub open spec fn stable_run(
    out: Seq<SpatialLookup>,
    src: Seq<SpatialLookup>,
    perm: Seq<int>,
    lo: int,
    hi: int,
) -> bool {
    &&& out.len() == hi - lo
    &&& perm.len() == out.len()
    &&& forall|t: int|
        0 <= t < out.len() ==> lo <= #[trigger] perm[t] < hi && out[t] == src[perm[t]]
    &&& forall|t: int, u: int|
        #![trigger out[t], out[u]]
        0 <= t < u < out.len() ==> key_order(out[t], perm[t], out[u], perm[u])
}

/// `out` is `inp` sorted by key, entries of equal key in their input order.
pub open spec fn is_stable_sort_of(out: Seq<SpatialLookup>, inp: Seq<SpatialLookup>) -> bool {
    exists|perm: Seq<int>| stable_run(out, inp, perm, 0, inp.len() as int)
}

/// Keys never decrease along `s`.
pub open spec fn sorted_by_key(s: Seq<SpatialLookup>) -> bool {
    forall|i: int, j: int| 0 <= i <= j < s.len() ==> s[i].key <= s[j].key
}

/// Some entry of `s` has key `k`.
pub open spec fn key_present(s: Seq<SpatialLookup>, k: int) -> bool {
    exists|t: int| 0 <= t < s.len() && s[t].key == k
}

/// `p` is the first position of `s` that holds key `k`.
pub open spec fn first_occurrence(s: Seq<SpatialLookup>, k: int, p: int) -> bool {
    &&& 0 <= p < s.len()
    &&& s[p].key == k
    &&& forall|t: int| 0 <= t < p ==> s[t].key != k
}

/// `start[k]` is the first position of key `k` in `s` for every key that
/// occurs; the entries of the other keys are those of `old_start`.
pub open spec fn start_indices_of(s: Seq<SpatialLookup>, start: Seq<u32>, old_start: Seq<u32>) -> bool {
    &&& start.len() == old_start.len()
    &&& forall|k: int|
        0 <= k < start.len() ==> if key_present(s, k) {
            first_occurrence(s, k, #[trigger] start[k] as int)
        } else {
            start[k] == old_start[k]
        }
}

/// Sorts `src[lo..hi]` by key, keeping the input order of equal keys.
fn merge_sort_range(src: &Vec<SpatialLookup>, lo: usize, hi: usize) -> (res: (
    Vec<SpatialLookup>,
    Ghost<Seq<int>>,
))
    requires
        lo <= hi <= src.len(),
    ensures
        stable_run(res.0@, src@, res.1@, lo as int, hi as int),
    decreases hi - lo,
{
    if hi - lo <= 1 {
        let mut out: Vec<SpatialLookup> = Vec::new();
        let ghost mut perm: Seq<int> = Seq::empty();
        if hi - lo == 1 {
            out.push(src[lo]);
            proof {
                perm = seq![lo as int];
            }
        }
        return (out, Ghost(perm));
    }
    let mid = lo + (hi - lo) / 2;
    let (left, Ghost(pl)) = merge_sort_range(src, lo, mid);
    let (right, Ghost(pr)) = merge_sort_range(src, mid, hi);
    let na = left.len();
    let nb = right.len();
    let mut out: Vec<SpatialLookup> = Vec::new();
    let ghost mut perm: Seq<int> = Seq::empty();
    let mut i: usize = 0;
    let mut j: usize = 0;
    while i < na || j < nb
        invariant
            lo < mid < hi <= src.len(),
            na == left@.len(),
            nb == right@.len(),
            stable_run(left@, src@, pl, lo as int, mid as int),
            stable_run(right@, src@, pr, mid as int, hi as int),
            i <= na,
            j <= nb,
            out@.len() == i + j,
            perm.len() == out@.len(),
            forall|t: int|
                0 <= t < out@.len() ==> lo <= #[trigger] perm[t] < hi && out@[t] == src@[perm[t]],
            forall|t: int, u: int|
                #![trigger out@[t], out@[u]]
                0 <= t < u < out@.len() ==> key_order(out@[t], perm[t], out@[u], perm[u]),
            out@.len() > 0 && i < na ==> key_order(
                out@.last(),
                perm.last(),
                left@[i as int],
                pl[i as int],
            ),
            out@.len() > 0 && j < nb ==> key_order(
                out@.last(),
                perm.last(),
                right@[j as int],
                pr[j as int],
            ),
        decreases (na - i) + (nb - j),
    {
        let ghost old_out = out@;
        let ghost old_perm = perm;
        if j >= nb || (i < na && left[i].key <= right[j].key) {
            let x = left[i];
            out.push(x);
            proof {
                perm = perm.push(pl[i as int]);
                assert(lo <= pl[i as int] < mid);
                if i + 1 < na {
                    assert(key_order(left@[i as int], pl[i as int], left@[i + 1], pl[i + 1]));
                }
                if j < nb {
                    assert(mid <= pr[j as int]);
                }
                assert forall|t: int, u: int|
                    #![trigger out@[t], out@[u]]
                    0 <= t < u < out@.len() implies key_order(
                        out@[t],
                        perm[t],
                        out@[u],
                        perm[u],
                    ) by {
                    if u == out@.len() - 1 && t < u {
                        if t < old_out.len() - 1 {
                            assert(key_order(old_out[t], old_perm[t], old_out.last(), old_perm.last()));
                        }
                    }
                }
            }
            i = i + 1;
        } else {
            let x = right[j];
            out.push(x);
            proof {
                perm = perm.push(pr[j as int]);
                assert(mid <= pr[j as int] < hi);
                if j + 1 < nb {
                    assert(key_order(right@[j as int], pr[j as int], right@[j + 1], pr[j + 1]));
                }
                assert forall|t: int, u: int|
                    #![trigger out@[t], out@[u]]
                    0 <= t < u < out@.len() implies key_order(
                        out@[t],
                        perm[t],
                        out@[u],
                        perm[u],
                    ) by {
                    if u == out@.len() - 1 && t < u {
                        if t < old_out.len() - 1 {
                            assert(key_order(old_out[t], old_perm[t], old_out.last(), old_perm.last()));
                        }
                    }
                }
            }
            j = j + 1;
        }
    }
    (out, Ghost(perm))
}

/// Sorts the spatial hash by cell key (entries of equal key keep their order)
/// and records, for every key that occurs, the position of its first entry in
/// `start_indices`; the entries of keys that do not occur are left as they
/// were.
pub fn sort_spatial_lookup(spatial: &mut Vec<SpatialLookup>, start_indices: &mut Vec<u32>)
    requires
        0 < old(spatial)@.len() <= u32::MAX,
        forall|t: int|
            0 <= t < old(spatial)@.len() ==> (#[trigger] old(spatial)@[t]).key < old(
                start_indices,
            )@.len(),
    ensures
        is_stable_sort_of(final(spatial)@, old(spatial)@),
        start_indices_of(final(spatial)@, final(start_indices)@, old(start_indices)@),
{
    let n = spatial.len();
    let (sorted, Ghost(perm)) = merge_sort_range(spatial, 0, n);
    proof {
        lemma_stable_run_sorted(sorted@, old(spatial)@, perm, 0, n as int);
    }
    let ghost s = sorted@;
    let ghost old_start = start_indices@;
    let first_key = sorted[0].key;
    assert(s[0] == old(spatial)@[perm[0]]);
    start_indices.set(first_key as usize, 0);
    proof {
        assert forall|k: int| 0 <= k < old_start.len() implies if key_present(s.take(1), k) {
            first_occurrence(s, k, #[trigger] start_indices@[k] as int)
        } else {
            start_indices@[k] == old_start[k]
        } by {
            if key_present(s.take(1), k) {
                let w = choose|t: int| 0 <= t < s.take(1).len() && (#[trigger] s.take(1)[t]).key == k;
                assert(w == 0);
            } else if k == first_key as int {
                assert(s.take(1)[0].key == k);
            }
        }
    }
    let mut i: usize = 1;
    while i < n
        invariant
            n == s.len(),
            n <= u32::MAX,
            s == sorted@,
            1 <= i <= n,
            sorted_by_key(s),
            forall|t: int| 0 <= t < n ==> (#[trigger] s[t]).key < old_start.len(),
            start_indices@.len() == old_start.len(),
            forall|k: int|
                0 <= k < old_start.len() ==> if key_present(s.take(i as int), k) {
                    first_occurrence(s, k, #[trigger] start_indices@[k] as int)
                } else {
                    start_indices@[k] == old_start[k]
                },
        decreases n - i,
    {
        let key = sorted[i].key;
        let prev = sorted[i - 1].key;
        let ghost before = start_indices@;
        if key != prev {
            start_indices.set(key as usize, i as u32);
        }
        proof {
            assert forall|k: int| 0 <= k < old_start.len() implies if key_present(
                s.take(i + 1),
                k,
            ) {
                first_occurrence(s, k, #[trigger] start_indices@[k] as int)
            } else {
                start_indices@[k] == old_start[k]
            } by {
                let was = key_present(s.take(i as int), k);
                if was {
                    let w = choose|t: int|
                        0 <= t < s.take(i as int).len() && (#[trigger] s.take(i as int)[t]).key == k;
                    assert(s[w].key == k);
                    assert(s.take(i + 1)[w].key == k);
                    if k == key as int && key != prev {
                        assert(s[w].key <= s[i - 1].key);
                    }
                    assert(start_indices@[k] == before[k]);
                } else if k == key as int {
                    assert(s.take(i + 1)[i as int].key == k);
                    if key == prev {
                        assert(s.take(i as int)[i - 1].key == k);
                    }
                    assert forall|t: int| 0 <= t < i implies s[t].key != k by {
                        assert(s[t].key <= s[i - 1].key);
                    }
                    assert(start_indices@[k] == i);
                } else {
                    assert(start_indices@[k] == before[k]);
                    if key_present(s.take(i + 1), k) {
                        let w = choose|t: int|
                            0 <= t < s.take(i + 1).len() && (#[trigger] s.take(i + 1)[t]).key == k;
                        assert(w != i);
                        assert(s.take(i as int)[w].key == k);
                    }
                }
            }
        }
        i = i + 1;
    }
    proof {
        assert(s.take(n as int) =~= s);
    }
    *spatial = sorted;
}

/// A stable run is sorted by key.
proof fn lemma_stable_run_sorted(
    out: Seq<SpatialLookup>,
    src: Seq<SpatialLookup>,
    perm: Seq<int>,
    lo: int,
    hi: int,
)
    requires
        stable_run(out, src, perm, lo, hi),
    ensures
        sorted_by_key(out),
{
    assert forall|i: int, j: int| 0 <= i <= j < out.len() implies out[i].key <= out[j].key by {
        if i < j {
            assert(key_order(out[i], perm[i], out[j], perm[j]));
        }
    }
}

/// A stable sort by key puts the keys in non-decreasing order.
pub proof fn lemma_stable_sort_is_sorted(out: Seq<SpatialLookup>, inp: Seq<SpatialLookup>)
    requires
        is_stable_sort_of(out, inp),
    ensures
        sorted_by_key(out),
{
    let perm = choose|perm: Seq<int>| stable_run(out, inp, perm, 0, inp.len() as int);
    lemma_stable_run_sorted(out, inp, perm, 0, inp.len() as int);
}

/// Some output position takes its entry from input position `p`.
spec fn position_used(perm: Seq<int>, p: int) -> bool {
    exists|t: int| 0 <= t < perm.len() && #[trigger] perm[t] == p
}

/// Every input position is the source of some output position.
proof fn lemma_perm_covers(out: Seq<SpatialLookup>, inp: Seq<SpatialLookup>, perm: Seq<int>)
    requires
        stable_run(out, inp, perm, 0, inp.len() as int),
    ensures
        forall|p: int| 0 <= p < inp.len() ==> #[trigger] position_used(perm, p),
{
    let n = inp.len() as int;
    assert forall|t: int, u: int| 0 <= t < perm.len() && 0 <= u < perm.len() && t != u implies perm[t]
        != perm[u] by {
        if t < u {
            assert(key_order(out[t], perm[t], out[u], perm[u]));
        } else {
            assert(key_order(out[u], perm[u], out[t], perm[t]));
        }
    }
    assert(perm.no_duplicates());
    perm.unique_seq_to_set();
    lemma_int_range(0, n);
    assert(perm.to_set().subset_of(set_int_range(0, n)));
    lemma_subset_equality(perm.to_set(), set_int_range(0, n));
    assert forall|p: int| 0 <= p < n implies #[trigger] position_used(perm, p) by {
        assert(set_int_range(0, n).contains(p));
        assert(perm.to_set().contains(p));
    }
}

/// Every entry of the input can be found, after sorting, by scanning forward
/// from the start index of its key: the entries met on the way all carry that
/// key, and the entry itself is among them.
pub proof fn lemma_every_entry_in_its_bucket(
    inp: Seq<SpatialLookup>,
    out: Seq<SpatialLookup>,
    start: Seq<u32>,
    old_start: Seq<u32>,
    p: int,
)
    requires
        is_stable_sort_of(out, inp),
        start_indices_of(out, start, old_start),
        0 <= p < inp.len(),
        inp[p].key < start.len(),
    ensures
        exists|t: int|
            0 <= t < out.len() && #[trigger] out[t] == inp[p] && start[inp[p].key as int] <= t
                && forall|j: int| start[inp[p].key as int] <= j <= t ==> out[j].key == inp[p].key,
{
    let perm = choose|perm: Seq<int>| stable_run(out, inp, perm, 0, inp.len() as int);
    lemma_stable_run_sorted(out, inp, perm, 0, inp.len() as int);
    lemma_perm_covers(out, inp, perm);
    let k = inp[p].key as int;
    assert(position_used(perm, p));
    let t = choose|t: int| 0 <= t < perm.len() && #[trigger] perm[t] == p;
    assert(out[t] == inp[p]);
    assert(key_present(out, k));
    let s = start[k] as int;
    assert(first_occurrence(out, k, s));
    assert(s <= t);
    assert forall|j: int| s <= j <= t implies out[j].key == k by {
        assert(out[s].key <= out[j].key);
        assert(out[j].key <= out[t].key);
    }
}

/// Two stable runs over the same input agree on their first `t` source positions.
proof fn lemma_runs_agree_upto(
    o1: Seq<SpatialLookup>,
    o2: Seq<SpatialLookup>,
    inp: Seq<SpatialLookup>,
    p1: Seq<int>,
    p2: Seq<int>,
    t: int,
)
    requires
        stable_run(o1, inp, p1, 0, inp.len() as int),
        stable_run(o2, inp, p2, 0, inp.len() as int),
        0 <= t <= inp.len(),
    ensures
        forall|s: int| 0 <= s < t ==> p1[s] == p2[s],
    decreases t,
{
    if t > 0 {
        lemma_runs_agree_upto(o1, o2, inp, p1, p2, t - 1);
        let i = t - 1;
        let a = p1[i];
        let b = p2[i];
        if a != b {
            lemma_perm_covers(o1, inp, p1);
            lemma_perm_covers(o2, inp, p2);
            if key_order(inp[a], a, inp[b], b) {
                assert(position_used(p2, a));
                let u = choose|u: int| 0 <= u < p2.len() && #[trigger] p2[u] == a;
                if u < i {
                    assert(p1[u] == a);
                    assert(key_order(o1[u], p1[u], o1[i], p1[i]));
                } else {
                    assert(key_order(o2[i], p2[i], o2[u], p2[u]));
                }
            } else {
                assert(key_order(inp[b], b, inp[a], a));
                assert(position_used(p1, b));
                let u = choose|u: int| 0 <= u < p1.len() && #[trigger] p1[u] == b;
                if u < i {
                    assert(p2[u] == b);
                    assert(key_order(o2[u], p2[u], o2[i], p2[i]));
                } else {
                    assert(key_order(o1[i], p1[i], o1[u], p1[u]));
                }
            }
        }
    }
}

/// The stable sort of a sequence by key is unique: two results of sorting the
/// same input are the same sequence.
pub proof fn lemma_stable_sort_unique(
    inp: Seq<SpatialLookup>,
    o1: Seq<SpatialLookup>,
    o2: Seq<SpatialLookup>,
)
    requires
        is_stable_sort_of(o1, inp),
        is_stable_sort_of(o2, inp),
    ensures
        o1 == o2,
{
    let p1 = choose|perm: Seq<int>| stable_run(o1, inp, perm, 0, inp.len() as int);
    let p2 = choose|perm: Seq<int>| stable_run(o2, inp, perm, 0, inp.len() as int);
    lemma_runs_agree_upto(o1, o2, inp, p1, p2, inp.len() as int);
    assert forall|t: int| 0 <= t < o1.len() implies o1[t] == o2[t] by {
        assert(p1[t] == p2[t]);
    }
    assert(o1 =~= o2);
}

/// Sorting a hash that is already in key order leaves it unchanged.
pub proof fn lemma_sorted_input_unchanged(inp: Seq<SpatialLookup>, out: Seq<SpatialLookup>)
    requires
        sorted_by_key(inp),
        is_stable_sort_of(out, inp),
    ensures
        out == inp,
{
    let id = Seq::new(inp.len(), |t: int| t);
    assert forall|t: int, u: int|
        #![trigger inp[t], inp[u]]
        0 <= t < u < inp.len() implies key_order(inp[t], id[t], inp[u], id[u]) by {
        assert(inp[t].key <= inp[u].key);
    }
    assert(stable_run(inp, inp, id, 0, inp.len() as int));
    lemma_stable_sort_unique(inp, out, inp);
}

/// The GPU layout of a spatial hash: two `u32` words per entry, its particle
/// index and then its cell key.
pub open spec fn spatial_words(s: Seq<SpatialLookup>) -> Seq<u32> {
    Seq::new(2 * s.len(), |w: int| if w % 2 == 0 { s[w / 2].index } else { s[w / 2].key })
}

/// The entries read back from words laid out as `spatial_words` lays them.
pub open spec fn spatial_from_word_seq(w: Seq<u32>) -> Seq<SpatialLookup> {
    Seq::new(w.len() / 2, |i: int| SpatialLookup { index: w[2 * i], key: w[2 * i + 1] })
}

/// Lays out the spatial hash as GPU words (see `spatial_words`).
pub fn spatial_to_words(spatial: &Vec<SpatialLookup>) -> (w: Vec<u32>)
    requires
        2 * spatial@.len() <= usize::MAX,
    ensures
        w@ == spatial_words(spatial@),
{
    let n = spatial.len();
    let mut w: Vec<u32> = Vec::new();
    let mut i: usize = 0;
    while i < n
        invariant
            n == spatial@.len(),
            2 * n <= usize::MAX,
            i <= n,
            w@ =~= spatial_words(spatial@.take(i as int)),
        decreases n - i,
    {
        let e = spatial[i];
        w.push(e.index);
        w.push(e.key);
        i = i + 1;
        assert(w@ =~= spatial_words(spatial@.take(i as int)));
    }
    assert(spatial@.take(n as int) =~= spatial@);
    w
}

/// Reads a spatial hash back from its GPU words (see `spatial_from_word_seq`).
pub fn spatial_from_words(words: &Vec<u32>) -> (s: Vec<SpatialLookup>)
    requires
        words@.len() % 2 == 0,
    ensures
        s@ == spatial_from_word_seq(words@),
{
    let n = words.len() / 2;
    assert(2 * n == words@.len());
    let mut s: Vec<SpatialLookup> = Vec::new();
    let mut i: usize = 0;
    while i < n
        invariant
            n == words@.len() / 2,
            2 * n == words@.len(),
            i <= n,
            s@ =~= spatial_from_word_seq(words@.take(2 * i)),
        decreases n - i,
    {
        assert(2 * i + 1 < words.len());
        let j = i + i;
        s.push(SpatialLookup { index: words[j], key: words[j + 1] });
        i = i + 1;
        assert(s@ =~= spatial_from_word_seq(words@.take(2 * i)));
    }
    assert(words@.take(2 * n) =~= words@);
    s
}

/// Laying out a spatial hash as words and reading it back gives it unchanged.
pub proof fn lemma_spatial_words_roundtrip(s: Seq<SpatialLookup>)
    ensures
        spatial_from_word_seq(spatial_words(s)) == s,
{
    let w = spatial_words(s);
    assert forall|i: int| 0 <= i < s.len() implies #[trigger] spatial_from_word_seq(w)[i] == s[i] by {
        assert((2 * i) % 2 == 0 && (2 * i) / 2 == i);
        assert((2 * i + 1) % 2 == 1 && (2 * i + 1) / 2 == i);
    }
    assert(spatial_from_word_seq(w) =~= s);
}

/// Reading words as a spatial hash and laying it out again gives the words
/// unchanged, for an even number of words.
pub proof fn lemma_spatial_from_words_roundtrip(w: Seq<u32>)
    requires
        w.len() % 2 == 0,
    ensures
        spatial_words(spatial_from_word_seq(w)) == w,
{
    let s = spatial_from_word_seq(w);
    assert forall|j: int| 0 <= j < w.len() implies #[trigger] spatial_words(s)[j] == w[j] by {
        if j % 2 == 0 {
            assert(2 * (j / 2) == j);
        } else {
            assert(2 * (j / 2) + 1 == j);
        }
    }
    assert(spatial_words(s) =~= w);
}

/// The bytes to upload a spatial hash to the GPU: its words (see
/// `spatial_words`) in the machine's byte order, eight bytes per entry.
pub fn spatial_to_bytes(spatial: &Vec<SpatialLookup>) -> (b: Vec<u8>)
    requires
        8 * spatial@.len() <= usize::MAX,
    ensures
        b@.len() == 8 * spatial@.len(),
        b@ == words_bytes(spatial_words(spatial@)),
{
    let w = spatial_to_words(spatial);
    words_to_bytes(w.as_slice())
}

/// Reads a spatial hash from bytes read back from the GPU, eight bytes per
/// entry. `None` when the bytes are not aligned for `u32` words.
pub fn spatial_from_bytes(bytes: &[u8]) -> (s: Option<Vec<SpatialLookup>>)
    requires
        bytes@.len() % 8 == 0,
    ensures
        s matches Some(v) ==> v@.len() * 8 == bytes@.len() && v@ == spatial_from_word_seq(
            bytes_words(bytes@),
        ),
{
    match bytes_to_words(bytes) {
        Some(w) => {
            assert(w@.len() % 2 == 0);
            Some(spatial_from_words(&w))
        },
        None => None,
    }
}

/// The bytes to upload start indices to the GPU, four per index in the
/// machine's byte order.
pub fn start_indices_to_bytes(start_indices: &Vec<u32>) -> (b: Vec<u8>)
    ensures
        b@.len() == 4 * start_indices@.len(),
        b@ == words_bytes(start_indices@),
{
    words_to_bytes(start_indices.as_slice())
}

/// Reads start indices from bytes read back from the GPU, four bytes per
/// index. `None` when the bytes are not aligned for `u32` words.
pub fn start_indices_from_bytes(bytes: &[u8]) -> (s: Option<Vec<u32>>)
    requires
        bytes@.len() % 4 == 0,
    ensures
        s matches Some(v) ==> v@.len() * 4 == bytes@.len() && v@ == bytes_words(bytes@),
{
    bytes_to_words(bytes)
}

/// Reading back the upload bytes of a spatial hash gives the hash: what
/// `spatial_from_bytes` returns for the bytes of `spatial_to_bytes(s)` is `s`.
pub proof fn lemma_spatial_bytes_roundtrip(s: Seq<SpatialLookup>)
    ensures
        spatial_from_word_seq(bytes_words(words_bytes(spatial_words(s)))) == s,
{
    lemma_bytes_words_roundtrip(spatial_words(s));
    lemma_spatial_words_roundtrip(s);
}

/// Reading back the upload bytes of start indices gives the indices: what
/// `start_indices_from_bytes` returns for the bytes of
/// `start_indices_to_bytes(s)` is `s`.
pub proof fn lemma_start_indices_bytes_roundtrip(s: Seq<u32>)
    ensures
        bytes_words(words_bytes(s)) == s,
{
    lemma_bytes_words_roundtrip(s);
}

} // verus!
