use vstd::prelude::*;
use vstd::arithmetic::div_mod::lemma_fundamental_div_mod_converse;
use crate::gpu::{words_to_bytes, words_bytes, bytes_words, lemma_bytes_words_roundtrip, u32_from_native};

verus! {

/// Position in the vertex list of the grid point on ring `ring` (0 at the top
/// pole, `rings` at the bottom pole) and meridian `segment` (0 ..= `segments`;
/// the last meridian repeats the first so that texture coordinates can wrap).
pub open spec fn grid_vertex(ring: int, segment: int, segments: int) -> int {
    ring * (segments + 1) + segment
}

/// Corner `corner` (0 .. 6) of the two triangles that cover the quad between
/// rings `ring`, `ring + 1` and meridians `segment`, `segment + 1`: first
/// (current, current + 1, next), then (current + 1, next + 1, next).
pub open spec fn quad_corner(ring: int, segment: int, segments: int, corner: int) -> int {
    let current = grid_vertex(ring, segment, segments);
    let next = grid_vertex(ring + 1, segment, segments);
    if corner == 0 {
        current
    } else if corner == 1 {
        current + 1
    } else if corner == 2 {
        next
    } else if corner == 3 {
        current + 1
    } else if corner == 4 {
        next + 1
    } else {
        next
    }
}

/// The `q`-th entry of the index list of a sphere with `segments` meridian
/// segments: quads are listed ring by ring, each as six indices.
pub open spec fn sphere_index(segments: int, q: int) -> int {
    let quad = q / 6;
    quad_corner(quad / segments, quad % segments, segments, q % 6)
}

/// Number of vertices of a sphere mesh: a grid of `(rings + 1) * (segments + 1)`
/// points.
pub open spec fn sphere_vertex_count(rings: int, segments: int) -> int {
    (rings + 1) * (segments + 1)
}

/// Number of indices of a sphere mesh: two triangles for each of the
/// `rings * segments` quads.
pub open spec fn sphere_index_count(rings: int, segments: int) -> int {
    6 * (rings * segments)
}

/// A triangle mesh of a UV sphere: its vertices and the index list of its
/// triangles, three indices per triangle.
pub struct SphereGeometry<V> {
    pub vertices: Vec<V>,
    pub indices: Vec<u32>,
}

impl<V> SphereGeometry<V> {
    /// The index list forms whole triangles and names only existing vertices.
    pub open spec fn well_formed(&self) -> bool {
        &&& self.indices@.len() % 3 == 0
        &&& forall|q: int| 0 <= q < self.indices@.len() ==> #[trigger] self.indices@[q] < self.vertices@.len()
    }

    /// A sphere made of `latitude_segments` rings of quads between the poles,
    /// each cut into `longitude_segments` quads. The vertex of grid point
    /// (ring, segment) is what `vertex_at(ring, segment, latitude_segments,
    /// longitude_segments)` returns.
    pub fn new<F: Fn(u32, u32, u32, u32) -> V>(
        latitude_segments: u32,
        longitude_segments: u32,
        vertex_at: F,
    ) -> (g: Self)
        requires
            sphere_vertex_count(latitude_segments as int, longitude_segments as int) <= u32::MAX,
            sphere_index_count(latitude_segments as int, longitude_segments as int) <= usize::MAX,
            forall|r: u32, s: u32|
                r <= latitude_segments && s <= longitude_segments ==> #[trigger] vertex_at.requires(
                    (r, s, latitude_segments, longitude_segments),
                ),
        ensures
            g.vertices@.len() == sphere_vertex_count(latitude_segments as int, longitude_segments as int),
            forall|r: int, s: int|
                0 <= r <= latitude_segments && 0 <= s <= longitude_segments ==> vertex_at.ensures(
                    (r as u32, s as u32, latitude_segments, longitude_segments),
                    #[trigger] g.vertices@[grid_vertex(r, s, longitude_segments as int)],
                ),
            g.indices@.len() == sphere_index_count(latitude_segments as int, longitude_segments as int),
            forall|q: int|
                0 <= q < g.indices@.len() ==> #[trigger] g.indices@[q] == sphere_index(
                    longitude_segments as int,
                    q,
                ),
            g.well_formed(),
    {
        let lat = latitude_segments;
        let lon = longitude_segments;
        proof {
            lemma_counts_bounds(lat as int, lon as int);
        }
        let mut vertices: Vec<V> = Vec::new();
        let mut r: u32 = 0;
        while r <= lat
            invariant
                sphere_vertex_count(lat as int, lon as int) <= u32::MAX,
                lat < u32::MAX,
                lon < u32::MAX,
                r <= lat + 1,
                vertices@.len() == r * (lon + 1),
                forall|rr: u32, ss: u32|
                    rr <= lat && ss <= lon ==> #[trigger] vertex_at.requires((rr, ss, lat, lon)),
                forall|rr: int, ss: int|
                    0 <= rr < r && 0 <= ss <= lon ==> vertex_at.ensures(
                        (rr as u32, ss as u32, lat, lon),
                        #[trigger] vertices@[grid_vertex(rr, ss, lon as int)],
                    ),
            decreases lat + 1 - r,
        {
            let mut s: u32 = 0;
            while s <= lon
                invariant
                    lat < u32::MAX,
                    lon < u32::MAX,
                    r <= lat,
                    s <= lon + 1,
                    vertices@.len() == r * (lon + 1) + s,
                    forall|rr: u32, ss: u32|
                        rr <= lat && ss <= lon ==> #[trigger] vertex_at.requires((rr, ss, lat, lon)),
                    forall|rr: int, ss: int|
                        (0 <= rr < r && 0 <= ss <= lon) || (rr == r && 0 <= ss < s) ==> vertex_at.ensures(
                            (rr as u32, ss as u32, lat, lon),
                            #[trigger] vertices@[grid_vertex(rr, ss, lon as int)],
                        ),
                decreases lon + 1 - s,
            {
                let v = vertex_at(r, s, lat, lon);
                let ghost before = vertices@;
                vertices.push(v);
                proof {
                    assert forall|rr: int, ss: int|
                        (0 <= rr < r && 0 <= ss <= lon) || (rr == r && 0 <= ss < s + 1) implies vertex_at.ensures(
                            (rr as u32, ss as u32, lat, lon),
                            #[trigger] vertices@[grid_vertex(rr, ss, lon as int)],
                        ) by {
                        if rr == r && ss == s {
                            assert(grid_vertex(rr, ss, lon as int) == before.len());
                        } else {
                            lemma_grid_before(rr, ss, r as int, s as int, lon as int);
                            assert(vertices@[grid_vertex(rr, ss, lon as int)] == before[grid_vertex(
                                rr,
                                ss,
                                lon as int,
                            )]);
                        }
                    }
                }
                s = s + 1;
            }
            proof {
                assert((r + 1) * (lon + 1) == r * (lon + 1) + lon + 1) by (nonlinear_arith);
            }
            r = r + 1;
        }
        let mut indices: Vec<u32> = Vec::new();
        let mut r: u32 = 0;
        while r < lat
            invariant
                sphere_vertex_count(lat as int, lon as int) <= u32::MAX,
                sphere_index_count(lat as int, lon as int) <= usize::MAX,
                r <= lat,
                indices@.len() == 6 * (r * lon),
                forall|q: int|
                    0 <= q < indices@.len() ==> #[trigger] indices@[q] == sphere_index(lon as int, q),
                forall|q: int|
                    0 <= q < indices@.len() ==> #[trigger] indices@[q] < sphere_vertex_count(
                        lat as int,
                        lon as int,
                    ),
            decreases lat - r,
        {
            let mut s: u32 = 0;
            while s < lon
                invariant
                    sphere_vertex_count(lat as int, lon as int) <= u32::MAX,
                    sphere_index_count(lat as int, lon as int) <= usize::MAX,
                    r < lat,
                    s <= lon,
                    indices@.len() == 6 * (r * lon + s),
                    forall|q: int|
                        0 <= q < indices@.len() ==> #[trigger] indices@[q] == sphere_index(lon as int, q),
                    forall|q: int|
                        0 <= q < indices@.len() ==> #[trigger] indices@[q] < sphere_vertex_count(
                            lat as int,
                            lon as int,
                        ),
                decreases lon - s,
            {
                proof {
                    lemma_quad_bounds(lat as int, lon as int, r as int, s as int);
                }
                let current = r * (lon + 1) + s;
                let next = current + lon + 1;
                let ghost base = indices@.len() as int;
                let ghost old_indices = indices@;
                indices.push(current);
                indices.push(current + 1);
                indices.push(next);
                indices.push(current + 1);
                indices.push(next + 1);
                indices.push(next);
                proof {
                    assert(indices@ =~= old_indices + seq![
                        current,
                        (current + 1) as u32,
                        next,
                        (current + 1) as u32,
                        (next + 1) as u32,
                        next,
                    ]);
                    assert(current as int == grid_vertex(r as int, s as int, lon as int));
                    assert forall|q: int| 0 <= q < indices@.len() implies #[trigger] indices@[q]
                        == sphere_index(lon as int, q) by {
                        if q >= base {
                            lemma_index_at(lon as int, r as int, s as int, q - base);
                        } else {
                            assert(indices@[q] == old_indices[q]);
                        }
                    }
                    assert forall|q: int| 0 <= q < indices@.len() implies #[trigger] indices@[q]
                        < sphere_vertex_count(lat as int, lon as int) by {
                        if q < base {
                            assert(indices@[q] == old_indices[q]);
                        }
                    }
                    assert((r * lon + s + 1) == r * lon + (s + 1));
                }
                s = s + 1;
            }
            proof {
                assert((r + 1) * lon == r * lon + lon) by (nonlinear_arith);
            }
            r = r + 1;
        }
        proof {
            assert(indices@.len() % 3 == 0);
        }
        SphereGeometry { vertices, indices }
    }

    /// A sphere with 32 rings of 64 segments each.
    pub fn default_sphere<F: Fn(u32, u32, u32, u32) -> V>(vertex_at: F) -> (g: Self)
        requires
            forall|r: u32, s: u32| r <= 32 && s <= 64 ==> #[trigger] vertex_at.requires((r, s, 32u32, 64u32)),
        ensures
            g.vertices@.len() == sphere_vertex_count(32, 64),
            g.indices@.len() == sphere_index_count(32, 64),
            forall|q: int| 0 <= q < g.indices@.len() ==> #[trigger] g.indices@[q] == sphere_index(64, q),
            forall|r: int, s: int|
                0 <= r <= 32 && 0 <= s <= 64 ==> vertex_at.ensures(
                    (r as u32, s as u32, 32u32, 64u32),
                    #[trigger] g.vertices@[grid_vertex(r, s, 64)],
                ),
            g.well_formed(),
    {
        Self::new(32, 64, vertex_at)
    }

    /// A coarse sphere: 8 rings of 16 segments each.
    pub fn low_poly_sphere<F: Fn(u32, u32, u32, u32) -> V>(vertex_at: F) -> (g: Self)
        requires
            forall|r: u32, s: u32| r <= 8 && s <= 16 ==> #[trigger] vertex_at.requires((r, s, 8u32, 16u32)),
        ensures
            g.vertices@.len() == sphere_vertex_count(8, 16),
            g.indices@.len() == sphere_index_count(8, 16),
            forall|q: int| 0 <= q < g.indices@.len() ==> #[trigger] g.indices@[q] == sphere_index(16, q),
            forall|r: int, s: int|
                0 <= r <= 8 && 0 <= s <= 16 ==> vertex_at.ensures(
                    (r as u32, s as u32, 8u32, 16u32),
                    #[trigger] g.vertices@[grid_vertex(r, s, 16)],
                ),
            g.well_formed(),
    {
        Self::new(8, 16, vertex_at)
    }

    /// A fine sphere: 64 rings of 128 segments each.
    pub fn high_poly_sphere<F: Fn(u32, u32, u32, u32) -> V>(vertex_at: F) -> (g: Self)
        requires
            forall|r: u32, s: u32|
                r <= 64 && s <= 128 ==> #[trigger] vertex_at.requires((r, s, 64u32, 128u32)),
        ensures
            g.vertices@.len() == sphere_vertex_count(64, 128),
            g.indices@.len() == sphere_index_count(64, 128),
            forall|q: int| 0 <= q < g.indices@.len() ==> #[trigger] g.indices@[q] == sphere_index(128, q),
            forall|r: int, s: int|
                0 <= r <= 64 && 0 <= s <= 128 ==> vertex_at.ensures(
                    (r as u32, s as u32, 64u32, 128u32),
                    #[trigger] g.vertices@[grid_vertex(r, s, 128)],
                ),
            g.well_formed(),
    {
        Self::new(64, 128, vertex_at)
    }

    /// The number of vertices.
    pub fn vertex_count(&self) -> (n: usize)
        ensures
            n == self.vertices@.len(),
    {
        self.vertices.len()
    }

    /// The number of indices.
    pub fn index_count(&self) -> (n: usize)
        ensures
            n == self.indices@.len(),
    {
        self.indices.len()
    }

    /// The bytes of the index list for upload to the GPU: four per index, in
    /// the machine's byte order.
    pub fn index_bytes(&self) -> (b: Vec<u8>)
        ensures
            b@.len() == 4 * self.indices@.len(),
            b@ == words_bytes(self.indices@),
    {
        words_to_bytes(self.indices.as_slice())
    }

    /// The number of triangles: one for every three indices.
    pub fn triangle_count(&self) -> (n: usize)
        ensures
            n == self.indices@.len() / 3,
    {
        self.indices.len() / 3
    }
}

/// The four bytes at `4 * q` of the index bytes of a mesh hold index `q` in the
/// machine's byte order: the GPU reads back exactly the index list.
pub proof fn lemma_index_bytes_hold_indices(indices: Seq<u32>, q: int)
    requires
        0 <= q < indices.len(),
    ensures
        u32_from_native(words_bytes(indices).subrange(4 * q, 4 * q + 4)) == indices[q],
        bytes_words(words_bytes(indices)) == indices,
{
    lemma_bytes_words_roundtrip(indices);
    assert(bytes_words(words_bytes(indices))[q] == indices[q]);
}

/// A sphere mesh has two triangles for each quad, that is
/// `2 * rings * segments` triangles.
pub proof fn lemma_sphere_triangle_count(rings: nat, segments: nat)
    ensures
        sphere_index_count(rings as int, segments as int) / 3 == 2 * (rings * segments),
{
}

/// The counts that bound the grid fit in a `u32`.
proof fn lemma_counts_bounds(lat: int, lon: int)
    requires
        0 <= lat,
        0 <= lon,
        sphere_vertex_count(lat, lon) <= u32::MAX,
    ensures
        lat < u32::MAX,
        lon < u32::MAX,
{
    assert((lat + 1) * (lon + 1) >= lat + 1) by (nonlinear_arith)
        requires
            0 <= lat,
            0 <= lon,
    ;
    assert((lat + 1) * (lon + 1) >= lon + 1) by (nonlinear_arith)
        requires
            0 <= lat,
            0 <= lon,
    ;
}

/// A grid point filled before (r, s) lies before it in the vertex list.
proof fn lemma_grid_before(rr: int, ss: int, r: int, s: int, lon: int)
    requires
        0 <= lon,
        0 <= s,
        0 <= r,
        (0 <= rr < r && 0 <= ss <= lon) || (rr == r && 0 <= ss < s),
    ensures
        0 <= grid_vertex(rr, ss, lon) < grid_vertex(r, s, lon),
{
    if rr < r {
        assert(0 <= rr * (lon + 1)) by (nonlinear_arith)
            requires
                0 <= rr,
                0 <= lon,
        ;
        assert((rr + 1) * (lon + 1) <= r * (lon + 1)) by (nonlinear_arith)
            requires
                rr + 1 <= r,
                0 <= lon,
        ;
        assert((rr + 1) * (lon + 1) == rr * (lon + 1) + lon + 1) by (nonlinear_arith);
    } else {
        assert(0 <= rr * (lon + 1)) by (nonlinear_arith)
            requires
                0 <= rr,
                0 <= lon,
        ;
    }
}

/// The corners of quad (r, s) are grid points of the mesh, all below the
/// vertex count.
proof fn lemma_quad_bounds(lat: int, lon: int, r: int, s: int)
    requires
        0 <= r < lat,
        0 <= s < lon,
        sphere_vertex_count(lat, lon) <= u32::MAX,
    ensures
        r * (lon + 1) + s + lon + 2 < sphere_vertex_count(lat, lon),
        0 <= r * (lon + 1),
        grid_vertex(r + 1, s, lon) == r * (lon + 1) + s + lon + 1,
{
    assert((r + 1) * (lon + 1) == r * (lon + 1) + lon + 1) by (nonlinear_arith);
    assert(0 <= r * (lon + 1)) by (nonlinear_arith)
        requires
            0 <= r,
            0 <= lon,
    ;
    assert(r * (lon + 1) + s + lon + 2 < (lat + 1) * (lon + 1)) by (nonlinear_arith)
        requires
            0 <= r < lat,
            0 <= s < lon,
    ;
}

/// Entry `c` of the six indices of quad (r, s) is the one `sphere_index`
/// names.
proof fn lemma_index_at(lon: int, r: int, s: int, c: int)
    requires
        0 <= r,
        0 <= s < lon,
        0 <= c < 6,
    ensures
        sphere_index(lon, 6 * (r * lon + s) + c) == quad_corner(r, s, lon, c),
{
    let quad = r * lon + s;
    lemma_fundamental_div_mod_converse(6 * quad + c, 6, quad, c);
    lemma_fundamental_div_mod_converse(quad, lon, r, s);
}

} // verus!
