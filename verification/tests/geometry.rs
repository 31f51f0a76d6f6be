use hydrocode::geometry::SphereGeometry;
use std::f32::consts::PI;

/// Position on a sphere of the given radius of grid point (ring, segment).
fn sphere_point(radius: f32) -> impl Fn(u32, u32, u32, u32) -> [f32; 3] {
    move |ring, segment, rings, segments| {
        let theta = ring as f32 * PI / rings as f32;
        let phi = segment as f32 * 2.0 * PI / segments as f32;
        [
            theta.sin() * phi.cos() * radius,
            theta.cos() * radius,
            theta.sin() * phi.sin() * radius,
        ]
    }
}

#[test]
fn test_sphere_creation() {
    let sphere = SphereGeometry::new(4, 8, sphere_point(1.0));

    // Should have (4+1) * (8+1) = 45 vertices
    assert_eq!(sphere.vertex_count(), 45);

    // Should have 4 * 8 * 6 = 192 indices (2 triangles per quad, 3 indices per triangle)
    assert_eq!(sphere.index_count(), 192);

    // Should have 64 triangles
    assert_eq!(sphere.triangle_count(), 64);
}

#[test]
fn test_sphere_radius() {
    let radius = 2.5;
    let sphere = SphereGeometry::new(8, 16, sphere_point(radius));

    for vertex in &sphere.vertices {
        let [x, y, z] = *vertex;
        let distance = (x * x + y * y + z * z).sqrt();
        assert!((distance - radius).abs() < 0.001);
    }
}

#[test]
fn sphere_first_quad_indices() {
    let sphere = SphereGeometry::new(4, 8, |r, s, _, _| (r, s));
    // Quad (0, 0): current 0, next 9.
    assert_eq!(&sphere.indices[0..6], &[0, 1, 9, 1, 10, 9]);
    // Quad (1, 2): current 1 * 9 + 2 = 11, next 20.
    let q = 6 * (8 + 2);
    assert_eq!(&sphere.indices[q..q + 6], &[11, 12, 20, 12, 21, 20]);
    // Quad (3, 7), the last one, reaches the last grid point 44.
    assert_eq!(&sphere.indices[186..192], &[34, 35, 43, 35, 44, 43]);
    assert_eq!(*sphere.indices.iter().max().unwrap(), 44);
}

#[test]
fn sphere_vertices_follow_grid_order() {
    let sphere = SphereGeometry::new(3, 5, |r, s, rings, segments| (r, s, rings, segments));
    assert_eq!(sphere.vertices.len(), 24);
    assert_eq!(sphere.vertices[0], (0, 0, 3, 5));
    assert_eq!(sphere.vertices[6 + 2], (1, 2, 3, 5));
    assert_eq!(sphere.vertices[23], (3, 5, 3, 5));
}

#[test]
fn sphere_indices_name_existing_vertices() {
    let sphere = SphereGeometry::new(5, 7, |r, s, _, _| (r, s));
    assert!(sphere.indices.iter().all(|&i| (i as usize) < sphere.vertex_count()));
    assert_eq!(sphere.index_count() % 3, 0);
}

#[test]
fn sphere_presets_have_their_tessellation() {
    let low = SphereGeometry::low_poly_sphere(sphere_point(1.0));
    assert_eq!(low.vertex_count(), 9 * 17);
    assert_eq!(low.triangle_count(), 2 * 8 * 16);
    let default = SphereGeometry::default_sphere(sphere_point(1.0));
    assert_eq!(default.vertex_count(), 33 * 65);
    assert_eq!(default.index_count(), 6 * 32 * 64);
    let high = SphereGeometry::high_poly_sphere(sphere_point(1.0));
    assert_eq!(high.triangle_count(), 2 * 64 * 128);
}

#[test]
fn sphere_without_segments_has_no_triangle() {
    let sphere = SphereGeometry::new(0, 4, |r, s, _, _| (r, s));
    assert_eq!(sphere.vertex_count(), 5);
    assert_eq!(sphere.index_count(), 0);
}

#[test]
fn sphere_index_bytes_hold_the_indices() {
    let sphere = SphereGeometry::new(2, 3, |r, s, _, _| (r, s));
    let bytes = sphere.index_bytes();
    assert_eq!(bytes.len(), 4 * sphere.index_count());
    for (q, &i) in sphere.indices.iter().enumerate() {
        assert_eq!(&bytes[4 * q..4 * q + 4], &i.to_ne_bytes());
    }
}
