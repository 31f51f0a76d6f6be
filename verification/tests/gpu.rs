use hydrocode::gpu::{workgroup_count, WORKGROUP_SIZE};
use hydrocode::mls_mpm::{grid_from_bytes, grid_from_words, Grid};
use hydrocode::shader_module::ShaderModuleBuilder;

#[test]
fn workgroups_cover_all_particles() {
    assert_eq!(WORKGROUP_SIZE, 256);
    assert_eq!(workgroup_count(0), 0);
    assert_eq!(workgroup_count(1), 1);
    assert_eq!(workgroup_count(256), 1);
    assert_eq!(workgroup_count(257), 2);
    assert_eq!(workgroup_count(20000), 79);
    assert_eq!(workgroup_count(u32::MAX - 255), 16777215);
}

#[test]
fn grid_words_are_read_as_signed_nodes() {
    let words = vec![1u32, u32::MAX, 7, 100, 0, 0, 2, 3];
    let grid = grid_from_words(&words);
    assert_eq!(
        grid,
        vec![
            Grid { vx: 1, vy: -1, vz: 7, mass: 100 },
            Grid { vx: 0, vy: 0, vz: 2, mass: 3 },
        ]
    );
}

#[test]
fn grid_bytes_are_read_as_nodes() {
    let mut bytes = Vec::new();
    for v in [5i32, -6, 7, 8] {
        bytes.extend_from_slice(&v.to_ne_bytes());
    }
    let grid = grid_from_bytes(&bytes).expect("aligned buffer");
    assert_eq!(grid, vec![Grid { vx: 5, vy: -6, vz: 7, mass: 8 }]);
}

#[test]
fn shader_modules_are_joined_by_blank_lines() {
    let mut builder = ShaderModuleBuilder::new();
    assert_eq!(builder.combined_source(), "");
    builder.add_module("struct A {}").add_module("fn main() {}");
    assert_eq!(builder.combined_source(), "struct A {}\n\nfn main() {}");
    let mut single = ShaderModuleBuilder::new();
    single.add_module("x");
    assert_eq!(single.combined_source(), "x");
}
