use mesh_generation::generate_noise_map;
use mesh_generation::meshes::polymesh::PolyMesh;
use mesh_generation::scalar::SCALE;
use noise::{NoiseFn, Perlin};

/// Samples a Perlin noise source per pixel and octave, converting each
/// `[-1, 1]` sample to fixed point, the way a driver feeds
/// `generate_noise_map`.
fn perlin_octave_samples(
    seed: u32,
    image_width: u32,
    image_height: u32,
    divider: f64,
    num_layers: u32,
) -> Vec<Vec<i64>> {
    let perlin = Perlin::new(seed);
    let mut chunks: Vec<Vec<i64>> = Vec::new();
    for p in 0..(image_width as usize) * (image_height as usize) {
        let x = (p % image_width as usize) as f64;
        let y = (p / image_width as usize) as f64;
        let mut row: Vec<i64> = Vec::new();
        let mut fx = (x + 0.5) / divider;
        let mut fy = (y + 0.5) / divider;
        for _ in 0..num_layers {
            let v = perlin.get([fx, fy, 0.0]);
            let fixed = (v * SCALE as f64) as i64;
            row.push(fixed.clamp(-SCALE, SCALE));
            fx *= 2.0;
            fy *= 2.0;
        }
        chunks.push(row);
    }
    chunks
}

#[test]
fn test_noise_map_exact_small_case() {
    // Two pixels, one octave each: raw values (SCALE + s) / 2, then
    // normalization against the larger.
    let samples: Vec<Vec<i64>> = vec![vec![0], vec![SCALE]];
    let map = generate_noise_map(&samples, 2, 1, 1);
    assert_eq!(map, vec![SCALE / 2, SCALE]);
}

#[test]
fn test_noise_map_two_octaves() {
    // One pixel with samples 0 and SCALE: raw = SCALE/2 + 2*SCALE/4 =
    // SCALE; a second pixel with silence: raw = SCALE/2 + SCALE/4.
    let samples: Vec<Vec<i64>> = vec![vec![0, SCALE], vec![0, 0]];
    let map = generate_noise_map(&samples, 2, 1, 2);
    assert_eq!(map[0], SCALE);
    // (SCALE/2 + SCALE/4) * SCALE / SCALE = 49152.
    assert_eq!(map[1], 49152);
}

#[test]
fn test_noise_map_all_silent() {
    // Every octave at the source's minimum: the raw sums are all zero
    // and the map is returned unscaled.
    let samples: Vec<Vec<i64>> = vec![vec![-SCALE], vec![-SCALE]];
    let map = generate_noise_map(&samples, 2, 1, 1);
    assert_eq!(map, vec![0, 0]);
}

#[test]
fn test_noise_map_range_and_maximum() {
    let samples = perlin_octave_samples(1564863213, 16, 16, 16.0, 5);
    let map = generate_noise_map(&samples, 16, 16, 5);
    assert_eq!(map.len(), 256);
    let mut saw_max = false;
    for &v in map.iter() {
        assert!((0..=SCALE).contains(&v));
        if v == SCALE {
            saw_max = true;
        }
    }
    assert!(saw_max);
}

#[test]
fn test_full_pipeline() {
    let width: u32 = 8;
    let height: u32 = 8;
    let mut mesh = PolyMesh::new(width, height, 10, 10);
    let samples = perlin_octave_samples(1564863213, width, height, 8.0, 5);
    let map = generate_noise_map(&samples, width, height, 5);
    mesh.displace_with_noise_map(map, width, height);
    mesh.calculate_normals();
    let lines = mesh.export_to_obj();
    assert_eq!(mesh.vertices.len(), 81);
    assert_eq!(mesh.face_array.len(), 64);
    assert_eq!(lines.len(), 3 * 81 + 64);
    for v in mesh.vertices.iter() {
        assert!(v.y >= -SCALE && v.y <= SCALE);
    }
}
