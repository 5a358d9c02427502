//! A grid mesh of quad faces: construction, noise displacement, geometric
//! normals, and layout of the textual export records.
//!
//! All coordinates are fixed-point `i64` values in units of `1 / SCALE`
//! of a world unit (see `crate::scalar`).

use vstd::prelude::*;
use vstd::arithmetic::div_mod::{
    lemma_div_is_ordered, lemma_div_multiples_vanish, lemma_fundamental_div_mod_converse,
};
use vstd::arithmetic::mul::lemma_mul_inequality;
use crate::scalar::{
    SCALE, Vec2, Vec3, isqrt_u128, lemma_sqrt_floor_unique, sqrt_floor, up_vector,
};

verus! {

/// Bound on the magnitude of every mesh coordinate, in fixed-point units.
/// Keeping coordinates within this bound lets the normal computation's
/// cross products be carried exactly in 128-bit arithmetic.
pub const COORD_BOUND: i64 = 0x2000_0000;

/// A rectangular grid mesh of quadrilateral faces.
///
/// `vertices`, `st` and `normals` run row-major over the vertex lattice
/// (`index = row * verticesWide + col`); `vertices_array` holds four
/// vertex indices per face, and `face_array` holds each face's arity
/// (always 4 for this generator).
pub struct PolyMesh {
    pub num_vertices: u32,
    pub vertices: Vec<Vec3>,
    pub vertices_array: Vec<u32>,
    pub st: Vec<Vec2>,
    pub normals: Vec<Vec3>,
    pub num_faces: u32,
    pub face_array: Vec<u32>,
}

/// Fixed-point texture coordinate of lattice column (or row) `i` out of
/// `n` subdivisions: `i / n` scaled by `SCALE`, rounded down.
pub open spec fn uv_of(i: int, n: int) -> int {
    i * (SCALE as int) / n
}

/// World-space position of lattice point `(i, j)` on a grid of `w` by `h`
/// cells with physical extents `pw` (along x) and `ph` (along z): the grid
/// is centered at the origin in the x-z plane, elevation zero.
pub open spec fn grid_vertex(i: int, j: int, w: int, h: int, pw: int, ph: int) -> Vec3 {
    Vec3 {
        x: (pw * (uv_of(i, w) - SCALE as int / 2)) as i64,
        y: 0,
        z: (ph * (uv_of(j, h) - SCALE as int / 2)) as i64,
    }
}

/// Texture coordinate of lattice point `(i, j)`.
pub open spec fn grid_st(i: int, j: int, w: int, h: int) -> Vec2 {
    Vec2 { x: uv_of(i, w) as i64, y: uv_of(j, h) as i64 }
}

/// Vertex index of corner `r` of cell `k` on a grid `w` cells wide:
/// the corners run top-left, top-right, bottom-right, bottom-left,
/// which winds counter-clockwise seen from above.
pub open spec fn grid_face_corner(k: int, r: int, w: int) -> int {
    let j = k / w;
    let i = k % w;
    if r == 0 {
        j * (w + 1) + i
    } else if r == 1 {
        j * (w + 1) + i + 1
    } else if r == 2 {
        (j + 1) * (w + 1) + i + 1
    } else {
        (j + 1) * (w + 1) + i
    }
}

/// A coordinate triple small enough for exact 128-bit normal arithmetic.
pub open spec fn coord_bounded(v: Vec3) -> bool {
    &&& -COORD_BOUND <= v.x <= COORD_BOUND
    &&& -COORD_BOUND <= v.y <= COORD_BOUND
    &&& -COORD_BOUND <= v.z <= COORD_BOUND
}

impl PolyMesh {
    /// Structural invariant: the three per-vertex sequences agree in
    /// length, every face is a quad, every face index is in bounds,
    /// texture coordinates lie in `[0, SCALE]`, and coordinates are
    /// bounded.
    pub open spec fn wf(self) -> bool {
        &&& self.num_vertices == self.vertices@.len()
        &&& self.st@.len() == self.vertices@.len()
        &&& self.normals@.len() == self.vertices@.len()
        &&& self.num_faces == self.face_array@.len()
        &&& self.vertices_array@.len() == 4 * self.face_array@.len()
        &&& forall|k: int| 0 <= k < self.face_array@.len() ==> self.face_array@[k] == 4
        &&& forall|q: int|
            0 <= q < self.vertices_array@.len() ==> (self.vertices_array@[q]
                as int) < self.vertices@.len()
        &&& forall|p: int|
            0 <= p < self.st@.len() ==> 0 <= #[trigger] self.st@[p].x <= SCALE && 0 <= self.st@[p].y
                <= SCALE
        &&& forall|p: int| 0 <= p < self.vertices@.len() ==> coord_bounded(#[trigger] self.vertices@[p])
    }

    /// The mesh is exactly the flat grid that `new(w, h, ph, pw)` builds.
    pub open spec fn is_grid(self, w: int, h: int, ph: int, pw: int) -> bool {
        &&& self.num_vertices == (w + 1) * (h + 1)
        &&& self.num_faces == w * h
        &&& self.vertices@.len() == (w + 1) * (h + 1)
        &&& forall|p: int|
            0 <= p < (w + 1) * (h + 1) ==> #[trigger] self.vertices@[p] == grid_vertex(
                p % (w + 1),
                p / (w + 1),
                w,
                h,
                pw,
                ph,
            )
        &&& forall|p: int|
            0 <= p < (w + 1) * (h + 1) ==> #[trigger] self.st@[p] == grid_st(
                p % (w + 1),
                p / (w + 1),
                w,
                h,
            )
        &&& forall|p: int| 0 <= p < (w + 1) * (h + 1) ==> #[trigger] self.normals@[p] == up_vector()
        &&& forall|q: int|
            0 <= q < 4 * (w * h) ==> #[trigger] self.vertices_array@[q] as int == grid_face_corner(
                q / 4,
                q % 4,
                w,
            )
    }

    /// Builds the flat base mesh: `(subdivision_width + 1) *
    /// (subdivision_height + 1)` vertices centered at the origin in the
    /// x-z plane, one quad face per grid cell. `height` and `width` are
    /// the physical extents along z and x, in world units.
    ///
    /// Zero subdivisions along either axis yield a degenerate mesh with
    /// no vertices and no faces rather than an error, so no division by
    /// a zero subdivision count is ever attempted.
    #[verifier::loop_isolation(false)]
    pub fn new(
        subdivision_width: u32,
        subdivision_height: u32,
        height: u32,
        width: u32,
    ) -> (mesh: Self)
        requires
            (subdivision_width + 1) * (subdivision_height + 1) <= u32::MAX,
            4 * (subdivision_width * subdivision_height) <= u32::MAX,
            1 <= height <= 16384,
            1 <= width <= 16384,
        ensures
            mesh.wf(),
            (subdivision_width == 0 || subdivision_height == 0) ==> mesh.num_vertices == 0
                && mesh.num_faces == 0,
            (subdivision_width >= 1 && subdivision_height >= 1) ==> mesh.is_grid(
                subdivision_width as int,
                subdivision_height as int,
                height as int,
                width as int,
            ),
    {
        if subdivision_width == 0 || subdivision_height == 0 {
            return PolyMesh {
                num_vertices: 0,
                vertices: Vec::new(),
                vertices_array: Vec::new(),
                st: Vec::new(),
                normals: Vec::new(),
                num_faces: 0,
                face_array: Vec::new(),
            };
        }
        let ghost w = subdivision_width as int;
        let ghost h = subdivision_height as int;
        proof {
            lemma_mul_inequality(1, h + 1, w + 1);
            lemma_mul_inequality(1, w + 1, h + 1);
            vstd::arithmetic::mul::lemma_mul_is_commutative(h + 1, w + 1);
        }
        let verts_wide: u32 = subdivision_width + 1;
        let verts_high: u32 = subdivision_height + 1;
        let num_vertices: u32 = verts_wide * verts_high;
        let num_faces: u32 = subdivision_width * subdivision_height;

        let mut vertices: Vec<Vec3> = Vec::new();
        let mut st: Vec<Vec2> = Vec::new();
        let mut normals: Vec<Vec3> = Vec::new();
        let mut j: u32 = 0;
        while j < verts_high
            invariant
                j <= verts_high,
                vertices@.len() == j * (w + 1),
                st@.len() == j * (w + 1),
                normals@.len() == j * (w + 1),
                forall|p: int|
                    0 <= p < vertices@.len() ==> #[trigger] vertices@[p] == grid_vertex(
                        p % (w + 1),
                        p / (w + 1),
                        w,
                        h,
                        width as int,
                        height as int,
                    ),
                forall|p: int|
                    0 <= p < st@.len() ==> #[trigger] st@[p] == grid_st(p % (w + 1), p / (w + 1), w, h),
                forall|p: int| 0 <= p < normals@.len() ==> #[trigger] normals@[p] == up_vector(),
            decreases verts_high - j,
        {
            let mut i: u32 = 0;
            while i < verts_wide
                invariant
                    i <= verts_wide,
                    j < verts_high,
                    vertices@.len() == j * (w + 1) + i,
                    st@.len() == j * (w + 1) + i,
                    normals@.len() == j * (w + 1) + i,
                    forall|p: int|
                        0 <= p < vertices@.len() ==> #[trigger] vertices@[p] == grid_vertex(
                            p % (w + 1),
                            p / (w + 1),
                            w,
                            h,
                            width as int,
                            height as int,
                        ),
                    forall|p: int|
                        0 <= p < st@.len() ==> #[trigger] st@[p] == grid_st(
                            p % (w + 1),
                            p / (w + 1),
                            w,
                            h,
                        ),
                    forall|p: int| 0 <= p < normals@.len() ==> #[trigger] normals@[p] == up_vector(),
                decreases verts_wide - i,
            {
                proof {
                    lemma_mul_inequality(j as int + 1, h + 1, w + 1);
                }
                let u: i64 = ((i as u64) * 65536u64 / (subdivision_width as u64)) as i64;
                let v: i64 = ((j as u64) * 65536u64 / (subdivision_height as u64)) as i64;
                proof {
                    lemma_uv_bounds(i as int, w);
                    lemma_uv_bounds(j as int, h);
                    lemma_coord_product_bounded(width as int, u as int);
                    lemma_coord_product_bounded(height as int, v as int);
                }
                let x: i64 = (width as i64) * (u - 32768);
                let z: i64 = (height as i64) * (v - 32768);
                let ghost p = vertices@.len() as int;
                proof {
                    lemma_fundamental_div_mod_converse(p, w + 1, j as int, i as int);
                }
                vertices.push(Vec3 { x, y: 0, z });
                st.push(Vec2 { x: u, y: v });
                normals.push(Vec3 { x: 0, y: SCALE, z: 0 });
                i = i + 1;
            }
            proof {
                vstd::arithmetic::mul::lemma_mul_is_distributive_add_other_way(w + 1, j as int, 1);
            }
            j = j + 1;
        }
        assert(vertices@.len() == (w + 1) * (h + 1));

        let mut face_array: Vec<u32> = Vec::new();
        let mut vertices_array: Vec<u32> = Vec::new();
        let mut fj: u32 = 0;
        while fj < subdivision_height
            invariant
                fj <= subdivision_height,
                face_array@.len() == fj * w,
                vertices_array@.len() == 4 * (fj * w),
                forall|k: int| 0 <= k < face_array@.len() ==> #[trigger] face_array@[k] == 4,
                forall|q: int|
                    0 <= q < vertices_array@.len() ==> #[trigger] vertices_array@[q] as int
                        == grid_face_corner(q / 4, q % 4, w),
            decreases subdivision_height - fj,
        {
            let mut fi: u32 = 0;
            while fi < subdivision_width
                invariant
                    fi <= subdivision_width,
                    fj < subdivision_height,
                    face_array@.len() == fj * w + fi,
                    vertices_array@.len() == 4 * (fj * w + fi),
                    forall|k: int| 0 <= k < face_array@.len() ==> #[trigger] face_array@[k] == 4,
                    forall|q: int|
                        0 <= q < vertices_array@.len() ==> #[trigger] vertices_array@[q] as int
                            == grid_face_corner(q / 4, q % 4, w),
                decreases subdivision_width - fi,
            {
                let ghost k = (fj * w + fi) as int;
                proof {
                    lemma_mul_inequality(fj as int + 1, h, w + 1);
                    vstd::arithmetic::mul::lemma_mul_is_distributive_add_other_way(w + 1, fj as int, 1);
                    vstd::arithmetic::mul::lemma_mul_is_distributive_add_other_way(w + 1, h, 1);
                    vstd::arithmetic::mul::lemma_mul_is_commutative(h + 1, w + 1);
                    lemma_fundamental_div_mod_converse(k, w, fj as int, fi as int);
                }
                let base: u32 = fj * verts_wide + fi;
                face_array.push(4);
                vertices_array.push(base);
                vertices_array.push(base + 1);
                vertices_array.push(base + verts_wide + 1);
                vertices_array.push(base + verts_wide);
                proof {
                    lemma_face_push_shape(vertices_array@, k, fj as int, fi as int, w);
                }
                fi = fi + 1;
            }
            proof {
                vstd::arithmetic::mul::lemma_mul_is_distributive_add_other_way(w, fj as int, 1);
            }
            fj = fj + 1;
        }
        proof {
            vstd::arithmetic::mul::lemma_mul_is_commutative(h, w);
        }

        let mesh = PolyMesh {
            num_vertices,
            vertices,
            vertices_array,
            st,
            normals,
            num_faces,
            face_array,
        };
        proof {
            lemma_grid_is_wf(mesh, w, h, height as int, width as int);
        }
        mesh
    }

    /// Sets every vertex's elevation from the noise map: the vertex's
    /// texture coordinate picks a pixel (nearest-neighbour, clamped at
    /// the far edge), and the pixel's `[0, SCALE]` value is remapped to
    /// an elevation in `[-SCALE, SCALE]`. Topology, texture coordinates
    /// and normals are untouched.
    #[verifier::loop_isolation(false)]
    pub fn displace_with_noise_map(
        &mut self,
        noise_map: Vec<i64>,
        image_width: u32,
        image_height: u32,
    )
        requires
            old(self).wf(),
            1 <= image_width,
            1 <= image_height,
            noise_map@.len() == (image_width as int) * (image_height as int),
            forall|q: int| 0 <= q < noise_map@.len() ==> 0 <= #[trigger] noise_map@[q] <= SCALE,
        ensures
            final(self).wf(),
            final(self).vertices@ == displaced_vertices(
                old(self).vertices@,
                old(self).st@,
                noise_map@,
                image_width as int,
                image_height as int,
            ),
            final(self).st@ == old(self).st@,
            final(self).normals@ == old(self).normals@,
            final(self).vertices_array@ == old(self).vertices_array@,
            final(self).face_array@ == old(self).face_array@,
            final(self).num_vertices == old(self).num_vertices,
            final(self).num_faces == old(self).num_faces,
    {
        let ghost iw = image_width as int;
        let ghost ih = image_height as int;
        let n: usize = self.vertices.len();
        let mut p: usize = 0;
        while p < n
            invariant
                p <= n,
                self.vertices@.len() == n,
                self.st@ == old(self).st@,
                self.normals@ == old(self).normals@,
                self.vertices_array@ == old(self).vertices_array@,
                self.face_array@ == old(self).face_array@,
                self.num_vertices == old(self).num_vertices,
                self.num_faces == old(self).num_faces,
                forall|q: int|
                    0 <= q < p ==> #[trigger] self.vertices@[q] == displaced_vertices(
                        old(self).vertices@,
                        old(self).st@,
                        noise_map@,
                        iw,
                        ih,
                    )[q],
                forall|q: int|
                    p <= q < n ==> #[trigger] self.vertices@[q] == old(self).vertices@[q],
                forall|q: int| 0 <= q < n ==> coord_bounded(#[trigger] self.vertices@[q]),
            decreases n - p,
        {
            let stv = self.st[p];
            proof {
                assert(stv == old(self).st@[p as int]);
                assert(0 <= stv.x <= SCALE && 0 <= stv.y <= SCALE);
                lemma_mul_inequality(stv.x as int, SCALE as int, iw);
                lemma_mul_inequality(stv.y as int, SCALE as int, ih);
            }
            let cx: u64 = (stv.x as u64) * (image_width as u64) / 65536u64;
            let cy: u64 = (stv.y as u64) * (image_height as u64) / 65536u64;
            let px: u64 = if cx <= (image_width as u64) - 1 {
                cx
            } else {
                (image_width as u64) - 1
            };
            let py: u64 = if cy <= (image_height as u64) - 1 {
                cy
            } else {
                (image_height as u64) - 1
            };
            proof {
                vstd::std_specs::vec::axiom_spec_len(&noise_map);
                assert((py as int) * iw + (px as int) < iw * ih) by (nonlinear_arith)
                    requires
                        0 <= py as int <= ih - 1,
                        0 <= px as int <= iw - 1,
                        1 <= iw,
                        1 <= ih,
                ;
            }
            let idx: usize = (py * (image_width as u64) + px) as usize;
            let value: i64 = noise_map[idx];
            let elevation: i64 = 2 * value - SCALE;
            let cur = self.vertices[p];
            self.vertices[p] = Vec3 { x: cur.x, y: elevation, z: cur.z };
            p = p + 1;
        }
        proof {
            assert(self.vertices@ =~= displaced_vertices(
                old(self).vertices@,
                old(self).st@,
                noise_map@,
                iw,
                ih,
            ));
        }
    }

    /// Computes per-face geometric normals: for each face, the cross
    /// product of its bitangent and tangent (first three corners in
    /// winding order) is normalized and written to the face's first
    /// corner, later faces overwriting earlier ones. Degenerate faces
    /// fall back to the up vector.
    #[verifier::loop_isolation(false)]
    pub fn calculate_normals(&mut self)
        requires
            old(self).wf(),
        ensures
            final(self).wf(),
            final(self).normals@ == normals_after(
                old(self).vertices@,
                old(self).vertices_array@,
                old(self).normals@,
                old(self).num_faces as int,
            ),
            final(self).vertices@ == old(self).vertices@,
            final(self).st@ == old(self).st@,
            final(self).vertices_array@ == old(self).vertices_array@,
            final(self).face_array@ == old(self).face_array@,
            final(self).num_vertices == old(self).num_vertices,
            final(self).num_faces == old(self).num_faces,
    {
        let nf: usize = self.face_array.len();
        proof {
            vstd::std_specs::vec::axiom_spec_len(&self.vertices_array);
        }
        let mut k: usize = 0;
        while k < nf
            invariant
                k <= nf,
                self.vertices@ == old(self).vertices@,
                self.st@ == old(self).st@,
                self.vertices_array@ == old(self).vertices_array@,
                self.face_array@ == old(self).face_array@,
                self.num_vertices == old(self).num_vertices,
                self.num_faces == old(self).num_faces,
                self.normals@.len() == old(self).normals@.len(),
                self.normals@ == normals_after(
                    old(self).vertices@,
                    old(self).vertices_array@,
                    old(self).normals@,
                    k as int,
                ),
            decreases nf - k,
        {
            let off: usize = 4 * k;
            let ia: usize = self.vertices_array[off] as usize;
            let ib: usize = self.vertices_array[off + 1] as usize;
            let ic: usize = self.vertices_array[off + 2] as usize;
            let a = self.vertices[ia];
            let b = self.vertices[ib];
            let c = self.vertices[ic];
            let n = face_normal_exec(a, b, c);
            self.normals[ia] = n;
            k = k + 1;
        }
    }
}

/// One record of the textual mesh interchange format: a vertex
/// position, a texture coordinate, a normal, or a face whose four
/// corner indices are 1-based and shared between position, texture
/// coordinate and normal.
#[derive(Clone, Copy, PartialEq, Eq, Structural, Debug)]
pub enum ObjLine {
    V { x: i64, y: i64, z: i64 },
    Vt { u: i64, v: i64 },
    Vn { x: i64, y: i64, z: i64 },
    F { a: u32, b: u32, c: u32, d: u32 },
}

impl PolyMesh {
    /// Lays the mesh out as interchange-format records: all vertex
    /// positions in order, then all texture coordinates, then all
    /// normals, then one face record per face with 1-based indices.
    /// Writing the records to a byte sink is the caller's concern.
    #[verifier::loop_isolation(false)]
    pub fn export_to_obj(&self) -> (lines: Vec<ObjLine>)
        requires
            self.wf(),
        ensures
            lines@.len() == 3 * self.vertices@.len() + self.face_array@.len(),
            forall|p: int|
                0 <= p < self.vertices@.len() ==> lines@[p] == (ObjLine::V {
                    x: self.vertices@[p].x,
                    y: self.vertices@[p].y,
                    z: self.vertices@[p].z,
                }),
            forall|p: int|
                0 <= p < self.vertices@.len() ==> lines@[self.vertices@.len() + p] == (ObjLine::Vt {
                    u: self.st@[p].x,
                    v: self.st@[p].y,
                }),
            forall|p: int|
                0 <= p < self.vertices@.len() ==> lines@[2 * self.vertices@.len() + p]
                    == (ObjLine::Vn {
                    x: self.normals@[p].x,
                    y: self.normals@[p].y,
                    z: self.normals@[p].z,
                }),
            forall|k: int|
                0 <= k < self.face_array@.len() ==> #[trigger] lines@[3 * self.vertices@.len() + k]
                    == (ObjLine::F {
                    a: (self.vertices_array@[4 * k] + 1) as u32,
                    b: (self.vertices_array@[4 * k + 1] + 1) as u32,
                    c: (self.vertices_array@[4 * k + 2] + 1) as u32,
                    d: (self.vertices_array@[4 * k + 3] + 1) as u32,
                }),
    {
        let nv: usize = self.vertices.len();
        let nf: usize = self.face_array.len();
        proof {
            vstd::std_specs::vec::axiom_spec_len(&self.vertices_array);
        }
        let mut lines: Vec<ObjLine> = Vec::new();
        let mut p: usize = 0;
        while p < nv
            invariant
                p <= nv,
                lines@.len() == p,
                forall|q: int|
                    0 <= q < p ==> lines@[q] == (ObjLine::V {
                        x: self.vertices@[q].x,
                        y: self.vertices@[q].y,
                        z: self.vertices@[q].z,
                    }),
            decreases nv - p,
        {
            let vtx = self.vertices[p];
            lines.push(ObjLine::V { x: vtx.x, y: vtx.y, z: vtx.z });
            p = p + 1;
        }
        let mut p: usize = 0;
        while p < nv
            invariant
                p <= nv,
                lines@.len() == nv + p,
                forall|q: int|
                    0 <= q < nv ==> lines@[q] == (ObjLine::V {
                        x: self.vertices@[q].x,
                        y: self.vertices@[q].y,
                        z: self.vertices@[q].z,
                    }),
                forall|q: int|
                    0 <= q < p ==> lines@[nv + q] == (ObjLine::Vt {
                        u: self.st@[q].x,
                        v: self.st@[q].y,
                    }),
            decreases nv - p,
        {
            let stv = self.st[p];
            lines.push(ObjLine::Vt { u: stv.x, v: stv.y });
            p = p + 1;
        }
        let mut p: usize = 0;
        while p < nv
            invariant
                p <= nv,
                lines@.len() == 2 * nv + p,
                forall|q: int|
                    0 <= q < nv ==> lines@[q] == (ObjLine::V {
                        x: self.vertices@[q].x,
                        y: self.vertices@[q].y,
                        z: self.vertices@[q].z,
                    }),
                forall|q: int|
                    0 <= q < nv ==> lines@[nv + q] == (ObjLine::Vt {
                        u: self.st@[q].x,
                        v: self.st@[q].y,
                    }),
                forall|q: int|
                    0 <= q < p ==> lines@[2 * nv + q] == (ObjLine::Vn {
                        x: self.normals@[q].x,
                        y: self.normals@[q].y,
                        z: self.normals@[q].z,
                    }),
            decreases nv - p,
        {
            let nrm = self.normals[p];
            lines.push(ObjLine::Vn { x: nrm.x, y: nrm.y, z: nrm.z });
            p = p + 1;
        }
        let mut k: usize = 0;
        while k < nf
            invariant
                k <= nf,
                lines@.len() == 3 * nv + k,
                forall|q: int|
                    0 <= q < nv ==> lines@[q] == (ObjLine::V {
                        x: self.vertices@[q].x,
                        y: self.vertices@[q].y,
                        z: self.vertices@[q].z,
                    }),
                forall|q: int|
                    0 <= q < nv ==> lines@[nv + q] == (ObjLine::Vt {
                        u: self.st@[q].x,
                        v: self.st@[q].y,
                    }),
                forall|q: int|
                    0 <= q < nv ==> lines@[2 * nv + q] == (ObjLine::Vn {
                        x: self.normals@[q].x,
                        y: self.normals@[q].y,
                        z: self.normals@[q].z,
                    }),
                forall|q: int|
                    0 <= q < k ==> #[trigger] lines@[3 * nv + q] == (ObjLine::F {
                        a: (self.vertices_array@[4 * q] + 1) as u32,
                        b: (self.vertices_array@[4 * q + 1] + 1) as u32,
                        c: (self.vertices_array@[4 * q + 2] + 1) as u32,
                        d: (self.vertices_array@[4 * q + 3] + 1) as u32,
                    }),
            decreases nf - k,
        {
            let off: usize = 4 * k;
            let a: u32 = self.vertices_array[off] + 1;
            let b: u32 = self.vertices_array[off + 1] + 1;
            let c: u32 = self.vertices_array[off + 2] + 1;
            let d: u32 = self.vertices_array[off + 3] + 1;
            lines.push(ObjLine::F { a, b, c, d });
            k = k + 1;
        }
        lines
    }
}

/// Executable counterpart of `face_normal`, carried out exactly in
/// 128-bit integer arithmetic.
fn face_normal_exec(a: Vec3, b: Vec3, c: Vec3) -> (n: Vec3)
    requires
        coord_bounded(a),
        coord_bounded(b),
        coord_bounded(c),
    ensures
        n == face_normal(a, b, c),
{
    let tx: i64 = b.x - a.x;
    let ty: i64 = b.y - a.y;
    let tz: i64 = b.z - a.z;
    let ux: i64 = c.x - a.x;
    let uy: i64 = c.y - a.y;
    let uz: i64 = c.z - a.z;
    proof {
        lemma_diff_product_bounded(uy as int, tz as int);
        lemma_diff_product_bounded(uz as int, ty as int);
        lemma_diff_product_bounded(uz as int, tx as int);
        lemma_diff_product_bounded(ux as int, tz as int);
        lemma_diff_product_bounded(ux as int, ty as int);
        lemma_diff_product_bounded(uy as int, tx as int);
    }
    let cx: i128 = (uy as i128) * (tz as i128) - (uz as i128) * (ty as i128);
    let cy: i128 = (uz as i128) * (tx as i128) - (ux as i128) * (tz as i128);
    let cz: i128 = (ux as i128) * (ty as i128) - (uy as i128) * (tx as i128);
    proof {
        lemma_cross_square_bounded(cx as int);
        lemma_cross_square_bounded(cy as int);
        lemma_cross_square_bounded(cz as int);
    }
    let n2: u128 = ((cx * cx) as u128) + ((cy * cy) as u128) + ((cz * cz) as u128);
    if n2 == 0 {
        proof {
            assert(cross_norm_sq(a, b, c) == 0) by (nonlinear_arith)
                requires
                    (cx as int) * (cx as int) + (cy as int) * (cy as int) + (cz as int) * (cz
                        as int) == 0,
                    cx as int == cross_x(a, b, c),
                    cy as int == cross_y(a, b, c),
                    cz as int == cross_z(a, b, c),
                    cross_norm_sq(a, b, c) == cross_x(a, b, c) * cross_x(a, b, c) + cross_y(
                        a,
                        b,
                        c,
                    ) * cross_y(a, b, c) + cross_z(a, b, c) * cross_z(a, b, c),
            ;
        }
        return Vec3 { x: 0, y: SCALE, z: 0 };
    }
    let l: u128 = isqrt_u128(n2);
    proof {
        lemma_sqrt_floor_unique(n2 as int, l as int);
        assert(l as int >= 1) by (nonlinear_arith)
            requires
                n2 as int >= 1,
                (n2 as int) < ((l as int) + 1) * ((l as int) + 1),
                l as int >= 0,
        ;
    }
    let nx: i64 = scaled_ratio_exec(cx, l);
    let ny: i64 = scaled_ratio_exec(cy, l);
    let nz: i64 = scaled_ratio_exec(cz, l);
    Vec3 { x: nx, y: ny, z: nz }
}

/// `v * SCALE / l` rounded towards zero, for a cross-product component
/// `v` whose square is at most the value whose root `l` is.
fn scaled_ratio_exec(v: i128, l: u128) -> (r: i64)
    requires
        1 <= l as int <= 0x8000000000000000,
        -0x4000000000000000 <= v as int <= 0x4000000000000000,
        (v as int) * (v as int) < ((l as int) + 1) * ((l as int) + 1),
    ensures
        r as int == scaled_ratio(v as int, l as int),
        -SCALE <= r <= SCALE,
{
    proof {
        lemma_component_le_root(v as int, l as int);
    }
    if v >= 0 {
        let q: u128 = (v as u128) * 65536 / l;
        proof {
            crate::scalar::lemma_scaled_div_bounds(v as int, l as int);
        }
        q as i64
    } else {
        let q: u128 = ((-v) as u128) * 65536 / l;
        proof {
            crate::scalar::lemma_scaled_div_bounds(-(v as int), l as int);
        }
        -(q as i64)
    }
}

/// Product of two coordinate differences stays within 62 bits.
proof fn lemma_diff_product_bounded(p: int, q: int)
    requires
        -0x40000000 <= p <= 0x40000000,
        -0x40000000 <= q <= 0x40000000,
    ensures
        -0x1000000000000000 <= p * q <= 0x1000000000000000,
{
    assert(-0x1000000000000000 <= p * q <= 0x1000000000000000) by (nonlinear_arith)
        requires
            -0x40000000 <= p <= 0x40000000,
            -0x40000000 <= q <= 0x40000000,
    ;
}

/// Square of a cross-product component stays within 124 bits.
proof fn lemma_cross_square_bounded(c: int)
    requires
        -0x2000000000000000 <= c <= 0x2000000000000000,
    ensures
        0 <= c * c <= 0x4000000000000000000000000000000,
{
    assert(0 <= c * c <= 0x4000000000000000000000000000000) by (nonlinear_arith)
        requires
            -0x2000000000000000 <= c <= 0x2000000000000000,
    ;
}

/// A cross component is at most the rounded-down root of the squared
/// norm it contributes to.
proof fn lemma_component_le_root(v: int, l: int)
    requires
        0 <= l,
        v * v < (l + 1) * (l + 1),
    ensures
        -l <= v <= l,
{
    assert(-l <= v <= l) by (nonlinear_arith)
        requires
            0 <= l,
            v * v < (l + 1) * (l + 1),
    ;
}



/// Pixel column (or row) sampled for the fixed-point texture coordinate
/// `u` on an image `n` pixels across: `u * n / SCALE`, clamped so that a
/// coordinate of exactly one still reads the last pixel.
pub open spec fn pixel_coord(u: int, n: int) -> int {
    let c = u * n / (SCALE as int);
    if c <= n - 1 {
        c
    } else {
        n - 1
    }
}

/// Elevation assigned to a vertex with texture coordinate `st` by a
/// noise map `iw` by `ih` pixels: the `[0, SCALE]` noise value of the
/// sampled pixel, remapped to `[-SCALE, SCALE]`.
pub open spec fn noise_elevation(st: Vec2, map: Seq<i64>, iw: int, ih: int) -> int {
    let x = pixel_coord(st.x as int, iw);
    let y = pixel_coord(st.y as int, ih);
    2 * map[y * iw + x] - SCALE as int
}

/// The vertex sequence after displacement: x and z are kept, the
/// elevation of each vertex is read off the noise map at its texture
/// coordinate.
pub open spec fn displaced_vertices(
    verts: Seq<Vec3>,
    st: Seq<Vec2>,
    map: Seq<i64>,
    iw: int,
    ih: int,
) -> Seq<Vec3> {
    Seq::new(
        verts.len(),
        |p: int|
            (Vec3 {
                x: verts[p].x,
                y: noise_elevation(st[p], map, iw, ih) as i64,
                z: verts[p].z,
            }),
    )
}

/// Displacement is idempotent: displacing vertices that were already
/// displaced with the same noise map changes nothing, since the
/// elevation depends only on the texture coordinates and the map.
pub proof fn lemma_displacement_idempotent(
    verts: Seq<Vec3>,
    st: Seq<Vec2>,
    map: Seq<i64>,
    iw: int,
    ih: int,
)
    ensures
        displaced_vertices(displaced_vertices(verts, st, map, iw, ih), st, map, iw, ih)
            == displaced_vertices(verts, st, map, iw, ih),
{
    assert(displaced_vertices(displaced_vertices(verts, st, map, iw, ih), st, map, iw, ih)
        =~= displaced_vertices(verts, st, map, iw, ih));
}

/// x component of `cross(c - a, b - a)`, the cross product of a face's
/// bitangent and tangent.
pub open spec fn cross_x(a: Vec3, b: Vec3, c: Vec3) -> int {
    (c.y - a.y) * (b.z - a.z) - (c.z - a.z) * (b.y - a.y)
}

/// y component of `cross(c - a, b - a)`.
pub open spec fn cross_y(a: Vec3, b: Vec3, c: Vec3) -> int {
    (c.z - a.z) * (b.x - a.x) - (c.x - a.x) * (b.z - a.z)
}

/// z component of `cross(c - a, b - a)`.
pub open spec fn cross_z(a: Vec3, b: Vec3, c: Vec3) -> int {
    (c.x - a.x) * (b.y - a.y) - (c.y - a.y) * (b.x - a.x)
}

/// Squared length of the face cross product.
pub open spec fn cross_norm_sq(a: Vec3, b: Vec3, c: Vec3) -> int {
    cross_x(a, b, c) * cross_x(a, b, c) + cross_y(a, b, c) * cross_y(a, b, c) + cross_z(a, b, c)
        * cross_z(a, b, c)
}

/// `v * SCALE / l`, rounded towards zero.
pub open spec fn scaled_ratio(v: int, l: int) -> int {
    if v >= 0 {
        v * (SCALE as int) / l
    } else {
        -((-v) * (SCALE as int) / l)
    }
}

/// The geometric normal of the face with corners `a`, `b`, `c` in
/// winding order: the cross product of bitangent `c - a` and tangent
/// `b - a`, scaled to unit length in fixed-point units. A degenerate
/// face, whose cross product vanishes, gets the up vector instead of
/// an error.
pub open spec fn face_normal(a: Vec3, b: Vec3, c: Vec3) -> Vec3 {
    let n2 = cross_norm_sq(a, b, c);
    if n2 == 0 {
        up_vector()
    } else {
        let l = sqrt_floor(n2);
        Vec3 {
            x: scaled_ratio(cross_x(a, b, c), l) as i64,
            y: scaled_ratio(cross_y(a, b, c), l) as i64,
            z: scaled_ratio(cross_z(a, b, c), l) as i64,
        }
    }
}

/// The normal buffer after processing the first `k` faces in order:
/// each face writes its geometric normal over the entry of its first
/// corner, later faces overwriting earlier ones.
pub open spec fn normals_after(
    verts: Seq<Vec3>,
    va: Seq<u32>,
    normals0: Seq<Vec3>,
    k: int,
) -> Seq<Vec3>
    decreases k,
{
    if k <= 0 {
        normals0
    } else {
        let prev = normals_after(verts, va, normals0, k - 1);
        let f = k - 1;
        let a = verts[va[4 * f] as int];
        let b = verts[va[4 * f + 1] as int];
        let c = verts[va[4 * f + 2] as int];
        prev.update(va[4 * f] as int, face_normal(a, b, c))
    }
}

/// For `0 <= i <= n`, the fixed-point coordinate `i * SCALE / n` lies in
/// `[0, SCALE]`, and it is monotone in `i`.
pub proof fn lemma_uv_bounds(i: int, n: int)
    requires
        0 <= i <= n,
        1 <= n,
    ensures
        0 <= uv_of(i, n) <= SCALE as int,
        i == n ==> uv_of(i, n) == SCALE as int,
{
    lemma_div_is_ordered(0, i * (SCALE as int), n);
    lemma_mul_inequality(i, n, SCALE as int);
    lemma_div_is_ordered(i * (SCALE as int), n * (SCALE as int), n);
    lemma_div_multiples_vanish(SCALE as int, n);
    assert(n * (SCALE as int) == (SCALE as int) * n) by {
        vstd::arithmetic::mul::lemma_mul_is_commutative(n, SCALE as int);
    }
}

/// After pushing the four corner indices of cell `k` (row `fj`, column
/// `fi`), every entry of the array still matches `grid_face_corner`.
proof fn lemma_face_push_shape(va: Seq<u32>, k: int, fj: int, fi: int, w: int)
    requires
        1 <= w,
        0 <= fj,
        0 <= fi < w,
        k == fj * w + fi,
        va.len() == 4 * k + 4,
        forall|q: int|
            0 <= q < 4 * k ==> #[trigger] va[q] as int == grid_face_corner(q / 4, q % 4, w),
        va[4 * k] as int == fj * (w + 1) + fi,
        va[4 * k + 1] as int == fj * (w + 1) + fi + 1,
        va[4 * k + 2] as int == (fj + 1) * (w + 1) + fi + 1,
        va[4 * k + 3] as int == (fj + 1) * (w + 1) + fi,
    ensures
        forall|q: int|
            0 <= q < 4 * k + 4 ==> #[trigger] va[q] as int == grid_face_corner(q / 4, q % 4, w),
{
    lemma_fundamental_div_mod_converse(k, w, fj, fi);
    assert forall|q: int| 0 <= q < 4 * k + 4 implies #[trigger] va[q] as int == grid_face_corner(
        q / 4,
        q % 4,
        w,
    ) by {
        if q >= 4 * k {
            lemma_fundamental_div_mod_converse(q, 4, k, q - 4 * k);
        }
    }
}

/// A mesh whose sequences all have grid shape satisfies the structural
/// invariant.
proof fn lemma_grid_is_wf(mesh: PolyMesh, w: int, h: int, ph: int, pw: int)
    requires
        1 <= w,
        1 <= h,
        1 <= pw <= 16384,
        1 <= ph <= 16384,
        mesh.num_vertices == (w + 1) * (h + 1),
        mesh.num_faces == w * h,
        mesh.vertices@.len() == (w + 1) * (h + 1),
        mesh.st@.len() == (w + 1) * (h + 1),
        mesh.normals@.len() == (w + 1) * (h + 1),
        mesh.face_array@.len() == w * h,
        mesh.vertices_array@.len() == 4 * (w * h),
        forall|k: int| 0 <= k < mesh.face_array@.len() ==> #[trigger] mesh.face_array@[k] == 4,
        forall|q: int|
            0 <= q < mesh.vertices_array@.len() ==> #[trigger] mesh.vertices_array@[q] as int
                == grid_face_corner(q / 4, q % 4, w),
        forall|p: int|
            0 <= p < (w + 1) * (h + 1) ==> #[trigger] mesh.vertices@[p] == grid_vertex(
                p % (w + 1),
                p / (w + 1),
                w,
                h,
                pw,
                ph,
            ),
        forall|p: int|
            0 <= p < (w + 1) * (h + 1) ==> #[trigger] mesh.st@[p] == grid_st(
                p % (w + 1),
                p / (w + 1),
                w,
                h,
            ),
    ensures
        mesh.wf(),
{
    assert forall|q: int| 0 <= q < mesh.vertices_array@.len() implies (mesh.vertices_array@[q]
        as int) < mesh.vertices@.len() by {
        lemma_face_corner_in_bounds(q / 4, q % 4, w, h);
        assert(0 <= q / 4 < w * h && 0 <= q % 4 < 4) by {
            lemma_div_is_ordered(q, 4 * (w * h) - 1, 4);
            lemma_div_is_ordered(0, q, 4);
            assert((4 * (w * h) - 1) / 4 == w * h - 1) by {
                lemma_fundamental_div_mod_converse(4 * (w * h) - 1, 4, w * h - 1, 3);
            }
        }
    }
    assert forall|p: int| 0 <= p < mesh.st@.len() implies 0 <= #[trigger] mesh.st@[p].x <= SCALE && 0
        <= mesh.st@[p].y <= SCALE by {
        lemma_lattice_coords(p, w, h);
        lemma_uv_bounds(p % (w + 1), w);
        lemma_uv_bounds(p / (w + 1), h);
    }
    assert forall|p: int| 0 <= p < mesh.vertices@.len() implies coord_bounded(
        #[trigger] mesh.vertices@[p],
    ) by {
        lemma_lattice_coords(p, w, h);
        lemma_uv_bounds(p % (w + 1), w);
        lemma_uv_bounds(p / (w + 1), h);
        lemma_coord_product_bounded(pw, uv_of(p % (w + 1), w));
        lemma_coord_product_bounded(ph, uv_of(p / (w + 1), h));
    }
}

/// Row and column of a row-major lattice index are in range.
proof fn lemma_lattice_coords(p: int, w: int, h: int)
    requires
        1 <= w,
        1 <= h,
        0 <= p < (w + 1) * (h + 1),
    ensures
        0 <= p % (w + 1) <= w,
        0 <= p / (w + 1) <= h,
{
    assert(0 <= p % (w + 1) <= w) by {
        vstd::arithmetic::div_mod::lemma_mod_bound(p, w + 1);
    }
    assert(0 <= p / (w + 1) <= h) by {
        lemma_div_is_ordered(0, p, w + 1);
        lemma_div_is_ordered(p, (w + 1) * (h + 1) - 1, w + 1);
        assert(((w + 1) * (h + 1) - 1) / (w + 1) == h) by {
            assert((w + 1) * (h + 1) - 1 == h * (w + 1) + w) by {
                vstd::arithmetic::mul::lemma_mul_is_distributive_add_other_way(w + 1, h, 1);
                vstd::arithmetic::mul::lemma_mul_is_commutative(w + 1, h + 1);
            }
            lemma_fundamental_div_mod_converse(h * (w + 1) + w, w + 1, h, w);
        }
    }
}

/// The product of a physical extent and a centered texture coordinate
/// stays within the coordinate bound.
proof fn lemma_coord_product_bounded(e: int, u: int)
    requires
        1 <= e <= 16384,
        0 <= u <= SCALE as int,
    ensures
        -(COORD_BOUND as int) <= e * (u - SCALE as int / 2) <= COORD_BOUND as int,
{
    let c = u - SCALE as int / 2;
    assert(-32768 <= c <= 32768);
    lemma_mul_inequality(e, 16384, 32768);
    assert(e * c <= e * 32768) by {
        vstd::arithmetic::mul::lemma_mul_left_inequality(e, c, 32768);
    }
    assert(e * 32768 <= 16384 * 32768) by {
        lemma_mul_inequality(e, 16384, 32768);
    }
    assert(e * c >= e * (-32768)) by {
        vstd::arithmetic::mul::lemma_mul_left_inequality(e, -32768, c);
    }
    assert(e * (-32768) >= 16384 * (-32768)) by {
        vstd::arithmetic::mul::lemma_mul_inequality(-32768, -32768, e);
        vstd::arithmetic::mul::lemma_mul_is_commutative(e, -32768);
    }
}

/// A face lying flat at elevation zero, with its tangent along the x
/// axis, its bitangent reaching across the cell, and its corners in
/// winding order, has the up vector as its geometric normal.
proof fn lemma_flat_face_normal(a: Vec3, b: Vec3, c: Vec3)
    requires
        a.y == 0,
        b.y == 0,
        c.y == 0,
        b.z == a.z,
        c.x == b.x,
        a.x <= b.x,
        a.z <= c.z,
    ensures
        face_normal(a, b, c) == up_vector(),
{
    let dx = b.x - a.x;
    let dz = c.z - a.z;
    assert(cross_x(a, b, c) == 0 && cross_z(a, b, c) == 0 && cross_y(a, b, c) == dz * dx)
        by (nonlinear_arith)
        requires
            a.y == 0,
            b.y == 0,
            c.y == 0,
            b.z == a.z,
            c.x == b.x,
            dx == b.x - a.x,
            dz == c.z - a.z,
    ;
    let m = dz * dx;
    assert(m >= 0) by (nonlinear_arith)
        requires
            dx >= 0,
            dz >= 0,
            m == dz * dx,
    ;
    assert(cross_norm_sq(a, b, c) == m * m) by (nonlinear_arith)
        requires
            cross_x(a, b, c) == 0,
            cross_z(a, b, c) == 0,
            cross_y(a, b, c) == m,
            cross_norm_sq(a, b, c) == cross_x(a, b, c) * cross_x(a, b, c) + cross_y(a, b, c)
                * cross_y(a, b, c) + cross_z(a, b, c) * cross_z(a, b, c),
    ;
    if m == 0 {
        assert(cross_norm_sq(a, b, c) == 0) by (nonlinear_arith)
            requires
                cross_norm_sq(a, b, c) == m * m,
                m == 0,
        ;
    } else {
        assert(m * m > 0) by (nonlinear_arith)
            requires
                m > 0,
        ;
        assert(crate::scalar::is_sqrt_floor(m * m, m)) by (nonlinear_arith)
            requires
                m > 0,
        ;
        lemma_sqrt_floor_unique(m * m, m);
        assert(scaled_ratio(0, m) == 0) by {
            vstd::arithmetic::div_mod::lemma_div_of0(m);
        }
        assert(scaled_ratio(m, m) == SCALE as int) by {
            lemma_div_multiples_vanish(SCALE as int, m);
            vstd::arithmetic::mul::lemma_mul_is_commutative(m, SCALE as int);
        }
    }
}

/// On the flat grid that the constructor builds, every face satisfies
/// the shape that `lemma_flat_face_normal` asks for, so its normal is
/// the up vector.
proof fn lemma_grid_face_is_flat(
    verts: Seq<Vec3>,
    va: Seq<u32>,
    w: int,
    h: int,
    ph: int,
    pw: int,
    f: int,
)
    requires
        1 <= w,
        1 <= h,
        1 <= pw <= 16384,
        1 <= ph <= 16384,
        verts.len() == (w + 1) * (h + 1),
        forall|p: int|
            0 <= p < verts.len() ==> #[trigger] verts[p] == grid_vertex(
                p % (w + 1),
                p / (w + 1),
                w,
                h,
                pw,
                ph,
            ),
        va.len() == 4 * (w * h),
        forall|q: int|
            0 <= q < va.len() ==> #[trigger] va[q] as int == grid_face_corner(q / 4, q % 4, w),
        0 <= f < w * h,
    ensures
        0 <= va[4 * f] as int,
        (va[4 * f] as int) < verts.len(),
        face_normal(
            verts[va[4 * f] as int],
            verts[va[4 * f + 1] as int],
            verts[va[4 * f + 2] as int],
        ) == up_vector(),
{
    let j = f / w;
    let i = f % w;
    assert(0 <= i < w) by {
        vstd::arithmetic::div_mod::lemma_mod_bound(f, w);
    }
    assert(0 <= j <= h - 1) by {
        lemma_div_is_ordered(0, f, w);
        lemma_div_is_ordered(f, w * h - 1, w);
        assert((w * h - 1) / w == h - 1) by {
            assert(w * h - 1 == (h - 1) * w + (w - 1)) by {
                vstd::arithmetic::mul::lemma_mul_is_distributive_sub_other_way(w, h, 1);
                vstd::arithmetic::mul::lemma_mul_is_commutative(w, h);
            }
            lemma_fundamental_div_mod_converse(w * h - 1, w, h - 1, w - 1);
        }
    }
    lemma_fundamental_div_mod_converse(4 * f, 4, f, 0);
    lemma_fundamental_div_mod_converse(4 * f + 1, 4, f, 1);
    lemma_fundamental_div_mod_converse(4 * f + 2, 4, f, 2);
    assert(4 * f + 2 < va.len()) by {
        lemma_mul_inequality(f + 1, w * h, 4);
        vstd::arithmetic::mul::lemma_mul_is_commutative(w * h, 4);
        vstd::arithmetic::mul::lemma_mul_is_distributive_add_other_way(4, f, 1);
    }
    let ia = j * (w + 1) + i;
    let ib = j * (w + 1) + i + 1;
    let ic = (j + 1) * (w + 1) + i + 1;
    assert(va[4 * f] as int == ia && va[4 * f + 1] as int == ib && va[4 * f + 2] as int == ic);
    lemma_face_corner_in_bounds(f, 0, w, h);
    lemma_face_corner_in_bounds(f, 1, w, h);
    lemma_face_corner_in_bounds(f, 2, w, h);
    lemma_fundamental_div_mod_converse(ia, w + 1, j, i);
    lemma_fundamental_div_mod_converse(ib, w + 1, j, i + 1);
    assert(ic == (j + 1) * (w + 1) + (i + 1)) by {
        vstd::arithmetic::mul::lemma_mul_is_distributive_add_other_way(w + 1, j, 1);
    }
    lemma_fundamental_div_mod_converse(ic, w + 1, j + 1, i + 1);
    let a = verts[ia];
    let b = verts[ib];
    let c = verts[ic];
    assert(a == grid_vertex(i, j, w, h, pw, ph));
    assert(b == grid_vertex(i + 1, j, w, h, pw, ph));
    assert(c == grid_vertex(i + 1, j + 1, w, h, pw, ph));
    lemma_uv_bounds(i, w);
    lemma_uv_bounds(i + 1, w);
    lemma_uv_bounds(j, h);
    lemma_uv_bounds(j + 1, h);
    lemma_coord_product_bounded(pw, uv_of(i, w));
    lemma_coord_product_bounded(pw, uv_of(i + 1, w));
    lemma_coord_product_bounded(ph, uv_of(j, h));
    lemma_coord_product_bounded(ph, uv_of(j + 1, h));
    assert(a.x <= b.x) by {
        lemma_div_is_ordered(i * (SCALE as int), (i + 1) * (SCALE as int), w);
        vstd::arithmetic::mul::lemma_mul_left_inequality(
            pw,
            uv_of(i, w) - SCALE as int / 2,
            uv_of(i + 1, w) - SCALE as int / 2,
        );
    }
    assert(a.z <= c.z) by {
        lemma_div_is_ordered(j * (SCALE as int), (j + 1) * (SCALE as int), h);
        vstd::arithmetic::mul::lemma_mul_left_inequality(
            ph,
            uv_of(j, h) - SCALE as int / 2,
            uv_of(j + 1, h) - SCALE as int / 2,
        );
    }
    lemma_flat_face_normal(a, b, c);
}

/// The flat base grid has only up-vector normals: processing any
/// number of its faces leaves every entry of an all-up normal buffer
/// equal to the up vector. Together with the constructor's contract
/// this pins the normals of an undisplaced mesh.
pub proof fn lemma_flat_grid_normals(
    verts: Seq<Vec3>,
    va: Seq<u32>,
    normals0: Seq<Vec3>,
    w: int,
    h: int,
    ph: int,
    pw: int,
    k: int,
)
    requires
        1 <= w,
        1 <= h,
        1 <= pw <= 16384,
        1 <= ph <= 16384,
        verts.len() == (w + 1) * (h + 1),
        forall|p: int|
            0 <= p < verts.len() ==> #[trigger] verts[p] == grid_vertex(
                p % (w + 1),
                p / (w + 1),
                w,
                h,
                pw,
                ph,
            ),
        va.len() == 4 * (w * h),
        forall|q: int|
            0 <= q < va.len() ==> #[trigger] va[q] as int == grid_face_corner(q / 4, q % 4, w),
        normals0.len() == verts.len(),
        forall|p: int| 0 <= p < normals0.len() ==> #[trigger] normals0[p] == up_vector(),
        0 <= k <= w * h,
    ensures
        normals_after(verts, va, normals0, k).len() == normals0.len(),
        forall|p: int|
            0 <= p < normals0.len() ==> #[trigger] normals_after(verts, va, normals0, k)[p]
                == up_vector(),
    decreases k,
{
    if k > 0 {
        lemma_flat_grid_normals(verts, va, normals0, w, h, ph, pw, k - 1);
        lemma_grid_face_is_flat(verts, va, w, h, ph, pw, k - 1);
        let f = k - 1;
        let prev = normals_after(verts, va, normals0, f);
        let ia = va[4 * f] as int;
        assert(normals_after(verts, va, normals0, k) == prev.update(
            ia,
            face_normal(verts[ia], verts[va[4 * f + 1] as int], verts[va[4 * f + 2] as int]),
        ));
    }
}

/// For `0 <= v <= l`, the square of the rounded quotient `v * SCALE / l`
/// is within `2 * v * SCALE * l` of the exact square, on either side.
proof fn lemma_scaled_sq_bounds(v: int, l: int)
    requires
        1 <= l,
        0 <= v <= l,
    ensures
        ({
            let q = v * (SCALE as int) / l;
            l * l * (q * q) <= v * v * ((SCALE as int) * (SCALE as int)) && l * l * (q * q) >= v * v
                * ((SCALE as int) * (SCALE as int)) - 2 * v * (SCALE as int) * l
        }),
{
    let s = SCALE as int;
    let q = v * s / l;
    let r = (v * s) % l;
    vstd::arithmetic::div_mod::lemma_fundamental_div_mod(v * s, l);
    vstd::arithmetic::div_mod::lemma_mod_bound(v * s, l);
    assert(l * l * (q * q) <= v * v * (s * s) && l * l * (q * q) >= v * v * (s * s) - 2 * v * s
        * l) by (nonlinear_arith)
        requires
            1 <= l,
            0 <= v,
            s == SCALE as int,
            v * s == l * q + r,
            0 <= r < l,
    ;
}

/// A non-degenerate face's normal has unit length up to fixed-point
/// rounding: its squared length is at least `SCALE^2 - 6 * SCALE`, and
/// it exceeds `SCALE^2` only by a term that shrinks with the cross
/// product's length `l` (at most `2 * SCALE^2 / l`).
pub proof fn lemma_face_normal_near_unit(a: Vec3, b: Vec3, c: Vec3)
    requires
        cross_norm_sq(a, b, c) > 0,
    ensures
        ({
            let s = SCALE as int;
            let l = sqrt_floor(cross_norm_sq(a, b, c));
            let len2 = crate::scalar::vec3_len_sq(face_normal(a, b, c));
            s * s - 6 * s <= len2 && l * l * len2 <= s * s * (l * l + 2 * l)
        }),
{
    let s = SCALE as int;
    let n2 = cross_norm_sq(a, b, c);
    let cx = cross_x(a, b, c);
    let cy = cross_y(a, b, c);
    let cz = cross_z(a, b, c);
    crate::scalar::lemma_sqrt_floor_exists(n2);
    let l = sqrt_floor(n2);
    assert(l >= 1) by (nonlinear_arith)
        requires
            n2 >= 1,
            n2 < (l + 1) * (l + 1),
            l >= 0,
    ;
    let vx = if cx >= 0 { cx } else { -cx };
    let vy = if cy >= 0 { cy } else { -cy };
    let vz = if cz >= 0 { cz } else { -cz };
    assert(vx <= l && vy <= l && vz <= l && vx * vx == cx * cx && vy * vy == cy * cy && vz * vz
        == cz * cz) by (nonlinear_arith)
        requires
            vx == (if cx >= 0 { cx } else { -cx }),
            vy == (if cy >= 0 { cy } else { -cy }),
            vz == (if cz >= 0 { cz } else { -cz }),
            cx * cx + cy * cy + cz * cz == n2,
            n2 < (l + 1) * (l + 1),
            0 <= l,
    ;
    crate::scalar::lemma_scaled_div_bounds(vx, l);
    crate::scalar::lemma_scaled_div_bounds(vy, l);
    crate::scalar::lemma_scaled_div_bounds(vz, l);
    let qx = vx * s / l;
    let qy = vy * s / l;
    let qz = vz * s / l;
    let n = face_normal(a, b, c);
    assert(n.x * n.x == qx * qx && n.y * n.y == qy * qy && n.z * n.z == qz * qz)
        by (nonlinear_arith)
        requires
            n.x as int == (if cx >= 0 { qx } else { -qx }),
            n.y as int == (if cy >= 0 { qy } else { -qy }),
            n.z as int == (if cz >= 0 { qz } else { -qz }),
            qx == vx * s / l,
            qy == vy * s / l,
            qz == vz * s / l,
    ;
    lemma_scaled_sq_bounds(vx, l);
    lemma_scaled_sq_bounds(vy, l);
    lemma_scaled_sq_bounds(vz, l);
    let len2 = crate::scalar::vec3_len_sq(n);
    let s2 = s * s;
    assert(l * l * len2 == l * l * (qx * qx) + l * l * (qy * qy) + l * l * (qz * qz))
        by (nonlinear_arith)
        requires
            len2 == qx * qx + qy * qy + qz * qz,
    ;
    assert(vx * vx * s2 + vy * vy * s2 + vz * vz * s2 == n2 * s2) by (nonlinear_arith)
        requires
            vx * vx + vy * vy + vz * vz == n2,
    ;
    assert(l * l * len2 <= n2 * s2);
    assert(n2 * s2 <= (l * l + 2 * l) * s2) by (nonlinear_arith)
        requires
            n2 < (l + 1) * (l + 1),
            0 <= s2,
    ;
    assert((l * l + 2 * l) * s2 == s * s * (l * l + 2 * l)) by (nonlinear_arith)
        requires
            s2 == s * s,
    ;
    assert(2 * vx * s * l + 2 * vy * s * l + 2 * vz * s * l <= 6 * s * (l * l))
        by (nonlinear_arith)
        requires
            0 <= vx <= l,
            0 <= vy <= l,
            0 <= vz <= l,
            0 <= s,
            1 <= l,
    ;
    assert(n2 * s2 >= l * l * s2) by (nonlinear_arith)
        requires
            l * l <= n2,
            0 <= s2,
    ;
    assert(l * l * len2 >= l * l * s2 - 6 * s * (l * l));
    assert(len2 >= s2 - 6 * s) by (nonlinear_arith)
        requires
            l * l * len2 >= l * l * s2 - 6 * s * (l * l),
            1 <= l,
    ;
}

/// Every face of a constructed grid mesh references four pairwise
/// distinct vertex indices, all within the vertex count.
pub proof fn lemma_grid_faces_valid(mesh: PolyMesh, w: int, h: int, ph: int, pw: int)
    requires
        mesh.wf(),
        mesh.is_grid(w, h, ph, pw),
        1 <= w,
        1 <= h,
    ensures
        forall|q: int|
            0 <= q < mesh.vertices_array@.len() ==> (#[trigger] mesh.vertices_array@[q] as int) < (w
                + 1) * (h + 1),
        forall|k: int, r1: int, r2: int|
            0 <= k < w * h && 0 <= r1 < 4 && 0 <= r2 < 4 && r1 != r2
                ==> #[trigger] mesh.vertices_array@[4 * k + r1]
                != #[trigger] mesh.vertices_array@[4 * k + r2],
{
    assert forall|k: int, r1: int, r2: int|
        0 <= k < w * h && 0 <= r1 < 4 && 0 <= r2 < 4 && r1 != r2
        implies #[trigger] mesh.vertices_array@[4 * k + r1] != #[trigger] mesh.vertices_array@[4 * k
        + r2] by {
        assert(4 * k + 3 < 4 * (w * h)) by {
            lemma_mul_inequality(k + 1, w * h, 4);
            vstd::arithmetic::mul::lemma_mul_is_commutative(w * h, 4);
            vstd::arithmetic::mul::lemma_mul_is_distributive_add_other_way(4, k, 1);
        }
        lemma_fundamental_div_mod_converse(4 * k + r1, 4, k, r1);
        lemma_fundamental_div_mod_converse(4 * k + r2, 4, k, r2);
        lemma_face_corner_in_bounds(k, r1, w, h);
    }
}

/// An undisplaced grid mesh keeps only up-vector normals: on a mesh
/// satisfying the constructor's contract, recomputing normals leaves
/// every entry of the normal buffer equal to the up vector.
pub proof fn lemma_flat_mesh_normals_up(mesh: PolyMesh, w: int, h: int, ph: int, pw: int)
    requires
        mesh.wf(),
        mesh.is_grid(w, h, ph, pw),
        1 <= w,
        1 <= h,
        1 <= pw <= 16384,
        1 <= ph <= 16384,
    ensures
        forall|p: int|
            0 <= p < mesh.normals@.len() ==> #[trigger] normals_after(
                mesh.vertices@,
                mesh.vertices_array@,
                mesh.normals@,
                mesh.num_faces as int,
            )[p] == up_vector(),
{
    lemma_flat_grid_normals(
        mesh.vertices@,
        mesh.vertices_array@,
        mesh.normals@,
        w,
        h,
        ph,
        pw,
        w * h,
    );
}

/// Each face of the generated grid references four pairwise distinct,
/// in-bounds vertex indices: corner `r` of any cell `k` is a valid
/// vertex index, and the four corners of one cell differ.
pub proof fn lemma_face_corner_in_bounds(k: int, r: int, w: int, h: int)
    requires
        1 <= w,
        1 <= h,
        0 <= k < w * h,
        0 <= r < 4,
    ensures
        0 <= grid_face_corner(k, r, w) < (w + 1) * (h + 1),
        forall|r2: int| 0 <= r2 < 4 && r2 != r ==> grid_face_corner(k, r2, w) != grid_face_corner(k, r, w),
{
    let j = k / w;
    let i = k % w;
    assert(0 <= i < w) by {
        vstd::arithmetic::div_mod::lemma_mod_bound(k, w);
    }
    assert(0 <= j <= h - 1) by {
        lemma_div_is_ordered(0, k, w);
        lemma_div_is_ordered(k, w * h - 1, w);
        assert((w * h - 1) / w == h - 1) by {
            assert(w * h - 1 == (h - 1) * w + (w - 1)) by {
                vstd::arithmetic::mul::lemma_mul_is_distributive_sub_other_way(w, h, 1);
                vstd::arithmetic::mul::lemma_mul_is_commutative(w, h);
            }
            lemma_fundamental_div_mod_converse(w * h - 1, w, h - 1, w - 1);
        }
    }
    assert((j + 1) * (w + 1) == j * (w + 1) + (w + 1)) by {
        vstd::arithmetic::mul::lemma_mul_is_distributive_add_other_way(w + 1, j, 1);
    }
    assert((j + 1) * (w + 1) + w + 1 <= (w + 1) * (h + 1)) by {
        lemma_mul_inequality(j + 1, h, w + 1);
        vstd::arithmetic::mul::lemma_mul_is_distributive_add_other_way(w + 1, h, 1);
        vstd::arithmetic::mul::lemma_mul_is_commutative(h + 1, w + 1);
    }
}

} // verus!
