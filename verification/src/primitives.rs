use vstd::prelude::*;

verus! {

/// One triangular face of a mesh: the indices of its three vertices.
#[derive(Debug, Clone, Copy, PartialEq, Eq, Structural)]
pub struct TriangleIndices {
    pub a: usize,
    pub b: usize,
    pub c: usize,
}

/// The capsule primitive: two hemispheres, each of `lat_rings + 1` rings of
/// `lon_segments + 1` vertices, joined into one band of triangles.
pub struct Capsule3D;

/// Number of vertex rings of a capsule.
pub open spec fn capsule_rings(lat_rings: int) -> int {
    (lat_rings + 1) * 2
}

/// Number of vertices of a capsule (its rings times the vertices of a ring).
pub open spec fn capsule_vertex_count(lat_rings: int, lon_segments: int) -> int {
    capsule_rings(lat_rings) * (lon_segments + 1)
}

/// The two triangles of the quad between ring `i` and ring `i + 1`, segment `j`.
pub open spec fn capsule_quad(lon_segments: int, i: int, j: int) -> (TriangleIndices, TriangleIndices) {
    let stride = lon_segments + 1;
    let curr = i * stride + j;
    let next = curr + stride;
    (
        TriangleIndices { a: curr as usize, b: next as usize, c: (curr + 1) as usize },
        TriangleIndices { a: (curr + 1) as usize, b: next as usize, c: (next + 1) as usize },
    )
}

/// Whether `r` holds the triangles of the first `rows` bands of a capsule with
/// `lon` segments per ring: for each band `i` and segment `j`, the two triangles
/// of [`capsule_quad`], quad after quad, band after band.
pub open spec fn capsule_bands(r: Seq<TriangleIndices>, rows: int, lon: int) -> bool {
    &&& r.len() == 2 * (rows * lon)
    &&& forall|i: int, j: int| 0 <= i < rows && 0 <= j < lon ==> {
        &&& #[trigger] r[2 * (i * lon + j)] == capsule_quad(lon, i, j).0
        &&& r[2 * (i * lon + j) + 1] == capsule_quad(lon, i, j).1
    }
}

impl Capsule3D {
    /// The triangles of a capsule mesh: for each pair of consecutive rings `i`,
    /// `i + 1` and each segment `j`, the two triangles of [`capsule_quad`], quad
    /// after quad, ring after ring.
    pub fn create_indices(lat_rings: usize, lon_segments: usize) -> (r: Vec<TriangleIndices>)
        requires
            capsule_vertex_count(lat_rings as int, lon_segments as int) <= usize::MAX,
            2 * (capsule_rings(lat_rings as int) - 1) * lon_segments <= usize::MAX,
        ensures
            capsule_bands(r@, capsule_rings(lat_rings as int) - 1, lon_segments as int),
    {
        let ghost lon = lon_segments as int;
        let ghost rings = capsule_rings(lat_rings as int);
        proof {
            assert((lat_rings + 1) * 2 * (lon_segments + 1) >= (lat_rings + 1) * 2) by (nonlinear_arith)
                requires 0 <= lon_segments, 0 <= lat_rings;
            assert(lon_segments + 1 <= (lat_rings + 1) * 2 * (lon_segments + 1)) by (nonlinear_arith)
                requires 0 <= lon_segments, 0 <= lat_rings;
        }
        let stride: usize = lon_segments + 1;
        let total_rings: usize = (lat_rings + 1) * 2;
        let mut indices: Vec<TriangleIndices> = Vec::new();
        let mut i: usize = 0;
        while i < total_rings - 1
            invariant
                lon == lon_segments,
                rings == total_rings,
                stride == lon + 1,
                total_rings >= 2,
                rings * stride <= usize::MAX,
                2 * (rings - 1) * lon <= usize::MAX,
                i <= total_rings - 1,
                capsule_bands(indices@, i as int, lon),
            decreases total_rings - 1 - i,
        {
            let mut j: usize = 0;
            while j < lon_segments
                invariant
                    lon == lon_segments,
                    rings == total_rings,
                    stride == lon + 1,
                    total_rings >= 2,
                    rings * stride <= usize::MAX,
                    2 * (rings - 1) * lon <= usize::MAX,
                    i < total_rings - 1,
                    j <= lon,
                    indices@.len() == 2 * (i * lon + j),
                    forall|i2: int, j2: int| 0 <= i2 < i && 0 <= j2 < lon ==> {
                        &&& #[trigger] indices@[2 * (i2 * lon + j2)] == capsule_quad(lon, i2, j2).0
                        &&& indices@[2 * (i2 * lon + j2) + 1] == capsule_quad(lon, i2, j2).1
                    },
                    forall|j2: int| 0 <= j2 < j ==> {
                        &&& #[trigger] indices@[2 * (i * lon + j2)] == capsule_quad(lon, i as int, j2).0
                        &&& indices@[2 * (i * lon + j2) + 1] == capsule_quad(lon, i as int, j2).1
                    },
                decreases lon - j,
            {
                proof {
                    assert(i * stride + j + stride + 1 <= rings * stride) by (nonlinear_arith)
                        requires i + 2 <= rings, j < stride, 0 <= i, 0 <= j;
                    assert(2 * (i * lon + j) + 2 <= 2 * (rings - 1) * lon) by (nonlinear_arith)
                        requires i + 1 <= rings - 1, j < lon, 0 <= i, 0 <= j;
                }
                let curr: usize = i * stride + j;
                let next: usize = curr + stride;
                indices.push(TriangleIndices { a: curr, b: next, c: curr + 1 });
                indices.push(TriangleIndices { a: curr + 1, b: next, c: next + 1 });
                proof {
                    assert forall|i2: int, j2: int| 0 <= i2 < i && 0 <= j2 < lon implies {
                        &&& #[trigger] indices@[2 * (i2 * lon + j2)] == capsule_quad(lon, i2, j2).0
                        &&& indices@[2 * (i2 * lon + j2) + 1] == capsule_quad(lon, i2, j2).1
                    } by {
                        assert(i2 * lon + j2 < i * lon) by (nonlinear_arith)
                            requires i2 < i, j2 < lon, 0 <= j2;
                    }
                }
                j = j + 1;
            }
            proof {
                assert(i * lon + lon == (i + 1) * lon) by (nonlinear_arith);
                assert(indices@.len() == 2 * ((i + 1) * lon));
                assert forall|i2: int, j2: int| 0 <= i2 < i + 1 && 0 <= j2 < lon implies {
                    &&& #[trigger] indices@[2 * (i2 * lon + j2)] == capsule_quad(lon, i2, j2).0
                    &&& indices@[2 * (i2 * lon + j2) + 1] == capsule_quad(lon, i2, j2).1
                } by {
                    if i2 == i {
                    }
                }
            }
            i = i + 1;
        }
        indices
    }
}

/// The color scheme of a cube's faces.
#[derive(Debug, Clone, Copy, PartialEq, Eq)]
pub enum CubeColors {
    /// One RGBA color for all six faces.
    Solid([u8; 4]),
    /// One RGBA color per face: front, back, left, right, top, bottom.
    PerFace([[u8; 4]; 6]),
}

/// The color of face `f` under `colors`.
pub open spec fn face_color(colors: CubeColors, f: int) -> [u8; 4] {
    match colors {
        CubeColors::Solid(c) => c,
        CubeColors::PerFace(cs) => cs@[f],
    }
}

/// Where cube vertex `v` lies: -1 or 1 on each axis (x, y, z), as the cube's
/// eight centered vertices are laid out: 0 (-,-,-), 1 (+,-,-), 2 (+,+,-),
/// 3 (-,+,-), and 4 to 7 the same at z = +1.
pub open spec fn cube_vertex_position(v: int) -> (int, int, int) {
    if v == 0 {
        (-1, -1, -1)
    } else if v == 1 {
        (1, -1, -1)
    } else if v == 2 {
        (1, 1, -1)
    } else if v == 3 {
        (-1, 1, -1)
    } else if v == 4 {
        (-1, -1, 1)
    } else if v == 5 {
        (1, -1, 1)
    } else if v == 6 {
        (1, 1, 1)
    } else {
        (-1, 1, 1)
    }
}

/// Coordinate `axis` (0 = x, 1 = y, 2 = z) of a position.
pub open spec fn axis_coord(p: (int, int, int), axis: int) -> int {
    if axis == 0 { p.0 } else if axis == 1 { p.1 } else { p.2 }
}

/// The side of the cube that face `f` covers, as (axis, sign): front z = -1,
/// back z = +1, left x = -1, right x = +1, top y = -1, bottom y = +1.
pub open spec fn cube_face_side(f: int) -> (int, int) {
    if f == 0 {
        (2, -1)
    } else if f == 1 {
        (2, 1)
    } else if f == 2 {
        (0, -1)
    } else if f == 3 {
        (0, 1)
    } else if f == 4 {
        (1, -1)
    } else {
        (1, 1)
    }
}

/// Whether vertex `v` is one of the eight and lies on the side of face `f`.
pub open spec fn on_face_side(v: int, f: int) -> bool {
    0 <= v < 8 && axis_coord(cube_vertex_position(v), cube_face_side(f).0) == cube_face_side(f).1
}

/// Whether vertices `u` and `v` are the two ends of an edge of the cube: they
/// differ on exactly one axis.
pub open spec fn cube_edge(u: int, v: int) -> bool {
    let (p, q) = (cube_vertex_position(u), cube_vertex_position(v));
    (if p.0 != q.0 { 1int } else { 0 }) + (if p.1 != q.1 { 1int } else { 0 }) + (if p.2 != q.2 { 1int } else { 0 }) == 1
}

/// The four corners (indices into the eight cube vertices) of each face, in
/// drawing order: front, back, left, right, top, bottom.
pub open spec fn cube_face_corners(f: int) -> (usize, usize, usize, usize) {
    if f == 0 {
        (0, 1, 2, 3)
    } else if f == 1 {
        (5, 4, 7, 6)
    } else if f == 2 {
        (4, 0, 3, 7)
    } else if f == 3 {
        (1, 5, 6, 2)
    } else if f == 4 {
        (4, 5, 1, 0)
    } else {
        (3, 2, 6, 7)
    }
}

/// A triangle to fill: three indices into a list of projected points, and a color.
#[derive(Debug, Clone, Copy, PartialEq, Eq)]
pub struct ColoredTriangle {
    pub a: usize,
    pub b: usize,
    pub c: usize,
    pub color: [u8; 4],
}

/// The two triangles that fill a quad with corners p0, p1, p2, p3: (p0, p1, p2) and (p0, p2, p3).
pub open spec fn quad_triangles(p: (usize, usize, usize, usize), color: [u8; 4]) -> (ColoredTriangle, ColoredTriangle) {
    (
        ColoredTriangle { a: p.0, b: p.1, c: p.2, color },
        ColoredTriangle { a: p.0, b: p.2, c: p.3, color },
    )
}

/// The cube primitive: eight vertices, six quad faces.
pub struct Cube3D;

impl Cube3D {
    /// The six face colors of a color scheme: the solid color six times, or the
    /// per-face colors.
    pub fn face_colors(colors: CubeColors) -> (r: [[u8; 4]; 6])
        ensures
            forall|f: int| 0 <= f < 6 ==> #[trigger] r@[f] == face_color(colors, f),
    {
        match colors {
            CubeColors::Solid(col) => [col, col, col, col, col, col],
            CubeColors::PerFace(cols) => cols,
        }
    }

    /// The corners of face `f` (see [`cube_face_corners`]).
    pub fn face_corners(f: usize) -> (r: [usize; 4])
        requires
            f < 6,
        ensures
            (r@[0], r@[1], r@[2], r@[3]) == cube_face_corners(f as int),
            forall|v: usize| #[trigger] on_face_side(v as int, f as int) <==> (v == r@[0] || v == r@[1] || v == r@[2] || v == r@[3]),
    {
        proof {
            lemma_cube_faces(f as int);
        }
        if f == 0 {
            [0, 1, 2, 3]
        } else if f == 1 {
            [5, 4, 7, 6]
        } else if f == 2 {
            [4, 0, 3, 7]
        } else if f == 3 {
            [1, 5, 6, 2]
        } else if f == 4 {
            [4, 5, 1, 0]
        } else {
            [3, 2, 6, 7]
        }
    }

    /// The two triangles that fill face `f` with its color.
    pub fn face_triangles(f: usize, colors: CubeColors) -> (r: (ColoredTriangle, ColoredTriangle))
        requires
            f < 6,
        ensures
            r == quad_triangles(cube_face_corners(f as int), face_color(colors, f as int)),
    {
        let corners = Cube3D::face_corners(f);
        proof {
            lemma_cube_faces(f as int);
        }
        let cols = Cube3D::face_colors(colors);
        let color = cols[f];
        (
            ColoredTriangle { a: corners[0], b: corners[1], c: corners[2], color },
            ColoredTriangle { a: corners[0], b: corners[2], c: corners[3], color },
        )
    }
}

/// The plane primitive: a quad of four vertices.
pub struct Plane3D;

impl Plane3D {
    /// The triangles that fill the plane: none unless its four corners are all
    /// visible, else (0, 1, 2) and (0, 2, 3), in that order.
    pub fn triangles(visible: [bool; 4], color: [u8; 4]) -> (r: Vec<ColoredTriangle>)
        ensures
            !(visible@[0] && visible@[1] && visible@[2] && visible@[3]) ==> r@ == Seq::<ColoredTriangle>::empty(),
            (visible@[0] && visible@[1] && visible@[2] && visible@[3]) ==> r@ == seq![
                quad_triangles((0, 1, 2, 3), color).0,
                quad_triangles((0, 1, 2, 3), color).1,
            ],
            (visible@[0] && visible@[1] && visible@[2] && visible@[3]) ==> r@ == seq![
                ColoredTriangle { a: 0, b: 1, c: 2, color },
                ColoredTriangle { a: 0, b: 2, c: 3, color },
            ],
    {
        let mut r: Vec<ColoredTriangle> = Vec::new();
        if visible[0] && visible[1] && visible[2] && visible[3] {
            r.push(ColoredTriangle { a: 0, b: 1, c: 2, color });
            r.push(ColoredTriangle { a: 0, b: 2, c: 3, color });
        }
        r
    }
}

/// Every triangle of a capsule mesh refers to vertices of the mesh.
pub proof fn lemma_capsule_indices_in_range(lat_rings: int, lon_segments: int, i: int, j: int)
    requires
        0 <= lat_rings,
        0 <= lon_segments,
        capsule_vertex_count(lat_rings, lon_segments) <= usize::MAX,
        0 <= i < capsule_rings(lat_rings) - 1,
        0 <= j < lon_segments,
    ensures
        capsule_quad(lon_segments, i, j).0.a < capsule_vertex_count(lat_rings, lon_segments),
        capsule_quad(lon_segments, i, j).0.b < capsule_vertex_count(lat_rings, lon_segments),
        capsule_quad(lon_segments, i, j).0.c < capsule_vertex_count(lat_rings, lon_segments),
        capsule_quad(lon_segments, i, j).1.a < capsule_vertex_count(lat_rings, lon_segments),
        capsule_quad(lon_segments, i, j).1.b < capsule_vertex_count(lat_rings, lon_segments),
        capsule_quad(lon_segments, i, j).1.c < capsule_vertex_count(lat_rings, lon_segments),
{
    let stride = lon_segments + 1;
    let rings = capsule_rings(lat_rings);
    assert(i * stride + j + stride + 1 < rings * stride) by (nonlinear_arith)
        requires i + 2 <= rings, j + 1 < stride, 0 <= i, 0 <= j;
    assert(0 <= i * stride) by (nonlinear_arith)
        requires 0 <= i, 0 <= stride;
}

/// Each face of the cube is one of its six sides: its four corners are
/// distinct, are exactly the vertices on that side, and go around the side
/// edge by edge (so the quad they span is the whole side).
pub proof fn lemma_cube_faces(f: int)
    requires
        0 <= f < 6,
    ensures
        ({
            let (a, b, c, d) = cube_face_corners(f);
            &&& forall|v: int| #[trigger] on_face_side(v, f) <==> (v == a || v == b || v == c || v == d)
            &&& a != b && a != c && a != d && b != c && b != d && c != d
            &&& cube_edge(a as int, b as int) && cube_edge(b as int, c as int)
            &&& cube_edge(c as int, d as int) && cube_edge(d as int, a as int)
        }),
{
}

/// No two faces cover the same side: some corner of one is not on the side of the other.
pub proof fn lemma_cube_faces_distinct(f: int, g: int)
    requires
        0 <= f < 6,
        0 <= g < 6,
        f != g,
    ensures
        ({
            let (a, b, c, d) = cube_face_corners(f);
            !(on_face_side(a as int, g) && on_face_side(b as int, g) && on_face_side(c as int, g) && on_face_side(d as int, g))
        }),
{
}

/// The two triangles of a face fill its side: both start at one corner, the
/// first goes to a neighbouring corner and then to the opposite one, the second
/// from the opposite corner to the other neighbour, so they share the diagonal
/// and together use all four corners; both take the face's color (the solid
/// color, or the face's own color, in the order front, back, left, right, top,
/// bottom).
pub proof fn lemma_face_triangles_fill_side(f: int, colors: CubeColors)
    requires
        0 <= f < 6,
    ensures
        ({
            let (t, u) = quad_triangles(cube_face_corners(f), face_color(colors, f));
            let color = match colors { CubeColors::Solid(c) => c, CubeColors::PerFace(cs) => cs@[f] };
            &&& t.a == u.a && t.c == u.b
            &&& on_face_side(t.a as int, f) && on_face_side(t.b as int, f) && on_face_side(t.c as int, f) && on_face_side(u.c as int, f)
            &&& t.a != t.b && t.a != t.c && t.a != u.c && t.b != t.c && t.b != u.c && t.c != u.c
            &&& cube_edge(t.a as int, t.b as int) && cube_edge(t.a as int, u.c as int)
            &&& !cube_edge(t.a as int, t.c as int)
            &&& t.color == color && u.color == color
        }),
{
    lemma_cube_faces(f);
}

} // verus!
