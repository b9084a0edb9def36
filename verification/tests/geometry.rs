use icomesh::icosphere::{icosphere_plan, MeshPlan};
use icomesh::mesh::{icosahedron_faces, Edge};
use icomesh::plan::push_arc_cuts;

const EPS: f32 = 1e-6;

type V3 = [f32; 3];

fn add(a: V3, b: V3) -> V3 {
    [a[0] + b[0], a[1] + b[1], a[2] + b[2]]
}

fn sub(a: V3, b: V3) -> V3 {
    [a[0] - b[0], a[1] - b[1], a[2] - b[2]]
}

fn scale(a: V3, s: f32) -> V3 {
    [a[0] * s, a[1] * s, a[2] * s]
}

fn norm(a: V3) -> f32 {
    (a[0] * a[0] + a[1] * a[1] + a[2] * a[2]).sqrt()
}

fn dist(a: V3, b: V3) -> f32 {
    norm(sub(a, b))
}

fn normalize(a: V3) -> V3 {
    let n = norm(a);
    if n != 0.0 {
        [a[0] / n, a[1] / n, a[2] / n]
    } else {
        a
    }
}

fn rot_y(theta: f32, v: V3) -> V3 {
    let (s, c) = theta.sin_cos();
    [c * v[0] + s * v[2], v[1], -s * v[0] + c * v[2]]
}

fn rot_z(theta: f32, v: V3) -> V3 {
    let (s, c) = theta.sin_cos();
    [c * v[0] - s * v[1], s * v[0] + c * v[1], v[2]]
}

const FRAC_PI_5: f32 = 0.62831853071795864769252867665590057_f32;
const FRAC_TAU_5: f32 = 1.25663706143591729538505735331180115_f32;

/// The golden-ratio icosahedron construction: top pole, upper ring spun from
/// a seed point by fifths of a turn, lower ring as the upper ring rotated a
/// tenth of a turn and reflected, bottom pole.
fn icosahedron_points(radius: f32) -> Vec<V3> {
    let a = 1_f32 / 5_f32.sqrt() * radius;
    let mut pts: Vec<V3> = Vec::with_capacity(12);
    pts.push([0.0, radius, 0.0]);
    pts.push([2.0 * a, a, 0.0]);
    for i in 1..=4 {
        pts.push(rot_y(FRAC_TAU_5 * i as f32, pts[1]));
    }
    for i in 1..=5 {
        let shifted = sub(pts[i], [0.0, 2.0 * a, 0.0]);
        pts.push(rot_y(FRAC_PI_5, shifted));
    }
    pts.push([0.0, -radius, 0.0]);
    pts
}

/// Evaluates a subdivision plan over the unit icosahedron seeds, then scales
/// every point onto the sphere of the given radius.
fn build_points(radius: f32, plan: &MeshPlan) -> Vec<V3> {
    let mut pts = icosahedron_points(1.0);
    pts.resize(plan.vertex_count, [0.0; 3]);
    for b in &plan.steps {
        pts[b.dest] = normalize(add(pts[b.start], pts[b.end]));
    }
    for p in pts.iter_mut() {
        *p = scale(*p, radius);
    }
    pts
}

#[test]
fn icosahedron_vertices_are_on_exact_positions() {
    for radius in [0.5f32, 1.0, 2.0] {
        let a = 1.0 / 5_f32.sqrt();
        let b = 2.0 * a;
        let c = (1.0 - a) / 2.0;
        let d = ((1.0 + a) / 2.0).sqrt();
        let e = (-1.0 - a) / 2.0;
        let f = c.sqrt();
        let expect: [V3; 12] = [
            [0.0, 1.0, 0.0],
            [b, a, 0.0],
            [c, a, -d],
            [e, a, -f],
            [e, a, f],
            [c, a, d],
            [-e, -a, -f],
            [-c, -a, -d],
            [-b, -a, 0.0],
            [-c, -a, d],
            [-e, -a, f],
            [0.0, -1.0, 0.0],
        ];
        let pts = icosahedron_points(radius);
        assert_eq!(pts.len(), 12);
        for (p, q) in pts.iter().zip(expect.iter()) {
            for i in 0..3 {
                assert!((p[i] - q[i] * radius).abs() < EPS, "radius {radius}");
            }
        }
    }
}

#[test]
fn icosahedron_vertices_lie_on_the_sphere() {
    for radius in [0.5f32, 1.0, 2.0] {
        for p in icosahedron_points(radius) {
            assert!((norm(p) - radius).abs() < EPS);
        }
    }
}

#[test]
fn icosphere_vertices_lie_on_the_sphere() {
    for (radius, division) in [
        (1.0f32, 0usize),
        (1.0, 1),
        (1.0, 2),
        (1.0, 3),
        (1.0, 4),
        (0.5, 2),
        (2.0, 2),
    ] {
        let plan = icosphere_plan(division);
        let pts = build_points(radius, &plan);
        assert_eq!(pts.len(), 10 * 4usize.pow(division as u32) + 2);
        assert_eq!(plan.indices.len(), 60 * 4usize.pow(division as u32));
        for p in &pts {
            assert!(
                (norm(*p) - radius).abs() < EPS,
                "radius {radius}, division {division}"
            );
        }
    }
}

#[test]
fn icosphere_at_division_zero_matches_the_icosahedron_exactly() {
    let plan = icosphere_plan(0);
    let sphere = build_points(1.0, &plan);
    let ico = icosahedron_points(1.0);
    assert_eq!(sphere, ico);
}

#[test]
fn cut_arc_matches_equal_angle_rotations() {
    for n in [2usize, 4, 8, 16] {
        let s: V3 = rot_y(-std::f32::consts::FRAC_PI_4, [1.0, 0.0, 0.0]);
        let e: V3 = [0.0, 1.0, 0.0];
        let mut buf: Vec<V3> = vec![[0.0; 3]; n + 1];
        buf[0] = s;
        buf[1] = e;

        let mut expect = buf.clone();
        let theta = std::f32::consts::FRAC_PI_2 / n as f32;
        for i in 1..n {
            expect[i + 1] = rot_y(
                -std::f32::consts::FRAC_PI_4,
                rot_z(theta * i as f32, [1.0, 0.0, 0.0]),
            );
        }

        let mut plan = Vec::new();
        push_arc_cuts(&mut plan, 2, n - 1, 0, 1);
        for b in &plan {
            buf[b.dest] = normalize(add(buf[b.start], buf[b.end]));
        }
        for (p, q) in buf.iter().zip(expect.iter()) {
            for i in 0..3 {
                assert!((p[i] - q[i]).abs() < EPS, "n = {n}");
            }
        }
    }
}

#[test]
fn shared_edge_pieces_all_have_the_same_length() {
    for division in 0..=5usize {
        let unit = (1usize << division) - 1;
        let plan = icosphere_plan(division);
        let pts = build_points(1.0, &plan);
        let faces = icosahedron_faces(12, unit);
        let mut low = f32::MAX;
        let mut high = f32::MIN;
        for f in &faces {
            for i in 0..3 {
                let mut walk: Vec<V3> = vec![pts[f.v[i]]];
                match f.e[i] {
                    Edge::Forward { off, len } => {
                        for j in off..off + len {
                            walk.push(pts[j]);
                        }
                    }
                    Edge::Reverse { off, len } => {
                        for j in (off..off + len).rev() {
                            walk.push(pts[j]);
                        }
                    }
                }
                walk.push(pts[f.v[(i + 1) % 3]]);
                for w in walk.windows(2) {
                    let d = dist(w[0], w[1]);
                    low = low.min(d);
                    high = high.max(d);
                }
            }
        }
        assert!(high - low < EPS, "division {division}");
    }
}

#[test]
fn normalize_is_idempotent() {
    let mut samples: Vec<V3> = vec![
        [3.0, -4.0, 12.0],
        [1e-3, 2e-3, -5e-4],
        [100.0, 0.5, -7.25],
        [0.0, 0.0, 2.0],
    ];
    samples.extend(build_points(2.0, &icosphere_plan(2)));
    for v in samples {
        let once = normalize(v);
        let twice = normalize(once);
        for i in 0..3 {
            assert!((twice[i] - once[i]).abs() < EPS);
        }
    }
}
