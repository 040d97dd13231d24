//! The per-pixel orchestration: derive the camera basis once, compute each
//! pixel's ray and its plaintext intersection witness, assign the expected
//! color, and assemble one circuit instance per pixel, together with the
//! binary portable-pixmap serialization of the color buffer.
//!
//! Scenes whose intermediate fixed-point values leave the supported envelope
//! (a degenerate camera, a nearly-zero direction vector, an oversized
//! intersection parameter) are rejected as a whole rather than rendered
//! wrongly: the result is `None` exactly when some runtime envelope check
//! fails, and the contract states those checks as `scene_ok`.

use vstd::prelude::*;
use crate::geometry::{
    bounded,
    fixdiv,
    intersect_t,
    lemma_fixmul_bound,
    pt,
    v_add,
    v_cross,
    v_dot,
    v_norm,
    v_scale,
    v_sub,
    Point,
    Ray,
    Sphere,
};
use crate::tracer::{envelope, RayTracer};

verus! {

/// The normalized screen coordinate of pixel `i` of `n`: `(i - n/2) / n * 2`
/// in fixed point.
pub open spec fn pixel_frac(i: int, n: int) -> int {
    fixdiv((i - n / 2) * 0x200000000, n)
}

pub open spec fn cam_dir(cam: (int, int, int), lookat: (int, int, int)) -> (int, int, int) {
    v_norm(v_sub(lookat, cam))
}

pub open spec fn up_axis() -> (int, int, int) {
    (0, 0x100000000, 0)
}

pub open spec fn cam_right(cam: (int, int, int), lookat: (int, int, int)) -> (int, int, int) {
    v_norm(v_cross(up_axis(), cam_dir(cam, lookat)))
}

pub open spec fn cam_up(cam: (int, int, int), lookat: (int, int, int)) -> (int, int, int) {
    v_norm(v_cross(cam_dir(cam, lookat), cam_right(cam, lookat)))
}

pub open spec fn cam_center(cam: (int, int, int), lookat: (int, int, int)) -> (int, int, int) {
    v_add(cam, cam_dir(cam, lookat))
}

/// The un-normalized ray vector of pixel `(x, y)`.
pub open spec fn pixel_raw(
    cam: (int, int, int),
    lookat: (int, int, int),
    w: int,
    h: int,
    x: int,
    y: int,
) -> (int, int, int) {
    v_sub(
        v_add(
            v_add(cam_center(cam, lookat), v_scale(cam_right(cam, lookat), pixel_frac(x, w))),
            v_scale(cam_up(cam, lookat), pixel_frac(y, h)),
        ),
        cam,
    )
}

pub open spec fn pixel_dir(
    cam: (int, int, int),
    lookat: (int, int, int),
    w: int,
    h: int,
    x: int,
    y: int,
) -> (int, int, int) {
    v_norm(pixel_raw(cam, lookat, w, h, x, y))
}

/// The plaintext intersection parameter of pixel `(x, y)`, when the ray hits.
pub open spec fn pixel_hit(
    cam: (int, int, int),
    lookat: (int, int, int),
    sphere: Sphere,
    w: int,
    h: int,
    x: int,
    y: int,
) -> Option<int> {
    intersect_t(pt(sphere.center), sphere.radius as int, cam, pixel_dir(cam, lookat, w, h, x, y))
}

pub open spec fn yellow() -> (int, int, int) {
    (0x100000000, 0x100000000, 0)
}

/// The color a pixel is expected to get: yellow on a hit, black otherwise.
pub open spec fn expected_color(
    cam: (int, int, int),
    lookat: (int, int, int),
    sphere: Sphere,
    w: int,
    h: int,
    x: int,
    y: int,
) -> (int, int, int) {
    if pixel_hit(cam, lookat, sphere, w, h, x, y) is Some {
        yellow()
    } else {
        (0, 0, 0)
    }
}

/// The camera basis stays inside the envelope.
pub open spec fn basis_ok(cam: (int, int, int), lookat: (int, int, int)) -> bool {
    let s = v_sub(lookat, cam);
    let d = cam_dir(cam, lookat);
    let c1 = v_cross(up_axis(), d);
    let r = cam_right(cam, lookat);
    let c2 = v_cross(d, r);
    &&& v_dot(s, s) >= 1
    &&& bounded(d, 0x10000000000)
    &&& v_dot(c1, c1) >= 1
    &&& bounded(r, 0x10000000000)
    &&& v_dot(c2, c2) >= 1
    &&& bounded(cam_up(cam, lookat), 0x10000000000)
}

/// One pixel's intermediate values stay inside the envelope.
pub open spec fn pixel_ok(
    cam: (int, int, int),
    lookat: (int, int, int),
    sphere: Sphere,
    w: int,
    h: int,
    x: int,
    y: int,
) -> bool {
    let raw = pixel_raw(cam, lookat, w, h, x, y);
    &&& v_dot(raw, raw) >= 1
    &&& bounded(pixel_dir(cam, lookat, w, h, x, y), 0x10000000000)
    &&& (pixel_hit(cam, lookat, sphere, w, h, x, y) matches Some(t) ==> t <= 0x200000000000)
}

/// Every envelope check the renderer performs.
pub open spec fn scene_ok(
    cam: (int, int, int),
    lookat: (int, int, int),
    sphere: Sphere,
    w: int,
    h: int,
) -> bool {
    &&& basis_ok(cam, lookat)
    &&& forall|x: int, y: int|
        0 <= x < w && 0 <= y < h ==> #[trigger] pixel_ok(cam, lookat, sphere, w, h, x, y)
}

/// One circuit instance built for pixel `(x, y)`, as the renderer leaves it.
pub open spec fn pix_circuit_ok(
    c: RayTracer,
    cam: Point,
    lookat: Point,
    sphere: Sphere,
    w: int,
    h: int,
    x: int,
    y: int,
) -> bool {
    &&& c.sphere == sphere
    &&& pt(c.ray.pos) == pt(cam)
    &&& pt(c.ray.dir) == pixel_dir(pt(cam), pt(lookat), w, h, x, y)
    &&& (c.collision is Some <==> pixel_hit(pt(cam), pt(lookat), sphere, w, h, x, y) is Some)
    &&& (c.collision matches Some(t) ==> pixel_hit(pt(cam), pt(lookat), sphere, w, h, x, y)
        == Option::Some(t as int))
    &&& envelope(c)
    &&& pt(c.color) == expected_color(pt(cam), pt(lookat), sphere, w, h, x, y)
}

/// The renderer's output: the color buffer, rows emitted top-to-bottom, and
/// one circuit instance per pixel in row-major pixel order.
pub struct RenderOutput {
    pub colors: Vec<Vec<Point>>,
    pub circuits: Vec<RayTracer>,
}

fn frac_of(i: usize, n: usize) -> (r: i128)
    requires
        1 <= n <= 4096,
        i < n,
    ensures
        r == pixel_frac(i as int, n as int),
        -0x200000000000 <= r <= 0x200000000000,
{
    let half = n / 2;
    let num: i128 = ((i as i128) - (half as i128)) * 0x200000000;
    crate::geometry::fdiv(num, n as i128)
}

/// Compute the color buffer and the per-pixel circuit instances for a
/// `width x height` image of `sphere` seen from `cam` looking at `lookat`.
pub fn render_scene(
    width: usize,
    height: usize,
    cam: Point,
    lookat: Point,
    sphere: Sphere,
) -> (r: Option<RenderOutput>)
    requires
        1 <= width <= 4096,
        1 <= height <= 4096,
        bounded(pt(cam), 0x200000000000),
        bounded(pt(lookat), 0x200000000000),
        bounded(pt(sphere.center), 0x200000000000),
        -0x200000000000 <= sphere.radius <= 0x200000000000,
    ensures
        r is Some <==> scene_ok(pt(cam), pt(lookat), sphere, width as int, height as int),
        r matches Some(out) ==> {
            &&& out.circuits@.len() == width * height
            &&& out.colors@.len() == height
            &&& (forall|rr: int| 0 <= rr < height ==> (#[trigger] out.colors@[rr])@.len() == width)
            &&& (forall|x: int, y: int|
                0 <= x < width && 0 <= y < height ==> pix_circuit_ok(
                    #[trigger] out.circuits@[y * width + x],
                    cam,
                    lookat,
                    sphere,
                    width as int,
                    height as int,
                    x,
                    y,
                ))
            &&& (forall|x: int, rr: int|
                0 <= x < width && 0 <= rr < height ==> pt(#[trigger] out.colors@[rr]@[x])
                    == expected_color(
                    pt(cam),
                    pt(lookat),
                    sphere,
                    width as int,
                    height as int,
                    x,
                    height - 1 - rr,
                ))
        },
{
    let sub0 = lookat.sub(cam);
    let d0 = sub0.dot(sub0);
    if d0 < 1 {
        proof {
            assert(!basis_ok(pt(cam), pt(lookat)));
        }
        return None;
    }
    let dir = sub0.norm();
    if dir.x < -0x10000000000 || dir.x > 0x10000000000 || dir.y < -0x10000000000 || dir.y
        > 0x10000000000 || dir.z < -0x10000000000 || dir.z > 0x10000000000 {
        proof {
            assert(!basis_ok(pt(cam), pt(lookat)));
        }
        return None;
    }
    let center = cam.add(dir);
    let c1 = Point::up().cross(dir);
    proof {
        lemma_fixmul_bound(0x100000000, dir.x as int, 0x10000000000);
        lemma_fixmul_bound(0x100000000, dir.y as int, 0x10000000000);
        lemma_fixmul_bound(0x100000000, dir.z as int, 0x10000000000);
        lemma_fixmul_bound(dir.x as int, 0, 0x10000000000);
    }
    let dc1 = c1.dot(c1);
    if dc1 < 1 {
        proof {
            assert(!basis_ok(pt(cam), pt(lookat)));
        }
        return None;
    }
    let right_v = c1.norm();
    if right_v.x < -0x10000000000 || right_v.x > 0x10000000000 || right_v.y < -0x10000000000
        || right_v.y > 0x10000000000 || right_v.z < -0x10000000000 || right_v.z > 0x10000000000 {
        proof {
            assert(!basis_ok(pt(cam), pt(lookat)));
        }
        return None;
    }
    let c2 = dir.cross(right_v);
    proof {
        lemma_fixmul_bound(dir.x as int, right_v.x as int, 0x10000000000);
        lemma_fixmul_bound(dir.x as int, right_v.y as int, 0x10000000000);
        lemma_fixmul_bound(dir.x as int, right_v.z as int, 0x10000000000);
        lemma_fixmul_bound(dir.y as int, right_v.x as int, 0x10000000000);
        lemma_fixmul_bound(dir.y as int, right_v.z as int, 0x10000000000);
        lemma_fixmul_bound(dir.z as int, right_v.x as int, 0x10000000000);
        lemma_fixmul_bound(dir.z as int, right_v.y as int, 0x10000000000);
    }
    let dc2 = c2.dot(c2);
    if dc2 < 1 {
        proof {
            assert(!basis_ok(pt(cam), pt(lookat)));
        }
        return None;
    }
    let up_v = c2.norm();
    if up_v.x < -0x10000000000 || up_v.x > 0x10000000000 || up_v.y < -0x10000000000 || up_v.y
        > 0x10000000000 || up_v.z < -0x10000000000 || up_v.z > 0x10000000000 {
        proof {
            assert(!basis_ok(pt(cam), pt(lookat)));
        }
        return None;
    }
    proof {
        assert(basis_ok(pt(cam), pt(lookat)));
    }
    let mut circuits: Vec<RayTracer> = Vec::new();
    let mut rows: Vec<Vec<Point>> = Vec::new();
    let mut y: usize = 0;
    while y < height
        invariant
            1 <= width <= 4096,
            1 <= height <= 4096,
            bounded(pt(cam), 0x200000000000),
            bounded(pt(lookat), 0x200000000000),
            bounded(pt(sphere.center), 0x200000000000),
            -0x200000000000 <= sphere.radius <= 0x200000000000,
            y <= height,
            basis_ok(pt(cam), pt(lookat)),
            pt(dir) == cam_dir(pt(cam), pt(lookat)),
            pt(right_v) == cam_right(pt(cam), pt(lookat)),
            pt(up_v) == cam_up(pt(cam), pt(lookat)),
            pt(center) == cam_center(pt(cam), pt(lookat)),
            bounded(pt(dir), 0x10000000000),
            bounded(pt(right_v), 0x10000000000),
            bounded(pt(up_v), 0x10000000000),
            bounded(pt(center), 0x300000000000),
            circuits@.len() == y * width,
            rows@.len() == y,
            forall|yy: int| 0 <= yy < y ==> (#[trigger] rows@[yy])@.len() == width,
            forall|xx: int, yy: int|
                0 <= xx < width && 0 <= yy < y ==> pix_circuit_ok(
                    #[trigger] circuits@[yy * width + xx],
                    cam,
                    lookat,
                    sphere,
                    width as int,
                    height as int,
                    xx,
                    yy,
                ),
            forall|xx: int, yy: int|
                0 <= xx < width && 0 <= yy < y ==> pt(#[trigger] rows@[yy]@[xx]) == expected_color(
                    pt(cam),
                    pt(lookat),
                    sphere,
                    width as int,
                    height as int,
                    xx,
                    yy,
                ),
            forall|xx: int, yy: int|
                0 <= xx < width && 0 <= yy < y ==> #[trigger] pixel_ok(
                    pt(cam),
                    pt(lookat),
                    sphere,
                    width as int,
                    height as int,
                    xx,
                    yy,
                ),
        decreases height - y,
    {
        let py = frac_of(y, height);
        let up_scaled = up_v.mul(py);
        proof {
            lemma_fixmul_bound(up_v.x as int, py as int, 0x200000000000);
            lemma_fixmul_bound(up_v.y as int, py as int, 0x200000000000);
            lemma_fixmul_bound(up_v.z as int, py as int, 0x200000000000);
        }
        let mut row: Vec<Point> = Vec::new();
        let mut x: usize = 0;
        while x < width
            invariant
                1 <= width <= 4096,
                1 <= height <= 4096,
                y < height,
                x <= width,
                bounded(pt(cam), 0x200000000000),
                bounded(pt(lookat), 0x200000000000),
                bounded(pt(sphere.center), 0x200000000000),
                -0x200000000000 <= sphere.radius <= 0x200000000000,
                basis_ok(pt(cam), pt(lookat)),
                pt(dir) == cam_dir(pt(cam), pt(lookat)),
                pt(right_v) == cam_right(pt(cam), pt(lookat)),
                pt(up_v) == cam_up(pt(cam), pt(lookat)),
                pt(center) == cam_center(pt(cam), pt(lookat)),
                bounded(pt(dir), 0x10000000000),
                bounded(pt(right_v), 0x10000000000),
                bounded(pt(up_v), 0x10000000000),
                bounded(pt(center), 0x300000000000),
                py == pixel_frac(y as int, height as int),
                -0x200000000000 <= py <= 0x200000000000,
                pt(up_scaled) == v_scale(cam_up(pt(cam), pt(lookat)), pixel_frac(y as int, height as int)),
                bounded(pt(up_scaled), 0x400000000000000),
                circuits@.len() == y * width + x,
                rows@.len() == y,
                row@.len() == x,
                forall|yy: int| 0 <= yy < y ==> (#[trigger] rows@[yy])@.len() == width,
                forall|xx: int, yy: int|
                    0 <= xx < width && 0 <= yy < y ==> pix_circuit_ok(
                        #[trigger] circuits@[yy * width + xx],
                        cam,
                        lookat,
                        sphere,
                        width as int,
                        height as int,
                        xx,
                        yy,
                    ),
                forall|xx: int, yy: int|
                    0 <= xx < width && 0 <= yy < y ==> pt(#[trigger] rows@[yy]@[xx])
                        == expected_color(
                        pt(cam),
                        pt(lookat),
                        sphere,
                        width as int,
                        height as int,
                        xx,
                        yy,
                    ),
                forall|xx: int, yy: int|
                    0 <= xx < width && 0 <= yy < y ==> #[trigger] pixel_ok(
                        pt(cam),
                        pt(lookat),
                        sphere,
                        width as int,
                        height as int,
                        xx,
                        yy,
                    ),
                forall|xx: int|
                    0 <= xx < x ==> pix_circuit_ok(
                        #[trigger] circuits@[y * width + xx],
                        cam,
                        lookat,
                        sphere,
                        width as int,
                        height as int,
                        xx,
                        y as int,
                    ),
                forall|xx: int|
                    0 <= xx < x ==> pt(#[trigger] row@[xx]) == expected_color(
                        pt(cam),
                        pt(lookat),
                        sphere,
                        width as int,
                        height as int,
                        xx,
                        y as int,
                    ),
                forall|xx: int|
                    0 <= xx < x ==> #[trigger] pixel_ok(
                        pt(cam),
                        pt(lookat),
                        sphere,
                        width as int,
                        height as int,
                        xx,
                        y as int,
                    ),
            decreases width - x,
        {
            let px = frac_of(x, width);
            let right_scaled = right_v.mul(px);
            proof {
                lemma_fixmul_bound(right_v.x as int, px as int, 0x200000000000);
                lemma_fixmul_bound(right_v.y as int, px as int, 0x200000000000);
                lemma_fixmul_bound(right_v.z as int, px as int, 0x200000000000);
            }
            proof {
                assert((0x200000000000 * 0x200000000000) / 0x100000000 == 0x400000000000000) by (
                nonlinear_arith);
                assert(bounded(pt(right_scaled), 0x400000000000000));
                assert(bounded(pt(up_scaled), 0x400000000000000));
            }
            let raw = center.add(right_scaled).add(up_scaled).sub(cam);
            proof {
                assert(bounded(pt(raw), 0x2000000000000000));
            }
            let d = raw.dot(raw);
            proof {
                assert(pt(raw) == pixel_raw(
                    pt(cam),
                    pt(lookat),
                    width as int,
                    height as int,
                    x as int,
                    y as int,
                ));
            }
            if d < 1 {
                proof {
                    assert(!pixel_ok(
                        pt(cam),
                        pt(lookat),
                        sphere,
                        width as int,
                        height as int,
                        x as int,
                        y as int,
                    ));
                    assert(!scene_ok(pt(cam), pt(lookat), sphere, width as int, height as int));
                }
                return None;
            }
            let rdir = raw.norm();
            if rdir.x < -0x10000000000 || rdir.x > 0x10000000000 || rdir.y < -0x10000000000
                || rdir.y > 0x10000000000 || rdir.z < -0x10000000000 || rdir.z > 0x10000000000 {
                proof {
                    assert(!pixel_ok(
                        pt(cam),
                        pt(lookat),
                        sphere,
                        width as int,
                        height as int,
                        x as int,
                        y as int,
                    ));
                    assert(!scene_ok(pt(cam), pt(lookat), sphere, width as int, height as int));
                }
                return None;
            }
            let ray = Ray { pos: cam, dir: rdir };
            let isect = sphere.intersects(&ray);
            let collision: Option<i128> = match isect {
                Some(t) => {
                    if t > 0x200000000000 {
                        proof {
                            assert(!pixel_ok(
                                pt(cam),
                                pt(lookat),
                                sphere,
                                width as int,
                                height as int,
                                x as int,
                                y as int,
                            ));
                            assert(!scene_ok(
                                pt(cam),
                                pt(lookat),
                                sphere,
                                width as int,
                                height as int,
                            ));
                        }
                        return None;
                    }
                    Some(t)
                },
                None => None,
            };
            let color = match collision {
                Some(_) => Point::new(0x100000000, 0x100000000, 0),
                None => Point::zero(),
            };
            let rt = RayTracer { ray, collision, sphere, color };
            proof {
                assert(pixel_ok(
                    pt(cam),
                    pt(lookat),
                    sphere,
                    width as int,
                    height as int,
                    x as int,
                    y as int,
                ));
                assert(pix_circuit_ok(
                    rt,
                    cam,
                    lookat,
                    sphere,
                    width as int,
                    height as int,
                    x as int,
                    y as int,
                ));
            }
            circuits.push(rt);
            row.push(color);
            proof {
                assert forall|xx: int, yy: int|
                    0 <= xx < width && 0 <= yy < y implies pix_circuit_ok(
                    #[trigger] circuits@[yy * width + xx],
                    cam,
                    lookat,
                    sphere,
                    width as int,
                    height as int,
                    xx,
                    yy,
                ) by {
                    assert(0 <= yy * width + xx < y * width) by (nonlinear_arith)
                        requires
                            0 <= xx < width,
                            0 <= yy < y,
                    ;
                }
            }
            x = x + 1;
        }
        rows.push(row);
        proof {
            assert(circuits@.len() == y * width + width);
            assert(y * width + width == (y + 1) * width) by (nonlinear_arith);
            assert forall|xx: int, yy: int|
                0 <= xx < width && 0 <= yy < y + 1 implies pix_circuit_ok(
                #[trigger] circuits@[yy * width + xx],
                cam,
                lookat,
                sphere,
                width as int,
                height as int,
                xx,
                yy,
            ) by {
                assert(0 <= yy * width + xx < (y + 1) * width) by (nonlinear_arith)
                    requires
                        0 <= xx < width,
                        0 <= yy < y + 1,
                ;
                if yy == y {
                    assert(pix_circuit_ok(
                        circuits@[y * width + xx],
                        cam,
                        lookat,
                        sphere,
                        width as int,
                        height as int,
                        xx,
                        y as int,
                    ));
                }
            }
            assert forall|xx: int, yy: int| 0 <= xx < width && 0 <= yy < y + 1 implies pt(
                #[trigger] rows@[yy]@[xx],
            ) == expected_color(
                pt(cam),
                pt(lookat),
                sphere,
                width as int,
                height as int,
                xx,
                yy,
            ) by {
                if yy < y {
                    assert(rows@[yy] == rows@.drop_last()[yy]);
                } else {
                    assert(rows@[yy] == rows@.last());
                }
            }
        }
        y = y + 1;
    }
    let mut colors: Vec<Vec<Point>> = Vec::new();
    let ghost rows_snap = rows@;
    while rows.len() > 0
        invariant
            rows_snap.len() == height,
            colors@.len() + rows@.len() == height,
            rows@ == rows_snap.take(rows@.len() as int),
            forall|rr: int|
                0 <= rr < colors@.len() ==> #[trigger] colors@[rr] == rows_snap[height - 1 - rr],
        decreases rows@.len(),
    {
        let last = match rows.pop() {
            Some(v) => v,
            None => {
                proof {
                    assert(false);
                }
                Vec::new()
            },
        };
        proof {
            assert(rows_snap.take(rows@.len() + 1int).last() == rows_snap[rows@.len() as int]);
            assert(rows_snap.take(rows@.len() + 1int).drop_last() =~= rows_snap.take(
                rows@.len() as int,
            ));
        }
        colors.push(last);
    }
    proof {
        assert(width * height == height * width) by (nonlinear_arith);
        assert(scene_ok(pt(cam), pt(lookat), sphere, width as int, height as int));
        assert forall|rr: int| 0 <= rr < height implies (#[trigger] colors@[rr])@.len()
            == width by {
            assert(colors@[rr] == rows_snap[height - 1 - rr]);
        }
        assert forall|x: int, rr: int| 0 <= x < width && 0 <= rr < height implies pt(
            #[trigger] colors@[rr]@[x],
        ) == expected_color(
            pt(cam),
            pt(lookat),
            sphere,
            width as int,
            height as int,
            x,
            height - 1 - rr,
        ) by {
            assert(colors@[rr] == rows_snap[height - 1 - rr]);
            assert(pt(rows_snap[height - 1 - rr]@[x]) == expected_color(
                pt(cam),
                pt(lookat),
                sphere,
                width as int,
                height as int,
                x,
                height - 1 - rr,
            ));
        }
    }
    Some(RenderOutput { colors, circuits })
}

/// The decimal digits of `n`, as ASCII bytes.
pub open spec fn dec_digits(n: nat) -> Seq<u8>
    decreases n,
{
    if n < 10 {
        seq![(48 + n) as u8]
    } else {
        dec_digits(n / 10).push((48 + (n % 10)) as u8)
    }
}

pub fn dec_bytes(n: u64) -> (r: Vec<u8>)
    ensures
        r@ == dec_digits(n as nat),
    decreases n,
{
    if n < 10 {
        let mut v: Vec<u8> = Vec::new();
        v.push(48 + (n as u8));
        proof {
            assert(v@ =~= dec_digits(n as nat));
        }
        v
    } else {
        let mut v = dec_bytes(n / 10);
        v.push(48 + ((n % 10) as u8));
        v
    }
}

/// One color channel scaled to an 8-bit value: `channel * 255` truncated,
/// saturating at the ends exactly as the real-to-byte cast does.
pub open spec fn channel_byte(v: int) -> int {
    if v < 0 {
        0
    } else {
        let q = (v * 255) / 0x100000000;
        if q > 255 {
            255
        } else {
            q
        }
    }
}

pub open spec fn pixel_bytes(p: (int, int, int)) -> Seq<u8> {
    seq![channel_byte(p.0) as u8, channel_byte(p.1) as u8, channel_byte(p.2) as u8]
}

pub open spec fn row_bytes(row: Seq<Point>) -> Seq<u8>
    decreases row.len(),
{
    if row.len() == 0 {
        Seq::empty()
    } else {
        row_bytes(row.drop_last()) + pixel_bytes(pt(row.last()))
    }
}

pub open spec fn image_bytes(rows: Seq<Vec<Point>>) -> Seq<u8>
    decreases rows.len(),
{
    if rows.len() == 0 {
        Seq::empty()
    } else {
        image_bytes(rows.drop_last()) + row_bytes(rows.last()@)
    }
}

/// The ASCII header `P6 <w> <h> 255\n`.
pub open spec fn ppm_header(w: nat, h: nat) -> Seq<u8> {
    seq![80u8, 54u8, 32u8] + dec_digits(w) + seq![32u8] + dec_digits(h) + seq![
        32u8,
        50u8,
        53u8,
        53u8,
        10u8,
    ]
}

fn channel(v: i128) -> (r: u8)
    requires
        -0x4000000000000000 <= v <= 0x4000000000000000,
    ensures
        r as int == channel_byte(v as int),
{
    if v < 0 {
        0
    } else {
        let q = ((v as u128) * 255) / 0x100000000u128;
        if q > 255 {
            255
        } else {
            q as u8
        }
    }
}

/// Serialize a row-major color buffer as a raw binary portable pixmap: the
/// ASCII header, then three bytes per pixel.
pub fn ppm_bytes(data: &Vec<Vec<Point>>) -> (r: Vec<u8>)
    requires
        data@.len() >= 1,
        forall|i: int, j: int|
            0 <= i < data@.len() && 0 <= j < (#[trigger] data@[i])@.len() ==> bounded(
                pt(#[trigger] data@[i]@[j]),
                0x4000000000000000,
            ),
    ensures
        r@ == ppm_header(data@[0]@.len(), data@.len()) + image_bytes(data@),
{
    let w = data[0].len();
    let h = data.len();
    let mut out: Vec<u8> = Vec::new();
    out.push(80);
    out.push(54);
    out.push(32);
    let mut dw = dec_bytes(w as u64);
    out.append(&mut dw);
    out.push(32);
    let mut dh = dec_bytes(h as u64);
    out.append(&mut dh);
    out.push(32);
    out.push(50);
    out.push(53);
    out.push(53);
    out.push(10);
    let ghost header = ppm_header(data@[0]@.len(), data@.len());
    proof {
        assert(out@ =~= header);
    }
    let mut i: usize = 0;
    while i < h
        invariant
            h == data@.len(),
            i <= h,
            forall|a: int, b: int|
                0 <= a < data@.len() && 0 <= b < (#[trigger] data@[a])@.len() ==> bounded(
                    pt(#[trigger] data@[a]@[b]),
                    0x4000000000000000,
                ),
            out@ == header + image_bytes(data@.take(i as int)),
        decreases h - i,
    {
        let row = &data[i];
        let mut j: usize = 0;
        while j < row.len()
            invariant
                h == data@.len(),
                i < h,
                j <= row@.len(),
                row == &data@[i as int],
                forall|a: int, b: int|
                    0 <= a < data@.len() && 0 <= b < (#[trigger] data@[a])@.len() ==> bounded(
                        pt(#[trigger] data@[a]@[b]),
                        0x4000000000000000,
                    ),
                out@ == header + image_bytes(data@.take(i as int)) + row_bytes(
                    row@.take(j as int),
                ),
            decreases row@.len() - j,
        {
            let p = row[j];
            out.push(channel(p.x));
            out.push(channel(p.y));
            out.push(channel(p.z));
            proof {
                let taken = row@.take(j + 1int);
                assert(taken.drop_last() =~= row@.take(j as int));
                assert(taken.last() == row@[j as int]);
                assert(out@ =~= header + image_bytes(data@.take(i as int)) + row_bytes(taken));
            }
            j = j + 1;
        }
        proof {
            assert(row@.take(row@.len() as int) =~= row@);
            let taken = data@.take(i + 1int);
            assert(taken.drop_last() =~= data@.take(i as int));
            assert(taken.last() == data@[i as int]);
            assert(out@ =~= header + image_bytes(taken));
        }
        i = i + 1;
    }
    proof {
        assert(data@.take(data@.len() as int) =~= data@);
    }
    out
}

} // verus!
