//! The authoring reference that the `help` tool returns.

use vstd::prelude::*;

verus! {

/// The reference of the scene description formats (JSON and the text DSL):
/// operations, parameters, constraints, units and worked examples.
pub const KADOSCENE_HELP: &'static str = r#"# KadoScene JSON Format Reference

All scripts are a single JSON object with an "op" field.
Parameters marked (req) are required; others are optional with their default shown.

## Units & coordinates (問62/問95)

All lengths are in MILLIMETERS (1 coordinate unit = 1 mm). e.g. sphere(10) is a
10 mm-radius ball, not arbitrary units. +Z is "up" for FDM build direction by default.
Authoring at the wrong scale triggers a SUSPICIOUS_SCALE warning from validate.

## Primitives

sphere        {"op":"sphere","r":1.0}
              r (req): radius > 0

cuboid        {"op":"cuboid","x":1.0,"y":1.0,"z":1.0}
              x,y,z (req): half-extents > 0 (or use "s" for uniform)

cylinder      {"op":"cylinder","r":0.5,"h":1.0}
              axis along Z, centered at origin (spans z=-h..+h);
              r (req): radius > 0; h (req): half-height > 0

torus         {"op":"torus","major":1.0,"minor":0.25}
              ring lies in the XY plane, hole faces Z;
              major (req): ring radius > 0; minor (req): tube radius > 0 AND < major
              (minor >= major self-intersects: horn/spindle torus, non-manifold)

cone          {"op":"cone","r":0.5,"h":1.5}
              axis along Z: apex at z=0, base at z=-h; r (req) > 0; h (req) > 0

capsule       {"op":"capsule","h":0.5,"r":0.3}
              axis along Z (z=-h..+h plus radius hemispherical caps);
              h (req): half-height >= 0; r (req): radius > 0

rounded_box   {"op":"rounded_box","x":0.8,"y":0.8,"z":0.8,"r":0.1}
              x,y,z (req): half-extents > 0; r (req): corner radius > 0

ellipsoid     {"op":"ellipsoid","x":2.0,"y":1.0,"z":0.5}
              x,y,z (req): per-axis radii > 0 (or "s" for uniform = sphere)

prism         {"op":"prism","n":6,"r":1.0,"h":1.0}
              regular n-gon prism, axis along Z (spans z=-h..+h). Exact SDF
              (not an approximation), so extraction is watertight like any
              other primitive. Useful for hex nuts, bolt heads, and other
              polygonal FDM parts. n (req): integer sides >= 3;
              r (req): circumradius > 0; h (req): half-height > 0.
              Large n approaches a cylinder(r,h).

## Boolean Operations

union         {"op":"union","a":<sdf>,"b":<sdf>}
intersection  {"op":"intersection","a":<sdf>,"b":<sdf>}
difference    {"op":"difference","a":<sdf>,"b":<sdf>}  (a minus b)

smooth_union         {"op":"smooth_union","a":<sdf>,"b":<sdf>,"k":0.3}
smooth_intersection  {"op":"smooth_intersection","a":<sdf>,"b":<sdf>,"k":0.3}
smooth_difference    {"op":"smooth_difference","a":<sdf>,"b":<sdf>,"k":0.3}  (a minus b, blended)
              k: blend radius > 0 (default 0.3; k<=0 rejected — use the hard
              union/intersection/difference op for a sharp boundary)
              smooth_* make a ROUND (filleted) transition.

chamfer_union        {"op":"chamfer_union","a":<sdf>,"b":<sdf>,"k":0.3}
chamfer_intersection {"op":"chamfer_intersection","a":<sdf>,"b":<sdf>,"k":0.3}
chamfer_difference   {"op":"chamfer_difference","a":<sdf>,"b":<sdf>,"k":0.3}  (a minus b, chamfered)
              k: chamfer width > 0 (default 0.3; k<=0 rejected — use the hard op).
              chamfer_* make a FLAT (45deg beveled) transition — the angular
              counterpart to smooth_* (round). Use for print-bed bevels,
              deburred edges, and assembly clearances.

## Transforms

translate     {"op":"translate","x":1.0,"y":0.0,"z":0.0,"shape":<sdf>}
scale         {"op":"scale","s":2.0,"shape":<sdf>}          s > 0 (uniform, exact)
              one factor for all axes; distance field stays exact (Lipschitz=1).
scale_xyz     {"op":"scale_xyz","sx":2.0,"sy":1.0,"sz":0.5,"shape":<sdf>}
              sx,sy,sz > 0 (non-uniform). Distance is NOT exact off the
              smallest-scale axis, but sign is always correct, magnitude is
              always a safe UNDERESTIMATE of the true distance (never reports
              a wall as thicker than it is), and the field stays Lipschitz=1
              (same guarantee tier as every other primitive). For shapes with
              per-axis extents as a primitive, cuboid/ellipsoid/rounded_box's
              own x/y/z params are usually simpler than composing scale_xyz.
offset        {"op":"offset","amount":0.1,"shape":<sdf>}    inflates/deflates
shell         {"op":"shell","thickness":0.1,"shape":<sdf>}  thickness > 0.
              Hollows the solid INWARD: keeps the outer surface and carves a cavity,
              leaving a wall of `thickness` just inside the surface. Outer size is
              unchanged. e.g. shell(sphere(1.0),0.2) → hollow ball, outer r=1, inner r=0.8.
mirror_x      {"op":"mirror_x","shape":<sdf>}  Makes the shape symmetric about the
mirror_y      {"op":"mirror_y","shape":<sdf>}  axis=0 plane: it KEEPS the positive-axis
mirror_z      {"op":"mirror_z","shape":<sdf>}  half and reflects it onto the negative
              half (the shape's original negative-axis half is REPLACED, not kept).
              To mirror a part to both sides, place it on the +axis side first.
rotate_x      {"op":"rotate_x","angle":90,"shape":<sdf>}  angle in DEGREES
rotate_y      {"op":"rotate_y","angle":45,"shape":<sdf>}
rotate_z      {"op":"rotate_z","angle":30,"shape":<sdf>}
rotate        {"op":"rotate","ax":1,"ay":1,"az":0,"angle":45,"shape":<sdf>}
              rotate around an arbitrary axis (ax,ay,az; auto-normalized, must be
              non-zero), angle in DEGREES. Use this instead of composing
              rotate_x/y/z when you need a diagonal axis — chaining canonical
              rotations does NOT equal a single arbitrary-axis rotation in
              general (Euler composition order matters).
repeat        {"op":"repeat","x":2.0,"nx":2,"shape":<sdf>}
              period per axis (x/y/z); count per axis (nx/ny/nz, default 1).
              count is copies PER SIDE of the origin → total = 2*count+1 per axis.
              e.g. nx=2 gives 5 copies along x (2 left + center + 2 right).
cut           {"op":"cut","nx":0,"ny":0,"nz":1,"offset":0.5,"shape":<sdf>}
              plane cut: keeps dot(p,(nx,ny,nz)) <= offset, removes the half the
              normal points into. offset defaults to 0 (plane through origin).
              Cross-section: thin slab via two cuts.
flatten       {"op":"flatten","at":0,"shape":<sdf>}
              FDM printable base: cuts a flat bottom at z=at (default 0), keeping
              z>=at. Safe, intent-named shortcut for the common cut case (avoids
              the nz=+1/-1 normal-direction mistake).

## Example: sphere with a cylindrical hole

{"op":"difference",
 "a":{"op":"sphere","r":1.5},
 "b":{"op":"cylinder","r":0.4,"h":2.0}}

## Example: chamfer (flat 45deg bevel) vs smooth (round fillet)

Both blend a cylindrical boss onto a base plate. chamfer_* makes a FLAT bevel
at the joint; smooth_* makes a ROUND fillet. Same k = blend width:

  chamfer_union(cuboid(1.0, 1.0, 0.3), cylinder(0.4, 1.2), 0.2)   // 45deg bevel
  smooth_union(cuboid(1.0, 1.0, 0.3), cylinder(0.4, 1.2), 0.2)    // rounded fillet

Use chamfer_* for print-bed relief, deburred edges, and press-fit clearances;
use smooth_* for organic/rounded transitions.

## Compact text DSL (alternative to JSON)

run_script also accepts a concise function-call syntax (token-efficient). The same
hole example:

  difference(sphere(1.5), cylinder(0.4, 2.0))

DSL arg order mirrors the constructors:
  sphere(r) · cuboid(s) or cuboid(x,y,z) · cylinder(r,h) · torus(major,minor)
  cone(r,h) · capsule(h,r) · rounded_box(s,r) or (x,y,z,r) · ellipsoid(s) or (x,y,z)
  prism(n,r,h)
  union/intersection/difference(a,b) · smooth_*(a,b[,k]) · chamfer_*(a,b[,k])
  translate(x,y,z,shape) · scale(s,shape) · scale_xyz(sx,sy,sz,shape)
  offset(amount,shape) · shell(t,shape)
  rotate_x/y/z(deg,shape) · rotate(ax,ay,az,deg,shape) · mirror_x/y/z(shape)
  repeat(px,py,pz[,nx,ny,nz],shape)
  cut(nx,ny,nz,shape) or cut(nx,ny,nz,offset,shape) · flatten(shape) or flatten(at,shape)

## Measuring real dimensions (measure tool)

validate reports WHOLE-MODEL numbers (dims_mm, volume). To check a SPECIFIC feature
— a hole diameter, a wall thickness, a face-to-face distance — cast a ray with
measure and read the spans. Do NOT hand-roll a bisection search with many eval
calls: one measure call replaces ~30 evals, and eval's magnitude is only a lower
bound on composites while measure's distances are exact (it bisects the SDF sign,
which is always exact).

  measure(from=[-50,0,0], dir=[1,0,0])

returns {crossings:[{distance,point,entering}...], spans:[...], count, complete}. Each
span is the length between consecutive crossings, in mm.

ALWAYS check "complete". If false, the ray stopped before max_distance and the result
is INCOMPLETE (more crossings may exist) — a "warning" field explains why. The usual
cause is a ray that grazes ALONG a surface instead of crossing it: with distance ~0 the
tracer advances only ~1e-6mm per step and cannot finish. Re-aim so the ray hits
surfaces transversely. complete=false with zero crossings does NOT mean "nothing there".

Recipe — verify an M3 clearance hole (Ø3.2) drilled along Z through a plate:

  run_script: difference(cuboid(20.0, 20.0, 2.0), cylinder(1.6, 10.0))
  measure(from=[-50,0,0], dir=[1,0,0])
  -> spans = [18.4, 3.2, 18.4]   solid, HOLE (=3.2 diameter), solid

Recipe — wall thickness: aim the ray through the wall along its normal; the span
between the two crossings is the thickness. Ray direction is normalized, so
distances are true millimeters regardless of the vector's length.

## Workflow

1. Call run_script with your KadoScene JSON or text DSL.
2. Call screenshot to preview (valid views: front|back|right|left|top|bottom|iso).
3. Call measure to check specific dimensions (hole Ø, wall thickness) against intent.
4. Call validate for DFM; export to save STL/GLB/3MF/HTML.
4. Call get_scene to read back the current script if needed (also reports undo availability).
5. If a run_script went wrong, call undo_script to restore the previous scene (single-level).

## validate build_dir parameter

The validate tool checks overhang relative to a build direction (default +Z = gravity up).
If your 3D printer builds along a different axis, specify build_dir:
  validate(build_dir="z")   same as default (+Z up)
  validate(build_dir="-z")  build head-down (inverted)
  validate(build_dir="y")   build along Y axis

## validate issue codes (問79)

Each issue object has {severity, code, cause, hints:[], location:[x,y,z]|null}.
location is the 3-D coordinates of the problem (null for non-spatial issues):
  OVERHANG        → centroid of the worst-angled triangle
  THIN_WALL       → surface vertex where the thinnest wall was probed
  UNSTABLE        → center of mass (same as report.center_of_mass)
  others          → null

Branch on issue.code to categorize results:
  EMPTY_MESH        — no triangles (script may be outside bounding box)
  NON_MANIFOLD      — self-intersecting faces (boolean degeneracy)
  OPEN_MESH         — boundary edges present (shape not watertight; cannot print)
  NEGATIVE_VOLUME   — signed volume < 0 (mesh inverted/inside-out; check orientation)
  MULTIPLE_BODIES   — disconnected shells (may need to merge or orient separately)
  THIN_WALL         — local wall < min_wall_mm (SDF-ray probe); location = thin vertex
  OVERHANG          — surface > max_overhang_deg from horizontal; location = worst face centroid
  SUSPICIOUS_SCALE  — max dimension < min_wall_mm (likely authored in wrong units)
  UNSTABLE          — center of mass outside the base footprint; location = COM coords
  HIGH_ASPECT_RATIO — build height / lateral size exceeds max_aspect_ratio (default 8;
                      sways during printing, risk of delamination). The safe ratio depends on
                      ABSOLUTE size: a 0.3mm-wide wire tolerates ~7mm tall (ratio ~23), a 1.5mm
                      one ~30mm (ratio ~20). Raise max_aspect_ratio for thick features, 0 skips.
                      The measured ratio is ALWAYS returned as `aspect_ratio`.
  ENCLOSED_CAVITY   — info: fully-sealed internal void (traps resin/support; add a drain hole for SLA)

## printability rules of thumb (問250; FDM/resin community practice)

Use these to set thresholds and interpret results (adjust per printer/material):
  min wall          ≈ nozzle diameter (commonly 0.4 mm FDM); aim ≥2× nozzle (~0.8 mm) for strength
  min hole/pin      ≳ nozzle diameter; small holes print undersized — design holes oversized
  feature width     prefer multiples of nozzle width (0.8 mm FDM prints cleaner than 1.0 mm)
  overhang          ≤45° self-supporting; up to ~60° with tuning; beyond needs support
  bridge vs overhang  a flat ceiling supported at BOTH ends is a bridge (spans a gap) — short
                    bridges (a few mm) print without support; a one-sided cantilever or a long
                    span sags. validate's OVERHANG flags both flat ceilings and cantilevers as
                    steep angles; judge by span length (dims_mm) whether support is truly needed
  resin/SLA         walls thinner-capable but ~1 mm+ is robust; ~3 mm around screw holes;
                    hollow parts need a drain hole (see ENCLOSED_CAVITY)
  report.measured_min_wall  the actual thinnest wall — compare to your nozzle to judge margin
  bed adhesion      larger build-plate contact resists warping/peeling; small footprint + tall
                    part risks detachment (compare report.bed_contact_area to the part size)
  report.bed_contact_area   area touching the build plate (build_dir lowest layer); ~0 = point
                    contact (e.g. a sphere) which needs a raft/brim or a flat-cut base

## material, weight & cost estimation (問253)

Coordinates are millimeters (1 unit = 1 mm), so report.volume is in mm³ and
report.surface_area in mm². To estimate filament/resin use from a validate report:
  solid mass (g)    = volume / 1000 × density        (mm³→cm³ is /1000)
  density (g/cm³)   PLA ~1.24, ABS ~1.04, PETG ~1.27, Nylon ~1.14, resin ~1.10
  cost              ≈ mass_g × price_per_gram (e.g. ~2.4 yen/g for 2400 yen/kg PLA)
  IMPORTANT         report.volume is the SOLID volume — an UPPER BOUND on material.
                    FDM prints are usually 15–30% infill + a few perimeters, so actual
                    filament is far less; multiply by your infill fraction for a real
                    estimate. A thin shell uses ≈ surface_area × wall_thickness of material.
                    print time also scales with volume/infill and surface_area (perimeters).

## repeat requires explicit period when count is set

If you specify nx/ny/nz, the matching x/y/z period MUST be positive:
  {"op":"repeat","nx":3,"shape":...}          ERROR: x period required
  {"op":"repeat","x":2.0,"nx":3,"shape":...}  OK: 7 copies (3 each side + center)
  {"op":"repeat","x":2.0,"shape":...}         OK: default count=1 (3 copies: -1, 0, +1)
"#;

/// The text of the `help` tool.
pub fn help_text() -> (s: &'static str)
    ensures
        s@ == KADOSCENE_HELP@,
{
    KADOSCENE_HELP
}

} // verus!
