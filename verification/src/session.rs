//! The agent tool layer's state and argument rules: the scene history with
//! its single-level undo, the tool names and catalogue, the resource limits on requested
//! sizes and the build-direction names.

use crate::text::{chars_of, str_eq};
use crate::tools::is_white_space;
use vstd::prelude::*;

verus! {

/// Largest mesh extraction resolution a request may ask for.
pub const MAX_RESOLUTION: usize = 256;

/// Largest image side, in pixels, a request may ask for (also after
/// supersampling).
pub const MAX_IMAGE_DIM: usize = 4096;

/// `n` clamped to `lo..=hi`.
pub open spec fn clamp_spec(n: int, lo: int, hi: int) -> int {
    if n < lo {
        lo
    } else if n > hi {
        hi
    } else {
        n
    }
}

/// A requested extraction resolution kept within `1..=MAX_RESOLUTION`.
pub fn clamp_resolution(n: usize) -> (r: usize)
    ensures
        r == clamp_spec(n as int, 1, MAX_RESOLUTION as int),
        1 <= r <= MAX_RESOLUTION,
{
    if n < 1 {
        1
    } else if n > MAX_RESOLUTION {
        MAX_RESOLUTION
    } else {
        n
    }
}

/// A requested image side kept within `1..=MAX_IMAGE_DIM`.
pub fn clamp_dim(n: usize) -> (r: usize)
    ensures
        r == clamp_spec(n as int, 1, MAX_IMAGE_DIM as int),
        1 <= r <= MAX_IMAGE_DIM,
{
    if n < 1 {
        1
    } else if n > MAX_IMAGE_DIM {
        MAX_IMAGE_DIM
    } else {
        n
    }
}

/// How many samples per pixel side an image of `width` x `height` may use:
/// the request kept within `1..=4`, and no more than keeps each supersampled
/// side within `MAX_IMAGE_DIM` (at least one).
pub open spec fn samples_spec(requested: int, width: int, height: int) -> int {
    let r = clamp_spec(requested, 1, 4);
    let cap_w = if width < 1 {
        MAX_IMAGE_DIM as int
    } else if MAX_IMAGE_DIM as int / width < 1 {
        1
    } else {
        MAX_IMAGE_DIM as int / width
    };
    let cap_h = if height < 1 {
        MAX_IMAGE_DIM as int
    } else if MAX_IMAGE_DIM as int / height < 1 {
        1
    } else {
        MAX_IMAGE_DIM as int / height
    };
    let a = if r < cap_w {
        r
    } else {
        cap_w
    };
    if a < cap_h {
        a
    } else {
        cap_h
    }
}

/// The supersampling factor for an image of `width` x `height`: the
/// request clamped to `1..=4`, then lowered so that `width * samples` and
/// `height * samples` stay within `MAX_IMAGE_DIM` whenever the sides do.
pub fn cap_samples(requested: usize, width: usize, height: usize) -> (r: usize)
    ensures
        r == samples_spec(requested as int, width as int, height as int),
        1 <= r <= 4,
        1 <= width <= MAX_IMAGE_DIM ==> r * width <= MAX_IMAGE_DIM,
        1 <= height <= MAX_IMAGE_DIM ==> r * height <= MAX_IMAGE_DIM,
{
    let req = if requested < 1 {
        1
    } else if requested > 4 {
        4
    } else {
        requested
    };
    let wd = if width < 1 {
        1
    } else {
        width
    };
    let hd = if height < 1 {
        1
    } else {
        height
    };
    let cap_w = if MAX_IMAGE_DIM / wd < 1 {
        1
    } else {
        MAX_IMAGE_DIM / wd
    };
    let cap_h = if MAX_IMAGE_DIM / hd < 1 {
        1
    } else {
        MAX_IMAGE_DIM / hd
    };
    let a = if req < cap_w {
        req
    } else {
        cap_w
    };
    let r = if a < cap_h {
        a
    } else {
        cap_h
    };
    proof {
        assert(samples_spec(requested as int, width as int, height as int) == r);
        if 1 <= width <= MAX_IMAGE_DIM {
            assert(4096int / width as int >= 1) by (nonlinear_arith)
                requires
                    1 <= width <= 4096,
            ;
            assert(cap_w * width <= MAX_IMAGE_DIM) by (nonlinear_arith)
                requires
                    1 <= width <= 4096,
                    cap_w == 4096int / width as int,
            ;
            assert(r * width <= cap_w * width) by (nonlinear_arith)
                requires
                    r <= cap_w,
                    1 <= width,
            ;
        }
        if 1 <= height <= MAX_IMAGE_DIM {
            assert(4096int / height as int >= 1) by (nonlinear_arith)
                requires
                    1 <= height <= 4096,
            ;
            assert(cap_h * height <= MAX_IMAGE_DIM) by (nonlinear_arith)
                requires
                    1 <= height <= 4096,
                    cap_h == 4096int / height as int,
            ;
            assert(r * height <= cap_h * height) by (nonlinear_arith)
                requires
                    r <= cap_h,
                    1 <= height,
            ;
        }
    }
    r
}

/// The tools the agent server offers.
#[derive(Clone, Copy, Debug, PartialEq, Eq, Structural)]
pub enum Tool {
    Screenshot,
    Export,
    Eval,
    Measure,
    RunScript,
    Validate,
    GetScene,
    UndoScript,
    Help,
}

/// The tool called `name`, if there is one.
pub open spec fn tool_spec(name: Seq<char>) -> Option<Tool> {
    if name == "screenshot"@ {
        Some(Tool::Screenshot)
    } else if name == "export"@ {
        Some(Tool::Export)
    } else if name == "eval"@ {
        Some(Tool::Eval)
    } else if name == "measure"@ {
        Some(Tool::Measure)
    } else if name == "run_script"@ {
        Some(Tool::RunScript)
    } else if name == "validate"@ {
        Some(Tool::Validate)
    } else if name == "get_scene"@ {
        Some(Tool::GetScene)
    } else if name == "undo_script"@ {
        Some(Tool::UndoScript)
    } else if name == "help"@ {
        Some(Tool::Help)
    } else {
        None
    }
}

/// Looks a tool up by its exact name.
pub fn tool_by_name(name: &str) -> (r: Option<Tool>)
    ensures
        r == tool_spec(name@),
{
    if str_eq(name, "screenshot") {
        Some(Tool::Screenshot)
    } else if str_eq(name, "export") {
        Some(Tool::Export)
    } else if str_eq(name, "eval") {
        Some(Tool::Eval)
    } else if str_eq(name, "measure") {
        Some(Tool::Measure)
    } else if str_eq(name, "run_script") {
        Some(Tool::RunScript)
    } else if str_eq(name, "validate") {
        Some(Tool::Validate)
    } else if str_eq(name, "get_scene") {
        Some(Tool::GetScene)
    } else if str_eq(name, "undo_script") {
        Some(Tool::UndoScript)
    } else if str_eq(name, "help") {
        Some(Tool::Help)
    } else {
        None
    }
}

/// A build direction along one coordinate axis.
#[derive(Clone, Copy, Debug, PartialEq, Eq, Structural)]
pub enum BuildAxis {
    PlusX,
    MinusX,
    PlusY,
    MinusY,
    PlusZ,
    MinusZ,
}

/// `s` with leading and trailing whitespace removed.
pub open spec fn trimmed(s: Seq<char>) -> Seq<char>
    decreases s.len(),
{
    if s.len() > 0 && is_white_space(s[0]) {
        trimmed(s.drop_first())
    } else if s.len() > 0 && is_white_space(s.last()) {
        trimmed(s.drop_last())
    } else {
        s
    }
}

/// The axis a build-direction name selects once trimmed: `x`/`+x`, `-x`,
/// `y`/`+y`, `-y`, `-z`; anything else (`z`, `+z`, unknown names) is `+z`.
pub open spec fn build_axis_spec(s: Seq<char>) -> BuildAxis {
    let t = trimmed(s);
    if t == "x"@ || t == "+x"@ {
        BuildAxis::PlusX
    } else if t == "-x"@ {
        BuildAxis::MinusX
    } else if t == "y"@ || t == "+y"@ {
        BuildAxis::PlusY
    } else if t == "-y"@ {
        BuildAxis::MinusY
    } else if t == "-z"@ {
        BuildAxis::MinusZ
    } else {
        BuildAxis::PlusZ
    }
}

fn white_space(c: char) -> (r: bool)
    ensures
        r == is_white_space(c),
{
    ('\u{9}' <= c && c <= '\u{d}') || c == ' ' || c == '\u{85}' || c == '\u{a0}' || c == '\u{1680}'
        || ('\u{2000}' <= c && c <= '\u{200a}') || c == '\u{2028}' || c == '\u{2029}' || c
        == '\u{202f}' || c == '\u{205f}' || c == '\u{3000}'
}

/// The characters `cs[a..b]` equal `lit`.
fn slice_is(cs: &Vec<char>, a: usize, b: usize, lit: &str) -> (r: bool)
    requires
        a <= b <= cs@.len(),
    ensures
        r == (cs@.subrange(a as int, b as int) == lit@),
{
    let l = chars_of(lit);
    if b - a != l.len() {
        proof {
            assert(cs@.subrange(a as int, b as int).len() != lit@.len());
        }
        return false;
    }
    let mut i: usize = 0;
    while i < l.len()
        invariant
            l@ == lit@,
            b - a == l@.len(),
            a <= b <= cs@.len(),
            i <= l@.len(),
            forall|j: int| 0 <= j < i ==> cs@[a + j] == l@[j],
        decreases l.len() - i,
    {
        if cs[a + i] != l[i] {
            proof {
                assert(cs@.subrange(a as int, b as int)[i as int] != lit@[i as int]);
            }
            return false;
        }
        i += 1;
    }
    proof {
        assert(cs@.subrange(a as int, b as int) =~= lit@);
    }
    true
}

/// The build axis a direction name selects (see `build_axis_spec`).
pub fn build_axis(s: &str) -> (r: BuildAxis)
    ensures
        r == build_axis_spec(s@),
{
    let cs = chars_of(s);
    let mut a: usize = 0;
    let mut b: usize = cs.len();
    proof {
        assert(cs@.subrange(0, cs@.len() as int) =~= s@);
    }
    while a < b && (white_space(cs[a]) || white_space(cs[b - 1]))
        invariant
            a <= b <= cs@.len(),
            cs@ == s@,
            trimmed(cs@.subrange(a as int, b as int)) == trimmed(s@),
        decreases b - a,
    {
        let ghost t = cs@.subrange(a as int, b as int);
        if white_space(cs[a]) {
            proof {
                assert(t.drop_first() =~= cs@.subrange(a + 1, b as int));
            }
            a += 1;
        } else {
            proof {
                assert(t.drop_last() =~= cs@.subrange(a as int, b - 1));
            }
            b -= 1;
        }
    }
    proof {
        let t = cs@.subrange(a as int, b as int);
        assert(trimmed(t) == t);
    }
    if slice_is(&cs, a, b, "x") || slice_is(&cs, a, b, "+x") {
        BuildAxis::PlusX
    } else if slice_is(&cs, a, b, "-x") {
        BuildAxis::MinusX
    } else if slice_is(&cs, a, b, "y") || slice_is(&cs, a, b, "+y") {
        BuildAxis::PlusY
    } else if slice_is(&cs, a, b, "-y") {
        BuildAxis::MinusY
    } else if slice_is(&cs, a, b, "-z") {
        BuildAxis::MinusZ
    } else {
        BuildAxis::PlusZ
    }
}

/// The camera views a screenshot can take, in preset order.
pub open spec fn view_names() -> Seq<Seq<char>> {
    seq!["front"@, "back"@, "right"@, "left"@, "top"@, "bottom"@, "iso"@]
}

/// The preset index of a view name, or the error that lists the valid ones.
pub open spec fn view_spec(v: Seq<char>) -> Result<usize, Seq<char>> {
    if v == "front"@ {
        Ok(0)
    } else if v == "back"@ {
        Ok(1)
    } else if v == "right"@ {
        Ok(2)
    } else if v == "left"@ {
        Ok(3)
    } else if v == "top"@ {
        Ok(4)
    } else if v == "bottom"@ {
        Ok(5)
    } else if v == "iso"@ {
        Ok(6)
    } else {
        Err("unknown view '"@ + v + "'; valid views: front, back, right, left, top, bottom, iso"@)
    }
}

/// Looks a screenshot view up by exact name (see `view_spec`); an unknown
/// name is an error, never a silent fallback.
pub fn view_index(view: &str) -> (r: Result<usize, String>)
    ensures
        match view_spec(view@) {
            Ok(i) => r matches Ok(j) && j == i && view_names()[i as int] == view@,
            Err(m) => r matches Err(e) && e@ == m,
        },
{
    if str_eq(view, "front") {
        Ok(0)
    } else if str_eq(view, "back") {
        Ok(1)
    } else if str_eq(view, "right") {
        Ok(2)
    } else if str_eq(view, "left") {
        Ok(3)
    } else if str_eq(view, "top") {
        Ok(4)
    } else if str_eq(view, "bottom") {
        Ok(5)
    } else if str_eq(view, "iso") {
        Ok(6)
    } else {
        let mut m = String::from_str("unknown view '");
        m.append(view);
        m.append("'; valid views: front, back, right, left, top, bottom, iso");
        Err(m)
    }
}

/// Whether a projection name asks for an orthographic camera, or the error
/// that lists the valid names.
pub open spec fn projection_spec(p: Seq<char>) -> Result<bool, Seq<char>> {
    if p == "perspective"@ {
        Ok(false)
    } else if p == "orthographic"@ {
        Ok(true)
    } else {
        Err("unknown projection '"@ + p + "'; valid: perspective, orthographic"@)
    }
}

/// Reads a screenshot projection name (see `projection_spec`).
pub fn projection_is_ortho(projection: &str) -> (r: Result<bool, String>)
    ensures
        match projection_spec(projection@) {
            Ok(b) => r == Ok::<bool, String>(b),
            Err(m) => r matches Err(e) && e@ == m,
        },
{
    if str_eq(projection, "perspective") {
        Ok(false)
    } else if str_eq(projection, "orthographic") {
        Ok(true)
    } else {
        let mut m = String::from_str("unknown projection '");
        m.append(projection);
        m.append("'; valid: perspective, orthographic");
        Err(m)
    }
}

/// The current scene of a tool session and the script it was read from,
/// with the scene and script that one `undo` brings back.
pub struct SceneHistory<T> {
    pub scene: T,
    pub script: Option<String>,
    pub prev_scene: Option<T>,
    pub prev_script: Option<String>,
}

/// The history after `scene`, read from `script`, replaces the current scene.
pub open spec fn committed<T>(h: SceneHistory<T>, scene: T, script: String) -> SceneHistory<T> {
    SceneHistory {
        scene: scene,
        script: Some(script),
        prev_scene: Some(h.scene),
        prev_script: h.script,
    }
}

/// Whether an undo happens, and the history after it: the saved scene and
/// script come back and nothing is left to undo; without a saved scene
/// nothing changes.
pub open spec fn undone<T>(h: SceneHistory<T>) -> (bool, SceneHistory<T>) {
    match h.prev_scene {
        Some(p) => (
            true,
            SceneHistory { scene: p, script: h.prev_script, prev_scene: None, prev_script: None },
        ),
        None => (false, h),
    }
}

impl<T> SceneHistory<T> {
    /// A history that shows `scene`, read from no script, with nothing to undo.
    pub fn new(scene: T) -> (h: Self)
        ensures
            h.scene == scene,
            h.script is None,
            h.prev_scene is None,
            h.prev_script is None,
    {
        SceneHistory { scene, script: None, prev_scene: None, prev_script: None }
    }

    /// Makes `scene`, read from `script`, the current scene; the one it
    /// replaces, with its script, is kept for one `undo`.
    pub fn commit(&mut self, scene: T, script: String)
        ensures
            *final(self) == committed(*old(self), scene, script),
    {
        let mut s = scene;
        std::mem::swap(&mut self.scene, &mut s);
        self.prev_scene = Some(s);
        let mut t = Some(script);
        std::mem::swap(&mut self.script, &mut t);
        self.prev_script = t;
    }

    /// Brings back the scene and script that the last `commit` replaced, if
    /// they are still kept; says whether it did.
    pub fn undo(&mut self) -> (done: bool)
        ensures
            (done, *final(self)) == undone(*old(self)),
    {
        let mut p: Option<T> = None;
        std::mem::swap(&mut self.prev_scene, &mut p);
        match p {
            Some(prev) => {
                self.scene = prev;
                let mut t: Option<String> = None;
                std::mem::swap(&mut self.prev_script, &mut t);
                self.script = t;
                true
            },
            None => false,
        }
    }

    /// There is a scene to bring back.
    pub fn can_undo(&self) -> (r: bool)
        ensures
            r == (self.prev_scene is Some),
    {
        match &self.prev_scene {
            Some(_) => true,
            None => false,
        }
    }
}

/// Undo right after a commit brings back exactly the scene and script from
/// before it, and leaves nothing more to undo: undo is single-level.
pub proof fn lemma_undo_after_commit<T>(h: SceneHistory<T>, scene: T, script: String)
    ensures
        undone(committed(h, scene, script)) == (
            true,
            SceneHistory { scene: h.scene, script: h.script, prev_scene: None, prev_script: None },
        ),
        undone(undone(committed(h, scene, script)).1).0 == false,
        undone(undone(committed(h, scene, script)).1).1 == undone(committed(h, scene, script)).1,
{
}

/// How a tool is described to clients: its title and whether it only
/// reads, may destroy state, and gives the same result when repeated.
pub struct ToolHints {
    pub title: String,
    pub read_only: bool,
    pub destructive: bool,
    pub idempotent: bool,
}

/// The hints of the tool called `name` as (title, read-only, destructive,
/// idempotent); a name without an entry is titled by itself and treated as
/// state-changing, destructive and not idempotent.
pub open spec fn hints_spec(name: Seq<char>) -> (Seq<char>, bool, bool, bool) {
    if name == "eval"@ {
        ("Evaluate signed distance at a point"@, true, false, true)
    } else if name == "measure"@ {
        ("Measure dimensions along a ray"@, true, false, true)
    } else if name == "validate"@ {
        ("Validate manufacturability (DFM)"@, true, false, true)
    } else if name == "get_scene"@ {
        ("Get the current scene script"@, true, false, true)
    } else if name == "help"@ {
        ("DSL and tool reference"@, true, false, true)
    } else if name == "screenshot"@ {
        ("Render the scene to a PNG"@, true, false, true)
    } else if name == "export"@ {
        ("Export the mesh to a file"@, false, false, true)
    } else if name == "run_script"@ {
        ("Run a script, replacing the scene"@, false, true, false)
    } else if name == "undo_script"@ {
        ("Undo the last script change"@, false, true, false)
    } else {
        (name, false, true, false)
    }
}

/// The safety hints of the tool called `name` (see `hints_spec`).
pub fn tool_hints(name: &str) -> (h: ToolHints)
    ensures
        (h.title@, h.read_only, h.destructive, h.idempotent) == hints_spec(name@),
{
    if str_eq(name, "eval") {
        ToolHints { title: String::from_str("Evaluate signed distance at a point"), read_only: true, destructive: false, idempotent: true }
    } else if str_eq(name, "measure") {
        ToolHints { title: String::from_str("Measure dimensions along a ray"), read_only: true, destructive: false, idempotent: true }
    } else if str_eq(name, "validate") {
        ToolHints { title: String::from_str("Validate manufacturability (DFM)"), read_only: true, destructive: false, idempotent: true }
    } else if str_eq(name, "get_scene") {
        ToolHints { title: String::from_str("Get the current scene script"), read_only: true, destructive: false, idempotent: true }
    } else if str_eq(name, "help") {
        ToolHints { title: String::from_str("DSL and tool reference"), read_only: true, destructive: false, idempotent: true }
    } else if str_eq(name, "screenshot") {
        ToolHints { title: String::from_str("Render the scene to a PNG"), read_only: true, destructive: false, idempotent: true }
    } else if str_eq(name, "export") {
        ToolHints { title: String::from_str("Export the mesh to a file"), read_only: false, destructive: false, idempotent: true }
    } else if str_eq(name, "run_script") {
        ToolHints { title: String::from_str("Run a script, replacing the scene"), read_only: false, destructive: true, idempotent: false }
    } else if str_eq(name, "undo_script") {
        ToolHints { title: String::from_str("Undo the last script change"), read_only: false, destructive: true, idempotent: false }
    } else {
        ToolHints { title: String::from_str(name), read_only: false, destructive: true, idempotent: false }
    }
}

/// Every tool has its own hints entry (its title is not just its name), and
/// a tool that only reads is neither destructive nor unsafe to repeat.
pub proof fn lemma_tool_hints(name: Seq<char>)
    requires
        tool_spec(name) is Some,
    ensures
        hints_spec(name).0 != name,
        hints_spec(name).1 ==> !hints_spec(name).2 && hints_spec(name).3,
{
    reveal_strlit("eval");
    reveal_strlit("Evaluate signed distance at a point");
    reveal_strlit("measure");
    reveal_strlit("Measure dimensions along a ray");
    reveal_strlit("validate");
    reveal_strlit("Validate manufacturability (DFM)");
    reveal_strlit("get_scene");
    reveal_strlit("Get the current scene script");
    reveal_strlit("help");
    reveal_strlit("DSL and tool reference");
    reveal_strlit("screenshot");
    reveal_strlit("Render the scene to a PNG");
    reveal_strlit("export");
    reveal_strlit("Export the mesh to a file");
    reveal_strlit("run_script");
    reveal_strlit("Run a script, replacing the scene");
    reveal_strlit("undo_script");
    reveal_strlit("Undo the last script change");
    if name == "eval"@ {
        assert(hints_spec(name).0.len() != name.len());
    }
    if name == "measure"@ {
        assert(hints_spec(name).0.len() != name.len());
    }
    if name == "validate"@ {
        assert(hints_spec(name).0.len() != name.len());
    }
    if name == "get_scene"@ {
        assert(hints_spec(name).0.len() != name.len());
    }
    if name == "help"@ {
        assert(hints_spec(name).0.len() != name.len());
    }
    if name == "screenshot"@ {
        assert(hints_spec(name).0.len() != name.len());
    }
    if name == "export"@ {
        assert(hints_spec(name).0.len() != name.len());
    }
    if name == "run_script"@ {
        assert(hints_spec(name).0.len() != name.len());
    }
    if name == "undo_script"@ {
        assert(hints_spec(name).0.len() != name.len());
    }
}

// ---------------------------------------------------------------------------
// The tool catalogue that `tools/list` sends to clients.

/// One input parameter of a tool: its name, its JSON type, what it means, and
/// whether a call must give it.
pub struct ToolParam {
    pub name: String,
    pub kind: String,
    pub description: String,
    pub required: bool,
}

/// A parameter seen as (name, JSON type, description, required).
pub type ParamEntry = (Seq<char>, Seq<char>, Seq<char>, bool);

/// A tool seen as (name, description, parameters in order).
pub type ToolEntry = (Seq<char>, Seq<char>, Seq<ParamEntry>);

impl View for ToolParam {
    type V = ParamEntry;

    open spec fn view(&self) -> ParamEntry {
        (self.name@, self.kind@, self.description@, self.required)
    }
}

/// A tool as clients see it: its name, what it does and its parameters.
pub struct ToolDef {
    pub name: String,
    pub description: String,
    pub params: Vec<ToolParam>,
}

impl View for ToolDef {
    type V = ToolEntry;

    open spec fn view(&self) -> ToolEntry {
        (self.name@, self.description@, self.params@.map_values(|p: ToolParam| p@))
    }
}

/// What the `screenshot` tool does, as clients are told.
pub const SCREENSHOT_ABOUT: &'static str = "Render the current SDF scene as a PNG screenshot. Returns base64-encoded PNG.";

/// The `view` parameter of `screenshot`.
pub const SCREENSHOT_VIEW_DOC: &'static str = "Camera: front|back|right|left|top|bottom|iso (default: iso)";

/// The `width` parameter of `screenshot`.
pub const SCREENSHOT_WIDTH_DOC: &'static str = "Image width in pixels (default: 512)";

/// The `height` parameter of `screenshot`.
pub const SCREENSHOT_HEIGHT_DOC: &'static str = "Image height in pixels (default: 512)";

/// The `resolution` parameter of `screenshot`.
pub const SCREENSHOT_RESOLUTION_DOC: &'static str = "Mesh resolution cells/axis (default: 48; increase for smoother output)";

/// The `samples` parameter of `screenshot`.
pub const SCREENSHOT_SAMPLES_DOC: &'static str = "Anti-aliasing supersample factor 1-4 (default: 2; higher = smoother edges)";

/// The `axes` parameter of `screenshot`.
pub const SCREENSHOT_AXES_DOC: &'static str = "Overlay an X(red)/Y(green)/Z(blue) orientation gnomon with mm scale ticks \
    (default: true). When on, the response includes a text note with the tick \
    spacing so you can estimate dimensions from the image.";

/// The `projection` parameter of `screenshot`.
pub const SCREENSHOT_PROJECTION_DOC: &'static str = "perspective|orthographic (default: perspective). Orthographic keeps true \
    dimensional proportions (no perspective distortion) — matches the \
    engineering-drawing convention that front/back/right/left/top/bottom/iso \
    names imply; useful for judging proportions/alignment rather than a \
    photo-realistic look.";

/// What the `export` tool does, as clients are told.
pub const EXPORT_ABOUT: &'static str = "Export the current scene to a mesh file. Format is chosen by the path extension: \
    \".glb\" writes binary glTF 2.0 (indexed, viewable in browsers/Blender); \
    \".3mf\" writes 3MF (modern 3D-printing standard with mm units); \
    \".html\" writes a self-contained offline WebGL viewer (drag to orbit); \
    any other extension writes binary STL. Returns the output file path.";

/// The `path` parameter of `export`.
pub const EXPORT_PATH_DOC: &'static str = "Output file path; .glb=glTF, .3mf=3MF, .html=viewer, otherwise STL (default: kado-export.stl)";

/// The `resolution` parameter of `export`.
pub const EXPORT_RESOLUTION_DOC: &'static str = "Mesh resolution cells/axis (default: 64)";

/// What the `eval` tool does, as clients are told.
pub const EVAL_ABOUT: &'static str = "Evaluate the SDF signed distance at a point, in millimeters (Kado: 1 unit = 1 mm). \
    Negative = inside, positive = outside, ~0 = on the surface. The magnitude is exact \
    for primitives but a conservative lower bound on the true distance for \
    composite/smoothed shapes (union/difference/smooth_* yield a Lipschitz-bounded \
    field), so treat it as a safe under-estimate when measuring clearances or wall gaps.";

/// The `x` parameter of `eval`.
pub const EVAL_X_DOC: &'static str = "X coordinate";

/// The `y` parameter of `eval`.
pub const EVAL_Y_DOC: &'static str = "Y coordinate";

/// The `z` parameter of `eval`.
pub const EVAL_Z_DOC: &'static str = "Z coordinate";

/// What the `measure` tool does, as clients are told.
pub const MEASURE_ABOUT: &'static str = "Measure real dimensions by casting a ray through the scene. Returns every \
    surface crossing along the ray plus the span between consecutive crossings — \
    so a span IS the hole diameter / wall thickness / face-to-face distance in mm. \
    USE THIS INSTEAD OF probing with many eval calls: one measure call replaces a \
    hand-rolled bisection search, and unlike eval's magnitude (a conservative lower \
    bound on composites) these distances are exact, because they are found by \
    bisecting the SDF *sign*, which is always exact. Example: to check an M3 \
    clearance hole drilled along Z in a plate, cast a ray across it \
    (from=[-50,0,0], dir=[1,0,0]); crossings are solid→hole→solid and the middle \
    span is the hole diameter (expect 3.2). Uses sphere tracing (Hart 1996), so \
    arbitrarily thin features are never stepped over. ALWAYS CHECK the returned \
    \"complete\" flag: if it is false the ray was cut short (typically because it \
    grazes along a face instead of crossing it) and the crossings/spans are \
    INCOMPLETE — re-aim the ray rather than trusting the numbers.";

/// The `from` parameter of `measure`.
pub const MEASURE_FROM_DOC: &'static str = "Ray origin [x,y,z] in mm (required)";

/// The `dir` parameter of `measure`.
pub const MEASURE_DIR_DOC: &'static str = "Ray direction [dx,dy,dz]; normalized internally, so returned distances \
    are true millimeters (required)";

/// The `max_distance` parameter of `measure`.
pub const MEASURE_MAX_DISTANCE_DOC: &'static str = "How far along the ray to search, in mm (default: scene diagonal × 3)";

/// What the `run_script` tool does, as clients are told.
pub const RUN_SCRIPT_ABOUT: &'static str = "Evaluate a KadoScene script and set it as the active scene. Returns a summary. \
    Accepts either JSON (starts with '{') or the compact text DSL, e.g. \
    difference(sphere(1), cylinder(0.3, 2)).";

/// The `script` parameter of `run_script`.
pub const RUN_SCRIPT_SCRIPT_DOC: &'static str = "KadoScene script: JSON object, or text DSL like union(sphere(1), cuboid(0.8))";

/// The `resolution` parameter of `run_script`.
pub const RUN_SCRIPT_RESOLUTION_DOC: &'static str = "Mesh resolution cells/axis for summary (default: 32)";

/// What the `validate` tool does, as clients are told.
pub const VALIDATE_ABOUT: &'static str = "Validate the current scene mesh for manufacturability (DFM). Returns a structured \
    JSON report: {ok, triangles, manifold, volume, volume_reliable, \
    surface_area, bbox:{min:[x,y,z],max:[x,y,z]}|null, dims_mm:[x,y,z], \
    center_of_mass:[x,y,z]|null, measured_min_wall:number|null, \
    body_count:int|null, cavity_count:int|null, bed_contact_area:number|null, \
    digest, resolution:int, \
    issues:[{severity:\"error\"|\"warning\"|\"info\", code, cause, hints:[], \
    location:[x,y,z]|null}]}. \
    Only \"error\" severity sets ok=false; \"warning\"/\"info\" are advisory \
    (ENCLOSED_CAVITY is \"info\"). resolution echoes the effective (clamped) \
    extraction resolution used for this report. \
    Units: 1 coordinate unit = 1 mm, so volume is mm³, surface_area mm², \
    bed_contact_area mm². Estimate material: mass_g = volume/1000 × density \
    (PLA~1.24, ABS~1.04, PETG~1.27, resin~1.1 g/cm³) — see help for cost/infill notes. \
    location gives the 3-D coordinates of the problem (e.g. worst overhang centroid, \
    thinnest wall vertex, or center of mass for UNSTABLE) so the AI can zoom in. \
    All issue codes: EMPTY_MESH (no geometry), NON_MANIFOLD (self-intersecting faces), \
    OPEN_MESH (boundary edges, unprintable), NEGATIVE_VOLUME (inverted/inside-out mesh), \
    MULTIPLE_BODIES (separate shells), \
    THIN_WALL (local section < min_wall_mm), OVERHANG (angle > max_overhang_deg), \
    SUSPICIOUS_SCALE (overall size < min_wall, likely wrong units), \
    UNSTABLE (center of mass falls outside the base footprint → tips over), \
    HIGH_ASPECT_RATIO (build height / lateral size over max_aspect_ratio, \
    default 8 — sways during printing; the measured value is always in aspect_ratio), \
    ENCLOSED_CAVITY (info: fully-sealed internal void traps resin/support — needs a drain hole). \
    Overhang is measured against build_dir (default +Z). \
    If your printer builds along a different axis, set build_dir to get correct results.";

/// The `resolution` parameter of `validate`.
pub const VALIDATE_RESOLUTION_DOC: &'static str = "Mesh resolution cells/axis (default: 48)";

/// The `min_wall_mm` parameter of `validate`.
pub const VALIDATE_MIN_WALL_MM_DOC: &'static str = "Minimum wall thickness threshold in mm (0 to skip, default: 0.5). \
    Rule of thumb: set to ~1.25× nozzle diameter (0.5 mm suits a 0.4 mm FDM \
    nozzle); resin/SLA can go thinner but ~1 mm walls are more robust";

/// The `max_overhang_deg` parameter of `validate`.
pub const VALIDATE_MAX_OVERHANG_DEG_DOC: &'static str = "Maximum overhang angle in degrees from horizontal (0 to skip, default: 45)";

/// The `max_aspect_ratio` parameter of `validate`.
pub const VALIDATE_MAX_ASPECT_RATIO_DOC: &'static str = "Slenderness threshold: build height / lateral size (0 to skip, default: 8). \
    The safe value depends on ABSOLUTE size, nozzle and material, not the ratio \
    alone — FDM practice puts a 0.3mm-wide wire at ~7mm tall (ratio ~23) and a \
    1.5mm-wide one at ~30mm (ratio ~20) before waving. The default 8 is \
    deliberately conservative for complex parts; raise it when your features are \
    thick. The measured ratio is ALWAYS returned as `aspect_ratio`, whether or \
    not it trips this threshold";

/// The `build_dir` parameter of `validate`.
pub const VALIDATE_BUILD_DIR_DOC: &'static str = "FDM build direction for overhang check: \"z\" (default +Z up), \"-z\", \
    \"x\", \"-x\", \"y\", \"-y\", or a JSON array [dx,dy,dz]. \
    Governs which faces are considered overhanging (問68).";

/// What the `get_scene` tool does, as clients are told.
pub const GET_SCENE_ABOUT: &'static str = "Return the KadoScene JSON script that produced the current active scene, \
    along with sampling bounds. Allows AI agents to inspect state before modifying it (問26).";

/// What the `undo_script` tool does, as clients are told.
pub const UNDO_SCRIPT_ABOUT: &'static str = "Restore the scene to the state before the last run_script call (single-level undo). \
    If run_script was never called, or undo was already applied, returns an error. \
    Useful when a bad script overwrites a valid scene and the AI needs to recover \
    without restarting the session (問67).";

/// What the `help` tool does, as clients are told.
pub const HELP_ABOUT: &'static str = "Return the KadoScene JSON format reference: all available op codes, \
    their parameters, and example scripts. Call this first when unfamiliar with the format.";

/// The parameters of `screenshot` as (name, JSON type, description, required).
pub open spec fn screenshot_params() -> Seq<ParamEntry> {
    seq![
        ("view"@, "string"@, SCREENSHOT_VIEW_DOC@, false),
        ("width"@, "integer"@, SCREENSHOT_WIDTH_DOC@, false),
        ("height"@, "integer"@, SCREENSHOT_HEIGHT_DOC@, false),
        ("resolution"@, "integer"@, SCREENSHOT_RESOLUTION_DOC@, false),
        ("samples"@, "integer"@, SCREENSHOT_SAMPLES_DOC@, false),
        ("axes"@, "boolean"@, SCREENSHOT_AXES_DOC@, false),
        ("projection"@, "string"@, SCREENSHOT_PROJECTION_DOC@, false),
    ]
}

/// The parameters of `export` as (name, JSON type, description, required).
pub open spec fn export_params() -> Seq<ParamEntry> {
    seq![
        ("path"@, "string"@, EXPORT_PATH_DOC@, false),
        ("resolution"@, "integer"@, EXPORT_RESOLUTION_DOC@, false),
    ]
}

/// The parameters of `eval` as (name, JSON type, description, required).
pub open spec fn eval_params() -> Seq<ParamEntry> {
    seq![
        ("x"@, "number"@, EVAL_X_DOC@, true),
        ("y"@, "number"@, EVAL_Y_DOC@, true),
        ("z"@, "number"@, EVAL_Z_DOC@, true),
    ]
}

/// The parameters of `measure` as (name, JSON type, description, required).
pub open spec fn measure_params() -> Seq<ParamEntry> {
    seq![
        ("from"@, "array"@, MEASURE_FROM_DOC@, true),
        ("dir"@, "array"@, MEASURE_DIR_DOC@, true),
        ("max_distance"@, "number"@, MEASURE_MAX_DISTANCE_DOC@, false),
    ]
}

/// The parameters of `run_script` as (name, JSON type, description, required).
pub open spec fn run_script_params() -> Seq<ParamEntry> {
    seq![
        ("script"@, "string"@, RUN_SCRIPT_SCRIPT_DOC@, true),
        ("resolution"@, "integer"@, RUN_SCRIPT_RESOLUTION_DOC@, false),
    ]
}

/// The parameters of `validate` as (name, JSON type, description, required).
pub open spec fn validate_params() -> Seq<ParamEntry> {
    seq![
        ("resolution"@, "integer"@, VALIDATE_RESOLUTION_DOC@, false),
        ("min_wall_mm"@, "number"@, VALIDATE_MIN_WALL_MM_DOC@, false),
        ("max_overhang_deg"@, "number"@, VALIDATE_MAX_OVERHANG_DEG_DOC@, false),
        ("max_aspect_ratio"@, "number"@, VALIDATE_MAX_ASPECT_RATIO_DOC@, false),
        ("build_dir"@, "string"@, VALIDATE_BUILD_DIR_DOC@, false),
    ]
}

/// The parameters of `get_scene` as (name, JSON type, description, required).
pub open spec fn get_scene_params() -> Seq<ParamEntry> {
    Seq::empty()
}

/// The parameters of `undo_script` as (name, JSON type, description, required).
pub open spec fn undo_script_params() -> Seq<ParamEntry> {
    Seq::empty()
}

/// The parameters of `help` as (name, JSON type, description, required).
pub open spec fn help_params() -> Seq<ParamEntry> {
    Seq::empty()
}

/// The tool catalogue in the order clients receive it: each tool's name,
/// description and parameters.
pub open spec fn tool_catalogue() -> Seq<ToolEntry> {
    seq![
        ("screenshot"@, SCREENSHOT_ABOUT@, screenshot_params()),
        ("export"@, EXPORT_ABOUT@, export_params()),
        ("eval"@, EVAL_ABOUT@, eval_params()),
        ("measure"@, MEASURE_ABOUT@, measure_params()),
        ("run_script"@, RUN_SCRIPT_ABOUT@, run_script_params()),
        ("validate"@, VALIDATE_ABOUT@, validate_params()),
        ("get_scene"@, GET_SCENE_ABOUT@, get_scene_params()),
        ("undo_script"@, UNDO_SCRIPT_ABOUT@, undo_script_params()),
        ("help"@, HELP_ABOUT@, help_params()),
    ]
}

/// Every tool that can be called by name has a catalogue entry, and every
/// catalogue entry names a tool that can be called.
pub proof fn lemma_catalogue_lists_every_tool(name: Seq<char>)
    ensures
        tool_spec(name) is Some <==> exists|i: int|
            0 <= i < tool_catalogue().len() && #[trigger] tool_catalogue()[i].0 == name,
{
    reveal_strlit("screenshot");
    reveal_strlit("export");
    reveal_strlit("eval");
    reveal_strlit("measure");
    reveal_strlit("run_script");
    reveal_strlit("validate");
    reveal_strlit("get_scene");
    reveal_strlit("undo_script");
    reveal_strlit("help");
    let cat = tool_catalogue();
    if name == "screenshot"@ {
        assert(cat[0].0 == name);
    } else if name == "export"@ {
        assert(cat[1].0 == name);
    } else if name == "eval"@ {
        assert(cat[2].0 == name);
    } else if name == "measure"@ {
        assert(cat[3].0 == name);
    } else if name == "run_script"@ {
        assert(cat[4].0 == name);
    } else if name == "validate"@ {
        assert(cat[5].0 == name);
    } else if name == "get_scene"@ {
        assert(cat[6].0 == name);
    } else if name == "undo_script"@ {
        assert(cat[7].0 == name);
    } else if name == "help"@ {
        assert(cat[8].0 == name);
    }
}

fn param(name: &str, kind: &str, description: &str, required: bool) -> (p: ToolParam)
    ensures
        p@ == (name@, kind@, description@, required),
{
    ToolParam {
        name: String::from_str(name),
        kind: String::from_str(kind),
        description: String::from_str(description),
        required,
    }
}

fn tool_def(name: &str, description: &str, params: Vec<ToolParam>) -> (d: ToolDef)
    ensures
        d.name@ == name@,
        d.description@ == description@,
        d.params@ == params@,
{
    ToolDef { name: String::from_str(name), description: String::from_str(description), params }
}

fn screenshot_def() -> (d: ToolDef)
    ensures
        d@ == ("screenshot"@, SCREENSHOT_ABOUT@, screenshot_params()),
{
    let mut ps: Vec<ToolParam> = Vec::new();
    ps.push(param("view", "string", SCREENSHOT_VIEW_DOC, false));
    ps.push(param("width", "integer", SCREENSHOT_WIDTH_DOC, false));
    ps.push(param("height", "integer", SCREENSHOT_HEIGHT_DOC, false));
    ps.push(param("resolution", "integer", SCREENSHOT_RESOLUTION_DOC, false));
    ps.push(param("samples", "integer", SCREENSHOT_SAMPLES_DOC, false));
    ps.push(param("axes", "boolean", SCREENSHOT_AXES_DOC, false));
    ps.push(param("projection", "string", SCREENSHOT_PROJECTION_DOC, false));
    let d = tool_def("screenshot", SCREENSHOT_ABOUT, ps);
    assert(d@.2 =~= screenshot_params());
    d
}

fn export_def() -> (d: ToolDef)
    ensures
        d@ == ("export"@, EXPORT_ABOUT@, export_params()),
{
    let mut ps: Vec<ToolParam> = Vec::new();
    ps.push(param("path", "string", EXPORT_PATH_DOC, false));
    ps.push(param("resolution", "integer", EXPORT_RESOLUTION_DOC, false));
    let d = tool_def("export", EXPORT_ABOUT, ps);
    assert(d@.2 =~= export_params());
    d
}

fn eval_def() -> (d: ToolDef)
    ensures
        d@ == ("eval"@, EVAL_ABOUT@, eval_params()),
{
    let mut ps: Vec<ToolParam> = Vec::new();
    ps.push(param("x", "number", EVAL_X_DOC, true));
    ps.push(param("y", "number", EVAL_Y_DOC, true));
    ps.push(param("z", "number", EVAL_Z_DOC, true));
    let d = tool_def("eval", EVAL_ABOUT, ps);
    assert(d@.2 =~= eval_params());
    d
}

fn measure_def() -> (d: ToolDef)
    ensures
        d@ == ("measure"@, MEASURE_ABOUT@, measure_params()),
{
    let mut ps: Vec<ToolParam> = Vec::new();
    ps.push(param("from", "array", MEASURE_FROM_DOC, true));
    ps.push(param("dir", "array", MEASURE_DIR_DOC, true));
    ps.push(param("max_distance", "number", MEASURE_MAX_DISTANCE_DOC, false));
    let d = tool_def("measure", MEASURE_ABOUT, ps);
    assert(d@.2 =~= measure_params());
    d
}

fn run_script_def() -> (d: ToolDef)
    ensures
        d@ == ("run_script"@, RUN_SCRIPT_ABOUT@, run_script_params()),
{
    let mut ps: Vec<ToolParam> = Vec::new();
    ps.push(param("script", "string", RUN_SCRIPT_SCRIPT_DOC, true));
    ps.push(param("resolution", "integer", RUN_SCRIPT_RESOLUTION_DOC, false));
    let d = tool_def("run_script", RUN_SCRIPT_ABOUT, ps);
    assert(d@.2 =~= run_script_params());
    d
}

fn validate_def() -> (d: ToolDef)
    ensures
        d@ == ("validate"@, VALIDATE_ABOUT@, validate_params()),
{
    let mut ps: Vec<ToolParam> = Vec::new();
    ps.push(param("resolution", "integer", VALIDATE_RESOLUTION_DOC, false));
    ps.push(param("min_wall_mm", "number", VALIDATE_MIN_WALL_MM_DOC, false));
    ps.push(param("max_overhang_deg", "number", VALIDATE_MAX_OVERHANG_DEG_DOC, false));
    ps.push(param("max_aspect_ratio", "number", VALIDATE_MAX_ASPECT_RATIO_DOC, false));
    ps.push(param("build_dir", "string", VALIDATE_BUILD_DIR_DOC, false));
    let d = tool_def("validate", VALIDATE_ABOUT, ps);
    assert(d@.2 =~= validate_params());
    d
}

fn get_scene_def() -> (d: ToolDef)
    ensures
        d@ == ("get_scene"@, GET_SCENE_ABOUT@, get_scene_params()),
{
    let mut ps: Vec<ToolParam> = Vec::new();
    let d = tool_def("get_scene", GET_SCENE_ABOUT, ps);
    assert(d@.2 =~= get_scene_params());
    d
}

fn undo_script_def() -> (d: ToolDef)
    ensures
        d@ == ("undo_script"@, UNDO_SCRIPT_ABOUT@, undo_script_params()),
{
    let mut ps: Vec<ToolParam> = Vec::new();
    let d = tool_def("undo_script", UNDO_SCRIPT_ABOUT, ps);
    assert(d@.2 =~= undo_script_params());
    d
}

fn help_def() -> (d: ToolDef)
    ensures
        d@ == ("help"@, HELP_ABOUT@, help_params()),
{
    let mut ps: Vec<ToolParam> = Vec::new();
    let d = tool_def("help", HELP_ABOUT, ps);
    assert(d@.2 =~= help_params());
    d
}

/// The tool catalogue, in the order clients receive it.
pub fn tool_defs() -> (r: Vec<ToolDef>)
    ensures
        r@.map_values(|d: ToolDef| d@) == tool_catalogue(),
        forall|i: int| 0 <= i < r@.len() ==> tool_spec(#[trigger] r@[i].name@) is Some,
{
    let mut r: Vec<ToolDef> = Vec::new();
    r.push(screenshot_def());
    r.push(export_def());
    r.push(eval_def());
    r.push(measure_def());
    r.push(run_script_def());
    r.push(validate_def());
    r.push(get_scene_def());
    r.push(undo_script_def());
    r.push(help_def());
    assert(r@.map_values(|d: ToolDef| d@) =~= tool_catalogue());
    proof {
        assert forall|i: int| 0 <= i < r@.len() implies tool_spec(#[trigger] r@[i].name@) is Some by {
            assert(r@.map_values(|d: ToolDef| d@)[i] == tool_catalogue()[i]);
            lemma_catalogue_lists_every_tool(r@[i].name@);
        }
    }
    r
}

} // verus!
