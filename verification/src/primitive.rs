//! The solid primitives the interactive command builds, and the strokes
//! the exploded-symbol pass reads, by kind.

use vstd::prelude::*;

use crate::paths::{uppercase_of, uppercased};
use crate::text::{chars_of, same, trim, trimmed};

verus! {

/// Which primitive the primitive command builds.
#[derive(Clone, Copy, Debug, PartialEq, Eq, Structural)]
pub enum Shape {
    Box,
    Wedge,
    Cylinder,
    Cone,
    Sphere,
    Pyramid,
    Torus,
}

/// The command name a shape answers to (`PYR` is also a pyramid).
pub open spec fn shape_for(id: Seq<char>) -> Option<Shape> {
    if id == "BOX"@ {
        Some(Shape::Box)
    } else if id == "WEDGE"@ {
        Some(Shape::Wedge)
    } else if id == "CYLINDER"@ {
        Some(Shape::Cylinder)
    } else if id == "CONE"@ {
        Some(Shape::Cone)
    } else if id == "SPHERE"@ {
        Some(Shape::Sphere)
    } else if id == "PYRAMID"@ || id == "PYR"@ {
        Some(Shape::Pyramid)
    } else if id == "TORUS"@ {
        Some(Shape::Torus)
    } else {
        None
    }
}

pub open spec fn shape_name(shape: Shape) -> Seq<char> {
    match shape {
        Shape::Box => "BOX"@,
        Shape::Wedge => "WEDGE"@,
        Shape::Cylinder => "CYLINDER"@,
        Shape::Cone => "CONE"@,
        Shape::Sphere => "SPHERE"@,
        Shape::Pyramid => "PYRAMID"@,
        Shape::Torus => "TORUS"@,
    }
}

fn is(id: &Vec<char>, name: &str) -> (b: bool)
    ensures
        b == (id@ == name@),
{
    same(id.as_slice(), chars_of(name).as_slice())
}

impl Shape {
    /// The shape a command id names, if any.
    pub fn from_id(id: &str) -> (s: Option<Shape>)
        ensures
            s == shape_for(id@),
    {
        let v = chars_of(id);
        if is(&v, "BOX") {
            Some(Shape::Box)
        } else if is(&v, "WEDGE") {
            Some(Shape::Wedge)
        } else if is(&v, "CYLINDER") {
            Some(Shape::Cylinder)
        } else if is(&v, "CONE") {
            Some(Shape::Cone)
        } else if is(&v, "SPHERE") {
            Some(Shape::Sphere)
        } else if is(&v, "PYRAMID") || is(&v, "PYR") {
            Some(Shape::Pyramid)
        } else if is(&v, "TORUS") {
            Some(Shape::Torus)
        } else {
            None
        }
    }

    /// The command name of the shape.
    pub fn name(self) -> (n: &'static str)
        ensures
            n@ == shape_name(self),
    {
        match self {
            Shape::Box => "BOX",
            Shape::Wedge => "WEDGE",
            Shape::Cylinder => "CYLINDER",
            Shape::Cone => "CONE",
            Shape::Sphere => "SPHERE",
            Shape::Pyramid => "PYRAMID",
            Shape::Torus => "TORUS",
        }
    }

    /// True for footprints picked as a centre + radius (round shapes);
    /// false for corner-to-corner footprints (box/wedge).
    pub fn radial(self) -> (b: bool)
        ensures
            b == !(self == Shape::Box || self == Shape::Wedge),
    {
        !(self == Shape::Box || self == Shape::Wedge)
    }

    /// Whether a height value is collected after the footprint.
    pub fn needs_height(self) -> (b: bool)
        ensures
            b == !(self == Shape::Sphere || self == Shape::Torus),
    {
        !(self == Shape::Sphere || self == Shape::Torus)
    }

    /// Number of footprint points the shape needs before the height step:
    /// a torus takes its centre and both radii, the others two points.
    pub fn footprint_points(self) -> (n: usize)
        ensures
            n == if self == Shape::Torus {
                3usize
            } else {
                2usize
            },
    {
        match self {
            Shape::Torus => 3,
            _ => 2,
        }
    }
}

/// The steps of a box: a corner (or the centre), then the other corner, a
/// cube's size, or a length and a width; then the height, typed, picked, or
/// measured between two points.
#[derive(Clone, Copy, Debug, PartialEq, Eq, Structural)]
pub enum BoxStep {
    FirstCorner,
    CenterPoint,
    OppositeCorner,
    CubeSize,
    Length,
    Width,
    Height,
    HeightFirstPoint,
    HeightSecondPoint,
}

/// What a value typed or dragged at the current step stands for.
#[derive(Clone, Copy, Debug, PartialEq, Eq, Structural)]
pub enum DynRole {
    Distance,
    Width,
    Height,
}

/// What a picked point leads to.
#[derive(Clone, Copy, Debug, PartialEq, Eq, Structural)]
pub enum PointStep {
    /// Ask for another point.
    NeedPoint,
    /// Build the solid now.
    Commit,
    /// The point is a measure (the other corner, a size, a height) that
    /// the geometry decides on.
    Measure,
}

/// What `Enter` leads to.
#[derive(Clone, Copy, Debug, PartialEq, Eq, Structural)]
pub enum EnterStep {
    /// Build the solid with the default height.
    CommitDefault,
    Cancel,
}

/// How far the primitive command has come, apart from the geometry it has
/// collected: the shape, how many footprint points it holds, whether it is
/// collecting the height, and for a box the step it is at and whether its
/// first point is the centre.
#[derive(Clone, Copy, Debug, PartialEq, Eq, Structural)]
pub struct CommandSteps {
    pub shape: Shape,
    pub points: usize,
    pub height_step: bool,
    pub box_step: BoxStep,
    pub box_centered: bool,
}

/// The prompt of a box step, after the shape's name.
pub open spec fn box_phrase(step: BoxStep) -> Seq<char> {
    match step {
        BoxStep::FirstCorner => "  Specify first corner or [Center]:"@,
        BoxStep::CenterPoint => "  Specify center point:"@,
        BoxStep::OppositeCorner => "  Specify other corner or [Cube/Length]:"@,
        BoxStep::CubeSize => "  Specify cube length:"@,
        BoxStep::Length => "  Specify length:"@,
        BoxStep::Width => "  Specify width:"@,
        BoxStep::Height => "  Specify height or [2Point]:"@,
        BoxStep::HeightFirstPoint => "  Specify first point for height:"@,
        BoxStep::HeightSecondPoint => "  Specify second point for height:"@,
    }
}

/// The prompt of the current step, after the shape's name.
pub open spec fn step_phrase(s: CommandSteps) -> Seq<char> {
    if s.shape == Shape::Box {
        box_phrase(s.box_step)
    } else if s.height_step {
        "  Specify height <Enter for default>:"@
    } else if s.shape == Shape::Torus {
        if s.points == 0 {
            "  Specify center point:"@
        } else if s.points == 1 {
            "  Specify outer radius:"@
        } else {
            "  Specify inner radius:"@
        }
    } else if !(s.shape == Shape::Box || s.shape == Shape::Wedge) {
        if s.points == 0 {
            "  Specify center point:"@
        } else {
            "  Specify radius:"@
        }
    } else if s.points == 0 {
        "  Specify first corner:"@
    } else {
        "  Specify opposite corner:"@
    }
}

/// The keywords the current step offers: a label and what to type.
pub open spec fn step_options(s: CommandSteps) -> Seq<(Seq<char>, Seq<char>)> {
    if s.shape != Shape::Box {
        Seq::empty()
    } else {
        match s.box_step {
            BoxStep::FirstCorner => seq![("Center"@, "C"@)],
            BoxStep::OppositeCorner => seq![("Cube"@, "C"@), ("Length"@, "L"@)],
            BoxStep::Height => seq![("2Point"@, "2P"@)],
            _ => Seq::empty(),
        }
    }
}

/// The state a keyword leads to, the keyword already trimmed and
/// uppercased; `None` when it is no keyword of the current step.
pub open spec fn keyword_effect(s: CommandSteps, word: Seq<char>) -> Option<CommandSteps> {
    if s.shape != Shape::Box {
        None
    } else if s.box_step == BoxStep::FirstCorner && (word == "C"@ || word == "CENTER"@) {
        Some(CommandSteps { box_centered: true, box_step: BoxStep::CenterPoint, ..s })
    } else if s.box_step == BoxStep::OppositeCorner && (word == "C"@ || word == "CUBE"@) {
        Some(CommandSteps { box_step: BoxStep::CubeSize, ..s })
    } else if s.box_step == BoxStep::OppositeCorner && (word == "L"@ || word == "LENGTH"@) {
        Some(CommandSteps { box_step: BoxStep::Length, ..s })
    } else if s.box_step == BoxStep::Height && (word == "2P"@ || word == "2POINT"@) {
        Some(CommandSteps { box_step: BoxStep::HeightFirstPoint, ..s })
    } else {
        None
    }
}

/// The state a picked point leads to, and what it asks for next.
pub open spec fn point_effect(s: CommandSteps) -> (CommandSteps, PointStep) {
    if s.shape == Shape::Box {
        match s.box_step {
            BoxStep::FirstCorner | BoxStep::CenterPoint => (
                CommandSteps { points: 1, box_step: BoxStep::OppositeCorner, ..s },
                PointStep::NeedPoint,
            ),
            BoxStep::HeightFirstPoint => (
                CommandSteps { box_step: BoxStep::HeightSecondPoint, ..s },
                PointStep::NeedPoint,
            ),
            _ => (s, PointStep::Measure),
        }
    } else if s.height_step {
        (s, PointStep::Commit)
    } else {
        let n = (s.points + 1) as usize;
        let footprint: int = if s.shape == Shape::Torus {
            3
        } else {
            2
        };
        if n < footprint {
            (CommandSteps { points: n, ..s }, PointStep::NeedPoint)
        } else if !(s.shape == Shape::Sphere || s.shape == Shape::Torus) {
            (CommandSteps { points: n, height_step: true, ..s }, PointStep::NeedPoint)
        } else {
            (CommandSteps { points: n, ..s }, PointStep::Commit)
        }
    }
}

/// A solid with an extent up from its footprint: a wedge, a cylinder, a
/// cone or a pyramid (a sphere and a torus have none).
pub open spec fn has_extent(shape: Shape) -> bool {
    shape == Shape::Wedge || shape == Shape::Cylinder || shape == Shape::Cone || shape == Shape::Pyramid
}

/// The point that completes a solid's footprint leads to its height step
/// exactly when the solid has an extent up from its footprint (and asks for
/// another point then); a sphere or a torus is built at once.
pub proof fn law_the_footprint_leads_to_the_height_of_a_solid_with_extent(s: CommandSteps)
    requires
        s.shape != Shape::Box,
        !s.height_step,
        s.points + 1 == (if s.shape == Shape::Torus {
            3int
        } else {
            2int
        }),
    ensures
        point_effect(s).0.height_step == has_extent(s.shape),
        point_effect(s).1 == (if has_extent(s.shape) {
            PointStep::NeedPoint
        } else {
            PointStep::Commit
        }),
        point_effect(s).0.points == s.points + 1,
{
}

/// From its first step, a solid other than a box takes its footprint's
/// points (two; a torus three), then, when it has an extent, one point more
/// for its height; the last of these builds it.
pub proof fn law_points_until_a_solid_is_built(shape: Shape, centered: bool)
    requires
        shape != Shape::Box,
    ensures
        ({
            let s0 = CommandSteps {
                shape,
                points: 0,
                height_step: false,
                box_step: BoxStep::FirstCorner,
                box_centered: centered,
            };
            let r1 = point_effect(s0);
            let r2 = point_effect(r1.0);
            let r3 = point_effect(r2.0);
            &&& r1.1 == PointStep::NeedPoint
            &&& (shape == Shape::Sphere ==> r2.1 == PointStep::Commit)
            &&& (has_extent(shape) ==> r2.1 == PointStep::NeedPoint && r2.0.height_step && r3.1 == PointStep::Commit)
            &&& (shape == Shape::Torus ==> r2.1 == PointStep::NeedPoint && !r2.0.height_step && r3.1
                == PointStep::Commit)
        }),
{
}

/// A box's picked point: at its first corner or centre it asks for the
/// other corner; at the first point of a two-point height it asks for the
/// second; anywhere else the point is a measure for the geometry, and the
/// steps stay as they were.
pub proof fn law_a_box_point_asks_for_its_partner_or_measures(s: CommandSteps)
    requires
        s.shape == Shape::Box,
    ensures
        (s.box_step == BoxStep::FirstCorner || s.box_step == BoxStep::CenterPoint) ==> point_effect(s) == (
            CommandSteps { points: 1, box_step: BoxStep::OppositeCorner, ..s },
            PointStep::NeedPoint,
        ),
        s.box_step == BoxStep::HeightFirstPoint ==> point_effect(s) == (
            CommandSteps { box_step: BoxStep::HeightSecondPoint, ..s },
            PointStep::NeedPoint,
        ),
        !(s.box_step == BoxStep::FirstCorner || s.box_step == BoxStep::CenterPoint || s.box_step
            == BoxStep::HeightFirstPoint) ==> point_effect(s) == (s, PointStep::Measure),
{
}

impl CommandSteps {
    /// The command for the shape `id` names (a box for an unknown id), at
    /// its first step.
    pub fn new(id: &str) -> (s: CommandSteps)
        ensures
            s.shape == match shape_for(id@) {
                Some(shape) => shape,
                None => Shape::Box,
            },
            s.points == 0,
            !s.height_step,
            s.box_step == BoxStep::FirstCorner,
            !s.box_centered,
    {
        let shape = match Shape::from_id(id) {
            Some(shape) => shape,
            None => Shape::Box,
        };
        CommandSteps {
            shape,
            points: 0,
            height_step: false,
            box_step: BoxStep::FirstCorner,
            box_centered: false,
        }
    }

    fn phrase(&self) -> (p: &'static str)
        ensures
            p@ == step_phrase(*self),
    {
        if self.shape == Shape::Box {
            return match self.box_step {
                BoxStep::FirstCorner => "  Specify first corner or [Center]:",
                BoxStep::CenterPoint => "  Specify center point:",
                BoxStep::OppositeCorner => "  Specify other corner or [Cube/Length]:",
                BoxStep::CubeSize => "  Specify cube length:",
                BoxStep::Length => "  Specify length:",
                BoxStep::Width => "  Specify width:",
                BoxStep::Height => "  Specify height or [2Point]:",
                BoxStep::HeightFirstPoint => "  Specify first point for height:",
                BoxStep::HeightSecondPoint => "  Specify second point for height:",
            };
        }
        if self.height_step {
            return "  Specify height <Enter for default>:";
        }
        if self.shape == Shape::Torus {
            if self.points == 0 {
                "  Specify center point:"
            } else if self.points == 1 {
                "  Specify outer radius:"
            } else {
                "  Specify inner radius:"
            }
        } else if self.shape.radial() {
            if self.points == 0 {
                "  Specify center point:"
            } else {
                "  Specify radius:"
            }
        } else if self.points == 0 {
            "  Specify first corner:"
        } else {
            "  Specify opposite corner:"
        }
    }

    /// The prompt of the current step: the shape's name and what to pick
    /// or type.
    pub fn prompt(&self) -> (p: String)
        ensures
            p@ == shape_name(self.shape) + step_phrase(*self),
    {
        let mut out = chars_of(self.shape.name());
        crate::text::append(&mut out, chars_of(self.phrase()).as_slice());
        crate::text::string_of(out.as_slice())
    }

    /// The keywords the current step offers, each as a label and what to
    /// type.
    pub fn options(&self) -> (o: Vec<(String, String)>)
        ensures
            o@.len() == step_options(*self).len(),
            forall|i: int|
                0 <= i < o@.len() ==> (#[trigger] o@[i]).0@ == step_options(*self)[i].0 && o@[i].1@
                    == step_options(*self)[i].1,
    {
        let mut o: Vec<(String, String)> = Vec::new();
        if self.shape != Shape::Box {
            return o;
        }
        match self.box_step {
            BoxStep::FirstCorner => {
                o.push((str_string("Center"), str_string("C")));
            },
            BoxStep::OppositeCorner => {
                o.push((str_string("Cube"), str_string("C")));
                o.push((str_string("Length"), str_string("L")));
            },
            BoxStep::Height => {
                o.push((str_string("2Point"), str_string("2P")));
            },
            _ => {},
        }
        o
    }

    /// Whether the current step takes typed input.
    pub fn wants_text_input(&self) -> (b: bool)
        ensures
            b == if self.shape == Shape::Box {
                match self.box_step {
                    BoxStep::FirstCorner | BoxStep::OppositeCorner | BoxStep::CubeSize
                    | BoxStep::Length | BoxStep::Width | BoxStep::Height => true,
                    _ => false,
                }
            } else {
                self.height_step
            },
    {
        if self.shape == Shape::Box {
            match self.box_step {
                BoxStep::FirstCorner | BoxStep::OppositeCorner | BoxStep::CubeSize
                | BoxStep::Length | BoxStep::Width | BoxStep::Height => true,
                _ => false,
            }
        } else {
            self.height_step
        }
    }

    /// Whether a step that asks for a point also takes a keyword.
    pub fn point_step_accepts_keywords(&self) -> (b: bool)
        ensures
            b == (self.shape == Shape::Box && (self.box_step == BoxStep::FirstCorner
                || self.box_step == BoxStep::OppositeCorner || self.box_step == BoxStep::Height)),
    {
        self.shape == Shape::Box && match self.box_step {
            BoxStep::FirstCorner | BoxStep::OppositeCorner | BoxStep::Height => true,
            _ => false,
        }
    }

    /// Whether the cursor is held to the working plane's normal: while the
    /// height is collected.
    pub fn constrained_to_axis(&self) -> (b: bool)
        ensures
            b == if self.shape == Shape::Box {
                self.box_step == BoxStep::Height
            } else {
                self.height_step
            },
    {
        if self.shape == Shape::Box {
            self.box_step == BoxStep::Height
        } else {
            self.height_step
        }
    }

    /// What a typed or dragged value stands for at the current step.
    pub fn dyn_role(&self) -> (r: Option<DynRole>)
        ensures
            r == if self.shape == Shape::Box {
                match self.box_step {
                    BoxStep::CubeSize | BoxStep::Length => Some(DynRole::Distance),
                    BoxStep::Width => Some(DynRole::Width),
                    BoxStep::Height => Some(DynRole::Height),
                    _ => None,
                }
            } else if self.height_step {
                Some(DynRole::Height)
            } else {
                None
            },
    {
        if self.shape == Shape::Box {
            match self.box_step {
                BoxStep::CubeSize | BoxStep::Length => Some(DynRole::Distance),
                BoxStep::Width => Some(DynRole::Width),
                BoxStep::Height => Some(DynRole::Height),
                _ => None,
            }
        } else if self.height_step {
            Some(DynRole::Height)
        } else {
            None
        }
    }

    /// Take typed text as a keyword of the current step (`C`/`CENTER`,
    /// `C`/`CUBE`, `L`/`LENGTH`, `2P`/`2POINT`, in any case, surrounding
    /// whitespace ignored). Returns whether it was one; text that is not is
    /// left for the step to read as a value.
    pub fn on_keyword(&mut self, raw: &str) -> (taken: bool)
        ensures
            taken == keyword_effect(*old(self), uppercased(trim(raw@))) is Some,
            *final(self) == match keyword_effect(*old(self), uppercased(trim(raw@))) {
                Some(next) => next,
                None => *old(self),
            },
    {
        if self.shape != Shape::Box {
            return false;
        }
        let token = crate::text::string_of(trimmed(chars_of(raw).as_slice()).as_slice());
        let upper = uppercase_of(token.as_str());
        let u = chars_of(upper.as_str());
        proof {
            reveal_strlit("C");
            reveal_strlit("CENTER");
            reveal_strlit("CUBE");
            reveal_strlit("L");
            reveal_strlit("LENGTH");
            reveal_strlit("2P");
            reveal_strlit("2POINT");
        }
        let is_c = same(u.as_slice(), chars_of("C").as_slice());
        if self.box_step == BoxStep::FirstCorner && (is_c || same(
            u.as_slice(),
            chars_of("CENTER").as_slice(),
        )) {
            self.box_centered = true;
            self.box_step = BoxStep::CenterPoint;
            return true;
        }
        if self.box_step == BoxStep::OppositeCorner && (is_c || same(
            u.as_slice(),
            chars_of("CUBE").as_slice(),
        )) {
            self.box_step = BoxStep::CubeSize;
            return true;
        }
        if self.box_step == BoxStep::OppositeCorner && (same(u.as_slice(), chars_of("L").as_slice())
            || same(u.as_slice(), chars_of("LENGTH").as_slice())) {
            self.box_step = BoxStep::Length;
            return true;
        }
        if self.box_step == BoxStep::Height && (same(u.as_slice(), chars_of("2P").as_slice()) || same(
            u.as_slice(),
            chars_of("2POINT").as_slice(),
        )) {
            self.box_step = BoxStep::HeightFirstPoint;
            return true;
        }
        false
    }

    /// Take a picked point: where the footprint or the height stands, and
    /// what is asked next.
    pub fn on_point(&mut self) -> (next: PointStep)
        requires
            old(self).shape != Shape::Box && !old(self).height_step ==> old(self).points
                < usize::MAX,
        ensures
            (*final(self), next) == point_effect(*old(self)),
    {
        if self.shape == Shape::Box {
            return match self.box_step {
                BoxStep::FirstCorner | BoxStep::CenterPoint => {
                    self.points = 1;
                    self.box_step = BoxStep::OppositeCorner;
                    PointStep::NeedPoint
                },
                BoxStep::HeightFirstPoint => {
                    self.box_step = BoxStep::HeightSecondPoint;
                    PointStep::NeedPoint
                },
                _ => PointStep::Measure,
            };
        }
        if self.height_step {
            return PointStep::Commit;
        }
        self.points = self.points + 1;
        if self.points < self.shape.footprint_points() {
            PointStep::NeedPoint
        } else if self.shape.needs_height() {
            self.height_step = true;
            PointStep::NeedPoint
        } else {
            PointStep::Commit
        }
    }

    /// What `Enter` does: a shape other than a box that is collecting its
    /// height takes the default height; anything else cancels.
    pub fn on_enter(&self) -> (e: EnterStep)
        ensures
            e == if self.shape != Shape::Box && self.height_step {
                EnterStep::CommitDefault
            } else {
                EnterStep::Cancel
            },
    {
        if self.shape != Shape::Box && self.height_step {
            EnterStep::CommitDefault
        } else {
            EnterStep::Cancel
        }
    }

    /// A box's footprint is set, from its other corner or its width: the
    /// height comes next.
    pub fn footprint_set(&mut self)
        ensures
            *final(self) == (CommandSteps { box_step: BoxStep::Height, height_step: true, ..*old(self) }),
    {
        self.box_step = BoxStep::Height;
        self.height_step = true;
    }

    /// A box's length is set: its width comes next.
    pub fn length_set(&mut self)
        ensures
            *final(self) == (CommandSteps { box_step: BoxStep::Width, ..*old(self) }),
    {
        self.box_step = BoxStep::Width;
    }
}

fn str_string(s: &str) -> (out: String)
    ensures
        out@ == s@,
{
    crate::text::string_of(chars_of(s).as_slice())
}

/// Kinds of loose stroke.
#[derive(Clone, Copy, Debug, PartialEq, Eq, Structural)]
pub enum PrimKind {
    Line,
    Poly,
    Circle,
    Arc,
    Ellipse,
    Solid,
}

impl PrimKind {
    /// The letter a stroke's kind contributes to a shape's signature:
    /// `C`ircle, `A`rc, `E`llipse, and `L` for everything straight.
    pub fn letter(self) -> (c: char)
        ensures
            c == match self {
                PrimKind::Circle => 'C',
                PrimKind::Arc => 'A',
                PrimKind::Ellipse => 'E',
                _ => 'L',
            },
    {
        match self {
            PrimKind::Circle => 'C',
            PrimKind::Arc => 'A',
            PrimKind::Ellipse => 'E',
            PrimKind::Line | PrimKind::Poly | PrimKind::Solid => 'L',
        }
    }
}

/// The axis a straight stroke runs along.
#[derive(Debug, Clone, Copy, PartialEq, Eq, Structural)]
pub enum Axis {
    Horizontal,
    Vertical,
}

impl Axis {
    /// The axis across this one.
    pub fn other(self) -> (a: Axis)
        ensures
            a != self,
    {
        match self {
            Axis::Horizontal => Axis::Vertical,
            Axis::Vertical => Axis::Horizontal,
        }
    }
}

} // verus!
