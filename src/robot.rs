use vstd::prelude::*;
use crate::value::{fits, LogoError, SCALE};

verus! {

/// The centre of the canvas, in scaled units, on both axes.
pub const CENTER: i64 = 500 * SCALE;

/// The heading of a new turtle: north, in scaled degrees.
pub const NORTH: i64 = -90 * SCALE;

/// The text size of a new turtle, in scaled units.
pub const LABEL_HEIGHT: i64 = 100 * SCALE;

/// One move of the turtle. Distances, coordinates and headings are scaled
/// like numbers; headings are in degrees, clockwise from the x axis.
#[derive(PartialEq, Eq, Structural, Clone, Copy, Debug)]
pub enum Step {
    /// A walk of `dist` along `heading`.
    Walk { heading: i64, dist: i64 },
    /// A jump to the point `(x, y)`.
    Goto { x: i64, y: i64 },
}

/// One drawing operation of a path.
#[derive(PartialEq, Eq, Structural, Clone, Copy, Debug)]
pub enum PathOp {
    /// Moves, without drawing, to the point where the turtle stood after the
    /// first `n` steps of its trail (after none: the centre).
    MoveTo(usize),
    /// Draws a line of length `dist` along `heading`.
    LineBy { heading: i64, dist: i64 },
}

/// A finished element of the picture.
pub enum Element {
    /// A path in one colour.
    Path { color: String, ops: Vec<PathOp> },
    /// A text, written where the turtle stood after the first `at` steps,
    /// turned to `heading`, of height `size`.
    Label { at: usize, heading: i64, size: i64, color: String, text: String },
}

/// What an element is, as mathematical data.
pub enum Mark {
    Path { color: Seq<char>, ops: Seq<PathOp> },
    Label { at: nat, heading: int, size: int, color: Seq<char>, text: Seq<char> },
}

impl View for Element {
    type V = Mark;

    open spec fn view(&self) -> Mark {
        match self {
            Element::Path { color, ops } => Mark::Path { color: color@, ops: ops@ },
            Element::Label { at, heading, size, color, text } => Mark::Label {
                at: *at as nat,
                heading: *heading as int,
                size: *size as int,
                color: color@,
                text: text@,
            },
        }
    }
}

impl Element {
    /// An element equal to this one.
    pub fn duplicate(&self) -> (r: Element)
        ensures
            r@ == self@,
    {
        match self {
            Element::Path { color, ops } => Element::Path { color: color.clone(), ops: copy_vec(ops) },
            Element::Label { at, heading, size, color, text } => Element::Label {
                at: *at,
                heading: *heading,
                size: *size,
                color: color.clone(),
                text: text.clone(),
            },
        }
    }
}

/// A finished picture: its elements in order, and the trail of turtle steps
/// that their positions refer to. The canvas is 1000 by 1000.
pub struct Picture {
    pub elements: Vec<Element>,
    pub trail: Vec<Step>,
}

pub fn copy_vec<T: Copy>(v: &Vec<T>) -> (r: Vec<T>)
    ensures
        r@ == v@,
{
    let mut r: Vec<T> = Vec::new();
    let mut i: usize = 0;
    while i < v.len()
        invariant
            i <= v@.len(),
            r@ == v@.take(i as int),
        decreases v@.len() - i,
    {
        r.push(v[i]);
        i = i + 1;
        assert(r@ =~= v@.take(i as int));
    }
    assert(v@.take(i as int) =~= v@);
    r
}

/// The turtle: where it is, where it heads, its pen, the path it is drawing
/// and the elements it has finished.
pub struct Robot {
    document: Vec<Element>,
    color: String,
    data: Option<Vec<PathOp>>,
    trail: Vec<Step>,
    angle: i64,
    labelheight: i64,
}

/// What a turtle is, as mathematical data. `data` is the path in progress,
/// `None` while the pen is up; the turtle stands where `trail` takes it.
pub struct TurtleModel {
    pub document: Seq<Mark>,
    pub color: Seq<char>,
    pub data: Option<Seq<PathOp>>,
    pub trail: Seq<Step>,
    pub angle: int,
    pub labelheight: int,
}

impl View for Robot {
    type V = TurtleModel;

    closed spec fn view(&self) -> TurtleModel {
        TurtleModel {
            document: self.document@.map_values(|e: Element| e@),
            color: self.color@,
            data: match self.data {
                Some(ops) => Some(ops@),
                None => None,
            },
            trail: self.trail@,
            angle: self.angle as int,
            labelheight: self.labelheight as int,
        }
    }
}

pub open spec fn has_line(ops: Seq<PathOp>) -> bool {
    exists|i: int| 0 <= i < ops.len() && #[trigger] ops[i] is LineBy
}

/// Commits the path in progress, where it draws anything, as a finished
/// element in the current colour, and starts a new path where the turtle is.
pub open spec fn flush_spec(m: TurtleModel) -> TurtleModel {
    match m.data {
        Some(ops) => if has_line(ops) {
            TurtleModel {
                document: m.document.push(Mark::Path { color: m.color, ops }),
                data: Some(seq![PathOp::MoveTo(m.trail.len() as usize)]),
                ..m
            }
        } else {
            m
        },
        None => m,
    }
}

pub open spec fn forward_spec(m: TurtleModel, d: int) -> TurtleModel {
    TurtleModel {
        trail: m.trail.push(Step::Walk { heading: m.angle as i64, dist: d as i64 }),
        data: match m.data {
            Some(ops) => Some(ops.push(PathOp::LineBy { heading: m.angle as i64, dist: d as i64 })),
            None => None,
        },
        ..m
    }
}

pub open spec fn setpos_spec(m: TurtleModel, x: int, y: int) -> TurtleModel {
    TurtleModel {
        trail: m.trail.push(Step::Goto { x: x as i64, y: y as i64 }),
        data: match m.data {
            Some(ops) => Some(ops.push(PathOp::MoveTo((m.trail.len() + 1) as usize))),
            None => None,
        },
        ..m
    }
}

pub open spec fn clean_spec(m: TurtleModel) -> TurtleModel {
    TurtleModel { document: Seq::empty(), ..flush_spec(m) }
}

pub open spec fn label_spec(m: TurtleModel, s: Seq<char>) -> TurtleModel {
    TurtleModel {
        document: m.document.push(
            Mark::Label {
                at: m.trail.len(),
                heading: m.angle,
                size: m.labelheight,
                color: m.color,
                text: s,
            },
        ),
        ..m
    }
}

/// The turtle turned by `t` degrees (scaled), where the heading stays in range.
pub open spec fn turn_spec(m: TurtleModel, t: int) -> Result<TurtleModel, LogoError> {
    if fits(m.angle + t) {
        Ok(TurtleModel { angle: m.angle + t, ..m })
    } else {
        Err(LogoError::RangeError)
    }
}

/// A new turtle: at the centre, heading north, pen down in black, on a
/// blank canvas.
pub open spec fn fresh_turtle() -> TurtleModel {
    TurtleModel {
        document: Seq::empty(),
        color: seq!['b', 'l', 'a', 'c', 'k'],
        data: Some(seq![PathOp::MoveTo(0)]),
        trail: Seq::empty(),
        angle: NORTH as int,
        labelheight: LABEL_HEIGHT as int,
    }
}

impl Robot {
    /// A turtle at the centre, heading north, pen down in black, on a blank
    /// canvas.
    pub fn new() -> (r: Robot)
        ensures
            r@ == fresh_turtle(),
    {
        proof {
            reveal_strlit("black");
        }
        let r = Robot {
            document: Vec::new(),
            color: String::from_str("black"),
            data: Some(vec![PathOp::MoveTo(0)]),
            trail: Vec::new(),
            angle: NORTH,
            labelheight: LABEL_HEIGHT,
        };
        assert(r@.document =~= Seq::<Mark>::empty());
        assert(r@.color =~= seq!['b', 'l', 'a', 'c', 'k']);
        assert(r@.data->Some_0 =~= seq![PathOp::MoveTo(0)]);
        assert(r@.trail =~= Seq::<Step>::empty());
        r
    }

    /// Moves to the centre; the heading stays as it is.
    pub fn home(&mut self)
        ensures
            final(self)@ == setpos_spec(old(self)@, CENTER as int, CENTER as int),
    {
        self.setpos(CENTER, CENTER);
    }

    /// Walks `m` along the heading, drawing where the pen is down.
    pub fn forward(&mut self, m: i64)
        ensures
            final(self)@ == forward_spec(old(self)@, m as int),
    {
        self.trail.push(Step::Walk { heading: self.angle, dist: m });
        let mut data: Option<Vec<PathOp>> = None;
        std::mem::swap(&mut data, &mut self.data);
        match data {
            Some(mut ops) => {
                ops.push(PathOp::LineBy { heading: self.angle, dist: m });
                self.data = Some(ops);
            },
            None => {},
        }
        assert(self@.document =~= old(self)@.document);
    }

    fn has_line_exec(ops: &Vec<PathOp>) -> (r: bool)
        ensures
            r == has_line(ops@),
    {
        let mut i: usize = 0;
        while i < ops.len()
            invariant
                i <= ops@.len(),
                forall|j: int| 0 <= j < i ==> !(#[trigger] ops@[j] is LineBy),
            decreases ops@.len() - i,
        {
            match ops[i] {
                PathOp::LineBy { .. } => {
                    return true;
                },
                _ => {},
            }
            i = i + 1;
        }
        false
    }

    /// Commits the path in progress; see `flush_spec`.
    fn flush_path(&mut self)
        ensures
            final(self)@ == flush_spec(old(self)@),
    {
        let mut data: Option<Vec<PathOp>> = None;
        std::mem::swap(&mut data, &mut self.data);
        match data {
            Some(ops) => {
                if Self::has_line_exec(&ops) {
                    let ghost o = ops@;
                    self.document.push(Element::Path { color: self.color.clone(), ops });
                    self.data = Some(vec![PathOp::MoveTo(self.trail.len())]);
                    assert(self@.document =~= old(self)@.document.push(
                        Mark::Path { color: old(self)@.color, ops: o },
                    ));
                    assert(self@.data->Some_0 =~= seq![PathOp::MoveTo(self.trail@.len() as usize)]);
                } else {
                    self.data = Some(ops);
                }
            },
            None => {},
        }
    }

    /// Commits the path under the old colour, then takes up `color`.
    pub fn setpencolor(&mut self, color: String)
        ensures
            final(self)@ == (TurtleModel { color: color@, ..flush_spec(old(self)@) }),
    {
        self.flush_path();
        self.color = color;
    }

    /// Commits the path and lifts the pen.
    pub fn penup(&mut self)
        ensures
            final(self)@ == (TurtleModel { data: None, ..flush_spec(old(self)@) }),
    {
        self.flush_path();
        self.data = None;
    }

    /// Commits the path and puts the pen down, starting a path where the
    /// turtle is.
    pub fn pendown(&mut self)
        ensures
            final(self)@ == (TurtleModel {
                data: Some(seq![PathOp::MoveTo(old(self)@.trail.len() as usize)]),
                ..flush_spec(old(self)@)
            }),
    {
        self.flush_path();
        self.data = Some(vec![PathOp::MoveTo(self.trail.len())]);
        assert(self@.data->Some_0 =~= seq![PathOp::MoveTo(old(self)@.trail.len() as usize)]);
    }

    /// Walks `m` backwards.
    pub fn back(&mut self, m: i64)
        requires
            m != i64::MIN,
        ensures
            final(self)@ == forward_spec(old(self)@, -m),
    {
        self.forward(-m);
    }

    /// Turns left by `t` degrees (scaled).
    pub fn left(&mut self, t: i64) -> (r: Result<(), LogoError>)
        ensures
            match turn_spec(old(self)@, -t) {
                Ok(m) => r is Ok && final(self)@ == m,
                Err(e) => r == Err::<(), LogoError>(e) && final(self)@ == old(self)@,
            },
    {
        let a: i128 = self.angle as i128 - t as i128;
        if a < -(i64::MAX as i128) || a > i64::MAX as i128 {
            return Err(LogoError::RangeError);
        }
        self.angle = a as i64;
        Ok(())
    }

    /// Turns right by `t` degrees (scaled).
    pub fn right(&mut self, t: i64) -> (r: Result<(), LogoError>)
        ensures
            match turn_spec(old(self)@, t as int) {
                Ok(m) => r is Ok && final(self)@ == m,
                Err(e) => r == Err::<(), LogoError>(e) && final(self)@ == old(self)@,
            },
    {
        let a: i128 = self.angle as i128 + t as i128;
        if a < -(i64::MAX as i128) || a > i64::MAX as i128 {
            return Err(LogoError::RangeError);
        }
        self.angle = a as i64;
        Ok(())
    }

    /// Commits the path and returns the finished picture; the turtle keeps
    /// its state, so a second call returns the same picture.
    pub fn plot(&mut self) -> (r: Picture)
        ensures
            final(self)@ == flush_spec(old(self)@),
            r.elements@.map_values(|e: Element| e@) == final(self)@.document,
            r.trail@ == final(self)@.trail,
    {
        self.flush_path();
        let mut elements: Vec<Element> = Vec::new();
        let mut i: usize = 0;
        while i < self.document.len()
            invariant
                i <= self.document@.len(),
                elements@.len() == i,
                forall|j: int| 0 <= j < i ==> #[trigger] elements@[j]@ == self.document@[j]@,
            decreases self.document@.len() - i,
        {
            elements.push(self.document[i].duplicate());
            i = i + 1;
        }
        assert(elements@.map_values(|e: Element| e@) =~= self.document@.map_values(|e: Element| e@));
        Picture { elements, trail: copy_vec(&self.trail) }
    }

    /// Jumps to `(x, y)` without drawing; the heading stays as it is.
    pub fn setpos(&mut self, x: i64, y: i64)
        ensures
            final(self)@ == setpos_spec(old(self)@, x as int, y as int),
    {
        self.trail.push(Step::Goto { x, y });
        let mut data: Option<Vec<PathOp>> = None;
        std::mem::swap(&mut data, &mut self.data);
        match data {
            Some(mut ops) => {
                ops.push(PathOp::MoveTo(self.trail.len()));
                self.data = Some(ops);
            },
            None => {},
        }
        assert(self@.document =~= old(self)@.document);
    }

    /// Writes `s` where the turtle is, turned to its heading, in its colour
    /// and text size; the path is left as it is.
    pub fn label(&mut self, s: String)
        ensures
            final(self)@ == label_spec(old(self)@, s@),
    {
        let e = Element::Label {
            at: self.trail.len(),
            heading: self.angle,
            size: self.labelheight,
            color: self.color.clone(),
            text: s,
        };
        self.document.push(e);
        assert(self@.document =~= label_spec(old(self)@, s@).document);
    }

    /// Sets the text size of later labels.
    pub fn setlabelheight(&mut self, h: i64)
        ensures
            final(self)@ == (TurtleModel { labelheight: h as int, ..old(self)@ }),
    {
        self.labelheight = h;
    }

    /// Commits the path, then blanks the canvas; the turtle stays where it is.
    pub fn clean(&mut self)
        ensures
            final(self)@ == clean_spec(old(self)@),
    {
        self.flush_path();
        self.document = Vec::new();
        assert(self@.document =~= Seq::<Mark>::empty());
    }

    /// Moves to the centre, then blanks the canvas.
    pub fn clearscreen(&mut self)
        ensures
            final(self)@ == clean_spec(setpos_spec(old(self)@, CENTER as int, CENTER as int)),
    {
        self.home();
        self.clean();
    }
}

} // verus!
