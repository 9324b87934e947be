use vstd::prelude::*;
use vstd::string::StringExecFns;
use crate::chance::{choose_word, draw_below};
use crate::parser::{atom, is_keyword, op_of, to_word, exps_view, parse_expr, parse_statement, term_of, Exp, ProcModel, Procedure, Stat, Term, OP};
use crate::robot::{
    clean_spec, flush_spec, forward_spec, label_spec, setpos_spec, turn_spec, Picture, Robot,
    TurtleModel, CENTER,
};
use crate::table::{same_text, Table};
use crate::unsee::Unsee;
use crate::value::{
    bool_value, copy_strings, div_spec, gives, less_spec, mul_spec, number_value, scale, sub_spec,
    tdiv, text_of, texts, Datum, LogoError, Value, SCALE,
};

verus! {

/// How deep calls and expressions may nest before a run fails.
pub const MAX_DEPTH: u64 = 20_000;

/// The state of a run: the turtle, the variables, the procedures, the
/// arities of all commands, and the lines printed so far.
pub struct Context {
    robot: Robot,
    vars: Table<Value>,
    procs: Table<Procedure>,
    signs: Table<usize>,
    printed: Vec<String>,
}

/// What a context is, as mathematical data.
pub struct ContextModel {
    pub robot: TurtleModel,
    pub vars: Map<Seq<char>, Datum>,
    pub procs: Map<Seq<char>, ProcModel>,
    pub signs: Map<Seq<char>, usize>,
    pub printed: Seq<Seq<char>>,
}

impl View for Context {
    type V = ContextModel;

    closed spec fn view(&self) -> ContextModel {
        ContextModel {
            robot: self.robot@,
            vars: self.vars@,
            procs: self.procs@,
            signs: self.signs@,
            printed: texts(self.printed@),
        }
    }
}

/// The result of evaluating an expression: a value to go on with, or a value
/// that leaves the procedure (or the program) being run.
pub enum ExpResult {
    Exit(Value),
    Outcome(Value),
}

pub enum Flow {
    Exit(Datum),
    Outcome(Datum),
}

impl View for ExpResult {
    type V = Flow;

    open spec fn view(&self) -> Flow {
        match self {
            ExpResult::Exit(v) => Flow::Exit(v@),
            ExpResult::Outcome(v) => Flow::Outcome(v@),
        }
    }
}

/// A command of the interpreter.
#[derive(PartialEq, Eq, Structural, Clone, Copy, Debug)]
pub enum Command {
    Stop,
    Output,
    Forward,
    Back,
    Right,
    Left,
    SetPenColor,
    Home,
    Label,
    SetLabelHeight,
    PenUp,
    PenDown,
    Wait,
    Clean,
    ClearScreen,
    Window,
    HideTurtle,
    ShowTurtle,
    Print,
    Repeat,
    If,
    Make,
    Pick,
    Random,
    Sentence,
    Run,
}

/// The command that a name calls, if any.
pub open spec fn command_of(n: Seq<char>) -> Option<Command> {
    if n == "stop"@ {
        Some(Command::Stop)
    } else if n == "output"@ {
        Some(Command::Output)
    } else if n == "fd"@ || n == "forward"@ {
        Some(Command::Forward)
    } else if n == "bk"@ || n == "back"@ {
        Some(Command::Back)
    } else if n == "rt"@ || n == "right"@ {
        Some(Command::Right)
    } else if n == "lt"@ || n == "left"@ {
        Some(Command::Left)
    } else if n == "setcolor"@ || n == "setpencolor"@ {
        Some(Command::SetPenColor)
    } else if n == "home"@ {
        Some(Command::Home)
    } else if n == "label"@ {
        Some(Command::Label)
    } else if n == "setlabelheight"@ {
        Some(Command::SetLabelHeight)
    } else if n == "penup"@ || n == "pu"@ {
        Some(Command::PenUp)
    } else if n == "pendown"@ || n == "pd"@ {
        Some(Command::PenDown)
    } else if n == "wait"@ {
        Some(Command::Wait)
    } else if n == "clean"@ {
        Some(Command::Clean)
    } else if n == "clearscreen"@ || n == "cs"@ {
        Some(Command::ClearScreen)
    } else if n == "window"@ {
        Some(Command::Window)
    } else if n == "hideturtle"@ || n == "ht"@ {
        Some(Command::HideTurtle)
    } else if n == "showturtle"@ || n == "st"@ {
        Some(Command::ShowTurtle)
    } else if n == "pr"@ || n == "print"@ {
        Some(Command::Print)
    } else if n == "repeat"@ {
        Some(Command::Repeat)
    } else if n == "if"@ {
        Some(Command::If)
    } else if n == "make"@ {
        Some(Command::Make)
    } else if n == "pick"@ {
        Some(Command::Pick)
    } else if n == "random"@ {
        Some(Command::Random)
    } else if n == "sentence"@ {
        Some(Command::Sentence)
    } else if n == "run"@ {
        Some(Command::Run)
    } else {
        None
    }
}

impl Command {
    /// How many arguments the command takes.
    pub open spec fn arity(self) -> nat {
        match self {
            Command::Stop | Command::Home | Command::PenUp | Command::PenDown | Command::Clean | Command::ClearScreen | Command::Window | Command::HideTurtle | Command::ShowTurtle => 0,
            Command::Output | Command::Forward | Command::Back | Command::Right | Command::Left | Command::SetPenColor | Command::Label | Command::SetLabelHeight | Command::Wait | Command::Print | Command::Pick | Command::Random | Command::Run => 1,
            Command::Repeat | Command::If | Command::Make | Command::Sentence => 2,
        }
    }

    /// How many arguments the command takes.
    pub fn arity_exec(self) -> (r: usize)
        ensures
            r == self.arity(),
    {
        match self {
            Command::Stop | Command::Home | Command::PenUp | Command::PenDown | Command::Clean | Command::ClearScreen | Command::Window | Command::HideTurtle | Command::ShowTurtle => 0,
            Command::Output | Command::Forward | Command::Back | Command::Right | Command::Left | Command::SetPenColor | Command::Label | Command::SetLabelHeight | Command::Wait | Command::Print | Command::Pick | Command::Random | Command::Run => 1,
            Command::Repeat | Command::If | Command::Make | Command::Sentence => 2,
        }
    }
}

/// A fresh context: a new turtle, no variables, no procedures, the arities
/// of all commands, nothing printed.
pub open spec fn fresh_context() -> ContextModel {
    ContextModel {
        robot: crate::robot::fresh_turtle(),
        vars: Map::empty(),
        procs: Map::empty(),
        signs: builtin_signatures(),
        printed: Seq::empty(),
    }
}

/// The arity of each command of the interpreter, by name.
pub open spec fn builtin_arity(n: Seq<char>) -> Option<nat> {
    match command_of(n) {
        Some(c) => Some(c.arity()),
        None => None,
    }
}

/// The signature table of a new context.
pub open spec fn builtin_signatures() -> Map<Seq<char>, usize> {
    Map::empty().insert("stop"@, 0usize).insert("output"@, 1usize).insert("fd"@, 1usize).insert(
        "forward"@,
        1usize,
    ).insert("bk"@, 1usize).insert("back"@, 1usize).insert("rt"@, 1usize).insert(
        "right"@,
        1usize,
    ).insert("lt"@, 1usize).insert("left"@, 1usize).insert("setcolor"@, 1usize).insert(
        "setpencolor"@,
        1usize,
    ).insert("home"@, 0usize).insert("label"@, 1usize).insert("setlabelheight"@, 1usize).insert(
        "penup"@,
        0usize,
    ).insert("pu"@, 0usize).insert("pendown"@, 0usize).insert("pd"@, 0usize).insert(
        "wait"@,
        1usize,
    ).insert("clean"@, 0usize).insert("clearscreen"@, 0usize).insert("cs"@, 0usize).insert(
        "window"@,
        0usize,
    ).insert("hideturtle"@, 0usize).insert("ht"@, 0usize).insert("showturtle"@, 0usize).insert(
        "st"@,
        0usize,
    ).insert("pr"@, 1usize).insert("print"@, 1usize).insert("repeat"@, 2usize).insert(
        "if"@,
        2usize,
    ).insert("make"@, 2usize).insert("pick"@, 1usize).insert("random"@, 1usize).insert(
        "sentence"@,
        2usize,
    ).insert("run"@, 1usize)
}

/// The signature table of a new context names exactly the commands of the
/// interpreter.
pub proof fn lemma_builtin_names(n: Seq<char>)
    ensures
        builtin_signatures().contains_key(n) <==> builtin_arity(n) is Some,
{
}

/// What a turtle command does to the turtle, or `None` where `c` is no
/// turtle command. Angles are in degrees.
pub open spec fn turtle_step(m: TurtleModel, c: Command, vs: Seq<Datum>) -> Option<
    Result<TurtleModel, LogoError>,
> {
    match c {
        Command::Forward => Some(
            match number_value(vs[0]) {
                Ok(d) => Ok(forward_spec(m, d)),
                Err(e) => Err(e),
            },
        ),
        Command::Back => Some(
            match number_value(vs[0]) {
                Ok(d) => if d == i64::MIN as int {
                    Err(LogoError::RangeError)
                } else {
                    Ok(forward_spec(m, -d))
                },
                Err(e) => Err(e),
            },
        ),
        Command::Right => Some(
            match number_value(vs[0]) {
                Ok(d) => turn_spec(m, d),
                Err(e) => Err(e),
            },
        ),
        Command::Left => Some(
            match number_value(vs[0]) {
                Ok(d) => turn_spec(m, -d),
                Err(e) => Err(e),
            },
        ),
        Command::SetPenColor => Some(Ok(TurtleModel { color: text_of(vs[0]), ..flush_spec(m) })),
        Command::Home => Some(Ok(setpos_spec(m, CENTER as int, CENTER as int))),
        Command::Label => Some(Ok(label_spec(m, text_of(vs[0])))),
        Command::SetLabelHeight => Some(
            match number_value(vs[0]) {
                Ok(h) => Ok(TurtleModel { labelheight: h, ..m }),
                Err(e) => Err(e),
            },
        ),
        Command::PenUp => Some(Ok(TurtleModel { data: None, ..flush_spec(m) })),
        Command::PenDown => Some(
            Ok(
                TurtleModel {
                    data: Some(seq![crate::robot::PathOp::MoveTo(m.trail.len() as usize)]),
                    ..flush_spec(m)
                },
            ),
        ),
        Command::Clean => Some(Ok(clean_spec(m))),
        Command::ClearScreen => Some(Ok(clean_spec(setpos_spec(m, CENTER as int, CENTER as int)))),
        _ => None,
    }
}

/// The line that a console command prints, or `None` where `c` is none.
pub open spec fn console_line(c: Command, vs: Seq<Datum>) -> Option<Seq<char>> {
    match c {
        Command::Print => Some(text_of(vs[0])),
        Command::Wait => Some("wait "@ + text_of(vs[0])),
        Command::Window => Some("window"@),
        Command::HideTurtle => Some("Hide the turtle!"@),
        Command::ShowTurtle => Some("Show the turtle!"@),
        _ => None,
    }
}

/// Two lists joined, the first one's words first.
pub open spec fn sentence_spec(x: Datum, y: Datum) -> Result<Datum, LogoError> {
    match (x, y) {
        (Datum::List(a), Datum::List(b)) => Ok(Datum::List(a + b)),
        _ => Err(LogoError::TypeError),
    }
}

/// What a command that runs no code and draws no random number does: the
/// context after it and its result, or `None` where `c` is no such command.
/// `vs` holds as many values as the command's arity.
pub open spec fn simple_spec(m: ContextModel, c: Command, vs: Seq<Datum>) -> Option<
    Result<(ContextModel, Flow), LogoError>,
> {
    match c {
        Command::Stop => Some(Ok((m, Flow::Exit(Datum::Void)))),
        Command::Output => Some(Ok((m, Flow::Exit(vs[0])))),
        Command::Make => Some(
            Ok(
                (
                    ContextModel { vars: m.vars.insert(text_of(vs[0]), vs[1]), ..m },
                    Flow::Outcome(Datum::Void),
                ),
            ),
        ),
        Command::Sentence => Some(
            match sentence_spec(vs[0], vs[1]) {
                Ok(d) => Ok((m, Flow::Outcome(d))),
                Err(e) => Err(e),
            },
        ),
        _ => match turtle_step(m.robot, c, vs) {
            Some(Ok(t)) => Some(Ok((ContextModel { robot: t, ..m }, Flow::Outcome(Datum::Void)))),
            Some(Err(e)) => Some(Err(e)),
            None => match console_line(c, vs) {
                Some(l) => Some(
                    Ok(
                        (
                            ContextModel { printed: m.printed.push(l), ..m },
                            Flow::Outcome(Datum::Void),
                        ),
                    ),
                ),
                None => None,
            },
        },
    }
}

pub open spec fn values_view(vs: Seq<Value>) -> Seq<Datum> {
    vs.map_values(|v: Value| v@)
}

fn is(name: &str, lit: &str) -> (r: bool)
    ensures
        r == (name@ == lit@),
{
    same_text(name, lit)
}

/// The command that a name calls, if any.
pub fn command_exec(n: &str) -> (r: Option<Command>)
    ensures
        r == command_of(n@),
{
    if is(n, "stop") {
        Some(Command::Stop)
    } else if is(n, "output") {
        Some(Command::Output)
    } else if is(n, "fd") || is(n, "forward") {
        Some(Command::Forward)
    } else if is(n, "bk") || is(n, "back") {
        Some(Command::Back)
    } else if is(n, "rt") || is(n, "right") {
        Some(Command::Right)
    } else if is(n, "lt") || is(n, "left") {
        Some(Command::Left)
    } else if is(n, "setcolor") || is(n, "setpencolor") {
        Some(Command::SetPenColor)
    } else if is(n, "home") {
        Some(Command::Home)
    } else if is(n, "label") {
        Some(Command::Label)
    } else if is(n, "setlabelheight") {
        Some(Command::SetLabelHeight)
    } else if is(n, "penup") || is(n, "pu") {
        Some(Command::PenUp)
    } else if is(n, "pendown") || is(n, "pd") {
        Some(Command::PenDown)
    } else if is(n, "wait") {
        Some(Command::Wait)
    } else if is(n, "clean") {
        Some(Command::Clean)
    } else if is(n, "clearscreen") || is(n, "cs") {
        Some(Command::ClearScreen)
    } else if is(n, "window") {
        Some(Command::Window)
    } else if is(n, "hideturtle") || is(n, "ht") {
        Some(Command::HideTurtle)
    } else if is(n, "showturtle") || is(n, "st") {
        Some(Command::ShowTurtle)
    } else if is(n, "pr") || is(n, "print") {
        Some(Command::Print)
    } else if is(n, "repeat") {
        Some(Command::Repeat)
    } else if is(n, "if") {
        Some(Command::If)
    } else if is(n, "make") {
        Some(Command::Make)
    } else if is(n, "pick") {
        Some(Command::Pick)
    } else if is(n, "random") {
        Some(Command::Random)
    } else if is(n, "sentence") {
        Some(Command::Sentence)
    } else if is(n, "run") {
        Some(Command::Run)
    } else {
        None
    }
}

/// The number in a value, for a command that needs one.
fn number_arg(v: &Value) -> (r: Result<i64, LogoError>)
    ensures
        match r {
            Ok(n) => number_value(v@) == Ok::<int, LogoError>(n as int),
            Err(e) => number_value(v@) == Err::<int, LogoError>(e),
        },
{
    v.to_number()
}

/// Runs a turtle command on the turtle.
fn turtle_command(robot: &mut Robot, c: Command, vals: &Vec<Value>) -> (r: Option<Result<(), LogoError>>)
    requires
        vals@.len() == c.arity(),
    ensures
        match turtle_step(old(robot)@, c, values_view(vals@)) {
            Some(Ok(t)) => r is Some && r->Some_0 is Ok && final(robot)@ == t,
            Some(Err(e)) => r == Some(Err::<(), LogoError>(e)) && final(robot)@ == old(robot)@,
            None => r is None && final(robot)@ == old(robot)@,
        },
{
    let ghost vs = values_view(vals@);
    if c.arity_exec() > 0 {
        assert(vs[0] == vals@[0]@);
    }
    match c {
        Command::Forward => match number_arg(&vals[0]) {
            Ok(d) => {
                robot.forward(d);
                Some(Ok(()))
            },
            Err(e) => Some(Err(e)),
        },
        Command::Back => match number_arg(&vals[0]) {
            Ok(d) => {
                if d == i64::MIN {
                    return Some(Err(LogoError::RangeError));
                }
                robot.back(d);
                Some(Ok(()))
            },
            Err(e) => Some(Err(e)),
        },
        Command::Right => match number_arg(&vals[0]) {
            Ok(d) => Some(robot.right(d)),
            Err(e) => Some(Err(e)),
        },
        Command::Left => match number_arg(&vals[0]) {
            Ok(d) => Some(robot.left(d)),
            Err(e) => Some(Err(e)),
        },
        Command::SetPenColor => {
            robot.setpencolor(vals[0].text());
            Some(Ok(()))
        },
        Command::Home => {
            robot.home();
            Some(Ok(()))
        },
        Command::Label => {
            robot.label(vals[0].text());
            Some(Ok(()))
        },
        Command::SetLabelHeight => match number_arg(&vals[0]) {
            Ok(h) => {
                robot.setlabelheight(h);
                Some(Ok(()))
            },
            Err(e) => Some(Err(e)),
        },
        Command::PenUp => {
            robot.penup();
            Some(Ok(()))
        },
        Command::PenDown => {
            robot.pendown();
            Some(Ok(()))
        },
        Command::Clean => {
            robot.clean();
            Some(Ok(()))
        },
        Command::ClearScreen => {
            robot.clearscreen();
            Some(Ok(()))
        },
        _ => None,
    }
}

/// The line that a console command prints.
fn console_command(c: Command, vals: &Vec<Value>) -> (r: Option<String>)
    requires
        vals@.len() == c.arity(),
    ensures
        match console_line(c, values_view(vals@)) {
            Some(l) => r is Some && r->Some_0@ == l,
            None => r is None,
        },
{
    let ghost vs = values_view(vals@);
    if c.arity_exec() > 0 {
        assert(vs[0] == vals@[0]@);
    }
    match c {
        Command::Print => Some(vals[0].text()),
        Command::Wait => {
            let mut line = String::from_str("wait ");
            let t = vals[0].text();
            line.append(t.as_str());
            Some(line)
        },
        Command::Window => Some(String::from_str("window")),
        Command::HideTurtle => Some(String::from_str("Hide the turtle!")),
        Command::ShowTurtle => Some(String::from_str("Show the turtle!")),
        _ => None,
    }
}

/// Joins two lists.
pub fn sentence(x: Value, y: Value) -> (r: Result<Value, LogoError>)
    ensures
        gives(r, sentence_spec(x@, y@)),
{
    match (x, y) {
        (Value::List(mut a), Value::List(mut b)) => {
            let ghost a0 = a@;
            let ghost b0 = b@;
            a.append(&mut b);
            assert(texts(a@) =~= texts(a0) + texts(b0));
            Ok(Value::List(a))
        },
        _ => Err(LogoError::TypeError),
    }
}

impl Context {
    pub closed spec fn wf(&self) -> bool {
        self.vars.wf() && self.procs.wf() && self.signs.wf()
    }

    /// A fresh context: a new turtle, no variables, no procedures, and the
    /// arities of all commands.
    pub fn new() -> (r: Context)
        ensures
            r.wf(),
            r@ == fresh_context(),
    {
        let r = Context {
            robot: Robot::new(),
            vars: Table::new(),
            procs: Table::new(),
            signs: Self::init_signatures(),
            printed: Vec::new(),
        };
        assert(r@.printed =~= Seq::<Seq<char>>::empty());
        assert(r@ =~= fresh_context());
        r
    }

    /// Finishes the picture: commits the path in progress and returns every
    /// element drawn.
    pub fn plot(&mut self) -> (r: Picture)
        ensures
            final(self)@ == (ContextModel { robot: flush_spec(old(self)@.robot), ..old(self)@ }),
            r.elements@.map_values(|e: crate::robot::Element| e@) == final(self)@.robot.document,
            r.trail@ == final(self)@.robot.trail,
            final(self).wf() == old(self).wf(),
    {
        self.robot.plot()
    }

    /// The lines printed so far.
    pub fn printed(&self) -> (r: &Vec<String>)
        ensures
            texts(r@) == self@.printed,
    {
        &self.printed
    }

    /// The value of a variable.
    pub fn get_var(&self, name: &str) -> (r: Option<&Value>)
        requires
            self.wf(),
        ensures
            match r {
                Some(v) => self@.vars.contains_key(name@) && v@ == self@.vars[name@],
                None => !self@.vars.contains_key(name@),
            },
    {
        self.vars.get(name)
    }

    /// The turtle.
    pub fn robot(&self) -> (r: &Robot)
        ensures
            r@ == self@.robot,
    {
        &self.robot
    }

    fn init_signatures() -> (r: Table<usize>)
        ensures
            r.wf(),
            r@ == builtin_signatures(),
    {
        let mut signs: Table<usize> = Table::new();
        signs.insert(String::from_str("stop"), 0);
        signs.insert(String::from_str("output"), 1);
        signs.insert(String::from_str("fd"), 1);
        signs.insert(String::from_str("forward"), 1);
        signs.insert(String::from_str("bk"), 1);
        signs.insert(String::from_str("back"), 1);
        signs.insert(String::from_str("rt"), 1);
        signs.insert(String::from_str("right"), 1);
        signs.insert(String::from_str("lt"), 1);
        signs.insert(String::from_str("left"), 1);
        signs.insert(String::from_str("setcolor"), 1);
        signs.insert(String::from_str("setpencolor"), 1);
        signs.insert(String::from_str("home"), 0);
        signs.insert(String::from_str("label"), 1);
        signs.insert(String::from_str("setlabelheight"), 1);
        signs.insert(String::from_str("penup"), 0);
        signs.insert(String::from_str("pu"), 0);
        signs.insert(String::from_str("pendown"), 0);
        signs.insert(String::from_str("pd"), 0);
        signs.insert(String::from_str("wait"), 1);
        signs.insert(String::from_str("clean"), 0);
        signs.insert(String::from_str("clearscreen"), 0);
        signs.insert(String::from_str("cs"), 0);
        signs.insert(String::from_str("window"), 0);
        signs.insert(String::from_str("hideturtle"), 0);
        signs.insert(String::from_str("ht"), 0);
        signs.insert(String::from_str("showturtle"), 0);
        signs.insert(String::from_str("st"), 0);
        signs.insert(String::from_str("pr"), 1);
        signs.insert(String::from_str("print"), 1);
        signs.insert(String::from_str("repeat"), 2);
        signs.insert(String::from_str("if"), 2);
        signs.insert(String::from_str("make"), 2);
        signs.insert(String::from_str("pick"), 1);
        signs.insert(String::from_str("random"), 1);
        signs.insert(String::from_str("sentence"), 2);
        signs.insert(String::from_str("run"), 1);
        signs
    }

    /// Takes every name of `names_v` out of the variables, and returns what
    /// each was bound to: the binding before the call for a name's first
    /// occurrence, nothing for a repeated one.
    fn keep_values_out_of_context(&mut self, names_v: &Vec<String>) -> (saved: Vec<Option<Value>>)
        requires
            old(self).wf(),
        ensures
            final(self).wf(),
            final(self)@ == (ContextModel {
                vars: cleared(old(self)@.vars, texts(names_v@)),
                ..old(self)@
            }),
            saved@.len() == names_v@.len(),
            forall|j: int|
                0 <= j < saved@.len() ==> saved_ok(#[trigger] saved@[j], texts(names_v@), j, old(self)@.vars),
    {
        let ghost names = texts(names_v@);
        let ghost m0 = self@;
        let ghost before = self@.vars;
        let n = names_v.len();
        let mut saved: Vec<Option<Value>> = Vec::new();
        let mut i: usize = 0;
        while i < n
            invariant
                self.wf(),
                i <= n,
                n == names_v@.len(),
                names == texts(names_v@),
                saved@.len() == i,
                self@ == (ContextModel { vars: self@.vars, ..m0 }),
                forall|k: Seq<char>| occurs(names, k, 0, i as int) ==> !self@.vars.contains_key(k),
                forall|k: Seq<char>|
                    !occurs(names, k, 0, i as int) ==> binding(self@.vars, k) == binding(before, k),
                forall|j: int| 0 <= j < i ==> saved_ok(#[trigger] saved@[j], names, j, before),
            decreases n - i,
        {
            let ghost q = names[i as int];
            let ghost cur = self@.vars;
            let o = self.vars.remove(names_v[i].as_str());
            proof {
                assert(names_v@[i as int]@ == q);
                if occurs(names, q, 0, i as int) {
                    assert(!cur.contains_key(q));
                } else {
                    assert(binding(cur, q) == binding(before, q));
                }
                assert(saved_ok(o, names, i as int, before));
                assert forall|k: Seq<char>| occurs(names, k, 0, i + 1) implies !self@.vars.contains_key(k) by {
                    let j = choose|j: int| 0 <= j < i + 1 && #[trigger] names[j] == k;
                    if j < i {
                        assert(occurs(names, k, 0, i as int));
                    }
                }
                assert forall|k: Seq<char>| !occurs(names, k, 0, i + 1) implies binding(self@.vars, k) == binding(before, k) by {
                    if occurs(names, k, 0, i as int) {
                        let j = choose|j: int| 0 <= j < i && #[trigger] names[j] == k;
                        assert(names[j] == k);
                        assert(occurs(names, k, 0, i + 1));
                    }
                    if k == q {
                        assert(names[i as int] == k);
                    }
                }
            }
            saved.push(o);
            i = i + 1;
        }
        proof {
            assert forall|k: Seq<char>| names.contains(k) <==> occurs(names, k, 0, n as int) by {
                if names.contains(k) {
                    let j = choose|j: int| 0 <= j < names.len() && names[j] == k;
                    assert(names[j] == k);
                }
            }
            assert(i == n);
            assert forall|k: Seq<char>| #[trigger] binding(self@.vars, k) == binding(cleared(before, names), k) by {
                if occurs(names, k, 0, n as int) {
                    assert(occurs(names, k, 0, i as int));
                    assert(!self@.vars.contains_key(k));
                    assert(names.contains(k));
                } else {
                    assert(!occurs(names, k, 0, i as int));
                    assert(binding(self@.vars, k) == binding(before, k));
                    assert(!names.contains(k));
                }
            }
            assert forall|k: Seq<char>| self@.vars.contains_key(k) == cleared(before, names).contains_key(k) by {
                assert(binding(self@.vars, k) == binding(cleared(before, names), k));
            }
            assert forall|k: Seq<char>| self@.vars.contains_key(k) implies self@.vars[k] == cleared(before, names)[k] by {
                assert(binding(self@.vars, k) == binding(cleared(before, names), k));
            }
            assert(self@.vars =~= cleared(before, names));
        }
        saved
    }

    /// Gives every name of `names_v` back what `saved` holds for it, the
    /// last name first: its binding before the call, or no binding.
    fn restore_values_from_context(
        &mut self,
        names_v: &Vec<String>,
        saved: Vec<Option<Value>>,
        Ghost(before): Ghost<Map<Seq<char>, Datum>>,
    )
        requires
            old(self).wf(),
            saved@.len() == names_v@.len(),
            forall|j: int|
                0 <= j < saved@.len() ==> saved_ok(#[trigger] saved@[j], texts(names_v@), j, before),
        ensures
            final(self).wf(),
            final(self)@ == (ContextModel {
                vars: restored(old(self)@.vars, texts(names_v@), before),
                ..old(self)@
            }),
    {
        let ghost names = texts(names_v@);
        let ghost mid = self@;
        let n = names_v.len();
        let mut saved = saved;
        let mut i: usize = n;
        while i > 0
            invariant
                self.wf(),
                i <= n,
                n == names_v@.len(),
                names == texts(names_v@),
                saved@.len() == i,
                self@ == (ContextModel { vars: self@.vars, ..mid }),
                forall|k: Seq<char>|
                    occurs(names, k, i as int, n as int) && !occurs(names, k, 0, i as int) ==> binding(
                        self@.vars,
                        k,
                    ) == binding(before, k),
                forall|k: Seq<char>|
                    !occurs(names, k, i as int, n as int) ==> binding(self@.vars, k) == binding(mid.vars, k),
                forall|j: int| 0 <= j < i ==> saved_ok(#[trigger] saved@[j], names, j, before),
            decreases i,
        {
            i = i - 1;
            let ghost q = names[i as int];
            let ghost cur = self@.vars;
            assert(saved_ok(saved@[i as int], names, i as int, before));
            let o = saved.pop();
            match o {
                Some(Some(v)) => {
                    self.vars.insert(names_v[i].clone(), v);
                },
                _ => {
                    self.vars.remove(names_v[i].as_str());
                },
            }
            proof {
                assert(names_v@[i as int]@ == q);
                assert forall|k: Seq<char>|
                    occurs(names, k, i as int, n as int) && !occurs(names, k, 0, i as int) implies binding(
                        self@.vars,
                        k,
                    ) == binding(before, k) by {
                    if k != q {
                        let j = choose|j: int| i <= j < n && #[trigger] names[j] == k;
                        assert(j != i);
                        assert(occurs(names, k, i + 1, n as int));
                        if occurs(names, k, 0, i + 1) {
                            let j2 = choose|j2: int| 0 <= j2 < i + 1 && #[trigger] names[j2] == k;
                            assert(j2 != i);
                            assert(occurs(names, k, 0, i as int));
                        }
                    }
                }
                assert forall|k: Seq<char>| !occurs(names, k, i as int, n as int) implies binding(
                    self@.vars,
                    k,
                ) == binding(mid.vars, k) by {
                    if k == q {
                        assert(names[i as int] == k);
                    }
                    if occurs(names, k, i + 1, n as int) {
                        let j = choose|j: int| i + 1 <= j < n && #[trigger] names[j] == k;
                        assert(names[j] == k);
                    }
                }
            }
        }
        proof {
            assert forall|k: Seq<char>| names.contains(k) <==> occurs(names, k, 0, n as int) by {
                if names.contains(k) {
                    let j = choose|j: int| 0 <= j < names.len() && names[j] == k;
                    assert(names[j] == k);
                }
            }
            assert(i == 0);
            assert forall|k: Seq<char>| #[trigger] binding(self@.vars, k) == binding(restored(mid.vars, names, before), k) by {
                assert(!occurs(names, k, 0, i as int));
                if occurs(names, k, 0, n as int) {
                    assert(occurs(names, k, i as int, n as int));
                    assert(binding(self@.vars, k) == binding(before, k));
                    assert(names.contains(k));
                } else {
                    assert(!occurs(names, k, i as int, n as int));
                    assert(binding(self@.vars, k) == binding(mid.vars, k));
                    assert(!names.contains(k));
                }
            }
            assert forall|k: Seq<char>| self@.vars.contains_key(k) == restored(mid.vars, names, before).contains_key(k) by {
                assert(binding(self@.vars, k) == binding(restored(mid.vars, names, before), k));
            }
            assert forall|k: Seq<char>| self@.vars.contains_key(k) implies self@.vars[k] == restored(mid.vars, names, before)[k] by {
                assert(binding(self@.vars, k) == binding(restored(mid.vars, names, before), k));
            }
            assert(self@.vars =~= restored(mid.vars, names, before));
        }
        assert(self@ =~= (ContextModel { vars: restored(mid.vars, names, before), ..mid }));
    }

    /// Runs a command that runs no code and draws no random number; `None`
    /// where `c` is none of them.
    fn simple_command(&mut self, c: Command, vals: Vec<Value>) -> (r: Option<Result<ExpResult, LogoError>>)
        requires
            old(self).wf(),
            vals@.len() == c.arity(),
        ensures
            final(self).wf(),
            match simple_spec(old(self)@, c, values_view(vals@)) {
                Some(Ok((m, f))) => r is Some && r->Some_0 is Ok && r->Some_0->Ok_0@ == f
                    && final(self)@ == m,
                Some(Err(e)) => r == Some(Err::<ExpResult, LogoError>(e)) && final(self)@ == old(self)@,
                None => r is None && final(self)@ == old(self)@,
            },
    {
        let ghost vs = values_view(vals@);
        let mut vals = vals;
        if c.arity_exec() > 0 {
            assert(vs[0] == vals@[0]@);
        }
        if c.arity_exec() > 1 {
            assert(vs[1] == vals@[1]@);
        }
        match c {
            Command::Stop => {
                return Some(Ok(ExpResult::Exit(Value::Void)));
            },
            Command::Output => {
                let v = vals.remove(0);
                return Some(Ok(ExpResult::Exit(v)));
            },
            Command::Make => {
                let name = vals[0].text();
                let v = vals.remove(1);
                self.vars.insert(name, v);
                return Some(Ok(ExpResult::Outcome(Value::Void)));
            },
            Command::Sentence => {
                let y = vals.remove(1);
                let x = vals.remove(0);
                return Some(
                    match sentence(x, y) {
                        Ok(d) => Ok(ExpResult::Outcome(d)),
                        Err(e) => Err(e),
                    },
                );
            },
            _ => {},
        }
        match turtle_command(&mut self.robot, c, &vals) {
            Some(Ok(())) => {
                return Some(Ok(ExpResult::Outcome(Value::Void)));
            },
            Some(Err(e)) => {
                return Some(Err(e));
            },
            None => {},
        }
        match console_command(c, &vals) {
            Some(line) => {
                self.printed.push(line);
                assert(self@.printed =~= old(self)@.printed.push(line@));
                Some(Ok(ExpResult::Outcome(Value::Void)))
            },
            None => None,
        }
    }
}

// ---------------------------------------------------------- the semantics
//
// Big-step semantics of evaluation: from a context, a depth budget and the
// sequence of random numbers still to be drawn, to the context after, the
// result, and the draws left over. `pick` and `random` each take the next
// draw; everything else is determined by the context alone. Each evaluation
// function hands back the draws it made, and its result is the one that the
// semantics gives under them.

pub open spec fn flow_of(r: Result<Datum, LogoError>) -> Result<Flow, LogoError> {
    match r {
        Ok(v) => Ok(Flow::Outcome(v)),
        Err(e) => Err(e),
    }
}

/// An early exit ends at a procedure boundary: its value becomes the result.
pub open spec fn exit_to_outcome(r: Result<Flow, LogoError>) -> Result<Flow, LogoError> {
    match r {
        Ok(Flow::Exit(v)) => Ok(Flow::Outcome(v)),
        other => other,
    }
}

pub open spec fn res_view(r: Result<ExpResult, LogoError>) -> Result<Flow, LogoError> {
    match r {
        Ok(x) => Ok(x@),
        Err(e) => Err(e),
    }
}

/// The context with a procedure registered in both tables.
pub open spec fn register(m: ContextModel, p: ProcModel) -> ContextModel {
    ContextModel {
        signs: m.signs.insert(p.name, p.vars.len() as usize),
        procs: m.procs.insert(p.name, p),
        ..m
    }
}

/// The variables without the parameter names.
pub open spec fn cleared(vars: Map<Seq<char>, Datum>, names: Seq<Seq<char>>) -> Map<Seq<char>, Datum> {
    Map::new(|k: Seq<char>| vars.contains_key(k) && !names.contains(k), |k: Seq<char>| vars[k])
}

/// The variables with the parameters bound to the arguments, in order.
pub open spec fn bind_vars(vars: Map<Seq<char>, Datum>, names: Seq<Seq<char>>, vs: Seq<Datum>) -> Map<
    Seq<char>,
    Datum,
>
    decreases names.len(),
{
    if names.len() == 0 {
        vars
    } else {
        bind_vars(vars, names.drop_last(), vs.drop_last()).insert(names.last(), vs.last())
    }
}

/// The variables after a call: each parameter name bound as before the
/// call, every other name as the body left it.
pub open spec fn restored(
    after: Map<Seq<char>, Datum>,
    names: Seq<Seq<char>>,
    before: Map<Seq<char>, Datum>,
) -> Map<Seq<char>, Datum> {
    Map::new(
        |k: Seq<char>|
            if names.contains(k) {
                before.contains_key(k)
            } else {
                after.contains_key(k)
            },
        |k: Seq<char>|
            if names.contains(k) {
                before[k]
            } else {
                after[k]
            },
    )
}

/// The context with the loop counter bound to `i`.
pub open spec fn set_rep(m: ContextModel, i: int) -> ContextModel {
    ContextModel { vars: m.vars.insert(crate::parser::repcount_name(), Datum::Num(i * scale())), ..m }
}

/// How many rounds a `repeat` with count `k` runs.
pub open spec fn rounds(k: int) -> nat {
    if k > 0 {
        k as nat
    } else {
        0
    }
}

/// What `pick` gives on list `d`, with the index drawn first in `rs`, and
/// the draws left after it.
pub open spec fn pick_spec(d: Datum, rs: Seq<int>) -> (Result<Flow, LogoError>, Seq<int>) {
    match d {
        Datum::List(l) => if l.len() == 0 {
            (Err(LogoError::RangeError), rs)
        } else if rs.len() > 0 && 0 <= rs[0] < l.len() {
            (Ok(Flow::Outcome(Datum::Str(l[rs[0]]))), rs.drop_first())
        } else {
            (Err(LogoError::RangeError), rs)
        },
        _ => (Err(LogoError::TypeError), rs),
    }
}

/// What `random` gives on `d`, with the number drawn first in `rs`, and the
/// draws left after it.
pub open spec fn random_spec(d: Datum, rs: Seq<int>) -> (Result<Flow, LogoError>, Seq<int>) {
    match random_bound(d) {
        Err(e) => (Err(e), rs),
        Ok(b) => if rs.len() > 0 && 0 <= rs[0] < b {
            (Ok(Flow::Outcome(drawn(rs[0]))), rs.drop_first())
        } else {
            (Err(LogoError::RangeError), rs)
        },
    }
}

/// Evaluating `e` in context `m` with depth budget `d`, where `rs` are the
/// random draws still to be made: the context after, the result, and the
/// draws left.
pub open spec fn sem_exp(m: ContextModel, e: Term, d: int, rs: Seq<int>) -> (
    ContextModel,
    Result<Flow, LogoError>,
    Seq<int>,
)
    decreases d, 0int,
{
    if d <= 0 {
        (m, Err(LogoError::DepthError), rs)
    } else {
        match e {
            Term::Const(v) => (m, Ok(Flow::Outcome(v)), rs),
            Term::Var(s) => (
                m,
                match binding(m.vars, s) {
                    Some(x) => Ok(Flow::Outcome(x)),
                    None => Err(LogoError::NameError),
                },
                rs,
            ),
            Term::Oper(op, a, b) => {
                let p = sem_exp(m, *a, d - 1, rs);
                match p.1 {
                    Ok(Flow::Outcome(x)) => {
                        let q = sem_exp(p.0, *b, d - 1, p.2);
                        match q.1 {
                            Ok(Flow::Outcome(y)) => (q.0, flow_of(op_spec(op, x, y)), q.2),
                            _ => q,
                        }
                    },
                    _ => p,
                }
            },
            Term::Call(n, args) => sem_call(m, n, args, d - 1, rs),
        }
    }
}

/// Evaluating the arguments one after another, each with budget `d`: their
/// values, or the value of an exit, or an error.
pub open spec fn sem_args(m: ContextModel, args: Seq<Term>, d: int, rs: Seq<int>) -> (
    ContextModel,
    Result<Result<Seq<Datum>, Datum>, LogoError>,
    Seq<int>,
)
    decreases d, 1 + args.len(),
{
    if args.len() == 0 {
        (m, Ok(Ok(Seq::empty())), rs)
    } else {
        let p = sem_args(m, args.drop_last(), d, rs);
        match p.1 {
            Ok(Ok(vs)) => {
                let q = sem_exp(p.0, args.last(), d, p.2);
                (
                    q.0,
                    match q.1 {
                        Ok(Flow::Outcome(v)) => Ok(Ok(vs.push(v))),
                        Ok(Flow::Exit(v)) => Ok(Err(v)),
                        Err(e) => Err(e),
                    },
                    q.2,
                )
            },
            _ => p,
        }
    }
}

/// A call: its arguments from left to right, then the command or procedure.
pub open spec fn sem_call(m: ContextModel, n: Seq<char>, args: Seq<Term>, d: int, rs: Seq<int>) -> (
    ContextModel,
    Result<Flow, LogoError>,
    Seq<int>,
)
    decreases d, 0int,
{
    if d <= 0 {
        (m, Err(LogoError::DepthError), rs)
    } else {
        let p = sem_args(m, args, d - 1, rs);
        match p.1 {
            Ok(Ok(vs)) => sem_dispatch(p.0, n, vs, d - 1, p.2),
            Ok(Err(v)) => (p.0, Ok(Flow::Exit(v)), p.2),
            Err(e) => (p.0, Err(e), p.2),
        }
    }
}

/// Running the command or procedure `n` on argument values `vs`.
pub open spec fn sem_dispatch(m: ContextModel, n: Seq<char>, vs: Seq<Datum>, d: int, rs: Seq<int>) -> (
    ContextModel,
    Result<Flow, LogoError>,
    Seq<int>,
)
    decreases d, 0int,
{
    if d <= 0 {
        (m, Err(LogoError::DepthError), rs)
    } else {
        match command_of(n) {
            None => if !m.procs.contains_key(n) {
                (m, Err(LogoError::NameError), rs)
            } else if vs.len() != m.procs[n].vars.len() {
                (m, Err(LogoError::ArityError), rs)
            } else {
                sem_proc(m, m.procs[n], vs, d - 1, rs)
            },
            Some(c) => if vs.len() != c.arity() {
                (m, Err(LogoError::ArityError), rs)
            } else {
                match c {
                    Command::If => match bool_value(vs[0]) {
                        Err(e) => (m, Err(e), rs),
                        Ok(true) => sem_run(m, vs[1], d - 1, rs),
                        Ok(false) => (m, Ok(Flow::Outcome(Datum::Void)), rs),
                    },
                    Command::Repeat => match repeat_count(vs[0]) {
                        Err(e) => (m, Err(e), rs),
                        Ok(k) => {
                            let p = sem_rep(m, vs[1], rounds(k), d - 1, rs);
                            (p.0, rep_flow(p.1), p.2)
                        },
                    },
                    Command::Run => sem_run(m, vs[0], d - 1, rs),
                    Command::Pick => (m, pick_spec(vs[0], rs).0, pick_spec(vs[0], rs).1),
                    Command::Random => (m, random_spec(vs[0], rs).0, random_spec(vs[0], rs).1),
                    _ => match simple_spec(m, c, vs) {
                        Some(Ok((m1, f))) => (m1, Ok(f), rs),
                        Some(Err(e)) => (m, Err(e), rs),
                        None => (m, Ok(Flow::Outcome(Datum::Void)), rs),
                    },
                }
            },
        }
    }
}

/// The result of a `repeat`: nothing, or the exit that ended it.
pub open spec fn rep_flow(r: Result<Option<Datum>, LogoError>) -> Result<Flow, LogoError> {
    match r {
        Ok(None) => Ok(Flow::Outcome(Datum::Void)),
        Ok(Some(v)) => Ok(Flow::Exit(v)),
        Err(e) => Err(e),
    }
}

/// The first `i` rounds of a `repeat` of `code`: `Some` holds the value of
/// an exit that ended them early.
pub open spec fn sem_rep(m: ContextModel, code: Datum, i: nat, d: int, rs: Seq<int>) -> (
    ContextModel,
    Result<Option<Datum>, LogoError>,
    Seq<int>,
)
    decreases d, 1 + i,
{
    if i == 0 {
        (m, Ok(None), rs)
    } else {
        let p = sem_rep(m, code, (i - 1) as nat, d, rs);
        match p.1 {
            Ok(None) => {
                let q = sem_run(set_rep(p.0, i - 1), code, d, p.2);
                (
                    q.0,
                    match q.1 {
                        Ok(Flow::Exit(v)) => Ok(Some(v)),
                        Ok(Flow::Outcome(_)) => Ok(None),
                        Err(e) => Err(e),
                    },
                    q.2,
                )
            },
            _ => p,
        }
    }
}

/// Running a list of tokens as a program.
pub open spec fn sem_run(m: ContextModel, code: Datum, d: int, rs: Seq<int>) -> (
    ContextModel,
    Result<Flow, LogoError>,
    Seq<int>,
)
    decreases d, 0int,
{
    match code {
        Datum::List(toks) => if d <= 0 {
            (m, Err(LogoError::DepthError), rs)
        } else {
            sem_prog(m, toks, d - 1, rs)
        },
        _ => (m, Err(LogoError::TypeError), rs),
    }
}

/// Running the statements of `toks` until they end, one exits, or one fails.
pub open spec fn sem_prog(m: ContextModel, toks: Seq<Seq<char>>, d: int, rs: Seq<int>) -> (
    ContextModel,
    Result<Flow, LogoError>,
    Seq<int>,
)
    decreases d, 1 + toks.len(),
{
    if d <= 0 {
        (m, Err(LogoError::DepthError), rs)
    } else {
        match crate::parser::statement_spec(m.signs, toks) {
            Err(e) => (m, Err(e), rs),
            Ok(None) => (m, Ok(Flow::Outcome(Datum::Void)), rs),
            Ok(Some((crate::parser::Statement::ProcDef(p), rest))) => if rest.len() < toks.len() {
                sem_prog(register(m, p), rest, d, rs)
            } else {
                (m, Err(LogoError::ParseError), rs)
            },
            Ok(Some((crate::parser::Statement::Exp(t), rest))) => {
                let q = sem_exp(m, t, d - 1, rs);
                match q.1 {
                    Ok(Flow::Outcome(Datum::Void)) => if rest.len() < toks.len() {
                        sem_prog(q.0, rest, d, q.2)
                    } else {
                        (q.0, Err(LogoError::ParseError), q.2)
                    },
                    Ok(Flow::Outcome(_)) => (q.0, Err(LogoError::UnusedValue), q.2),
                    _ => q,
                }
            },
        }
    }
}

/// Calling procedure `p` on values `vs`: its parameter names are taken out of
/// the variables, bound to the values, the body runs, and the names get their
/// old bindings back; an exit in the body ends there.
pub open spec fn sem_proc(m: ContextModel, p: ProcModel, vs: Seq<Datum>, d: int, rs: Seq<int>) -> (
    ContextModel,
    Result<Flow, LogoError>,
    Seq<int>,
)
    decreases d, 0int,
{
    if d <= 0 {
        (m, Err(LogoError::DepthError), rs)
    } else {
        let mb = ContextModel { vars: bind_vars(cleared(m.vars, p.vars), p.vars, vs), ..m };
        let q = sem_prog(mb, p.body, d - 1, rs);
        (ContextModel { vars: restored(q.0.vars, p.vars, m.vars), ..q.0 }, exit_to_outcome(q.1), q.2)
    }
}

/// A call of a procedure gives each of its parameter names back the binding
/// it had before the call (or none, where it had none), whether the body
/// ends, stops early, or fails.
pub proof fn lemma_call_restores_parameters(
    m: ContextModel,
    n: Seq<char>,
    vs: Seq<Datum>,
    d: int,
    rs: Seq<int>,
    k: Seq<char>,
)
    requires
        command_of(n) is None,
        m.procs.contains_key(n),
        m.procs[n].vars.contains(k),
    ensures
        binding(sem_dispatch(m, n, vs, d, rs).0.vars, k) == binding(m.vars, k),
{
}

/// Calling a name that is neither a command nor a procedure fails with a
/// name error and changes nothing.
pub proof fn lemma_unknown_name(m: ContextModel, n: Seq<char>, vs: Seq<Datum>, d: int, rs: Seq<int>)
    requires
        d > 0,
        command_of(n) is None,
        !m.procs.contains_key(n),
    ensures
        sem_dispatch(m, n, vs, d, rs) == (m, Err::<Flow, LogoError>(LogoError::NameError), rs),
{
}

/// Round `i` of a `repeat` (counting from zero) runs its code with the loop
/// counter bound to `i`, after the rounds before it, provided none of them
/// exited.
pub proof fn lemma_repeat_round(m: ContextModel, code: Datum, i: nat, d: int, rs: Seq<int>)
    requires
        sem_rep(m, code, i, d, rs).1 == Ok::<Option<Datum>, LogoError>(None),
    ensures
        ({
            let p = sem_rep(m, code, i, d, rs);
            let q = sem_run(set_rep(p.0, i as int), code, d, p.2);
            &&& sem_rep(m, code, i + 1, d, rs).0 == q.0
            &&& sem_rep(m, code, i + 1, d, rs).1 == match q.1 {
                Ok(Flow::Exit(v)) => Ok::<Option<Datum>, LogoError>(Some(v)),
                Ok(Flow::Outcome(_)) => Ok::<Option<Datum>, LogoError>(None),
                Err(e) => Err::<Option<Datum>, LogoError>(e),
            }
            &&& set_rep(p.0, i as int).vars[crate::parser::repcount_name()] == Datum::Num(
                i * scale(),
            )
        }),
{
    assert((i + 1 - 1) as nat == i);
}

/// A statement that exits ends the program there: the statements after it
/// are neither parsed nor run, and the exit is the program's result.
pub proof fn lemma_exit_ends_program(m: ContextModel, toks: Seq<Seq<char>>, d: int, rs: Seq<int>, t: Term, rest: Seq<Seq<char>>)
    requires
        d > 0,
        crate::parser::statement_spec(m.signs, toks) == Ok::<
            Option<(crate::parser::Statement, Seq<Seq<char>>)>,
            LogoError,
        >(Some((crate::parser::Statement::Exp(t), rest))),
        sem_exp(m, t, d - 1, rs).1 matches Ok(Flow::Exit(_)),
    ensures
        sem_prog(m, toks, d, rs) == sem_exp(m, t, d - 1, rs),
{
}

/// `sentence` joins its two lists, the first one's words first, keeping
/// every word, and changes nothing else.
pub proof fn lemma_sentence_call(
    m: ContextModel,
    n: Seq<char>,
    a: Seq<Seq<char>>,
    b: Seq<Seq<char>>,
    d: int,
    rs: Seq<int>,
)
    requires
        d > 0,
        command_of(n) == Some(Command::Sentence),
    ensures
        sem_dispatch(m, n, seq![Datum::List(a), Datum::List(b)], d, rs) == (
            m,
            Ok::<Flow, LogoError>(Flow::Outcome(Datum::List(a + b))),
            rs,
        ),
        (a + b).len() == a.len() + b.len(),
{
}

/// A program whose first word is no value, no operator or bracket, no `to`,
/// and no name in the signature table fails with a parse error: the word is
/// never skipped.
pub proof fn lemma_unknown_word(m: ContextModel, toks: Seq<Seq<char>>, d: int, rs: Seq<int>)
    requires
        d > 0,
        toks.len() > 0,
        !is_keyword(toks[0], to_word()),
        op_of(toks[0]) is None,
        toks[0] != seq!['('],
        toks[0] != seq!['['],
        atom(toks[0]) is None,
        !m.signs.contains_key(toks[0]),
    ensures
        sem_prog(m, toks, d, rs) == (m, Err::<Flow, LogoError>(LogoError::ParseError), rs),
{
}

// ---------------------------------------------------------- the evaluator

/// `op` applied to two values.
pub open spec fn op_spec(op: OP, x: Datum, y: Datum) -> Result<Datum, LogoError> {
    match op {
        OP::Sub => sub_spec(x, y),
        OP::Mul => mul_spec(x, y),
        OP::Div => div_spec(x, y),
        OP::Le => less_spec(x, y),
    }
}

/// Applies a binary operator to two values.
pub fn apply_op(op: OP, x: Value, y: Value) -> (r: Result<Value, LogoError>)
    ensures
        gives(r, op_spec(op, x@, y@)),
{
    match op {
        OP::Sub => x.sub(y),
        OP::Mul => x.mul(y),
        OP::Div => x.div(y),
        OP::Le => x.less(y),
    }
}

/// What a variable is bound to in `m`.
pub open spec fn binding(m: Map<Seq<char>, Datum>, k: Seq<char>) -> Option<Datum> {
    if m.contains_key(k) {
        Some(m[k])
    } else {
        None
    }
}

pub open spec fn opt_view(o: Option<Value>) -> Option<Datum> {
    match o {
        Some(v) => Some(v@),
        None => None,
    }
}

pub open spec fn occurs(names: Seq<Seq<char>>, k: Seq<char>, lo: int, hi: int) -> bool {
    exists|j: int| lo <= j < hi && #[trigger] names[j] == k
}

/// What the save of parameter `j` holds: the binding it had before the call
/// where the name is new among the parameters, else nothing.
spec fn saved_ok(o: Option<Value>, names: Seq<Seq<char>>, j: int, before: Map<Seq<char>, Datum>) -> bool {
    if occurs(names, names[j], 0, j) {
        o is None
    } else {
        opt_view(o) == binding(before, names[j])
    }
}

/// How many times `repeat` runs its code: the whole part of the count.
pub open spec fn repeat_count(d: Datum) -> Result<int, LogoError> {
    match number_value(d) {
        Ok(n) => Ok(tdiv(n, scale())),
        Err(e) => Err(e),
    }
}

/// The bound below which `random` draws: the whole part of its argument,
/// which must be positive.
pub open spec fn random_bound(d: Datum) -> Result<int, LogoError> {
    match number_value(d) {
        Ok(n) => if tdiv(n, scale()) > 0 {
            Ok(tdiv(n, scale()))
        } else {
            Err(LogoError::RangeError)
        },
        Err(e) => Err(e),
    }
}

fn whole_part(n: i64) -> (r: i64)
    ensures
        r as int == tdiv(n as int, scale()),
        -9_223_372_036_855 <= r <= 9_223_372_036_854,
{
    if n < 0 {
        let m: i128 = -(n as i128);
        -((m / 1_000_000) as i64)
    } else {
        n / 1_000_000
    }
}

/// The number `k`, as `random` gives it.
pub open spec fn drawn(k: int) -> Datum {
    Datum::Num(k * scale())
}

/// The number that `random` gives for a draw `k` below its bound.
pub fn drawn_number(k: u64, bound: u64) -> (r: Value)
    requires
        k < bound,
        bound <= i64::MAX as u64 / 1_000_000,
    ensures
        r@ == Datum::Num(k as int * scale()),
{
    proof {
        assert(k * 1_000_000 <= i64::MAX) by (nonlinear_arith)
            requires
                k < bound,
                bound <= i64::MAX as u64 / 1_000_000,
        ;
    }
    Value::Num((k as i64) * SCALE)
}

/// A random whole number in `0..n`, where `n` is the whole part of the
/// argument; the number drawn is handed back as well.
fn random_number(v: &Value) -> (out: (Result<Value, LogoError>, Ghost<Seq<int>>))
    ensures
        match random_bound(v@) {
            Ok(b) => out.0 is Ok && out.1@.len() == 1 && 0 <= out.1@[0] < b && out.0->Ok_0@ == drawn(
                out.1@[0],
            ),
            Err(e) => out.0 == Err::<Value, LogoError>(e) && out.1@.len() == 0,
        },
{
    let n = match v.to_number() {
        Ok(n) => n,
        Err(e) => {
            return (Err(e), Ghost(Seq::empty()));
        },
    };
    let b = whole_part(n);
    if b <= 0 {
        return (Err(LogoError::RangeError), Ghost(Seq::empty()));
    }
    let bound = b as u64;
    let k = draw_below(bound);
    let r = drawn_number(k, bound);
    let ghost u = seq![k as int];
    (Ok(r), Ghost(u))
}

/// A random word of a list; the index drawn is handed back as well.
fn pick_word(v: Value) -> (out: (Result<Value, LogoError>, Ghost<Seq<int>>))
    ensures
        match v@ {
            Datum::List(l) => if l.len() == 0 {
                out.0 == Err::<Value, LogoError>(LogoError::RangeError) && out.1@.len() == 0
            } else {
                out.0 is Ok && out.1@.len() == 1 && 0 <= out.1@[0] < l.len() && out.0->Ok_0@
                    == Datum::Str(l[out.1@[0]])
            },
            _ => out.0 == Err::<Value, LogoError>(LogoError::TypeError) && out.1@.len() == 0,
        },
{
    let items = match v.into_list() {
        Ok(l) => l,
        Err(e) => {
            return (Err(e), Ghost(Seq::empty()));
        },
    };
    match choose_word(&items) {
        Some(w) => {
            let ghost i = choose|i: int| 0 <= i < items@.len() && #[trigger] items@[i]@ == w@;
            assert(texts(items@)[i] == w@);
            let ghost u = seq![i];
            (Ok(Value::Str(w)), Ghost(u))
        },
        None => (Err(LogoError::RangeError), Ghost(Seq::empty())),
    }
}

impl ExpResult {
    /// Ends an early exit: the value it carries becomes the result.
    pub fn exp_return(self) -> (r: ExpResult)
        ensures
            r@ == match self@ {
                Flow::Exit(v) => Flow::Outcome(v),
                Flow::Outcome(v) => Flow::Outcome(v),
            },
    {
        match self {
            ExpResult::Exit(v) => ExpResult::Outcome(v),
            res => res,
        }
    }
}

/// Evaluates an expression: the left operand of an operator first, and the
/// right one only where the left one does not exit. Also hands back the
/// random draws it made, in order.
fn interete_exp(ctx: &mut Context, exp: Exp, depth: u64) -> (out: (Result<ExpResult, LogoError>, Ghost<Seq<int>>))
    requires
        old(ctx).wf(),
    ensures
        final(ctx).wf(),
        forall|any: Seq<int>|
            #[trigger] sem_exp(old(ctx)@, exp@, depth as int, out.1@ + any) == (
                final(ctx)@,
                res_view(out.0),
                any,
            ),
    decreases depth, 0int,
{
    if depth == 0 {
        assert forall|any: Seq<int>|
            #[trigger] sem_exp(old(ctx)@, exp@, depth as int, Seq::<int>::empty() + any) == (
                ctx@,
                Err::<Flow, LogoError>(LogoError::DepthError),
                any,
            ) by {
            assert(Seq::<int>::empty() + any =~= any);
        }
        return (Err(LogoError::DepthError), Ghost(Seq::empty()));
    }
    let ghost m0 = ctx@;
    let ghost t = exp@;
    match exp {
        Exp::Oper(op, e1, e2) => {
            let ghost ea = *e1;
            let ghost eb = *e2;
            let ghost ta = ea@;
            let ghost tb = eb@;
            assert(t == Term::Oper(op, Box::new(ta), Box::new(tb)));
            let o1 = interete_exp(ctx, *e1, depth - 1);
            let ghost m1 = ctx@;
            let ghost u1 = o1.1@;
            let r1 = o1.0;
            let x = match r1 {
                Ok(ExpResult::Outcome(x)) => x,
                other => {
                    assert forall|any: Seq<int>|
                        #[trigger] sem_exp(m0, t, depth as int, u1 + any) == (m1, res_view(other), any) by {
                        assert(sem_exp(m0, ta, depth - 1, u1 + any) == (m1, res_view(other), any));
                    }
                    return (other, Ghost(u1));
                },
            };
            let o3 = interete_exp(ctx, *e2, depth - 1);
            let ghost m3 = ctx@;
            let ghost u3 = o3.1@;
            let r3 = o3.0;
            let y = match r3 {
                Ok(ExpResult::Outcome(y)) => y,
                other => {
                    assert forall|any: Seq<int>|
                        #[trigger] sem_exp(m0, t, depth as int, (u1 + u3) + any) == (
                            m3,
                            res_view(other),
                            any,
                        ) by {
                        assert((u1 + u3) + any =~= u1 + (u3 + any));
                        assert(sem_exp(m0, ta, depth - 1, u1 + (u3 + any)) == (
                            m1,
                            Ok::<Flow, LogoError>(Flow::Outcome(x@)),
                            u3 + any,
                        ));
                        assert(sem_exp(m1, tb, depth - 1, u3 + any) == (m3, res_view(other), any));
                    }
                    return (other, Ghost(u1 + u3));
                },
            };
            let ghost (xv, yv) = (x@, y@);
            let r = match apply_op(op, x, y) {
                Ok(v) => Ok(ExpResult::Outcome(v)),
                Err(e) => Err(e),
            };
            assert(res_view(r) == flow_of(op_spec(op, xv, yv)));
            assert forall|any: Seq<int>|
                #[trigger] sem_exp(m0, t, depth as int, (u1 + u3) + any) == (m3, res_view(r), any) by {
                assert((u1 + u3) + any =~= u1 + (u3 + any));
                assert(sem_exp(m0, ta, depth - 1, u1 + (u3 + any)) == (
                    m1,
                    Ok::<Flow, LogoError>(Flow::Outcome(xv)),
                    u3 + any,
                ));
                assert(sem_exp(m1, tb, depth - 1, u3 + any) == (
                    m3,
                    Ok::<Flow, LogoError>(Flow::Outcome(yv)),
                    any,
                ));
            }
            (r, Ghost(u1 + u3))
        },
        Exp::Call(pr, args) => {
            proof {
                let tc = term_of(Exp::Call(pr, args));
                assert(tc->Call_1 =~= exps_view(args@));
                assert(t == Term::Call(pr@, exps_view(args@)));
            }
            let ghost pv = pr@;
            let ghost av = exps_view(args@);
            let o = interpretr_call(ctx, pr, args, depth - 1);
            assert forall|any: Seq<int>|
                #[trigger] sem_exp(m0, t, depth as int, o.1@ + any) == (ctx@, res_view(o.0), any) by {
                assert(sem_call(m0, pv, av, depth - 1, o.1@ + any) == (ctx@, res_view(o.0), any));
            }
            o
        },
        Exp::Const(v) => {
            let r = Ok(ExpResult::Outcome(v));
            assert forall|any: Seq<int>|
                #[trigger] sem_exp(m0, t, depth as int, Seq::<int>::empty() + any) == (ctx@, res_view(r), any) by {
                assert(Seq::<int>::empty() + any =~= any);
            }
            (r, Ghost(Seq::empty()))
        },
        Exp::Var(s) => {
            let r = match ctx.vars.get(s.as_str()) {
                Some(v) => Ok(ExpResult::Outcome(v.duplicate())),
                None => Err(LogoError::NameError),
            };
            assert forall|any: Seq<int>|
                #[trigger] sem_exp(m0, t, depth as int, Seq::<int>::empty() + any) == (ctx@, res_view(r), any) by {
                assert(Seq::<int>::empty() + any =~= any);
            }
            (r, Ghost(Seq::empty()))
        },
    }
}

/// Runs a list of tokens as a program of its own.
fn interprete_run(ctx: &mut Context, code: Value, depth: u64) -> (out: (Result<ExpResult, LogoError>, Ghost<Seq<int>>))
    requires
        old(ctx).wf(),
    ensures
        final(ctx).wf(),
        forall|any: Seq<int>|
            #[trigger] sem_run(old(ctx)@, code@, depth as int, out.1@ + any) == (
                final(ctx)@,
                res_view(out.0),
                any,
            ),
    decreases depth, 0int,
{
    let ghost c = code@;
    let code = match code.into_list() {
        Ok(l) => l,
        Err(e) => {
            assert forall|any: Seq<int>|
                #[trigger] sem_run(old(ctx)@, c, depth as int, Seq::<int>::empty() + any) == (
                    ctx@,
                    Err::<Flow, LogoError>(e),
                    any,
                ) by {
                assert(Seq::<int>::empty() + any =~= any);
            }
            return (Err(e), Ghost(Seq::empty()));
        },
    };
    if depth == 0 {
        assert forall|any: Seq<int>|
            #[trigger] sem_run(old(ctx)@, c, depth as int, Seq::<int>::empty() + any) == (
                ctx@,
                Err::<Flow, LogoError>(LogoError::DepthError),
                any,
            ) by {
            assert(Seq::<int>::empty() + any =~= any);
        }
        return (Err(LogoError::DepthError), Ghost(Seq::empty()));
    }
    let ghost m = ctx@;
    let mut unsee = Unsee::wrap(code);
    assert(unsee@ == c->List_0);
    let o = interete(ctx, &mut unsee, depth - 1);
    let ghost u = o.1@;
    assert(sem_prog(m, c->List_0, depth - 1, u + Seq::<int>::empty()) == (ctx@, res_view(o.0), Seq::<int>::empty()));
    assert forall|any: Seq<int>|
        #[trigger] sem_run(m, c, depth as int, u + any) == (ctx@, res_view(o.0), any) by {
        assert(sem_prog(m, c->List_0, depth - 1, u + any) == (ctx@, res_view(o.0), any));
    }
    o
}

proof fn lemma_args_stop(m: ContextModel, args: Seq<Term>, i: int, d: int, rs: Seq<int>)
    requires
        0 < i <= args.len(),
        !(sem_args(m, args.take(i), d, rs).1 matches Ok(Ok(_))),
    ensures
        sem_args(m, args, d, rs) == sem_args(m, args.take(i), d, rs),
    decreases args.len() - i,
{
    if i < args.len() {
        let t = args.take(i + 1);
        assert(t.drop_last() =~= args.take(i));
        assert(sem_args(m, t, d, rs) == sem_args(m, args.take(i), d, rs));
        lemma_args_stop(m, args, i + 1, d, rs);
    } else {
        assert(args.take(i) =~= args);
    }
}

/// Once a round of `repeat` exits (or fails), no later round runs: the
/// first `k` rounds give what the rounds up to that one gave.
pub proof fn lemma_rep_stop(m: ContextModel, code: Datum, i: nat, k: nat, d: int, rs: Seq<int>)
    requires
        i <= k,
        !(sem_rep(m, code, i, d, rs).1 matches Ok(None)),
    ensures
        sem_rep(m, code, k, d, rs) == sem_rep(m, code, i, d, rs),
    decreases k - i,
{
    if i < k {
        assert(sem_rep(m, code, (i + 1) as nat, d, rs) == sem_rep(m, code, i, d, rs));
        lemma_rep_stop(m, code, (i + 1) as nat, k, d, rs);
    }
}

/// Calls a procedure: binds its parameters, runs its body, and gives every
/// parameter name back the binding it had before the call, whether the body
/// ends, exits early or fails.
fn interpretr_proc(ctx: &mut Context, proc: Procedure, vals: Vec<Value>, depth: u64) -> (out: (
    Result<ExpResult, LogoError>,
    Ghost<Seq<int>>,
))
    requires
        old(ctx).wf(),
        vals@.len() == proc@.vars.len(),
    ensures
        final(ctx).wf(),
        forall|any: Seq<int>|
            #[trigger] sem_proc(old(ctx)@, proc@, values_view(vals@), depth as int, out.1@ + any) == (
                final(ctx)@,
                res_view(out.0),
                any,
            ),
        forall|p: Seq<char>| #[trigger]
            proc@.vars.contains(p) ==> binding(final(ctx)@.vars, p) == binding(old(ctx)@.vars, p),
        out.0 matches Ok(x) ==> x@ is Outcome,
    decreases depth, 0int,
{
    if depth == 0 {
        assert forall|any: Seq<int>|
            #[trigger] sem_proc(old(ctx)@, proc@, values_view(vals@), depth as int, Seq::<int>::empty() + any) == (
                ctx@,
                Err::<Flow, LogoError>(LogoError::DepthError),
                any,
            ) by {
            assert(Seq::<int>::empty() + any =~= any);
        }
        return (Err(LogoError::DepthError), Ghost(Seq::empty()));
    }
    let argv = copy_strings(proc.get_argv());
    let ghost names = texts(argv@);
    let ghost m0 = ctx@;
    let ghost before = ctx@.vars;
    let ghost vs = values_view(vals@);
    let saved = ctx.keep_values_out_of_context(&argv);
    let n = argv.len();
    proof {
        assert(names == proc@.vars);
    }
    let ghost cl = ctx@.vars;
    let mut rest = vals;
    let mut i: usize = 0;
    while i < n
        invariant
            ctx.wf(),
            n == argv@.len(),
            names == texts(argv@),
            i <= n,
            rest@.len() == n - i,
            vs.len() == n,
            forall|j: int| 0 <= j < n - i ==> #[trigger] rest@[j]@ == vs[i + j],
            ctx@ == (ContextModel { vars: ctx@.vars, ..m0 }),
            ctx@.vars == bind_vars(cl, names.take(i as int), vs.take(i as int)),
        decreases n - i,
    {
        let v = rest.remove(0);
        let ghost vv = v@;
        ctx.vars.insert(argv[i].clone(), v);
        proof {
            let nt = names.take(i + 1);
            let vt = vs.take(i + 1);
            assert(nt.drop_last() =~= names.take(i as int));
            assert(vt.drop_last() =~= vs.take(i as int));
            assert(nt.last() == argv@[i as int]@);
            assert(vt.last() == vv);
        }
        i = i + 1;
    }
    proof {
        assert(names.take(n as int) =~= names);
        assert(vs.take(n as int) =~= vs);
    }
    let ghost mb = ctx@;
    assert(mb == (ContextModel { vars: bind_vars(cleared(m0.vars, proc@.vars), proc@.vars, vs), ..m0 }));
    let mut body = Unsee::wrap(copy_strings(proc.get_body()));
    assert(body@ == proc@.body);
    let ob = interete(ctx, &mut body, depth - 1);
    let res = ob.0;
    let ghost ub = ob.1@;
    let ghost mid = ctx@;
    ctx.restore_values_from_context(&argv, saved, Ghost(before));
    proof {
        assert forall|p: Seq<char>| #[trigger] proc@.vars.contains(p) implies binding(ctx@.vars, p)
            == binding(before, p) by {
            assert(names.contains(p));
        }
    }
    let ghost rv = res_view(res);
    let r = match res {
        Ok(x) => Ok(x.exp_return()),
        Err(e) => Err(e),
    };
    assert(res_view(r) == exit_to_outcome(rv));
    assert forall|any: Seq<int>|
        #[trigger] sem_proc(m0, proc@, vs, depth as int, ub + any) == (ctx@, res_view(r), any) by {
        assert(sem_prog(mb, proc@.body, depth - 1, ub + any) == (mid, rv, any));
    }
    (r, Ghost(ub))
}

/// Evaluates the arguments of a call from left to right, then runs it.
fn interpretr_call(ctx: &mut Context, pr: String, args: Vec<Exp>, depth: u64) -> (out: (
    Result<ExpResult, LogoError>,
    Ghost<Seq<int>>,
))
    requires
        old(ctx).wf(),
    ensures
        final(ctx).wf(),
        forall|any: Seq<int>|
            #[trigger] sem_call(old(ctx)@, pr@, exps_view(args@), depth as int, out.1@ + any) == (
                final(ctx)@,
                res_view(out.0),
                any,
            ),
    decreases depth, 0int,
{
    if depth == 0 {
        assert forall|any: Seq<int>|
            #[trigger] sem_call(old(ctx)@, pr@, exps_view(args@), depth as int, Seq::<int>::empty() + any) == (
                ctx@,
                Err::<Flow, LogoError>(LogoError::DepthError),
                any,
            ) by {
            assert(Seq::<int>::empty() + any =~= any);
        }
        return (Err(LogoError::DepthError), Ghost(Seq::empty()));
    }
    let ghost m0 = ctx@;
    let ghost terms = exps_view(args@);
    let mut vals: Vec<Value> = Vec::new();
    let mut pending = args;
    let n = pending.len();
    let mut i: usize = 0;
    let ghost mut used: Seq<int> = Seq::empty();
    proof {
        assert(terms.take(0) =~= Seq::<Term>::empty());
        assert(values_view(vals@) =~= Seq::<Datum>::empty());
        assert forall|any: Seq<int>|
            #[trigger] sem_args(m0, terms.take(0), depth - 1, used + any) == (
                ctx@,
                Ok::<Result<Seq<Datum>, Datum>, LogoError>(Ok(values_view(vals@))),
                any,
            ) by {
            assert(used + any =~= any);
        }
    }
    while i < n
        invariant
            ctx.wf(),
            i <= n,
            pending@.len() == n - i,
            vals@.len() == i,
            n == args@.len(),
            terms == exps_view(args@),
            m0 == old(ctx)@,
            forall|j: int| 0 <= j < n - i ==> #[trigger] pending@[j] == args@[i + j],
            forall|any: Seq<int>|
                #[trigger] sem_args(m0, terms.take(i as int), depth - 1, used + any) == (
                    ctx@,
                    Ok::<Result<Seq<Datum>, Datum>, LogoError>(Ok(values_view(vals@))),
                    any,
                ),
            depth > 0,
        decreases n - i,
    {
        let ghost mc = ctx@;
        let ghost vc = values_view(vals@);
        let e = pending.remove(0);
        assert(e == args@[i as int]);
        assert(e@ == terms[i as int]);
        let o1 = interete_exp(ctx, e, depth - 1);
        let r1 = o1.0;
        let ghost u = o1.1@;
        let ghost m1 = ctx@;
        proof {
            let tk = terms.take(i + 1);
            assert(tk.drop_last() =~= terms.take(i as int));
            assert(tk.last() == terms[i as int]);
            assert forall|any: Seq<int>|
                #[trigger] sem_args(m0, terms.take(i + 1), depth - 1, (used + u) + any) == (
                    m1,
                    match res_view(r1) {
                        Ok(Flow::Outcome(v)) => Ok::<Result<Seq<Datum>, Datum>, LogoError>(Ok(vc.push(v))),
                        Ok(Flow::Exit(v)) => Ok::<Result<Seq<Datum>, Datum>, LogoError>(Err(v)),
                        Err(e) => Err::<Result<Seq<Datum>, Datum>, LogoError>(e),
                    },
                    any,
                ) by {
                assert((used + u) + any =~= used + (u + any));
                assert(sem_args(m0, terms.take(i as int), depth - 1, used + (u + any)) == (
                    mc,
                    Ok::<Result<Seq<Datum>, Datum>, LogoError>(Ok(vc)),
                    u + any,
                ));
                assert(sem_exp(mc, terms[i as int], depth - 1, u + any) == (m1, res_view(r1), any));
            }
            used = used + u;
        }
        match r1 {
            Ok(ExpResult::Outcome(v)) => {
                proof {
                    assert(values_view(vals@.push(v)) =~= values_view(vals@).push(v@));
                }
                vals.push(v);
            },
            Ok(ExpResult::Exit(v)) => {
                proof {
                    assert forall|any: Seq<int>|
                        #[trigger] sem_call(m0, pr@, terms, depth as int, used + any) == (
                            m1,
                            Ok::<Flow, LogoError>(Flow::Exit(v@)),
                            any,
                        ) by {
                        lemma_args_stop(m0, terms, i + 1, depth - 1, used + any);
                    }
                }
                return (Ok(ExpResult::Exit(v)), Ghost(used));
            },
            Err(e) => {
                proof {
                    assert forall|any: Seq<int>|
                        #[trigger] sem_call(m0, pr@, terms, depth as int, used + any) == (
                            m1,
                            Err::<Flow, LogoError>(e),
                            any,
                        ) by {
                        lemma_args_stop(m0, terms, i + 1, depth - 1, used + any);
                    }
                }
                return (Err(e), Ghost(used));
            },
        }
        i = i + 1;
    }
    proof {
        assert(terms.take(n as int) =~= terms);
    }
    let ghost m1 = ctx@;
    let ghost vs = values_view(vals@);
    let od = dispatch(ctx, pr.as_str(), vals, depth - 1);
    let r = od.0;
    let ghost ud = od.1@;
    assert forall|any: Seq<int>|
        #[trigger] sem_call(m0, pr@, terms, depth as int, (used + ud) + any) == (ctx@, res_view(r), any) by {
        assert((used + ud) + any =~= used + (ud + any));
        assert(sem_args(m0, terms, depth - 1, used + (ud + any)) == (
            m1,
            Ok::<Result<Seq<Datum>, Datum>, LogoError>(Ok(vs)),
            ud + any,
        ));
        assert(sem_dispatch(m1, pr@, vs, depth - 1, ud + any) == (ctx@, res_view(r), any));
    }
    (r, Ghost(used + ud))
}

/// What a call of `n` with argument values `vs` is owed, given the context
/// `m` before and `m2` after: an unknown name fails with a name error, a
/// wrong number of arguments with an arity error, a command that runs no
/// code does what `simple_spec` says, and a procedure call gives its
/// parameters their bindings back and never exits its caller.
pub open spec fn dispatch_post(
    m: ContextModel,
    n: Seq<char>,
    vs: Seq<Datum>,
    r: Result<ExpResult, LogoError>,
    m2: ContextModel,
) -> bool {
    match command_of(n) {
        None => if !m.procs.contains_key(n) {
            r == Err::<ExpResult, LogoError>(LogoError::NameError) && m2 == m
        } else if vs.len() != m.procs[n].vars.len() {
            r == Err::<ExpResult, LogoError>(LogoError::ArityError) && m2 == m
        } else {
            (r matches Ok(x) ==> x@ is Outcome) && forall|p: Seq<char>| #[trigger]
                m.procs[n].vars.contains(p) ==> binding(m2.vars, p) == binding(m.vars, p)
        },
        Some(c) => if vs.len() != c.arity() {
            r == Err::<ExpResult, LogoError>(LogoError::ArityError) && m2 == m
        } else {
            match simple_spec(m, c, vs) {
                Some(Ok((m1, f))) => r is Ok && r->Ok_0@ == f && m2 == m1,
                Some(Err(e)) => r == Err::<ExpResult, LogoError>(e),
                None => match c {
                    Command::If => match bool_value(vs[0]) {
                        Err(e) => r == Err::<ExpResult, LogoError>(e) && m2 == m,
                        Ok(false) => r is Ok && r->Ok_0@ == Flow::Outcome(Datum::Void) && m2 == m,
                        Ok(true) => true,
                    },
                    Command::Repeat => match repeat_count(vs[0]) {
                        Err(e) => r == Err::<ExpResult, LogoError>(e) && m2 == m,
                        Ok(k) => k <= 0 ==> r is Ok && r->Ok_0@ == Flow::Outcome(Datum::Void) && m2
                            == m,
                    },
                    Command::Pick => m2 == m && match vs[0] {
                        Datum::List(l) => if l.len() == 0 {
                            r == Err::<ExpResult, LogoError>(LogoError::RangeError)
                        } else {
                            r is Ok && exists|i: int|
                                0 <= i < l.len() && r->Ok_0@ == Flow::Outcome(Datum::Str(#[trigger] l[i]))
                        },
                        _ => r == Err::<ExpResult, LogoError>(LogoError::TypeError),
                    },
                    Command::Random => m2 == m && match random_bound(vs[0]) {
                        Ok(b) => r is Ok && exists|k: int|
                            0 <= k < b && r->Ok_0@ == Flow::Outcome(#[trigger] drawn(k)),
                        Err(e) => r == Err::<ExpResult, LogoError>(e),
                    },
                    Command::Run => !(vs[0] is List) ==> r == Err::<ExpResult, LogoError>(
                        LogoError::TypeError,
                    ) && m2 == m,
                    _ => true,
                },
            }
        },
    }
}

/// Runs `code` as many times as the whole part of `count`, binding the loop
/// counter to each round's number from zero; an exit ends the loop.
fn interprete_repeat(ctx: &mut Context, count: &Value, code: Value, depth: u64) -> (out: (
    Result<ExpResult, LogoError>,
    Ghost<Seq<int>>,
))
    requires
        old(ctx).wf(),
        depth > 0,
    ensures
        final(ctx).wf(),
        match repeat_count(count@) {
            Err(e) => out.0 == Err::<ExpResult, LogoError>(e) && final(ctx)@ == old(ctx)@ && out.1@
                == Seq::<int>::empty(),
            Ok(k) => forall|any: Seq<int>|
                {
                    let p = #[trigger] sem_rep(old(ctx)@, code@, rounds(k), depth - 1, out.1@ + any);
                    p.0 == final(ctx)@ && rep_flow(p.1) == res_view(out.0) && p.2 == any
                },
        },
    decreases depth, 0int,
{
    let ghost m0 = ctx@;
    let ghost cv = code@;
    let ghost nil = Seq::<int>::empty();
    let num = match count.to_number() {
        Ok(n) => whole_part(n),
        Err(e) => {
            return (Err(e), Ghost(nil));
        },
    };
    let ghost k = rounds(num as int);
    let ghost mut used: Seq<int> = nil;
    assert forall|any: Seq<int>|
        #[trigger] sem_rep(m0, cv, 0, depth - 1, used + any) == (
            ctx@,
            Ok::<Option<Datum>, LogoError>(None),
            any,
        ) by {
        assert(used + any =~= any);
    }
    let mut i: i64 = 0;
    while i < num
        invariant
            ctx.wf(),
            0 <= i,
            num <= 0 ==> i == 0,
            i <= num || num <= 0,
            num <= 9_223_372_036_854,
            repeat_count(count@) == Ok::<int, LogoError>(num as int),
            k == rounds(num as int),
            cv == code@,
            m0 == old(ctx)@,
            depth > 0,
            forall|any: Seq<int>|
                #[trigger] sem_rep(m0, cv, i as nat, depth - 1, used + any) == (
                    ctx@,
                    Ok::<Option<Datum>, LogoError>(None),
                    any,
                ),
        decreases num - i,
    {
        let ghost mc = ctx@;
        proof {
            reveal_strlit("repcount");
            assert("repcount"@ =~= crate::parser::repcount_name());
        }
        ctx.vars.insert(String::from_str("repcount"), Value::Num(i * SCALE));
        assert(ctx@ == set_rep(mc, i as int));
        let orun = interprete_run(ctx, code.duplicate(), depth - 1);
        let rr = orun.0;
        let ghost u = orun.1@;
        let ghost mr = ctx@;
        let ghost next = match res_view(rr) {
            Ok(Flow::Exit(v)) => Ok::<Option<Datum>, LogoError>(Some(v)),
            Ok(Flow::Outcome(_)) => Ok::<Option<Datum>, LogoError>(None),
            Err(e) => Err::<Option<Datum>, LogoError>(e),
        };
        proof {
            assert forall|any: Seq<int>|
                #[trigger] sem_rep(m0, cv, (i + 1) as nat, depth - 1, (used + u) + any) == (
                    mr,
                    next,
                    any,
                ) by {
                assert((used + u) + any =~= used + (u + any));
                assert(sem_rep(m0, cv, i as nat, depth - 1, used + (u + any)) == (
                    mc,
                    Ok::<Option<Datum>, LogoError>(None),
                    u + any,
                ));
                assert(sem_run(set_rep(mc, i as int), cv, depth - 1, u + any) == (mr, res_view(rr), any));
            }
            used = used + u;
        }
        match rr {
            Ok(ExpResult::Exit(res)) => {
                let r = Ok(ExpResult::Exit(res));
                proof {
                    assert forall|any: Seq<int>|
                        #[trigger] sem_rep(m0, cv, k, depth - 1, used + any) == (ctx@, next, any) by {
                        lemma_rep_stop(m0, cv, (i + 1) as nat, k, depth - 1, used + any);
                    }
                }
                return (r, Ghost(used));
            },
            Ok(ExpResult::Outcome(_)) => {},
            Err(e) => {
                proof {
                    assert forall|any: Seq<int>|
                        #[trigger] sem_rep(m0, cv, k, depth - 1, used + any) == (ctx@, next, any) by {
                        lemma_rep_stop(m0, cv, (i + 1) as nat, k, depth - 1, used + any);
                    }
                }
                return (Err(e), Ghost(used));
            },
        }
        i = i + 1;
    }
    assert(k == i as nat);
    (Ok(ExpResult::Outcome(Value::Void)), Ghost(used))
}

/// Runs the command or procedure `name` on argument values.
fn dispatch(ctx: &mut Context, name: &str, vals: Vec<Value>, depth: u64) -> (out: (
    Result<ExpResult, LogoError>,
    Ghost<Seq<int>>,
))
    requires
        old(ctx).wf(),
    ensures
        final(ctx).wf(),
        forall|any: Seq<int>|
            #[trigger] sem_dispatch(old(ctx)@, name@, values_view(vals@), depth as int, out.1@ + any)
                == (final(ctx)@, res_view(out.0), any),
        depth > 0 ==> dispatch_post(old(ctx)@, name@, values_view(vals@), out.0, final(ctx)@),
        depth == 0 ==> out.0 == Err::<ExpResult, LogoError>(LogoError::DepthError),
    decreases depth, 1int,
{
    let ghost vs = values_view(vals@);
    let ghost m0 = ctx@;
    let ghost nil = Seq::<int>::empty();
    if depth == 0 {
        assert forall|any: Seq<int>|
            #[trigger] sem_dispatch(m0, name@, vs, depth as int, nil + any) == (
                ctx@,
                Err::<Flow, LogoError>(LogoError::DepthError),
                any,
            ) by {
            assert(nil + any =~= any);
        }
        return (Err(LogoError::DepthError), Ghost(nil));
    }
    let r: Result<ExpResult, LogoError>;
    match command_exec(name) {
        None => {
            let proc = match ctx.procs.get(name) {
                Some(p) => p.duplicate(),
                None => {
                    r = Err(LogoError::NameError);
                    assert forall|any: Seq<int>|
                        #[trigger] sem_dispatch(m0, name@, vs, depth as int, nil + any) == (ctx@, res_view(r), any) by {
                        assert(nil + any =~= any);
                    }
                    return (r, Ghost(nil));
                },
            };
            if vals.len() != proc.signature() {
                r = Err(LogoError::ArityError);
                assert forall|any: Seq<int>|
                    #[trigger] sem_dispatch(m0, name@, vs, depth as int, nil + any) == (ctx@, res_view(r), any) by {
                    assert(nil + any =~= any);
                }
                return (r, Ghost(nil));
            }
            let ghost pm = proc@;
            let o = interpretr_proc(ctx, proc, vals, depth - 1);
            assert forall|any: Seq<int>|
                #[trigger] sem_dispatch(m0, name@, vs, depth as int, o.1@ + any) == (ctx@, res_view(o.0), any) by {
                assert(sem_proc(m0, pm, vs, depth - 1, o.1@ + any) == (ctx@, res_view(o.0), any));
            }
            o
        },
        Some(c) => {
            if vals.len() != c.arity_exec() {
                r = Err(LogoError::ArityError);
                assert forall|any: Seq<int>|
                    #[trigger] sem_dispatch(m0, name@, vs, depth as int, nil + any) == (ctx@, res_view(r), any) by {
                    assert(nil + any =~= any);
                }
                return (r, Ghost(nil));
            }
            let mut items = vals;
            match c {
                Command::If => {
                    assert(vs[0] == items@[0]@ && vs[1] == items@[1]@);
                    let code = items.remove(1);
                    let que = match items[0].to_bool() {
                        Ok(b) => b,
                        Err(e) => {
                            r = Err(e);
                            assert forall|any: Seq<int>|
                                #[trigger] sem_dispatch(m0, name@, vs, depth as int, nil + any) == (ctx@, res_view(r), any) by {
                                assert(nil + any =~= any);
                            }
                            return (r, Ghost(nil));
                        },
                    };
                    if que {
                        let ghost cv = code@;
                        let o = interprete_run(ctx, code, depth - 1);
                        assert forall|any: Seq<int>|
                            #[trigger] sem_dispatch(m0, name@, vs, depth as int, o.1@ + any) == (ctx@, res_view(o.0), any) by {
                            assert(sem_run(m0, cv, depth - 1, o.1@ + any) == (ctx@, res_view(o.0), any));
                        }
                        return o;
                    }
                    r = Ok(ExpResult::Outcome(Value::Void));
                    assert forall|any: Seq<int>|
                        #[trigger] sem_dispatch(m0, name@, vs, depth as int, nil + any) == (ctx@, res_view(r), any) by {
                        assert(nil + any =~= any);
                    }
                    return (r, Ghost(nil));
                },
                Command::Repeat => {
                    assert(vs[0] == items@[0]@ && vs[1] == items@[1]@);
                    let code = items.remove(1);
                    let ghost cv = code@;
                    let o = interprete_repeat(ctx, &items[0], code, depth);
                    assert forall|any: Seq<int>|
                        #[trigger] sem_dispatch(m0, name@, vs, depth as int, o.1@ + any) == (ctx@, res_view(o.0), any) by {
                        if let Ok(k) = repeat_count(vs[0]) {
                            let p = sem_rep(m0, cv, rounds(k), depth - 1, o.1@ + any);
                            assert(p.0 == ctx@ && rep_flow(p.1) == res_view(o.0) && p.2 == any);
                        } else {
                            assert(o.1@ + any =~= any);
                        }
                    }
                    proof {
                        if let Ok(k) = repeat_count(vs[0]) {
                            assert(o.1@ + Seq::<int>::empty() =~= o.1@);
                            let p = sem_rep(m0, cv, rounds(k), depth - 1, o.1@ + Seq::<int>::empty());
                            assert(p.0 == ctx@ && rep_flow(p.1) == res_view(o.0));
                        }
                    }
                    return o;
                },
                Command::Run => {
                    assert(vs[0] == items@[0]@);
                    let code = items.remove(0);
                    let ghost cv = code@;
                    let o = interprete_run(ctx, code, depth - 1);
                    assert forall|any: Seq<int>|
                        #[trigger] sem_dispatch(m0, name@, vs, depth as int, o.1@ + any) == (ctx@, res_view(o.0), any) by {
                        assert(sem_run(m0, cv, depth - 1, o.1@ + any) == (ctx@, res_view(o.0), any));
                    }
                    assert(sem_run(m0, cv, depth - 1, o.1@ + Seq::<int>::empty()) == (ctx@, res_view(o.0), Seq::<int>::empty()));
                    return o;
                },
                Command::Pick => {
                    assert(vs[0] == items@[0]@);
                    let v = items.remove(0);
                    let op = pick_word(v);
                    let ghost u = op.1@;
                    r = match op.0 {
                        Ok(w) => Ok(ExpResult::Outcome(w)),
                        Err(e) => Err(e),
                    };
                    assert forall|any: Seq<int>|
                        #[trigger] sem_dispatch(m0, name@, vs, depth as int, u + any) == (ctx@, res_view(r), any) by {
                        if u.len() == 1 {
                            assert((u + any)[0] == u[0]);
                            assert((u + any).drop_first() =~= any);
                        } else {
                            assert(u + any =~= any);
                        }
                    }
                    return (r, Ghost(u));
                },
                Command::Random => {
                    assert(vs[0] == items@[0]@);
                    let orn = random_number(&items[0]);
                    let ghost u = orn.1@;
                    r = match orn.0 {
                        Ok(w) => Ok(ExpResult::Outcome(w)),
                        Err(e) => Err(e),
                    };
                    assert forall|any: Seq<int>|
                        #[trigger] sem_dispatch(m0, name@, vs, depth as int, u + any) == (ctx@, res_view(r), any) by {
                        if u.len() == 1 {
                            assert((u + any)[0] == u[0]);
                            assert((u + any).drop_first() =~= any);
                        } else {
                            assert(u + any =~= any);
                        }
                    }
                    return (r, Ghost(u));
                },
                _ => {},
            }
            r = match ctx.simple_command(c, items) {
                Some(res) => res,
                None => Ok(ExpResult::Outcome(Value::Void)),
            };
            assert forall|any: Seq<int>|
                #[trigger] sem_dispatch(m0, name@, vs, depth as int, nil + any) == (ctx@, res_view(r), any) by {
                assert(nil + any =~= any);
            }
            (r, Ghost(nil))
        },
    }
}

/// Runs statements from the stream until it ends or one exits: a procedure
/// definition is registered, an expression is evaluated and must give no
/// value.
fn interete(ctx: &mut Context, iter: &mut Unsee, depth: u64) -> (out: (Result<ExpResult, LogoError>, Ghost<Seq<int>>))
    requires
        old(ctx).wf(),
    ensures
        final(ctx).wf(),
        forall|any: Seq<int>|
            #[trigger] sem_prog(old(ctx)@, old(iter)@, depth as int, out.1@ + any) == (
                final(ctx)@,
                res_view(out.0),
                any,
            ),
    decreases depth, 0int,
{
    let ghost nil = Seq::<int>::empty();
    if depth == 0 {
        assert forall|any: Seq<int>|
            #[trigger] sem_prog(old(ctx)@, old(iter)@, depth as int, nil + any) == (
                ctx@,
                Err::<Flow, LogoError>(LogoError::DepthError),
                any,
            ) by {
            assert(nil + any =~= any);
        }
        return (Err(LogoError::DepthError), Ghost(nil));
    }
    let ghost m0 = ctx@;
    let ghost t0 = iter@;
    let ghost mut used: Seq<int> = nil;
    assert forall|any: Seq<int>|
        #[trigger] sem_prog(m0, t0, depth as int, used + any) == sem_prog(ctx@, iter@, depth as int, any) by {
        assert(used + any =~= any);
    }
    loop
        invariant
            ctx.wf(),
            depth > 0,
            m0 == old(ctx)@,
            t0 == old(iter)@,
            forall|any: Seq<int>|
                #[trigger] sem_prog(m0, t0, depth as int, used + any) == sem_prog(ctx@, iter@, depth as int, any),
        decreases iter@.len(),
    {
        let ghost mc = ctx@;
        let ghost tc = iter@;
        match parse_statement(&ctx.signs, iter) {
            Err(e) => {
                let r: Result<ExpResult, LogoError> = Err(e);
                assert forall|any: Seq<int>|
                    #[trigger] sem_prog(m0, t0, depth as int, used + any) == (ctx@, res_view(r), any) by {
                    assert(sem_prog(mc, tc, depth as int, any) == (mc, res_view(r), any));
                }
                return (r, Ghost(used));
            },
            Ok(None) => {
                let r: Result<ExpResult, LogoError> = Ok(ExpResult::Outcome(Value::Void));
                assert forall|any: Seq<int>|
                    #[trigger] sem_prog(m0, t0, depth as int, used + any) == (ctx@, res_view(r), any) by {
                    assert(sem_prog(mc, tc, depth as int, any) == (mc, res_view(r), any));
                }
                return (r, Ghost(used));
            },
            Ok(Some(Stat::ProcDef(proc))) => {
                let ghost p = proc@;
                let name = String::from_str(proc.get_name());
                ctx.signs.insert(name.clone(), proc.signature());
                ctx.procs.insert(name, proc);
                proof {
                    assert(ctx@ == register(mc, p));
                    assert forall|any: Seq<int>|
                        #[trigger] sem_prog(m0, t0, depth as int, used + any) == sem_prog(ctx@, iter@, depth as int, any) by {
                        assert(sem_prog(mc, tc, depth as int, any) == sem_prog(ctx@, iter@, depth as int, any));
                    }
                }
            },
            Ok(Some(Stat::Exp(e))) => {
                let ghost te = e@;
                let oe = interete_exp(ctx, e, depth - 1);
                let rr = oe.0;
                let ghost u = oe.1@;
                let ghost m1 = ctx@;
                proof {
                    assert forall|any: Seq<int>|
                        #[trigger] sem_prog(m0, t0, depth as int, (used + u) + any) == sem_prog(mc, tc, depth as int, u + any) by {
                        assert((used + u) + any =~= used + (u + any));
                    }
                    used = used + u;
                }
                match rr {
                    Ok(ExpResult::Outcome(Value::Void)) => {
                        proof {
                            assert forall|any: Seq<int>|
                                #[trigger] sem_prog(m0, t0, depth as int, used + any) == sem_prog(ctx@, iter@, depth as int, any) by {
                                assert(sem_exp(mc, te, depth - 1, u + any) == (m1, res_view(rr), any));
                            }
                        }
                    },
                    Ok(ExpResult::Outcome(v)) => {
                        let r: Result<ExpResult, LogoError> = Err(LogoError::UnusedValue);
                        assert forall|any: Seq<int>|
                            #[trigger] sem_prog(m0, t0, depth as int, used + any) == (ctx@, res_view(r), any) by {
                            assert(sem_exp(mc, te, depth - 1, u + any) == (m1, Ok::<Flow, LogoError>(Flow::Outcome(v@)), any));
                        }
                        return (r, Ghost(used));
                    },
                    Ok(ExpResult::Exit(v)) => {
                        let r: Result<ExpResult, LogoError> = Ok(ExpResult::Exit(v));
                        assert forall|any: Seq<int>|
                            #[trigger] sem_prog(m0, t0, depth as int, used + any) == (ctx@, res_view(r), any) by {
                            assert(sem_exp(mc, te, depth - 1, u + any) == (m1, res_view(r), any));
                        }
                        return (r, Ghost(used));
                    },
                    Err(e) => {
                        let r: Result<ExpResult, LogoError> = Err(e);
                        assert forall|any: Seq<int>|
                            #[trigger] sem_prog(m0, t0, depth as int, used + any) == (ctx@, res_view(r), any) by {
                            assert(sem_exp(mc, te, depth - 1, u + any) == (m1, res_view(r), any));
                        }
                        return (r, Ghost(used));
                    },
                }
            },
        }
    }
}

impl Context {
    /// The signature table: the arity of every command and procedure.
    pub fn signatures(&self) -> (r: &Table<usize>)
        requires
            self.wf(),
        ensures
            r.wf(),
            r@ == self@.signs,
    {
        &self.signs
    }

    /// Runs a program given as tokens, statement by statement. The random
    /// numbers drawn on the way are some sequence `used`, and the semantics
    /// gives exactly the context and the result of the run under them,
    /// taking those draws and no others.
    pub fn run(&mut self, tokens: Vec<String>) -> (r: Result<ExpResult, LogoError>)
        requires
            old(self).wf(),
        ensures
            final(self).wf(),
            exists|used: Seq<int>|
                #[trigger] prog_explained(old(self)@, texts(tokens@), used, final(self)@, res_view(r)),
            tokens@.len() == 0 ==> r is Ok && r->Ok_0@ == Flow::Outcome(Datum::Void) && final(self)@
                == old(self)@,
    {
        let ghost toks = texts(tokens@);
        let mut iter = Unsee::wrap(tokens);
        assert(iter@ == toks);
        let o = interete(self, &mut iter, MAX_DEPTH);
        let ghost u = o.1@;
        proof {
            assert(prog_explained(old(self)@, toks, u, self@, res_view(o.0)));
            if toks.len() == 0 {
                assert(u + Seq::<int>::empty() =~= u);
                assert(sem_prog(old(self)@, toks, MAX_DEPTH as int, u + Seq::<int>::empty()) == (
                    self@,
                    res_view(o.0),
                    Seq::<int>::empty(),
                ));
                assert(crate::parser::statement_spec(old(self)@.signs, toks) == Ok::<
                    Option<(crate::parser::Statement, Seq<Seq<char>>)>,
                    LogoError,
                >(None));
            }
        }
        o.0
    }

    /// Evaluates one expression; as with `run`, exactly as the semantics
    /// says under the random numbers drawn.
    pub fn eval(&mut self, exp: Exp) -> (r: Result<ExpResult, LogoError>)
        requires
            old(self).wf(),
        ensures
            final(self).wf(),
            exists|used: Seq<int>|
                #[trigger] exp_explained(old(self)@, exp@, used, final(self)@, res_view(r)),
            exp@ is Const ==> r is Ok && r->Ok_0@ == Flow::Outcome(exp@->Const_0) && final(self)@
                == old(self)@,
            exp@ is Var ==> final(self)@ == old(self)@ && match binding(old(self)@.vars, exp@->Var_0) {
                Some(d) => r is Ok && r->Ok_0@ == Flow::Outcome(d),
                None => r == Err::<ExpResult, LogoError>(LogoError::NameError),
            },
    {
        let ghost t = exp@;
        let o = interete_exp(self, exp, MAX_DEPTH);
        let ghost u = o.1@;
        proof {
            assert(exp_explained(old(self)@, t, u, self@, res_view(o.0)));
            assert(u + Seq::<int>::empty() =~= u);
            assert(sem_exp(old(self)@, t, MAX_DEPTH as int, u + Seq::<int>::empty()) == (
                self@,
                res_view(o.0),
                Seq::<int>::empty(),
            ));
        }
        o.0
    }

    /// Calls the command or procedure `name` with argument values: a name
    /// that is no command and no procedure fails with a name error, and a
    /// procedure call leaves every parameter name bound as it was before.
    pub fn call(&mut self, name: String, vals: Vec<Value>) -> (r: Result<ExpResult, LogoError>)
        requires
            old(self).wf(),
        ensures
            final(self).wf(),
            dispatch_post(old(self)@, name@, values_view(vals@), r, final(self)@),
            exists|used: Seq<int>|
                #[trigger] call_explained(
                    old(self)@,
                    name@,
                    values_view(vals@),
                    used,
                    final(self)@,
                    res_view(r),
                ),
    {
        let ghost vs = values_view(vals@);
        let o = dispatch(self, name.as_str(), vals, MAX_DEPTH);
        let ghost u = o.1@;
        proof {
            assert(call_explained(old(self)@, name@, vs, u, self@, res_view(o.0)));
        }
        o.0
    }
}

/// Running `toks` from `m` takes exactly the draws `used` and gives `m2` and
/// `r`, whatever draws would come after.
pub open spec fn prog_explained(
    m: ContextModel,
    toks: Seq<Seq<char>>,
    used: Seq<int>,
    m2: ContextModel,
    r: Result<Flow, LogoError>,
) -> bool {
    forall|any: Seq<int>|
        #[trigger] sem_prog(m, toks, MAX_DEPTH as int, used + any) == (m2, r, any)
}

/// Evaluating `e` from `m` takes exactly the draws `used` and gives `m2` and `r`.
pub open spec fn exp_explained(
    m: ContextModel,
    e: Term,
    used: Seq<int>,
    m2: ContextModel,
    r: Result<Flow, LogoError>,
) -> bool {
    forall|any: Seq<int>| #[trigger] sem_exp(m, e, MAX_DEPTH as int, used + any) == (m2, r, any)
}

/// Calling `n` on `vs` from `m` takes exactly the draws `used` and gives `m2`
/// and `r`.
pub open spec fn call_explained(
    m: ContextModel,
    n: Seq<char>,
    vs: Seq<Datum>,
    used: Seq<int>,
    m2: ContextModel,
    r: Result<Flow, LogoError>,
) -> bool {
    forall|any: Seq<int>|
        #[trigger] sem_dispatch(m, n, vs, MAX_DEPTH as int, used + any) == (m2, r, any)
}

/// What a whole run leaves: the lines it printed, and the picture, or the
/// error that ended it.
pub struct Session {
    pub printed: Vec<String>,
    pub picture: Result<Picture, LogoError>,
}

/// Runs a program in a fresh context and finishes its picture. An early
/// exit at the top ends the program; an error ends the run.
pub fn inter(data: Vec<String>) -> (r: Session)
    ensures
        exists|used: Seq<int>, m: ContextModel, res: Result<Flow, LogoError>|
            {
                &&& #[trigger] prog_explained(fresh_context(), texts(data@), used, m, res)
                &&& texts(r.printed@) == m.printed
                &&& match res {
                    Ok(_) => r.picture is Ok && r.picture->Ok_0.elements@.map_values(
                        |e: crate::robot::Element| e@,
                    ) == flush_spec(m.robot).document && r.picture->Ok_0.trail@ == m.robot.trail,
                    Err(e) => r.picture == Err::<Picture, LogoError>(e),
                }
            },
        data@.len() == 0 ==> r.printed@.len() == 0 && r.picture is Ok
            && r.picture->Ok_0.elements@.len() == 0,
{
    let ghost toks = texts(data@);
    let mut ctx = Context::new();
    let res = ctx.run(data);
    let ghost m = ctx@;
    let ghost rv = res_view(res);
    let ghost used = choose|used: Seq<int>| #[trigger] prog_explained(fresh_context(), toks, used, m, rv);
    let picture = match res {
        Ok(_) => Ok(ctx.plot()),
        Err(e) => Err(e),
    };
    let printed = copy_strings(ctx.printed());
    assert(m.printed == texts(printed@));
    assert(prog_explained(fresh_context(), toks, used, m, rv));
    proof {
        if data@.len() == 0 {
            assert(texts(printed@).len() == 0);
            let ops = seq![crate::robot::PathOp::MoveTo(0)];
            assert(!crate::robot::has_line(ops)) by {
                assert forall|i: int| 0 <= i < ops.len() implies !(#[trigger] ops[i] is LineBy) by {
                    assert(ops[0] == crate::robot::PathOp::MoveTo(0));
                }
            }
            if picture is Ok {
                let els = picture->Ok_0.elements@;
                assert(els.map_values(|e: crate::robot::Element| e@).len() == els.len());
            }
        }
    }
    Session { printed, picture }
}

} // verus!
