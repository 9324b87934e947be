use vstd::prelude::*;
use crate::table::{same_text, Table};
use crate::unsee::Unsee;
use crate::value::{number_of, parse_number, texts, Datum, LogoError, Value};
use vstd::string::StringExecFns;

verus! {

/// A binary operator.
#[derive(PartialEq, Eq, Structural, Clone, Copy, Debug)]
pub enum OP {
    Sub,
    Mul,
    Div,
    Le,
}

/// An expression tree.
pub enum Exp {
    Call(String, Vec<Exp>),
    Oper(OP, Box<Exp>, Box<Exp>),
    Const(Value),
    Var(String),
}

/// What an expression is, as mathematical data.
pub enum Term {
    Call(Seq<char>, Seq<Term>),
    Oper(OP, Box<Term>, Box<Term>),
    Const(Datum),
    Var(Seq<char>),
}

/// The term of an expression.
pub open spec fn term_of(e: Exp) -> Term
    decreases e,
{
    match e {
        Exp::Call(n, args) => Term::Call(
            n@,
            Seq::new(
                args@.len(),
                |i: int|
                    if 0 <= i < args@.len() {
                        term_of(args@[i])
                    } else {
                        Term::Var(Seq::empty())
                    },
            ),
        ),
        Exp::Oper(op, a, b) => Term::Oper(op, Box::new(term_of(*a)), Box::new(term_of(*b))),
        Exp::Const(v) => Term::Const(v@),
        Exp::Var(s) => Term::Var(s@),
    }
}

impl View for Exp {
    type V = Term;

    open spec fn view(&self) -> Term {
        term_of(*self)
    }
}

pub open spec fn exps_view(args: Seq<Exp>) -> Seq<Term> {
    Seq::new(args.len(), |i: int| args[i]@)
}

// ------------------------------------------------------------- the grammar

/// The name under which the loop counter is bound.
pub open spec fn repcount_name() -> Seq<char> {
    seq!['r', 'e', 'p', 'c', 'o', 'u', 'n', 't']
}

/// `c` is the letter `l` (a lower-case ASCII letter) or its upper case.
pub open spec fn folds_to(c: char, l: char) -> bool {
    c == l || ('a' <= l <= 'z' && c as int + 32 == l as int)
}

/// `t` is the lower-case word `w`, in any mix of cases.
pub open spec fn is_keyword(t: Seq<char>, w: Seq<char>) -> bool {
    t.len() == w.len() && forall|i: int| 0 <= i < t.len() ==> folds_to(#[trigger] t[i], w[i])
}

pub open spec fn op_of(t: Seq<char>) -> Option<OP> {
    if t == seq!['-'] {
        Some(OP::Sub)
    } else if t == seq!['*'] {
        Some(OP::Mul)
    } else if t == seq!['/'] {
        Some(OP::Div)
    } else if t == seq!['<'] {
        Some(OP::Le)
    } else {
        None
    }
}

/// A token that is a value by itself: the loop counter, a variable, a
/// quoted word, or a number.
pub open spec fn atom(t: Seq<char>) -> Option<Term> {
    if t == repcount_name() || t == seq!['#'] {
        Some(Term::Var(repcount_name()))
    } else if t.len() > 0 && t[0] == ':' {
        Some(Term::Var(t.drop_first()))
    } else if t.len() > 0 && t[0] == '"' {
        Some(Term::Const(Datum::Str(t.drop_first())))
    } else {
        match number_of(t) {
            Some(n) => Some(Term::Const(Datum::Num(n))),
            None => None,
        }
    }
}

/// The tokens of a list literal up to its closing `]`, and the tokens after it.
pub open spec fn list_spec(toks: Seq<Seq<char>>) -> Option<(Seq<Seq<char>>, Seq<Seq<char>>)>
    decreases toks.len(),
{
    if toks.len() == 0 {
        None
    } else if toks[0] == seq![']'] {
        Some((Seq::empty(), toks.drop_first()))
    } else {
        match list_spec(toks.drop_first()) {
            Some((items, r)) => Some((seq![toks[0]] + items, r)),
            None => None,
        }
    }
}

/// Where an expression parse stands: nothing yet, a value, or a value and an
/// operator waiting for its right operand.
pub enum Shape {
    Empty,
    Val(Term),
    Pending(Term, OP),
}

/// Takes in a new value: it becomes the value, or the right operand of the
/// waiting operator.
pub open spec fn shift(st: Shape, x: Term) -> Shape {
    match st {
        Shape::Pending(v, op) => Shape::Val(Term::Oper(op, Box::new(v), Box::new(x))),
        _ => Shape::Val(x),
    }
}

/// Ends the parse with the value held, before `rest`.
pub open spec fn held(st: Shape, rest: Seq<Seq<char>>) -> Result<(Term, Seq<Seq<char>>), LogoError> {
    match st {
        Shape::Val(v) => Ok((v, rest)),
        _ => Err(LogoError::ParseError),
    }
}

/// One expression at the front of `toks`, and the tokens after it.
pub open spec fn parse_expr_spec(sig: Map<Seq<char>, usize>, toks: Seq<Seq<char>>) -> Result<
    (Term, Seq<Seq<char>>),
    LogoError,
>
    decreases toks.len(), 1int,
{
    expr_loop(sig, toks, Shape::Empty)
}

/// The rest of an expression parse that stands at `st` before `toks`.
pub open spec fn expr_loop(sig: Map<Seq<char>, usize>, toks: Seq<Seq<char>>, st: Shape) -> Result<
    (Term, Seq<Seq<char>>),
    LogoError,
>
    decreases toks.len(), 0int,
{
    if toks.len() == 0 {
        held(st, toks)
    } else {
        let t = toks[0];
        let rest = toks.drop_first();
        match op_of(t) {
            Some(op) => match st {
                Shape::Val(v) => expr_loop(sig, rest, Shape::Pending(v, op)),
                _ => Err(LogoError::ParseError),
            },
            None => if st is Val {
                held(st, toks)
            } else if t == seq!['('] {
                match parse_expr_spec(sig, rest) {
                    Err(e) => Err(e),
                    Ok((x, r1)) => if r1.len() > 0 && r1[0] == seq![')'] && r1.len() <= rest.len() {
                        expr_loop(sig, r1.drop_first(), shift(st, x))
                    } else {
                        Err(LogoError::ParseError)
                    },
                }
            } else if t == seq!['['] {
                match list_spec(rest) {
                    None => Err(LogoError::ParseError),
                    Some((items, r1)) => if r1.len() < toks.len() {
                        expr_loop(sig, r1, shift(st, Term::Const(Datum::List(items))))
                    } else {
                        Err(LogoError::ParseError)
                    },
                }
            } else {
                match atom(t) {
                    Some(x) => expr_loop(sig, rest, shift(st, x)),
                    None => if sig.contains_key(t) {
                        match args_spec(sig, rest, sig[t] as nat) {
                            Err(e) => Err(e),
                            Ok((args, r1)) => if r1.len() < toks.len() {
                                expr_loop(sig, r1, shift(st, Term::Call(t, args)))
                            } else {
                                Err(LogoError::ParseError)
                            },
                        }
                    } else {
                        Err(LogoError::ParseError)
                    },
                }
            }
        }
    }
}

/// `n` expressions one after another at the front of `toks`, and the tokens
/// after them.
pub open spec fn args_spec(sig: Map<Seq<char>, usize>, toks: Seq<Seq<char>>, n: nat) -> Result<
    (Seq<Term>, Seq<Seq<char>>),
    LogoError,
>
    decreases toks.len(), 2 + n,
{
    if n == 0 {
        Ok((Seq::empty(), toks))
    } else {
        match parse_expr_spec(sig, toks) {
            Err(e) => Err(e),
            Ok((a, r)) => if r.len() <= toks.len() {
                match args_spec(sig, r, (n - 1) as nat) {
                    Err(e) => Err(e),
                    Ok((more, r2)) => Ok((seq![a] + more, r2)),
                }
            } else {
                Err(LogoError::ParseError)
            },
        }
    }
}

// ------------------------------------------------------------- the parser

fn is_tok(t: &String, lit: &str) -> (r: bool)
    ensures
        r == (t@ == lit@),
{
    same_text(t.as_str(), lit)
}

/// Whether `t` is the lower-case word `w`, in any mix of cases.
pub fn is_keyword_exec(t: &str, w: &str) -> (r: bool)
    ensures
        r == is_keyword(t@, w@),
{
    let n = t.unicode_len();
    if n != w.unicode_len() {
        return false;
    }
    let mut i: usize = 0;
    while i < n
        invariant
            n == t@.len() == w@.len(),
            i <= n,
            forall|j: int| 0 <= j < i ==> folds_to(#[trigger] t@[j], w@[j]),
        decreases n - i,
    {
        let c = t.get_char(i);
        let l = w.get_char(i);
        let ok = c == l || ('a' <= l && l <= 'z' && (c as u32) == (l as u32) - 32);
        if !ok {
            assert(!folds_to(t@[i as int], w@[i as int]));
            return false;
        }
        i = i + 1;
    }
    true
}

fn op_token(t: &String) -> (r: Option<OP>)
    ensures
        r == op_of(t@),
{
    proof {
        reveal_strlit("-");
        reveal_strlit("*");
        reveal_strlit("/");
        reveal_strlit("<");
        assert("-"@ =~= seq!['-']);
        assert("*"@ =~= seq!['*']);
        assert("/"@ =~= seq!['/']);
        assert("<"@ =~= seq!['<']);
    }
    if is_tok(t, "-") {
        Some(OP::Sub)
    } else if is_tok(t, "*") {
        Some(OP::Mul)
    } else if is_tok(t, "/") {
        Some(OP::Div)
    } else if is_tok(t, "<") {
        Some(OP::Le)
    } else {
        None
    }
}

/// The value that a token stands for by itself, if it stands for one.
fn get_value(txt: &String) -> (r: Option<Exp>)
    ensures
        match r {
            Some(e) => atom(txt@) == Some(e@),
            None => atom(txt@) is None,
        },
{
    proof {
        reveal_strlit("repcount");
        reveal_strlit("#");
        assert("repcount"@ =~= repcount_name());
        assert("#"@ =~= seq!['#']);
    }
    if is_tok(txt, "repcount") || is_tok(txt, "#") {
        return Some(Exp::Var(String::from_str("repcount")));
    }
    let s = txt.as_str();
    let n = s.unicode_len();
    if n > 0 && s.get_char(0) == ':' {
        let name = String::from_str(s.substring_char(1, n));
        assert(name@ =~= txt@.drop_first());
        Some(Exp::Var(name))
    } else if n > 0 && s.get_char(0) == '"' {
        let word = String::from_str(s.substring_char(1, n));
        assert(word@ =~= txt@.drop_first());
        Some(Exp::Const(Value::Str(word)))
    } else {
        match parse_number(s) {
            Some(v) => Some(Exp::Const(Value::Num(v))),
            None => None,
        }
    }
}

enum ExpState {
    Empty,
    Val(Exp),
    Op(Exp, OP),
}

spec fn shape_of(st: ExpState) -> Shape {
    match st {
        ExpState::Empty => Shape::Empty,
        ExpState::Val(v) => Shape::Val(v@),
        ExpState::Op(v, op) => Shape::Pending(v@, op),
    }
}

/// The state of one expression parse.
struct ExpParser {
    state: ExpState,
}

impl ExpParser {
    fn new() -> (r: ExpParser)
        ensures
            shape_of(r.state) == Shape::Empty,
    {
        ExpParser { state: ExpState::Empty }
    }

    /// No value is held yet, or an operator waits for its right operand.
    fn can_eat_val(&self) -> (r: bool)
        ensures
            r == !(shape_of(self.state) is Val),
    {
        match self.state {
            ExpState::Val(_) => false,
            _ => true,
        }
    }

    /// Puts an operator after the value held.
    fn shift_op(&mut self, op: OP) -> (r: bool)
        ensures
            r == (shape_of(old(self).state) is Val),
            r ==> shape_of(final(self).state) == Shape::Pending(
                shape_of(old(self).state)->Val_0,
                op,
            ),
    {
        let mut st = ExpState::Empty;
        std::mem::swap(&mut st, &mut self.state);
        match st {
            ExpState::Val(v) => {
                self.state = ExpState::Op(v, op);
                true
            },
            other => {
                self.state = other;
                false
            },
        }
    }

    /// Takes in a value, as the value held or as the right operand of the
    /// operator that waits; where a value is held already, refuses it and
    /// changes nothing.
    fn shift_val(&mut self, rhs: Exp) -> (r: bool)
        ensures
            r == !(shape_of(old(self).state) is Val),
            r ==> shape_of(final(self).state) == shift(shape_of(old(self).state), rhs@),
            !r ==> shape_of(final(self).state) == shape_of(old(self).state),
    {
        let mut st = ExpState::Empty;
        std::mem::swap(&mut st, &mut self.state);
        match st {
            ExpState::Op(v, op) => {
                let e = Exp::Oper(op, Box::new(v), Box::new(rhs));
                self.state = ExpState::Val(e);
                true
            },
            ExpState::Empty => {
                self.state = ExpState::Val(rhs);
                true
            },
            held => {
                self.state = held;
                false
            },
        }
    }

    /// The value held, where the parse may end.
    fn get_value(self) -> (r: Result<Exp, LogoError>)
        ensures
            match held(shape_of(self.state), Seq::empty()) {
                Ok((v, _)) => r is Ok && r->Ok_0@ == v,
                Err(e) => r == Err::<Exp, LogoError>(e),
            },
    {
        match self.state {
            ExpState::Val(v) => Ok(v),
            _ => Err(LogoError::ParseError),
        }
    }
}

/// Reads the tokens of a list literal, after its `[`, through its `]`.
fn read_list(iter: &mut Unsee) -> (r: Result<Vec<String>, LogoError>)
    ensures
        match list_spec(old(iter)@) {
            Some((items, rest)) => r is Ok && texts(r->Ok_0@) == items && final(iter)@ == rest,
            None => r == Err::<Vec<String>, LogoError>(LogoError::ParseError),
        },
{
    let ghost start = iter@;
    let mut items: Vec<String> = Vec::new();
    loop
        invariant
            start == old(iter)@,
            list_spec(start) == match list_spec(iter@) {
                Some((more, r)) => Some((texts(items@) + more, r)),
                None => None,
            },
        decreases iter@.len(),
    {
        let ghost cur = iter@;
        proof {
            reveal_strlit("]");
            assert("]"@ =~= seq![']']);
        }
        match iter.next() {
            None => {
                return Err(LogoError::ParseError);
            },
            Some(x) => {
                if is_tok(&x, "]") {
                    assert(texts(items@) + Seq::<Seq<char>>::empty() =~= texts(items@));
                    return Ok(items);
                }
                proof {
                    match list_spec(iter@) {
                        Some((more, r)) => {
                            assert(texts(items@.push(x)) + more =~= texts(items@) + (seq![x@]
                                + more));
                        },
                        None => {},
                    }
                }
                items.push(x);
            },
        }
    }
}

/// Parses one expression from the front of the stream, against the table
/// of command arities.
pub fn parse_expr(procs: &Table<usize>, iter: &mut Unsee) -> (r: Result<Exp, LogoError>)
    requires
        procs.wf(),
    ensures
        match parse_expr_spec(procs@, old(iter)@) {
            Ok((t, rest)) => r is Ok && r->Ok_0@ == t && final(iter)@ == rest,
            Err(e) => r == Err::<Exp, LogoError>(e),
        },
        r is Ok ==> final(iter)@.len() < old(iter)@.len(),
    decreases old(iter)@.len(),
{
    let ghost entry = iter@;
    let mut parser = ExpParser::new();
    loop
        invariant
            procs.wf(),
            entry == old(iter)@,
            iter@.len() <= entry.len(),
            !(shape_of(parser.state) is Empty) ==> iter@.len() < entry.len(),
            parse_expr_spec(procs@, entry) == expr_loop(procs@, iter@, shape_of(parser.state)),
        decreases iter@.len(),
    {
        let ghost toks = iter@;
        let ghost st = shape_of(parser.state);
        proof {
            reveal_strlit("(");
            reveal_strlit(")");
            reveal_strlit("[");
            assert("("@ =~= seq!['(']);
            assert(")"@ =~= seq![')']);
            assert("["@ =~= seq!['[']);
        }
        match iter.next() {
            None => {
                assert(toks =~= Seq::<Seq<char>>::empty());
                return parser.get_value();
            },
            Some(t) => {
                let ghost rest = iter@;
                assert(t@ == toks[0] && rest == toks.drop_first());
                match op_token(&t) {
                    Some(op) => {
                        if !parser.shift_op(op) {
                            assert(expr_loop(procs@, toks, st) == Err::<(Term, Seq<Seq<char>>), LogoError>(LogoError::ParseError));
                            return Err(LogoError::ParseError);
                        }
                    },
                    None => {
                        if !parser.can_eat_val() {
                            iter.unsee(t);
                            assert(iter@ =~= toks);
                            return parser.get_value();
                        }
                        if is_tok(&t, "(") {
                            let x = match parse_expr(procs, iter) {
                                Ok(x) => x,
                                Err(e) => {
                                    return Err(e);
                                },
                            };
                            let ghost r1 = iter@;
                            match iter.next() {
                                Some(c) => {
                                    if !is_tok(&c, ")") {
                                        return Err(LogoError::ParseError);
                                    }
                                },
                                None => {
                                    return Err(LogoError::ParseError);
                                },
                            }
                            assert(iter@ == r1.drop_first());
                            parser.shift_val(x);
                        } else if is_tok(&t, "[") {
                            let items = match read_list(iter) {
                                Ok(items) => items,
                                Err(e) => {
                                    return Err(e);
                                },
                            };
                            proof {
                                lemma_list_shortens(rest);
                            }
                            parser.shift_val(Exp::Const(Value::List(items)));
                        } else {
                            match get_value(&t) {
                                Some(x) => {
                                    parser.shift_val(x);
                                },
                                None => {
                                    match procs.get(t.as_str()) {
                                        None => {
                                            return Err(LogoError::ParseError);
                                        },
                                        Some(n) => {
                                            let n: usize = *n;
                                            let ghost tail = match args_spec(procs@, rest, n as nat) {
                                                Err(e) => Err(e),
                                                Ok((args, r1)) => if r1.len() < toks.len() {
                                                    expr_loop(procs@, r1, shift(st, Term::Call(t@, args)))
                                                } else {
                                                    Err(LogoError::ParseError)
                                                },
                                            };
                                            assert(expr_loop(procs@, toks, st) == tail);
                                            let mut args: Vec<Exp> = Vec::new();
                                            let mut i: usize = 0;
                                            while i < n
                                                invariant
                                                    procs.wf(),
                                                    entry == old(iter)@,
                                                    parse_expr_spec(procs@, entry) == tail,
                                                    tail == match args_spec(procs@, rest, n as nat) {
                                                        Err(e) => Err(e),
                                                        Ok((args, r1)) => if r1.len() < toks.len() {
                                                            expr_loop(procs@, r1, shift(st, Term::Call(t@, args)))
                                                        } else {
                                                            Err(LogoError::ParseError)
                                                        },
                                                    },
                                                    shape_of(parser.state) == st,
                                                    !(st is Val),
                                                    rest.len() < toks.len(),
                                                    toks.len() <= entry.len(),
                                                    i <= n,
                                                    iter@.len() <= rest.len(),
                                                    rest.len() < entry.len(),
                                                    args_spec(procs@, rest, n as nat) == match args_spec(
                                                        procs@,
                                                        iter@,
                                                        (n - i) as nat,
                                                    ) {
                                                        Ok((more, r)) => Ok(
                                                            (exps_view(args@) + more, r),
                                                        ),
                                                        Err(e) => Err(e),
                                                    },
                                                decreases n - i,
                                            {
                                                let ghost cur = iter@;
                                                let a = match parse_expr(procs, iter) {
                                                    Ok(a) => a,
                                                    Err(e) => {
                                                        assert(args_spec(procs@, cur, (n - i) as nat)
                                                            == Err::<(Seq<Term>, Seq<Seq<char>>), LogoError>(e));
                                                        return Err(e);
                                                    },
                                                };
                                                proof {
                                                    match args_spec(
                                                        procs@,
                                                        iter@,
                                                        (n - i - 1) as nat,
                                                    ) {
                                                        Ok((more, r)) => {
                                                            assert(exps_view(args@.push(a)) + more
                                                                =~= exps_view(args@) + (seq![a@]
                                                                + more));
                                                        },
                                                        Err(e) => {},
                                                    }
                                                }
                                                args.push(a);
                                                i = i + 1;
                                            }
                                            let call = Exp::Call(t, args);
                                            assert(exps_view(args@) + Seq::<Term>::empty()
                                                =~= exps_view(args@));
                                            proof {
                                                let tc = term_of(call);
                                                assert(tc->Call_0 == t@);
                                                assert(tc->Call_1 =~= exps_view(args@));
                                                assert(tc == Term::Call(t@, exps_view(args@)));
                                            }
                                            parser.shift_val(call);
                                        },
                                    }
                                },
                            }
                        }
                    },
                }
            },
        }
    }
}

proof fn lemma_list_shortens(toks: Seq<Seq<char>>)
    ensures
        list_spec(toks) matches Some((items, r)) ==> r.len() < toks.len() + 0 && r.len() <= toks.len(),
    decreases toks.len(),
{
    if toks.len() > 0 && toks[0] != seq![']'] {
        lemma_list_shortens(toks.drop_first());
    }
}

// ------------------------------------------------------------ statements

/// A user-defined procedure: its name, its parameter names and the tokens
/// of its body.
pub struct Procedure {
    name: String,
    vars: Vec<String>,
    body: Vec<String>,
}

/// What a procedure is, as mathematical data.
pub struct ProcModel {
    pub name: Seq<char>,
    pub vars: Seq<Seq<char>>,
    pub body: Seq<Seq<char>>,
}

impl View for Procedure {
    type V = ProcModel;

    closed spec fn view(&self) -> ProcModel {
        ProcModel { name: self.name@, vars: texts(self.vars@), body: texts(self.body@) }
    }
}

impl Procedure {
    pub fn get_name(&self) -> (r: &str)
        ensures
            r@ == self@.name,
    {
        self.name.as_str()
    }

    pub fn get_body(&self) -> (r: &Vec<String>)
        ensures
            texts(r@) == self@.body,
    {
        &self.body
    }

    pub fn get_argv(&self) -> (r: &Vec<String>)
        ensures
            texts(r@) == self@.vars,
    {
        &self.vars
    }

    /// How many arguments a call of the procedure takes.
    pub fn signature(&self) -> (r: usize)
        ensures
            r == self@.vars.len(),
    {
        self.vars.len()
    }

    /// A procedure equal to this one.
    pub fn duplicate(&self) -> (r: Procedure)
        ensures
            r@ == self@,
    {
        Procedure {
            name: self.name.clone(),
            vars: crate::value::copy_strings(&self.vars),
            body: crate::value::copy_strings(&self.body),
        }
    }
}

/// A parsed statement: a procedure definition or an expression.
pub enum Stat {
    ProcDef(Procedure),
    Exp(Exp),
}

pub enum Statement {
    ProcDef(ProcModel),
    Exp(Term),
}

impl View for Stat {
    type V = Statement;

    open spec fn view(&self) -> Statement {
        match self {
            Stat::ProcDef(p) => Statement::ProcDef(p@),
            Stat::Exp(e) => Statement::Exp(e@),
        }
    }
}

/// The parameters at the front of `toks` (tokens that start with `:`, the
/// mark taken off), and the tokens after them; the stream may not end there.
pub open spec fn params_spec(toks: Seq<Seq<char>>) -> Result<(Seq<Seq<char>>, Seq<Seq<char>>), LogoError>
    decreases toks.len(),
{
    if toks.len() == 0 {
        Err(LogoError::ParseError)
    } else if toks[0].len() > 0 && toks[0][0] == ':' {
        match params_spec(toks.drop_first()) {
            Ok((vs, r)) => Ok((seq![toks[0].drop_first()] + vs, r)),
            Err(e) => Err(e),
        }
    } else {
        Ok((Seq::empty(), toks))
    }
}

pub open spec fn end_word() -> Seq<char> {
    seq!['e', 'n', 'd']
}

pub open spec fn to_word() -> Seq<char> {
    seq!['t', 'o']
}

/// The tokens up to the first `end` (in any case), and the tokens after it.
pub open spec fn body_spec(toks: Seq<Seq<char>>) -> Result<(Seq<Seq<char>>, Seq<Seq<char>>), LogoError>
    decreases toks.len(),
{
    if toks.len() == 0 {
        Err(LogoError::ParseError)
    } else if is_keyword(toks[0], end_word()) {
        Ok((Seq::empty(), toks.drop_first()))
    } else {
        match body_spec(toks.drop_first()) {
            Ok((b, r)) => Ok((seq![toks[0]] + b, r)),
            Err(e) => Err(e),
        }
    }
}

/// A procedure definition after its `to`: a name, parameters, and a body
/// closed by `end`.
pub open spec fn procedure_spec(toks: Seq<Seq<char>>) -> Result<(ProcModel, Seq<Seq<char>>), LogoError> {
    if toks.len() == 0 {
        Err(LogoError::ParseError)
    } else {
        match params_spec(toks.drop_first()) {
            Err(e) => Err(e),
            Ok((vs, r1)) => match body_spec(r1) {
                Err(e) => Err(e),
                Ok((b, r2)) => Ok((ProcModel { name: toks[0], vars: vs, body: b }, r2)),
            },
        }
    }
}

/// The statement at the front of `toks`, or none at the end.
pub open spec fn statement_spec(sig: Map<Seq<char>, usize>, toks: Seq<Seq<char>>) -> Result<
    Option<(Statement, Seq<Seq<char>>)>,
    LogoError,
> {
    if toks.len() == 0 {
        Ok(None)
    } else if is_keyword(toks[0], to_word()) {
        match procedure_spec(toks.drop_first()) {
            Ok((p, r)) => Ok(Some((Statement::ProcDef(p), r))),
            Err(e) => Err(e),
        }
    } else {
        match parse_expr_spec(sig, toks) {
            Ok((e, r)) => Ok(Some((Statement::Exp(e), r))),
            Err(e) => Err(e),
        }
    }
}

fn procedure_args(iter: &mut Unsee) -> (r: Result<Vec<String>, LogoError>)
    ensures
        match params_spec(old(iter)@) {
            Ok((vs, rest)) => r is Ok && texts(r->Ok_0@) == vs && final(iter)@ == rest,
            Err(e) => r == Err::<Vec<String>, LogoError>(e),
        },
        r is Ok ==> final(iter)@.len() <= old(iter)@.len(),
{
    let ghost start = iter@;
    let mut vars: Vec<String> = Vec::new();
    loop
        invariant
            start == old(iter)@,
            iter@.len() <= start.len(),
            params_spec(start) == match params_spec(iter@) {
                Ok((more, r)) => Ok((texts(vars@) + more, r)),
                Err(e) => Err(e),
            },
        decreases iter@.len(),
    {
        let ghost cur = iter@;
        let txt = match iter.next() {
            Some(t) => t,
            None => {
                return Err(LogoError::ParseError);
            },
        };
        let s = txt.as_str();
        let n = s.unicode_len();
        if n > 0 && s.get_char(0) == ':' {
            let name = String::from_str(s.substring_char(1, n));
            assert(name@ =~= txt@.drop_first());
            proof {
                match params_spec(iter@) {
                    Ok((more, r)) => {
                        assert(texts(vars@.push(name)) + more =~= texts(vars@) + (seq![name@]
                            + more));
                    },
                    Err(e) => {},
                }
            }
            vars.push(name);
        } else {
            iter.unsee(txt);
            assert(iter@ =~= cur);
            assert(texts(vars@) + Seq::<Seq<char>>::empty() =~= texts(vars@));
            return Ok(vars);
        }
    }
}

fn procedure_body(iter: &mut Unsee) -> (r: Result<Vec<String>, LogoError>)
    ensures
        match body_spec(old(iter)@) {
            Ok((b, rest)) => r is Ok && texts(r->Ok_0@) == b && final(iter)@ == rest,
            Err(e) => r == Err::<Vec<String>, LogoError>(e),
        },
        r is Ok ==> final(iter)@.len() <= old(iter)@.len(),
{
    let ghost start = iter@;
    let mut body: Vec<String> = Vec::new();
    loop
        invariant
            start == old(iter)@,
            iter@.len() <= start.len(),
            body_spec(start) == match body_spec(iter@) {
                Ok((more, r)) => Ok((texts(body@) + more, r)),
                Err(e) => Err(e),
            },
        decreases iter@.len(),
    {
        proof {
            reveal_strlit("end");
            assert("end"@ =~= end_word());
        }
        let txt = match iter.next() {
            Some(t) => t,
            None => {
                return Err(LogoError::ParseError);
            },
        };
        if is_keyword_exec(txt.as_str(), "end") {
            assert(texts(body@) + Seq::<Seq<char>>::empty() =~= texts(body@));
            return Ok(body);
        }
        proof {
            match body_spec(iter@) {
                Ok((more, r)) => {
                    assert(texts(body@.push(txt)) + more =~= texts(body@) + (seq![txt@] + more));
                },
                Err(e) => {},
            }
        }
        body.push(txt);
    }
}

fn parse_procedure(iter: &mut Unsee) -> (r: Result<Procedure, LogoError>)
    ensures
        match procedure_spec(old(iter)@) {
            Ok((p, rest)) => r is Ok && r->Ok_0@ == p && final(iter)@ == rest,
            Err(e) => r == Err::<Procedure, LogoError>(e),
        },
        r is Ok ==> final(iter)@.len() < old(iter)@.len(),
{
    let name = match iter.next() {
        Some(t) => t,
        None => {
            return Err(LogoError::ParseError);
        },
    };
    let vars = match procedure_args(iter) {
        Ok(v) => v,
        Err(e) => {
            return Err(e);
        },
    };
    let body = match procedure_body(iter) {
        Ok(b) => b,
        Err(e) => {
            return Err(e);
        },
    };
    Ok(Procedure { name, vars, body })
}

/// Parses the next statement: a procedure definition where the stream holds
/// `to` (in any case), else one expression; `None` at the end of the stream.
pub fn parse_statement(procs: &Table<usize>, iter: &mut Unsee) -> (r: Result<Option<Stat>, LogoError>)
    requires
        procs.wf(),
    ensures
        match statement_spec(procs@, old(iter)@) {
            Ok(Some((st, rest))) => r is Ok && r->Ok_0 is Some && r->Ok_0->Some_0@ == st
                && final(iter)@ == rest,
            Ok(None) => r is Ok && r->Ok_0 is None && final(iter)@ == old(iter)@,
            Err(e) => r == Err::<Option<Stat>, LogoError>(e),
        },
        r matches Ok(Some(_)) ==> final(iter)@.len() < old(iter)@.len(),
{
    proof {
        reveal_strlit("to");
        assert("to"@ =~= to_word());
    }
    match iter.next() {
        None => Ok(None),
        Some(txt) => {
            if is_keyword_exec(txt.as_str(), "to") {
                match parse_procedure(iter) {
                    Ok(p) => Ok(Some(Stat::ProcDef(p))),
                    Err(e) => Err(e),
                }
            } else {
                iter.unsee(txt);
                assert(iter@ =~= old(iter)@);
                match parse_expr(procs, iter) {
                    Ok(e) => Ok(Some(Stat::Exp(e))),
                    Err(e) => Err(e),
                }
            }
        },
    }
}

} // verus!
