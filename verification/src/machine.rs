//! The machine that executes a program: values, frames, and the steps.

use crate::program::{
    copy_place, function_index, label_table, lemma_function_index, lemma_label_table,
    lemma_lookup_label, lookup_label, name_views, place_views, Atom, AtomView, Function,
    FunctionView, Opcode, Place, PlaceView, Program, ProgramView, Stmt, StmtView,
};
use vstd::prelude::*;
use vstd::string::*;

verus! {

/// What a variable holds: an integer, or an array of integers.
#[derive(Debug)]
pub enum Value {
    Int(i32),
    Array(Vec<i32>),
}

/// What a variable holds, as a mathematical value.
pub ghost enum ValueView {
    Int(i32),
    Array(Seq<i32>),
}

impl View for Value {
    type V = ValueView;

    open spec fn view(&self) -> ValueView {
        match self {
            Value::Int(n) => ValueView::Int(*n),
            Value::Array(cells) => ValueView::Array(cells@),
        }
    }
}

/// Why a program cannot go on.
#[derive(Debug, Clone, Copy, PartialEq, Eq, Structural)]
pub enum Fault {
    /// A name is used that the frame does not hold.
    UndeclaredName,
    /// An array stands where an integer has to.
    NotAScalar,
    /// An integer stands where an array has to.
    NotAnArray,
    /// An index is below zero or not below the array's size.
    IndexOutOfRange,
    /// The divisor of `%div` or `%mod` is zero.
    DivisionByZero,
    /// A literal stands where something is written.
    NotWritable,
    /// A jump goes to a label that the function does not define.
    UnknownLabel,
    /// A call names a function that the program does not define.
    UnknownFunction,
    /// A call passes more or fewer arguments than the function has
    /// parameters.
    WrongArgumentCount,
    /// A function other than `main` ends without `%ret`.
    MissingReturn,
    /// The input is no integer, or there is none left.
    BadInput,
    /// An input is given to a program that does not wait for one.
    NoInputWanted,
}

/// The words that say what a fault is.
pub open spec fn fault_text(fault: Fault) -> Seq<char> {
    match fault {
        Fault::UndeclaredName => "use of a name that is not declared"@,
        Fault::NotAScalar => "an array stands where an integer has to"@,
        Fault::NotAnArray => "an integer stands where an array has to"@,
        Fault::IndexOutOfRange => "array index out of range"@,
        Fault::DivisionByZero => "division by zero"@,
        Fault::NotWritable => "a literal cannot be written to"@,
        Fault::UnknownLabel => "jump to an undefined label"@,
        Fault::UnknownFunction => "call to an undefined function"@,
        Fault::WrongArgumentCount => "wrong number of arguments"@,
        Fault::MissingReturn => "function ended without a return"@,
        Fault::BadInput => "the input is not an integer"@,
        Fault::NoInputWanted => "no input is waited for"@,
    }
}

impl Fault {
    /// The words that say what the fault is.
    pub fn describe(&self) -> (text: &'static str)
        ensures
            text@ == fault_text(*self),
    {
        match self {
            Fault::UndeclaredName => "use of a name that is not declared",
            Fault::NotAScalar => "an array stands where an integer has to",
            Fault::NotAnArray => "an integer stands where an array has to",
            Fault::IndexOutOfRange => "array index out of range",
            Fault::DivisionByZero => "division by zero",
            Fault::NotWritable => "a literal cannot be written to",
            Fault::UnknownLabel => "jump to an undefined label",
            Fault::UnknownFunction => "call to an undefined function",
            Fault::WrongArgumentCount => "wrong number of arguments",
            Fault::MissingReturn => "function ended without a return",
            Fault::BadInput => "the input is not an integer",
            Fault::NoInputWanted => "no input is waited for",
        }
    }
}

/// What a step of the machine tells the one who drives it.
#[derive(Debug, Clone, Copy, PartialEq, Eq, Structural)]
pub enum Signal {
    /// The step is done; the next can follow.
    Running,
    /// The step is done, and this integer is to be written out.
    Output(i32),
    /// The program waits for an integer, to be handed in by `deliver`.
    NeedInput,
    /// The program has ended with this status.
    Halted(i32),
    /// The program cannot go on.
    Fault(Fault),
}

/// The two's-complement result of an operation, or nothing for a division
/// by zero. A comparison gives 1 where it holds and 0 where it does not;
/// `%div` rounds toward zero, and the result of `%mod` has the sign of the
/// dividend.
pub open spec fn apply(op: Opcode, a: i32, b: i32) -> Option<i32> {
    match op {
        Opcode::Add => Some(a.wrapping_add(b)),
        Opcode::Sub => Some(a.wrapping_sub(b)),
        Opcode::Mult => Some(a.wrapping_mul(b)),
        Opcode::Div => if b == 0 {
            None
        } else {
            match a.checked_div(b) {
                Some(q) => Some(q),
                None => Some(i32::MIN),
            }
        },
        Opcode::Mod => if b == 0 {
            None
        } else {
            match a.checked_rem(b) {
                Some(r) => Some(r),
                None => Some(0i32),
            }
        },
        Opcode::Eq => Some(truth(a == b)),
        Opcode::Neq => Some(truth(a != b)),
        Opcode::Lt => Some(truth(a < b)),
        Opcode::Le => Some(truth(a <= b)),
        Opcode::Gt => Some(truth(a > b)),
        Opcode::Ge => Some(truth(a >= b)),
    }
}

/// Division rounds toward zero and the remainder has the sign of the
/// dividend: where the quotient fits in 32 bits, the dividend is the
/// quotient times the divisor plus the remainder, the remainder is smaller
/// in size than the divisor, and it is zero or of the dividend's sign.
pub proof fn lemma_division(a: i32, b: i32)
    requires
        b != 0,
        !(a == i32::MIN && b == -1),
    ensures
        ({
            let q = apply(Opcode::Div, a, b)->0 as int;
            let r = apply(Opcode::Mod, a, b)->0 as int;
            &&& a == q * b + r
            &&& if b > 0 {
                -b < r < b
            } else {
                b < r < -b
            }
            &&& r == 0 || (r < 0 <==> a < 0)
        }),
{
    let x = a as int;
    let d = b as int;
    let size_x = if x < 0 {
        -x
    } else {
        x
    };
    let size_d = if d < 0 {
        -d
    } else {
        d
    };
    let q = size_x / size_d;
    let r = size_x % size_d;
    assert(size_x == q * size_d + r && 0 <= r < size_d) by (nonlinear_arith)
        requires
            size_d > 0,
            q == size_x / size_d,
            r == size_x % size_d,
    ;
    assert(0 <= q <= size_x) by (nonlinear_arith)
        requires
            size_d > 0,
            size_x >= 0,
            q == size_x / size_d,
    ;
    assert((-q) * d == -(q * d) && q * (-d) == -(q * d) && (-q) * (-d) == q * d)
        by (nonlinear_arith);
}

/// The integer of a comparison: 1 where it holds, 0 where it does not.
pub open spec fn truth(b: bool) -> i32 {
    if b {
        1
    } else {
        0
    }
}

/// Computes an operation.
pub fn compute(op: Opcode, a: i32, b: i32) -> (r: Option<i32>)
    ensures
        r == apply(op, a, b),
{
    match op {
        Opcode::Add => Some(a.wrapping_add(b)),
        Opcode::Sub => Some(a.wrapping_sub(b)),
        Opcode::Mult => Some(a.wrapping_mul(b)),
        Opcode::Div => if b == 0 {
            None
        } else {
            match a.checked_div(b) {
                Some(q) => Some(q),
                None => Some(i32::MIN),
            }
        },
        Opcode::Mod => if b == 0 {
            None
        } else {
            match a.checked_rem(b) {
                Some(r) => Some(r),
                None => Some(0i32),
            }
        },
        Opcode::Eq => Some(if a == b { 1 } else { 0 }),
        Opcode::Neq => Some(if a != b { 1 } else { 0 }),
        Opcode::Lt => Some(if a < b { 1 } else { 0 }),
        Opcode::Le => Some(if a <= b { 1 } else { 0 }),
        Opcode::Gt => Some(if a > b { 1 } else { 0 }),
        Opcode::Ge => Some(if a >= b { 1 } else { 0 }),
    }
}

/// The variables of a frame: what each name holds.
pub type Env = Map<Seq<char>, ValueView>;

/// The integer that an atom stands for.
pub open spec fn read_atom(env: Env, atom: AtomView) -> Result<i32, Fault> {
    match atom {
        AtomView::Lit(n) => Ok(n),
        AtomView::Name(name) => if !env.dom().contains(name) {
            Err(Fault::UndeclaredName)
        } else {
            match env[name] {
                ValueView::Int(n) => Ok(n),
                ValueView::Array(_) => Err(Fault::NotAScalar),
            }
        },
    }
}

/// The integer that an operand stands for.
pub open spec fn read(env: Env, place: PlaceView) -> Result<i32, Fault> {
    match place {
        PlaceView::Plain(atom) => read_atom(env, atom),
        PlaceView::Element(array, index) => if !env.dom().contains(array) {
            Err(Fault::UndeclaredName)
        } else {
            match env[array] {
                ValueView::Int(_) => Err(Fault::NotAnArray),
                ValueView::Array(cells) => match read_atom(env, index) {
                    Err(fault) => Err(fault),
                    Ok(i) => if 0 <= i < cells.len() {
                        Ok(cells[i as int])
                    } else {
                        Err(Fault::IndexOutOfRange)
                    },
                },
            }
        },
    }
}

/// The variables after an integer is written to an operand: to a declared
/// scalar, or to an element of a declared array.
pub open spec fn write(env: Env, place: PlaceView, value: i32) -> Result<Env, Fault> {
    match place {
        PlaceView::Plain(AtomView::Lit(_)) => Err(Fault::NotWritable),
        PlaceView::Plain(AtomView::Name(name)) => if !env.dom().contains(name) {
            Err(Fault::UndeclaredName)
        } else {
            match env[name] {
                ValueView::Int(_) => Ok(env.insert(name, ValueView::Int(value))),
                ValueView::Array(_) => Err(Fault::NotAScalar),
            }
        },
        PlaceView::Element(array, index) => if !env.dom().contains(array) {
            Err(Fault::UndeclaredName)
        } else {
            match env[array] {
                ValueView::Int(_) => Err(Fault::NotAnArray),
                ValueView::Array(cells) => match read_atom(env, index) {
                    Err(fault) => Err(fault),
                    Ok(i) => if 0 <= i < cells.len() {
                        Ok(env.insert(array, ValueView::Array(cells.update(i as int, value))))
                    } else {
                        Err(Fault::IndexOutOfRange)
                    },
                },
            }
        },
    }
}

/// The integers that the first `n` of a list of operands stand for.
pub open spec fn read_all(env: Env, places: Seq<PlaceView>, n: int) -> Result<Seq<i32>, Fault>
    decreases n,
{
    if n <= 0 {
        Ok(Seq::empty())
    } else {
        match read_all(env, places, n - 1) {
            Err(fault) => Err(fault),
            Ok(values) => match read(env, places[n - 1]) {
                Err(fault) => Err(fault),
                Ok(value) => Ok(values.push(value)),
            },
        }
    }
}

/// The variables after the first `n` parameters are bound to their
/// arguments.
pub open spec fn bind(params: Seq<Seq<char>>, values: Seq<i32>, n: int) -> Env
    decreases n,
{
    if n <= 0 {
        Map::empty()
    } else {
        bind(params, values, n - 1).insert(params[n - 1], ValueView::Int(values[n - 1]))
    }
}

/// The record of one active call: the function, the position in its body,
/// its variables, and the operand of the caller that takes the result.
#[derive(Debug)]
pub struct Frame {
    pub function: usize,
    pub pc: usize,
    pub names: Vec<String>,
    pub values: Vec<Value>,
    pub dst: Option<Place>,
}

/// A frame as a mathematical value: the function, the position in its
/// body, the variables, and the operand of the caller that takes the
/// result.
pub ghost struct FrameView {
    pub function: int,
    pub pc: int,
    pub env: Env,
    pub dst: Option<PlaceView>,
}

/// The position of a name among the names of a frame.
pub open spec fn slot(names: Seq<String>, name: Seq<char>) -> int {
    choose|i: int| 0 <= i < names.len() && names[i]@ == name
}

/// What each name of a frame holds.
pub open spec fn env_of(names: Seq<String>, values: Seq<Value>) -> Env {
    Map::new(
        |name: Seq<char>| exists|i: int| 0 <= i < names.len() && names[i]@ == name,
        |name: Seq<char>| values[slot(names, name)]@,
    )
}

/// Whether no name occurs twice.
pub open spec fn distinct(names: Seq<String>) -> bool {
    forall|i: int, j: int|
        0 <= i < names.len() && 0 <= j < names.len() && i != j ==> names[i]@ != names[j]@
}

/// The variables after a name that is new is added.
pub proof fn lemma_env_push(names: Seq<String>, values: Seq<Value>, name: String, value: Value)
    requires
        names.len() == values.len(),
        distinct(names),
        !env_of(names, values).dom().contains(name@),
    ensures
        distinct(names.push(name)),
        env_of(names.push(name), values.push(value)) == env_of(names, values).insert(
            name@,
            value@,
        ),
{
    let more = names.push(name);
    assert forall|i: int, j: int|
        0 <= i < more.len() && 0 <= j < more.len() && i != j implies more[i]@ != more[j]@ by {
        if i < names.len() && j < names.len() {
        } else if i < names.len() {
            assert(names[i]@ == more[i]@);
        } else {
            assert(names[j]@ == more[j]@);
        }
    }
    let after = env_of(more, values.push(value));
    let wanted = env_of(names, values).insert(name@, value@);
    assert forall|k: Seq<char>| after.dom().contains(k) == wanted.dom().contains(k) by {
        if after.dom().contains(k) {
            let i = choose|i: int| 0 <= i < more.len() && more[i]@ == k;
            if i < names.len() {
                assert(names[i]@ == k);
            }
        }
        if wanted.dom().contains(k) && k != name@ {
            let i = choose|i: int| 0 <= i < names.len() && names[i]@ == k;
            assert(more[i]@ == k);
        }
        if k == name@ {
            assert(more[names.len() as int]@ == k);
        }
    }
    assert forall|k: Seq<char>| after.dom().contains(k) implies after[k] == wanted[k] by {
        let i = slot(more, k);
        if k == name@ {
            if i < names.len() {
                assert(names[i]@ == k);
            }
        } else {
            assert(names[i]@ == k);
            let j = slot(names, k);
            assert(i == j);
        }
    }
    assert(after =~= wanted);
}

/// The variables after what a name holds is replaced.
pub proof fn lemma_env_update(names: Seq<String>, values: Seq<Value>, at: int, value: Value)
    requires
        names.len() == values.len(),
        distinct(names),
        0 <= at < names.len(),
    ensures
        env_of(names, values.update(at, value)) == env_of(names, values).insert(
            names[at]@,
            value@,
        ),
        env_of(names, values).dom().contains(names[at]@),
        env_of(names, values)[names[at]@] == values[at]@,
{
    let after = env_of(names, values.update(at, value));
    let wanted = env_of(names, values).insert(names[at]@, value@);
    assert(slot(names, names[at]@) == at);
    assert forall|k: Seq<char>| after.dom().contains(k) implies after[k] == wanted[k] by {
        let i = slot(names, k);
        if i != at {
            assert(names[i]@ != names[at]@);
        }
    }
    assert(after =~= wanted);
}

impl View for Frame {
    type V = FrameView;

    open spec fn view(&self) -> FrameView {
        FrameView {
            function: self.function as int,
            pc: self.pc as int,
            env: env_of(self.names@, self.values@),
            dst: match self.dst {
                Some(place) => Some(place@),
                None => None,
            },
        }
    }
}

/// An array of `n` zeros.
pub fn zeros(n: usize) -> (cells: Vec<i32>)
    ensures
        cells@ == Seq::new(n as nat, |i: int| 0i32),
{
    let mut cells: Vec<i32> = Vec::new();
    while cells.len() < n
        invariant
            cells.len() <= n,
            forall|i: int| 0 <= i < cells.len() ==> cells[i] == 0,
        decreases n - cells.len(),
    {
        cells.push(0);
    }
    assert(cells@ =~= Seq::new(n as nat, |i: int| 0i32));
    cells
}

impl Frame {
    /// Whether each name has its value and no name occurs twice.
    pub open spec fn wf(&self) -> bool {
        self.names.len() == self.values.len() && distinct(self.names@)
    }

    /// The position of a name among the names of the frame.
    pub fn find(&self, name: &String) -> (r: Option<usize>)
        requires
            self.wf(),
        ensures
            match r {
                Some(i) => i < self.names.len() && self.names[i as int]@ == name@
                    && self@.env.dom().contains(name@) && self@.env[name@]
                    == self.values[i as int]@,
                None => !self@.env.dom().contains(name@),
            },
    {
        let mut i: usize = 0;
        while i < self.names.len()
            invariant
                self.wf(),
                i <= self.names.len(),
                forall|k: int| 0 <= k < i ==> self.names[k]@ != name@,
            decreases self.names.len() - i,
        {
            if self.names[i] == *name {
                proof {
                    lemma_env_update(self.names@, self.values@, i as int, self.values[i as int]);
                }
                return Some(i);
            }
            i += 1;
        }
        None
    }

    /// The integer that an atom stands for.
    pub fn read_atom(&self, atom: &Atom) -> (r: Result<i32, Fault>)
        requires
            self.wf(),
        ensures
            r == read_atom(self@.env, atom@),
    {
        match atom {
            Atom::Lit(n) => Ok(*n),
            Atom::Name(name) => match self.find(name) {
                None => Err(Fault::UndeclaredName),
                Some(i) => match &self.values[i] {
                    Value::Int(n) => Ok(*n),
                    Value::Array(_) => Err(Fault::NotAScalar),
                },
            },
        }
    }

    /// The integer that an operand stands for.
    pub fn read(&self, place: &Place) -> (r: Result<i32, Fault>)
        requires
            self.wf(),
        ensures
            r == read(self@.env, place@),
    {
        match place {
            Place::Plain(atom) => self.read_atom(atom),
            Place::Element(array, index) => match self.find(array) {
                None => Err(Fault::UndeclaredName),
                Some(i) => match &self.values[i] {
                    Value::Int(_) => Err(Fault::NotAnArray),
                    Value::Array(cells) => match self.read_atom(index) {
                        Err(fault) => Err(fault),
                        Ok(k) => if 0 <= k && (k as usize) < cells.len() {
                            Ok(cells[k as usize])
                        } else {
                            Err(Fault::IndexOutOfRange)
                        },
                    },
                },
            },
        }
    }

    /// Declares a variable: the name holds the value from now on, whatever
    /// it held before.
    pub fn declare(&mut self, name: &String, value: Value)
        requires
            old(self).wf(),
        ensures
            final(self).wf(),
            final(self)@ == (FrameView {
                env: old(self)@.env.insert(name@, value@),
                ..old(self)@
            }),
            final(self).function == old(self).function,
            final(self).pc == old(self).pc,
    {
        match self.find(name) {
            Some(i) => {
                proof {
                    lemma_env_update(self.names@, self.values@, i as int, value);
                }
                self.values.set(i, value);
            },
            None => {
                proof {
                    lemma_env_push(self.names@, self.values@, *name, value);
                }
                self.names.push(name.clone());
                self.values.push(value);
            },
        }
    }

    /// Writes an integer to an operand: to a declared scalar, or to an
    /// element of a declared array. Where that cannot be done the frame
    /// stays as it is.
    pub fn write(&mut self, place: &Place, value: i32) -> (r: Result<(), Fault>)
        requires
            old(self).wf(),
        ensures
            final(self).wf(),
            final(self).function == old(self).function,
            final(self).pc == old(self).pc,
            match write(old(self)@.env, place@, value) {
                Ok(env) => r is Ok && final(self)@ == (FrameView { env, ..old(self)@ }),
                Err(fault) => r == Err::<(), Fault>(fault) && final(self)@ == old(self)@,
            },
    {
        match place {
            Place::Plain(Atom::Lit(_)) => Err(Fault::NotWritable),
            Place::Plain(Atom::Name(name)) => match self.find(name) {
                None => Err(Fault::UndeclaredName),
                Some(i) => {
                    let scalar = match &self.values[i] {
                        Value::Int(_) => true,
                        Value::Array(_) => false,
                    };
                    if scalar {
                        proof {
                            lemma_env_update(
                                self.names@,
                                self.values@,
                                i as int,
                                Value::Int(value),
                            );
                        }
                        self.values.set(i, Value::Int(value));
                        Ok(())
                    } else {
                        Err(Fault::NotAScalar)
                    }
                },
            },
            Place::Element(array, index) => match self.find(array) {
                None => Err(Fault::UndeclaredName),
                Some(i) => {
                    let size = match &self.values[i] {
                        Value::Int(_) => {
                            return Err(Fault::NotAnArray);
                        },
                        Value::Array(cells) => cells.len(),
                    };
                    match self.read_atom(index) {
                        Err(fault) => Err(fault),
                        Ok(k) => if 0 <= k && (k as usize) < size {
                            let ghost before = self.values@;
                            store(&mut self.values, i, k as usize, value);
                            proof {
                                assert(self.values@ =~= before.update(
                                    i as int,
                                    self.values@[i as int],
                                ));
                                lemma_env_update(
                                    self.names@,
                                    before,
                                    i as int,
                                    self.values@[i as int],
                                );
                            }
                            Ok(())
                        } else {
                            Err(Fault::IndexOutOfRange)
                        },
                    }
                },
            },
        }
    }
}

/// Writes an integer to an element of the array at a position.
pub fn store(values: &mut Vec<Value>, at: usize, index: usize, value: i32)
    requires
        at < old(values).len(),
        old(values)[at as int] is Array,
        index < old(values)[at as int]->Array_0.len(),
    ensures
        final(values).len() == old(values).len(),
        forall|k: int|
            0 <= k < old(values).len() && k != at ==> final(values)[k] == old(values)[k],
        final(values)[at as int]@ == ValueView::Array(
            old(values)[at as int]->Array_0@.update(index as int, value),
        ),
{
    match &mut values[at] {
        Value::Array(cells) => {
            cells.set(index, value);
        },
        Value::Int(_) => {},
    }
}

/// A frame one statement further.
pub open spec fn advanced(frame: FrameView) -> FrameView {
    FrameView { pc: frame.pc + 1, ..frame }
}

/// A frame at the line of a label of its function, or the fault for a label
/// that the function does not define.
pub open spec fn jumped(function: FunctionView, frame: FrameView, target: Seq<char>) -> (
    FrameView,
    Signal,
) {
    match lookup_label(label_table(function.body), target) {
        Some(at) => (FrameView { pc: at, ..frame }, Signal::Running),
        None => (frame, Signal::Fault(Fault::UnknownLabel)),
    }
}

/// What a statement other than a call and a return does to the frame that
/// executes it, and what it signals. A statement that faults leaves the
/// frame as it is.
#[verifier::opaque]
pub open spec fn local_step(function: FunctionView, frame: FrameView, stmt: StmtView) -> (
    FrameView,
    Signal,
) {
    let fault = |fault: Fault| (frame, Signal::Fault(fault));
    match stmt {
        StmtView::Int(name) => (
            advanced(FrameView { env: frame.env.insert(name, ValueView::Int(0)), ..frame }),
            Signal::Running,
        ),
        StmtView::Array(name, size) => (
            advanced(
                FrameView {
                    env: frame.env.insert(name, ValueView::Array(Seq::new(size, |i: int| 0i32))),
                    ..frame
                },
            ),
            Signal::Running,
        ),
        StmtView::Mov(dst, src) => match read(frame.env, src) {
            Err(f) => fault(f),
            Ok(value) => match write(frame.env, dst, value) {
                Err(f) => fault(f),
                Ok(env) => (advanced(FrameView { env, ..frame }), Signal::Running),
            },
        },
        StmtView::Binary(op, dst, a, b) => match read(frame.env, a) {
            Err(f) => fault(f),
            Ok(left) => match read(frame.env, b) {
                Err(f) => fault(f),
                Ok(right) => match apply(op, left, right) {
                    None => fault(Fault::DivisionByZero),
                    Some(value) => match write(frame.env, dst, value) {
                        Err(f) => fault(f),
                        Ok(env) => (advanced(FrameView { env, ..frame }), Signal::Running),
                    },
                },
            },
        },
        StmtView::Label(_) => (advanced(frame), Signal::Running),
        StmtView::Jmp(target) => jumped(function, frame, target),
        StmtView::BranchIf(cond, target) => match read(frame.env, cond) {
            Err(f) => fault(f),
            Ok(value) => if value != 0 {
                jumped(function, frame, target)
            } else {
                (advanced(frame), Signal::Running)
            },
        },
        StmtView::BranchIfn(cond, target) => match read(frame.env, cond) {
            Err(f) => fault(f),
            Ok(value) => if value == 0 {
                jumped(function, frame, target)
            } else {
                (advanced(frame), Signal::Running)
            },
        },
        StmtView::Out(value) => match read(frame.env, value) {
            Err(f) => fault(f),
            Ok(n) => (advanced(frame), Signal::Output(n)),
        },
        StmtView::Input(_) => (frame, Signal::NeedInput),
        StmtView::Call(_, _, _) => (frame, Signal::Running),
        StmtView::Ret(_) => (frame, Signal::Running),
    }
}

/// The call stack of a program that runs, and the status with which it
/// ended once the stack is empty.
#[derive(Debug)]
pub struct Machine {
    pub frames: Vec<Frame>,
    pub status: i32,
}

/// A machine as a mathematical value: the frames, innermost last, and the
/// status.
pub ghost struct MachineView {
    pub frames: Seq<FrameView>,
    pub status: i32,
}

impl View for Machine {
    type V = MachineView;

    open spec fn view(&self) -> MachineView {
        MachineView {
            frames: Seq::new(self.frames@.len(), |i: int| self.frames@[i]@),
            status: self.status,
        }
    }
}

/// What a call does: the arguments are read, the caller moves past the
/// call, and a frame for the function is pushed, its parameters bound to
/// the arguments.
#[verifier::opaque]
pub open spec fn call_step(
    program: ProgramView,
    machine: MachineView,
    dst: PlaceView,
    name: Seq<char>,
    args: Seq<PlaceView>,
) -> (MachineView, Signal) {
    let caller = machine.frames.last();
    match read_all(caller.env, args, args.len() as int) {
        Err(fault) => (machine, Signal::Fault(fault)),
        Ok(values) => match function_index(program.functions, name, 0) {
            None => (machine, Signal::Fault(Fault::UnknownFunction)),
            Some(at) => {
                let callee = program.functions[at];
                if callee.params.len() != values.len() {
                    (machine, Signal::Fault(Fault::WrongArgumentCount))
                } else {
                    (
                        MachineView {
                            frames: machine.frames.update(
                                machine.frames.len() - 1,
                                advanced(caller),
                            ).push(
                                FrameView {
                                    function: at,
                                    pc: 0,
                                    env: bind(callee.params, values, values.len() as int),
                                    dst: Some(dst),
                                },
                            ),
                            ..machine
                        },
                        Signal::Running,
                    )
                }
            },
        },
    }
}

/// What a return does: the value is read, the frame is popped, and the
/// value is written to the operand of the caller that takes it. The return
/// of the last frame ends the program with the value as its status.
#[verifier::opaque]
pub open spec fn ret_step(machine: MachineView, value: PlaceView) -> (MachineView, Signal) {
    let top = machine.frames.last();
    match read(top.env, value) {
        Err(fault) => (machine, Signal::Fault(fault)),
        Ok(n) => if machine.frames.len() == 1 {
            (MachineView { frames: Seq::empty(), status: n }, Signal::Halted(n))
        } else {
            let below = machine.frames.len() - 2;
            let caller = machine.frames[below];
            match top.dst {
                None => (
                    MachineView { frames: machine.frames.drop_last(), ..machine },
                    Signal::Running,
                ),
                Some(dst) => match write(caller.env, dst, n) {
                    Err(fault) => (machine, Signal::Fault(fault)),
                    Ok(env) => (
                        MachineView {
                            frames: machine.frames.drop_last().update(
                                below,
                                FrameView { env, ..caller },
                            ),
                            ..machine
                        },
                        Signal::Running,
                    ),
                },
            }
        },
    }
}

/// One step of a program: the statement at the position of the top frame is
/// executed. A machine without frames has halted and stays so. A position
/// behind the last statement ends the program with status 0 in the last
/// frame, and is a fault in any other.
pub open spec fn step(program: ProgramView, machine: MachineView) -> (MachineView, Signal) {
    if machine.frames.len() == 0 {
        (machine, Signal::Halted(machine.status))
    } else {
        let top = machine.frames.last();
        let function = program.functions[top.function];
        if top.pc >= function.body.len() {
            if machine.frames.len() == 1 {
                (MachineView { frames: Seq::empty(), status: 0 }, Signal::Halted(0))
            } else {
                (machine, Signal::Fault(Fault::MissingReturn))
            }
        } else {
            match function.body[top.pc] {
                StmtView::Call(dst, name, args) => call_step(program, machine, dst, name, args),
                StmtView::Ret(value) => ret_step(machine, value),
                stmt => {
                    let (frame, signal) = local_step(function, top, stmt);
                    (
                        MachineView {
                            frames: machine.frames.update(machine.frames.len() - 1, frame),
                            ..machine
                        },
                        signal,
                    )
                },
            }
        }
    }
}

/// What handing in an integer does: it is written to the operand of the
/// `%input` at which the program waits, and the program moves on. Where the
/// program does not wait the machine stays as it is.
pub open spec fn deliver(program: ProgramView, machine: MachineView, value: i32) -> (
    MachineView,
    Signal,
) {
    if machine.frames.len() == 0 {
        (machine, Signal::Fault(Fault::NoInputWanted))
    } else {
        let top = machine.frames.last();
        let function = program.functions[top.function];
        if top.pc >= function.body.len() {
            (machine, Signal::Fault(Fault::NoInputWanted))
        } else {
            match function.body[top.pc] {
                StmtView::Input(place) => match write(top.env, place, value) {
                    Err(fault) => (machine, Signal::Fault(fault)),
                    Ok(env) => (
                        MachineView {
                            frames: machine.frames.update(
                                machine.frames.len() - 1,
                                advanced(FrameView { env, ..top }),
                            ),
                            ..machine
                        },
                        Signal::Running,
                    ),
                },
                _ => (machine, Signal::Fault(Fault::NoInputWanted)),
            }
        }
    }
}

/// The machine at the start of a program: one frame, at the first
/// statement of `main`, which has to exist and to take no parameter.
pub open spec fn initial(program: ProgramView) -> Result<MachineView, Fault> {
    match function_index(program.functions, "main"@, 0) {
        None => Err(Fault::UnknownFunction),
        Some(at) => if program.functions[at].params.len() != 0 {
            Err(Fault::WrongArgumentCount)
        } else {
            Ok(
                MachineView {
                    frames: seq![
                        FrameView { function: at, pc: 0, env: Map::empty(), dst: None },
                    ],
                    status: 0,
                },
            )
        },
    }
}

/// Executes a statement other than a call and a return in a frame.
pub fn local(function: &Function, frame: &mut Frame, stmt: &Stmt) -> (signal: Signal)
    requires
        function.wf(),
        old(frame).wf(),
        old(frame).pc < function.body.len(),
    ensures
        final(frame).wf(),
        final(frame).function == old(frame).function,
        final(frame).pc <= function.body.len(),
        (final(frame)@, signal) == local_step(function@, old(frame)@, stmt@),
{
    let pc = frame.pc;
    proof {
        reveal(local_step);
    }
    match stmt {
        Stmt::Int(name) => {
            frame.declare(name, Value::Int(0));
            frame.pc = pc + 1;
            Signal::Running
        },
        Stmt::Array(name, size) => {
            frame.declare(name, Value::Array(zeros(*size)));
            frame.pc = pc + 1;
            Signal::Running
        },
        Stmt::Mov(dst, src) => {
            match frame.read(src) {
                Err(fault) => Signal::Fault(fault),
                Ok(value) => match frame.write(dst, value) {
                    Err(fault) => Signal::Fault(fault),
                    Ok(()) => {
                        frame.pc = pc + 1;
                        Signal::Running
                    },
                },
            }
        },
        Stmt::Binary(op, dst, a, b) => {
            match frame.read(a) {
                Err(fault) => Signal::Fault(fault),
                Ok(left) => match frame.read(b) {
                    Err(fault) => Signal::Fault(fault),
                    Ok(right) => match compute(*op, left, right) {
                        None => Signal::Fault(Fault::DivisionByZero),
                        Some(value) => match frame.write(dst, value) {
                            Err(fault) => Signal::Fault(fault),
                            Ok(()) => {
                                frame.pc = pc + 1;
                                Signal::Running
                            },
                        },
                    },
                },
            }
        },
        Stmt::Label(_) => {
            frame.pc = pc + 1;
            Signal::Running
        },
        Stmt::Jmp(target) => jump(function, frame, target),
        Stmt::BranchIf(cond, target) => {
            match frame.read(cond) {
                Err(fault) => Signal::Fault(fault),
                Ok(value) => if value != 0 {
                    jump(function, frame, target)
                } else {
                    frame.pc = pc + 1;
                    Signal::Running
                },
            }
        },
        Stmt::BranchIfn(cond, target) => {
            match frame.read(cond) {
                Err(fault) => Signal::Fault(fault),
                Ok(value) => if value == 0 {
                    jump(function, frame, target)
                } else {
                    frame.pc = pc + 1;
                    Signal::Running
                },
            }
        },
        Stmt::Out(value) => {
            match frame.read(value) {
                Err(fault) => Signal::Fault(fault),
                Ok(n) => {
                    frame.pc = pc + 1;
                    Signal::Output(n)
                },
            }
        },
        Stmt::Input(_) => Signal::NeedInput,
        Stmt::Call(_, _, _) => Signal::Running,
        Stmt::Ret(_) => Signal::Running,
    }
}

/// Moves a frame to the line of a label of its function.
pub fn jump(function: &Function, frame: &mut Frame, target: &String) -> (signal: Signal)
    requires
        function.wf(),
        old(frame).wf(),
        old(frame).pc <= function.body.len(),
    ensures
        final(frame).wf(),
        final(frame).function == old(frame).function,
        final(frame).pc <= function.body.len(),
        (final(frame)@, signal) == jumped(function@, old(frame)@, target@),
{
    match function.find_label(target) {
        Some(at) => {
            frame.pc = at;
            Signal::Running
        },
        None => Signal::Fault(Fault::UnknownLabel),
    }
}

impl Machine {
    /// Whether each frame is well formed and stands within a function of
    /// the program.
    pub open spec fn wf(&self, program: ProgramView) -> bool {
        forall|i: int|
            0 <= i < self.frames.len() ==> {
                let frame = #[trigger] self.frames[i];
                &&& frame.wf()
                &&& frame.function < program.functions.len()
                &&& frame.pc <= program.functions[frame.function as int].body.len()
            }
    }

    /// The machine at the start of a program.
    pub fn start(program: &Program) -> (r: Result<Machine, Fault>)
        ensures
            match initial(program@) {
                Ok(machine) => r is Ok && r->Ok_0@ == machine && r->Ok_0.wf(program@),
                Err(fault) => r is Err && r->Err_0 == fault,
            },
    {
        let main = String::from_str("main");
        match program.find_function(&main) {
            None => Err(Fault::UnknownFunction),
            Some(at) => {
                if program.functions[at].params.len() != 0 {
                    return Err(Fault::WrongArgumentCount);
                }
                let frame = Frame {
                    function: at,
                    pc: 0,
                    names: Vec::new(),
                    values: Vec::new(),
                    dst: None,
                };
                assert(frame@.env =~= Map::empty());
                let mut frames: Vec<Frame> = Vec::new();
                frames.push(frame);
                let machine = Machine { frames, status: 0 };
                assert(machine@.frames =~= seq![frame@]);
                Ok(machine)
            },
        }
    }

    /// Executes a call in the top frame.
    pub fn call(&mut self, program: &Program, dst: &Place, name: &String, args: &Vec<Place>) -> (signal:
        Signal)
        requires
            program.wf(),
            old(self).wf(program@),
            old(self).frames.len() > 0,
            old(self).frames[old(self).frames.len() - 1].pc < program.functions[old(
                self,
            ).frames[old(self).frames.len() - 1].function as int].body.len(),
        ensures
            final(self).wf(program@),
            (final(self)@, signal) == call_step(
                program@,
                old(self)@,
                dst@,
                name@,
                place_views(args@),
            ),
    {
        let depth = self.frames.len();
        proof {
            reveal(call_step);
        }
        let ghost env = self.frames[depth - 1]@.env;
        let ghost places = place_views(args@);
        let mut values: Vec<i32> = Vec::new();
        let mut i: usize = 0;
        while i < args.len()
            invariant
                i <= args.len(),
                depth == self.frames.len(),
                depth > 0,
                self.frames[depth - 1].wf(),
                env == self.frames[depth - 1]@.env,
                places == place_views(args@),
                *self == *old(self),
                self.wf(program@),
                read_all(env, places, i as int) == Ok::<Seq<i32>, Fault>(values@),
            decreases args.len() - i,
        {
            proof {
                reveal(call_step);
            }
            match self.frames[depth - 1].read(&args[i]) {
                Err(fault) => {
                    proof {
                        lemma_read_all_fails(env, places, i + 1, args.len() as int);
                    }
                    return Signal::Fault(fault);
                },
                Ok(value) => {
                    values.push(value);
                },
            }
            i += 1;
        }
        match program.find_function(name) {
            None => Signal::Fault(Fault::UnknownFunction),
            Some(at) => {
                let callee = &program.functions[at];
                if callee.params.len() != values.len() {
                    return Signal::Fault(Fault::WrongArgumentCount);
                }
                let mut frame = Frame {
                    function: at,
                    pc: 0,
                    names: Vec::new(),
                    values: Vec::new(),
                    dst: Some(copy_place(dst)),
                };
                assert(frame@.env =~= Map::empty());
                let ghost params = name_views(callee.params@);
                let mut k: usize = 0;
                while k < values.len()
                    invariant
                        k <= values.len(),
                        values.len() == callee.params.len(),
                        params == name_views(callee.params@),
                        frame.wf(),
                        frame.function == at,
                        frame.pc == 0,
                        frame@.dst == Some(dst@),
                        frame@.env == bind(params, values@, k as int),
                    decreases values.len() - k,
                {
                    frame.declare(&callee.params[k], Value::Int(values[k]));
                    k += 1;
                }
                let ghost before = self@;
                let caller = &mut self.frames[depth - 1];
                caller.pc = caller.pc + 1;
                self.frames.push(frame);
                proof {
                    assert(self@.frames =~= before.frames.update(
                        depth - 1,
                        advanced(before.frames[depth - 1]),
                    ).push(frame@));
                }
                Signal::Running
            },
        }
    }

    /// Executes a return in the top frame.
    pub fn ret(&mut self, program: &Program, value: &Place) -> (signal: Signal)
        requires
            old(self).wf(program@),
            old(self).frames.len() > 0,
        ensures
            final(self).wf(program@),
            (final(self)@, signal) == ret_step(old(self)@, value@),
    {
        let depth = self.frames.len();
        proof {
            reveal(ret_step);
        }
        let n = match self.frames[depth - 1].read(value) {
            Err(fault) => {
                return Signal::Fault(fault);
            },
            Ok(n) => n,
        };
        let ghost before = self@;
        let top = self.frames.pop().unwrap();
        if depth == 1 {
            self.status = n;
            assert(self@.frames =~= Seq::empty());
            return Signal::Halted(n);
        }
        match &top.dst {
            None => {
                assert(self@.frames =~= before.frames.drop_last());
                Signal::Running
            },
            Some(dst) => {
                let caller = &mut self.frames[depth - 2];
                match caller.write(dst, n) {
                    Ok(()) => {
                        proof {
                            assert(self@.frames =~= before.frames.drop_last().update(
                                depth - 2,
                                self.frames[depth - 2]@,
                            ));
                        }
                        Signal::Running
                    },
                    Err(fault) => {
                        self.frames.push(top);
                        proof {
                            assert(self@.frames =~= before.frames);
                        }
                        Signal::Fault(fault)
                    },
                }
            },
        }
    }

    /// Executes one step of the program.
    pub fn step(&mut self, program: &Program) -> (signal: Signal)
        requires
            program.wf(),
            old(self).wf(program@),
        ensures
            final(self).wf(program@),
            (final(self)@, signal) == step(program@, old(self)@),
    {
        let depth = self.frames.len();
        if depth == 0 {
            return Signal::Halted(self.status);
        }
        let function = &program.functions[self.frames[depth - 1].function];
        let pc = self.frames[depth - 1].pc;
        if pc >= function.body.len() {
            if depth == 1 {
                self.frames.pop();
                self.status = 0;
                assert(self@.frames =~= Seq::empty());
                return Signal::Halted(0);
            } else {
                return Signal::Fault(Fault::MissingReturn);
            }
        }
        let stmt = &function.body[pc];
        match stmt {
            Stmt::Call(dst, name, args) => self.call(program, dst, name, args),
            Stmt::Ret(value) => self.ret(program, value),
            _ => {
                let ghost before = self@;
                let frame = &mut self.frames[depth - 1];
                let signal = local(function, frame, stmt);
                proof {
                    assert(self@.frames =~= before.frames.update(
                        depth - 1,
                        self.frames[depth - 1]@,
                    ));
                }
                signal
            },
        }
    }

    /// Hands in the integer that the program waits for.
    pub fn deliver(&mut self, program: &Program, value: i32) -> (signal: Signal)
        requires
            old(self).wf(program@),
        ensures
            final(self).wf(program@),
            (final(self)@, signal) == deliver(program@, old(self)@, value),
    {
        let depth = self.frames.len();
        if depth == 0 {
            return Signal::Fault(Fault::NoInputWanted);
        }
        let function = &program.functions[self.frames[depth - 1].function];
        let pc = self.frames[depth - 1].pc;
        if pc >= function.body.len() {
            return Signal::Fault(Fault::NoInputWanted);
        }
        match &function.body[pc] {
            Stmt::Input(place) => {
                let ghost before = self@;
                let frame = &mut self.frames[depth - 1];
                match frame.write(place, value) {
                    Err(fault) => {
                        proof {
                            assert(self@.frames =~= before.frames);
                        }
                        Signal::Fault(fault)
                    },
                    Ok(()) => {
                        frame.pc = pc + 1;
                        proof {
                            assert(self@.frames =~= before.frames.update(
                                depth - 1,
                                self.frames[depth - 1]@,
                            ));
                        }
                        Signal::Running
                    },
                }
            },
            _ => Signal::Fault(Fault::NoInputWanted),
        }
    }
}

/// Operands of which one cannot be read cannot all be read.
pub proof fn lemma_read_all_fails(env: Env, places: Seq<PlaceView>, n: int, m: int)
    requires
        0 < n <= m,
        read_all(env, places, n - 1) is Ok,
        read(env, places[n - 1]) is Err,
    ensures
        read_all(env, places, m) == Err::<Seq<i32>, Fault>(read(env, places[n - 1])->Err_0),
    decreases m - n,
{
    if n < m {
        lemma_read_all_fails(env, places, n, m - 1);
    }
}

/// Whether a statement finds what it names: a jump its label in the body
/// of its function, a call its function in the program.
pub open spec fn finds(program: ProgramView, function: FunctionView, stmt: StmtView) -> bool {
    match stmt {
        StmtView::Jmp(target) => lookup_label(label_table(function.body), target) is Some,
        StmtView::BranchIf(_, target) => lookup_label(label_table(function.body), target) is Some,
        StmtView::BranchIfn(_, target) => lookup_label(label_table(function.body), target) is Some,
        StmtView::Call(_, name, _) => function_index(program.functions, name, 0) is Some,
        _ => true,
    }
}

/// Whether every jump of a program has its label in its own function, and
/// every call its function in the program.
pub open spec fn resolvable(program: ProgramView) -> bool {
    forall|f: int, k: int|
        0 <= f < program.functions.len() && 0 <= k < program.functions[f].body.len() ==> finds(
            program,
            program.functions[f],
            #[trigger] program.functions[f].body[k],
        )
}

/// Whether the frames of a machine stand within the functions of a
/// program.
pub open spec fn within(program: ProgramView, machine: MachineView) -> bool {
    forall|i: int|
        0 <= i < machine.frames.len() ==> 0 <= (#[trigger] machine.frames[i]).function
            < program.functions.len() && 0 <= machine.frames[i].pc
}

/// In a program whose jumps and calls find what they name, no step fails
/// for a label or a function that is not defined.
pub proof fn lemma_step_finds(program: ProgramView, machine: MachineView)
    requires
        resolvable(program),
        within(program, machine),
    ensures
        step(program, machine).1 != Signal::Fault(Fault::UnknownLabel),
        step(program, machine).1 != Signal::Fault(Fault::UnknownFunction),
{
    reveal(local_step);
    reveal(call_step);
    reveal(ret_step);
    if machine.frames.len() > 0 {
        let top = machine.frames.last();
        assert(top == machine.frames[machine.frames.len() - 1]);
        let function = program.functions[top.function];
        if top.pc < function.body.len() {
            assert(finds(program, function, function.body[top.pc]));
            match function.body[top.pc] {
                StmtView::Ret(value) => {
                    if machine.frames.len() > 1 {
                        let caller = machine.frames[machine.frames.len() - 2];
                        lemma_access_faults(top.env, caller.env, value);
                        if let Ok(n) = read(top.env, value) {
                            if let Some(dst) = top.dst {
                                lemma_write_faults(caller.env, dst, n);
                            }
                        }
                    } else {
                        lemma_access_faults(top.env, top.env, value);
                    }
                },
                StmtView::Call(dst, name, args) => {
                    lemma_read_all_faults(top.env, args, args.len() as int);
                },
                StmtView::Mov(dst, src) => {
                    lemma_access_faults(top.env, top.env, src);
                    if let Ok(n) = read(top.env, src) {
                        lemma_write_faults(top.env, dst, n);
                    }
                },
                StmtView::Binary(op, dst, a, b) => {
                    lemma_access_faults(top.env, top.env, a);
                    lemma_access_faults(top.env, top.env, b);
                    if let Ok(x) = read(top.env, a) {
                        if let Ok(y) = read(top.env, b) {
                            if let Some(n) = apply(op, x, y) {
                                lemma_write_faults(top.env, dst, n);
                            }
                        }
                    }
                },
                StmtView::BranchIf(cond, target) => {
                    lemma_access_faults(top.env, top.env, cond);
                },
                StmtView::BranchIfn(cond, target) => {
                    lemma_access_faults(top.env, top.env, cond);
                },
                StmtView::Out(value) => {
                    lemma_access_faults(top.env, top.env, value);
                },
                _ => {},
            }
        }
    }
}

/// Reading fails for a name, a kind or an index only.
pub proof fn lemma_access_faults(env: Env, other: Env, place: PlaceView)
    ensures
        read(env, place) matches Err(fault) ==> fault != Fault::UnknownLabel && fault
            != Fault::UnknownFunction,
{
}

/// Writing fails for a name, a kind, an index or a literal only.
pub proof fn lemma_write_faults(env: Env, place: PlaceView, value: i32)
    ensures
        write(env, place, value) matches Err(fault) ==> fault != Fault::UnknownLabel && fault
            != Fault::UnknownFunction,
{
}

/// Reading a list fails for a name, a kind or an index only.
pub proof fn lemma_read_all_faults(env: Env, places: Seq<PlaceView>, n: int)
    ensures
        read_all(env, places, n) matches Err(fault) ==> fault != Fault::UnknownLabel && fault
            != Fault::UnknownFunction,
    decreases n,
{
    if n > 0 {
        lemma_read_all_faults(env, places, n - 1);
        lemma_access_faults(env, env, places[n - 1]);
    }
}

/// A step leaves the frames within the functions of the program.
pub proof fn lemma_step_within(program: ProgramView, machine: MachineView)
    requires
        within(program, machine),
    ensures
        within(program, step(program, machine).0),
{
    reveal(local_step);
    reveal(call_step);
    reveal(ret_step);
    let after = step(program, machine).0;
    if machine.frames.len() > 0 {
        let top = machine.frames.last();
        assert(top == machine.frames[machine.frames.len() - 1]);
        let function = program.functions[top.function];
        if 0 <= top.pc < function.body.len() {
            match function.body[top.pc] {
                StmtView::Call(dst, name, args) => {
                    lemma_function_index(program.functions, name, 0);
                },
                StmtView::Jmp(target) => {
                    lemma_label_table(function.body);
                    lemma_lookup_label(label_table(function.body), target);
                },
                StmtView::BranchIf(_, target) => {
                    lemma_label_table(function.body);
                    lemma_lookup_label(label_table(function.body), target);
                },
                StmtView::BranchIfn(_, target) => {
                    lemma_label_table(function.body);
                    lemma_lookup_label(label_table(function.body), target);
                },
                _ => {},
            }
        }
        assert forall|i: int| 0 <= i < after.frames.len() implies 0 <= (
        #[trigger] after.frames[i]).function < program.functions.len() && 0
            <= after.frames[i].pc by {
            if i < machine.frames.len() {
                assert(0 <= machine.frames[i].function < program.functions.len());
            }
        }
    }
}

/// Handing in an integer leaves the frames within the functions of the
/// program, and fails for no label and no function.
pub proof fn lemma_deliver_within(program: ProgramView, machine: MachineView, value: i32)
    requires
        within(program, machine),
    ensures
        within(program, deliver(program, machine, value).0),
        deliver(program, machine, value).1 != Signal::Fault(Fault::UnknownLabel),
        deliver(program, machine, value).1 != Signal::Fault(Fault::UnknownFunction),
{
    let after = deliver(program, machine, value).0;
    if machine.frames.len() > 0 {
        let top = machine.frames.last();
        assert(top == machine.frames[machine.frames.len() - 1]);
        let function = program.functions[top.function];
        if 0 <= top.pc < function.body.len() {
            if let StmtView::Input(place) = function.body[top.pc] {
                lemma_write_faults(top.env, place, value);
            }
        }
        assert forall|i: int| 0 <= i < after.frames.len() implies 0 <= (
        #[trigger] after.frames[i]).function < program.functions.len() && 0
            <= after.frames[i].pc by {
            assert(0 <= machine.frames[i].function < program.functions.len());
        }
    }
}

} // verus!
