//! A program as the machine executes it: functions of statements.

use vstd::prelude::*;
use vstd::string::*;

verus! {

/// An operand that stands for one integer: a literal or a variable.
#[derive(Debug)]
pub enum Atom {
    Lit(i32),
    Name(String),
}

/// An atom as a mathematical value.
pub ghost enum AtomView {
    Lit(i32),
    Name(Seq<char>),
}

impl View for Atom {
    type V = AtomView;

    open spec fn view(&self) -> AtomView {
        match self {
            Atom::Lit(n) => AtomView::Lit(*n),
            Atom::Name(name) => AtomView::Name(name@),
        }
    }
}

/// An operand: an atom, or the element of an array at an index.
#[derive(Debug)]
pub enum Place {
    Plain(Atom),
    Element(String, Atom),
}

/// An operand as a mathematical value.
pub ghost enum PlaceView {
    Plain(AtomView),
    Element(Seq<char>, AtomView),
}

impl View for Place {
    type V = PlaceView;

    open spec fn view(&self) -> PlaceView {
        match self {
            Place::Plain(atom) => PlaceView::Plain(atom@),
            Place::Element(array, index) => PlaceView::Element(array@, index@),
        }
    }
}

/// The operations with two operands and a result.
#[derive(Debug, Clone, Copy, PartialEq, Eq, Structural)]
pub enum Opcode {
    Add,
    Sub,
    Mult,
    Div,
    Mod,
    Eq,
    Neq,
    Lt,
    Le,
    Gt,
    Ge,
}

/// One statement of a function's body.
#[derive(Debug)]
pub enum Stmt {
    /// `%int x`
    Int(String),
    /// `%int[] a, N`
    Array(String, usize),
    /// `%mov dst, src`
    Mov(Place, Place),
    /// `%add dst, a, b` and the like
    Binary(Opcode, Place, Place, Place),
    /// `:name`
    Label(String),
    /// `%jmp :name`
    Jmp(String),
    /// `%branch_if v, :name`
    BranchIf(Place, String),
    /// `%branch_ifn v, :name`
    BranchIfn(Place, String),
    /// `%call dst, f(a, b)`
    Call(Place, String, Vec<Place>),
    /// `%ret v`
    Ret(Place),
    /// `%out v`
    Out(Place),
    /// `%input v`
    Input(Place),
}

/// A statement as a mathematical value.
pub ghost enum StmtView {
    Int(Seq<char>),
    Array(Seq<char>, nat),
    Mov(PlaceView, PlaceView),
    Binary(Opcode, PlaceView, PlaceView, PlaceView),
    Label(Seq<char>),
    Jmp(Seq<char>),
    BranchIf(PlaceView, Seq<char>),
    BranchIfn(PlaceView, Seq<char>),
    Call(PlaceView, Seq<char>, Seq<PlaceView>),
    Ret(PlaceView),
    Out(PlaceView),
    Input(PlaceView),
}

/// The values of a list of operands, position by position.
pub open spec fn place_views(places: Seq<Place>) -> Seq<PlaceView> {
    Seq::new(places.len(), |i: int| places[i]@)
}

/// The values of a list of names, position by position.
pub open spec fn name_views(names: Seq<String>) -> Seq<Seq<char>> {
    Seq::new(names.len(), |i: int| names[i]@)
}

impl View for Stmt {
    type V = StmtView;

    open spec fn view(&self) -> StmtView {
        match self {
            Stmt::Int(name) => StmtView::Int(name@),
            Stmt::Array(name, size) => StmtView::Array(name@, *size as nat),
            Stmt::Mov(dst, src) => StmtView::Mov(dst@, src@),
            Stmt::Binary(op, dst, a, b) => StmtView::Binary(*op, dst@, a@, b@),
            Stmt::Label(name) => StmtView::Label(name@),
            Stmt::Jmp(target) => StmtView::Jmp(target@),
            Stmt::BranchIf(cond, target) => StmtView::BranchIf(cond@, target@),
            Stmt::BranchIfn(cond, target) => StmtView::BranchIfn(cond@, target@),
            Stmt::Call(dst, func, args) => StmtView::Call(dst@, func@, place_views(args@)),
            Stmt::Ret(value) => StmtView::Ret(value@),
            Stmt::Out(value) => StmtView::Out(value@),
            Stmt::Input(value) => StmtView::Input(value@),
        }
    }
}

/// The values of a list of statements, position by position.
pub open spec fn stmt_views(body: Seq<Stmt>) -> Seq<StmtView> {
    Seq::new(body.len(), |i: int| body[i]@)
}

/// The labels of a body with the positions of their lines, in order.
pub open spec fn label_table(body: Seq<StmtView>) -> Seq<(Seq<char>, int)>
    decreases body.len(),
{
    if body.len() == 0 {
        Seq::empty()
    } else {
        let before = label_table(body.drop_last());
        match body.last() {
            StmtView::Label(name) => before.push((name, body.len() - 1)),
            _ => before,
        }
    }
}

/// The position that a table gives for a label: that of its first entry
/// for it.
pub open spec fn lookup_label(table: Seq<(Seq<char>, int)>, name: Seq<char>) -> Option<int>
    decreases table.len(),
{
    if table.len() == 0 {
        None
    } else if table[0].0 == name {
        Some(table[0].1)
    } else {
        lookup_label(table.skip(1), name)
    }
}

/// Every entry of the label table of a body points at a line of the body.
pub proof fn lemma_label_table(body: Seq<StmtView>)
    ensures
        forall|i: int|
            0 <= i < label_table(body).len() ==> 0 <= (#[trigger] label_table(body)[i]).1
                < body.len(),
    decreases body.len(),
{
    if body.len() > 0 {
        lemma_label_table(body.drop_last());
        let before = label_table(body.drop_last());
        assert forall|i: int| 0 <= i < label_table(body).len() implies 0 <= (#[trigger] label_table(
            body,
        )[i]).1 < body.len() by {
            if i < before.len() {
                assert(label_table(body)[i] == before[i]);
            }
        }
    }
}

/// The position that a table gives is the position of one of its entries.
pub proof fn lemma_lookup_label(table: Seq<(Seq<char>, int)>, name: Seq<char>)
    ensures
        lookup_label(table, name) matches Some(at) ==> exists|i: int|
            0 <= i < table.len() && #[trigger] table[i] == (name, at),
    decreases table.len(),
{
    if table.len() > 0 {
        if table[0].0 == name {
            assert(table[0] == (name, table[0].1));
        } else {
            lemma_lookup_label(table.skip(1), name);
            if let Some(at) = lookup_label(table.skip(1), name) {
                let i = choose|i: int|
                    0 <= i < table.skip(1).len() && #[trigger] table.skip(1)[i] == (name, at);
                assert(table[i + 1] == (name, at));
            }
        }
    }
}

/// The label of a line of a body is in the label table of the body.
pub proof fn lemma_label_table_holds(body: Seq<StmtView>, at: int, name: Seq<char>)
    requires
        0 <= at < body.len(),
        body[at] == StmtView::Label(name),
    ensures
        exists|i: int| 0 <= i < label_table(body).len() && (#[trigger] label_table(body)[i]).0 == name,
    decreases body.len(),
{
    let before = label_table(body.drop_last());
    if at == body.len() - 1 {
        let i = before.len() as int;
        assert(label_table(body)[i].0 == name);
    } else {
        assert(body.drop_last()[at] == body[at]);
        lemma_label_table_holds(body.drop_last(), at, name);
        let i = choose|i: int| 0 <= i < before.len() && (#[trigger] before[i]).0 == name;
        assert(label_table(body)[i] == before[i]);
    }
}

/// A table gives a position for each label that it holds.
pub proof fn lemma_lookup_finds(table: Seq<(Seq<char>, int)>, name: Seq<char>)
    requires
        exists|i: int| 0 <= i < table.len() && (#[trigger] table[i]).0 == name,
    ensures
        lookup_label(table, name) is Some,
    decreases table.len(),
{
    if table.len() > 0 && table[0].0 != name {
        let i = choose|i: int| 0 <= i < table.len() && (#[trigger] table[i]).0 == name;
        assert(table.skip(1)[i - 1] == table[i]);
        lemma_lookup_finds(table.skip(1), name);
    }
}

/// A function: its name, the names of its parameters, its statements, and
/// the table of its labels.
#[derive(Debug)]
pub struct Function {
    pub name: String,
    pub params: Vec<String>,
    pub body: Vec<Stmt>,
    pub labels: Vec<(String, usize)>,
}

/// A function as a mathematical value: its name, its parameters and its
/// statements. The table of its labels follows from the statements.
pub ghost struct FunctionView {
    pub name: Seq<char>,
    pub params: Seq<Seq<char>>,
    pub body: Seq<StmtView>,
}

impl View for Function {
    type V = FunctionView;

    open spec fn view(&self) -> FunctionView {
        FunctionView {
            name: self.name@,
            params: name_views(self.params@),
            body: stmt_views(self.body@),
        }
    }
}

/// The contents of a table of labels.
pub open spec fn table_view(table: Seq<(String, usize)>) -> Seq<(Seq<char>, int)> {
    Seq::new(table.len(), |i: int| (table[i].0@, table[i].1 as int))
}

impl Function {
    /// Whether the table of labels is that of the body.
    pub open spec fn wf(&self) -> bool {
        table_view(self.labels@) == label_table(self@.body)
    }

    /// The position of the line of a label, if the body has one.
    pub fn find_label(&self, name: &String) -> (r: Option<usize>)
        requires
            self.wf(),
        ensures
            match lookup_label(label_table(self@.body), name@) {
                Some(at) => 0 <= at < self.body.len() && r == Some(at as usize),
                None => r is None,
            },
    {
        let ghost table = table_view(self.labels@);
        proof {
            lemma_label_table(self@.body);
            lemma_lookup_label(table, name@);
        }
        let mut i: usize = 0;
        assert(table.skip(0) =~= table);
        while i < self.labels.len()
            invariant
                i <= self.labels.len(),
                table == table_view(self.labels@),
                table == label_table(self@.body),
                forall|k: int| 0 <= k < table.len() ==> 0 <= (#[trigger] table[k]).1 < self.body.len(),
                lookup_label(table, name@) == lookup_label(table.skip(i as int), name@),
            decreases self.labels.len() - i,
        {
            assert(table.skip(i as int)[0] == table[i as int]);
            if self.labels[i].0 == *name {
                return Some(self.labels[i].1);
            }
            assert(table.skip(i as int).skip(1) =~= table.skip(i + 1));
            i += 1;
        }
        None
    }
}

/// A program: its functions in the order of their definitions.
#[derive(Debug)]
pub struct Program {
    pub functions: Vec<Function>,
}

/// A program as a mathematical value: its functions, in order.
pub ghost struct ProgramView {
    pub functions: Seq<FunctionView>,
}

impl View for Program {
    type V = ProgramView;

    open spec fn view(&self) -> ProgramView {
        ProgramView { functions: Seq::new(self.functions@.len(), |i: int| self.functions@[i]@) }
    }
}

/// The position of the first function of a name, from `from` on.
pub open spec fn function_index(functions: Seq<FunctionView>, name: Seq<char>, from: int) -> Option<
    int,
>
    decreases functions.len() - from,
{
    if from < 0 || from >= functions.len() {
        None
    } else if functions[from].name == name {
        Some(from)
    } else {
        function_index(functions, name, from + 1)
    }
}

/// A function of a name is found if there is one from `from` on.
pub proof fn lemma_function_found(functions: Seq<FunctionView>, name: Seq<char>, from: int, at: int)
    requires
        0 <= from <= at < functions.len(),
        functions[at].name == name,
    ensures
        function_index(functions, name, from) is Some,
    decreases at - from,
{
    if functions[from].name != name {
        lemma_function_found(functions, name, from + 1, at);
    }
}

/// What is found is a position of the list.
pub proof fn lemma_function_index(functions: Seq<FunctionView>, name: Seq<char>, from: int)
    ensures
        function_index(functions, name, from) matches Some(at) ==> 0 <= at < functions.len(),
    decreases functions.len() - from,
{
    if 0 <= from < functions.len() && functions[from].name != name {
        lemma_function_index(functions, name, from + 1);
    }
}

impl Program {
    /// Whether each function's table of labels is that of its body.
    pub open spec fn wf(&self) -> bool {
        forall|i: int| 0 <= i < self.functions.len() ==> (#[trigger] self.functions[i]).wf()
    }

    /// The position of the first function of a name.
    pub fn find_function(&self, name: &String) -> (r: Option<usize>)
        ensures
            match function_index(self@.functions, name@, 0) {
                Some(at) => 0 <= at < self.functions.len() && r == Some(at as usize),
                None => r is None,
            },
    {
        let mut i: usize = 0;
        while i < self.functions.len()
            invariant
                i <= self.functions.len(),
                function_index(self@.functions, name@, 0) == function_index(
                    self@.functions,
                    name@,
                    i as int,
                ),
            decreases self.functions.len() - i,
        {
            if self.functions[i].name == *name {
                return Some(i);
            }
            i += 1;
        }
        None
    }
}

/// A copy of an atom.
pub fn copy_atom(atom: &Atom) -> (r: Atom)
    ensures
        r@ == atom@,
{
    match atom {
        Atom::Lit(n) => Atom::Lit(*n),
        Atom::Name(name) => Atom::Name(name.clone()),
    }
}

/// A copy of an operand.
pub fn copy_place(place: &Place) -> (r: Place)
    ensures
        r@ == place@,
{
    match place {
        Place::Plain(atom) => Place::Plain(copy_atom(atom)),
        Place::Element(array, index) => Place::Element(array.clone(), copy_atom(index)),
    }
}

} // verus!
