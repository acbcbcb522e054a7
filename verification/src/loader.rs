//! Reading a program from the text of its intermediate representation.

use crate::program::{
    label_table, name_views, place_views, stmt_views, table_view, Atom, AtomView, Function,
    FunctionView, Opcode, Place, PlaceView, Program, ProgramView, Stmt, StmtView,
};
use crate::text::{
    after, count_run, first, int_of, parse_int, push_chars, run_len, spells, string_of,
    to_chars, trim, trimmed, CharClass, Class,
};
use vstd::prelude::*;
use vstd::slice::*;
use vstd::string::*;

verus! {

/// The pieces of a text between the occurrences of a separator.
pub open spec fn split(s: Seq<char>, sep: char) -> Seq<Seq<char>>
    decreases s.len(),
{
    let n = run_len(s, CharClass::Not(sep)) as int;
    if 0 <= n < s.len() {
        seq![s.take(n)] + split(s.skip(n + 1), sep)
    } else {
        seq![s]
    }
}

/// The contents of a list of pieces of text.
pub open spec fn piece_views(pieces: Seq<&[char]>) -> Seq<Seq<char>> {
    Seq::new(pieces.len(), |i: int| pieces[i]@)
}

/// Cuts a text at each occurrence of a separator.
pub fn split_at(code: &[char], sep: char) -> (pieces: Vec<&[char]>)
    ensures
        piece_views(pieces@) == split(code@, sep),
{
    let mut pieces: Vec<&[char]> = Vec::new();
    let mut rest = code;
    assert(piece_views(pieces@) =~= Seq::empty());
    loop
        invariant_except_break
            piece_views(pieces@) + split(rest@, sep) == split(code@, sep),
        ensures
            piece_views(pieces@) == split(code@, sep),
        decreases rest@.len(),
    {
        let n = count_run(rest, Class::Not(sep));
        let ghost done = piece_views(pieces@);
        if n < rest.len() {
            pieces.push(first(rest, n));
            assert(piece_views(pieces@) =~= done.push(rest@.take(n as int)));
            assert(done + (seq![rest@.take(n as int)] + split(rest@.skip(n as int + 1), sep))
                =~= done.push(rest@.take(n as int)) + split(rest@.skip(n as int + 1), sep));
            rest = after(rest, n + 1);
        } else {
            pieces.push(rest);
            assert(piece_views(pieces@) =~= done + seq![rest@]);
            break ;
        }
    }
    pieces
}

/// The atom that a text denotes: the integer that it spells, or else the
/// variable of that name.
pub open spec fn atom_of(s: Seq<char>) -> Option<AtomView> {
    if s.len() == 0 {
        None
    } else {
        match int_of(s) {
            Some(n) => Some(AtomView::Lit(n)),
            None => Some(AtomView::Name(s)),
        }
    }
}

/// The operand that a text denotes: `[a + i]` is an element of the array
/// `a`, anything else an atom.
pub open spec fn place_of(s: Seq<char>) -> Option<PlaceView> {
    if s.len() >= 2 && s[0] == '[' && s.last() == ']' {
        let inner = s.subrange(1, s.len() - 1);
        let n = run_len(inner, CharClass::Not('+')) as int;
        let array = trimmed(inner.take(n));
        if n < inner.len() && array.len() > 0 {
            match atom_of(trimmed(inner.skip(n + 1))) {
                Some(index) => Some(PlaceView::Element(array, index)),
                None => None,
            }
        } else {
            None
        }
    } else {
        match atom_of(s) {
            Some(atom) => Some(PlaceView::Plain(atom)),
            None => None,
        }
    }
}

/// The operands that the first `n` of a list of texts denote, if each
/// denotes one.
pub open spec fn places_of(fields: Seq<Seq<char>>, n: int) -> Option<Seq<PlaceView>>
    decreases n,
{
    if n <= 0 {
        Some(Seq::empty())
    } else {
        match places_of(fields, n - 1) {
            None => None,
            Some(places) => match place_of(trimmed(fields[n - 1])) {
                None => None,
                Some(place) => Some(places.push(place)),
            },
        }
    }
}

/// The operation that an opcode names.
pub open spec fn opcode_of(word: Seq<char>) -> Option<Opcode> {
    if word == "%add"@ {
        Some(Opcode::Add)
    } else if word == "%sub"@ {
        Some(Opcode::Sub)
    } else if word == "%mult"@ {
        Some(Opcode::Mult)
    } else if word == "%div"@ {
        Some(Opcode::Div)
    } else if word == "%mod"@ {
        Some(Opcode::Mod)
    } else if word == "%eq"@ {
        Some(Opcode::Eq)
    } else if word == "%neq"@ {
        Some(Opcode::Neq)
    } else if word == "%lt"@ {
        Some(Opcode::Lt)
    } else if word == "%le"@ {
        Some(Opcode::Le)
    } else if word == "%gt"@ {
        Some(Opcode::Gt)
    } else if word == "%ge"@ {
        Some(Opcode::Ge)
    } else {
        None
    }
}

/// The text between the first `(` of a text and the `)` that ends it.
pub open spec fn in_parentheses(s: Seq<char>) -> Option<Seq<char>> {
    let n = run_len(s, CharClass::Not('(')) as int;
    if n < s.len() - 1 && s.last() == ')' {
        Some(s.subrange(n + 1, s.len() - 1))
    } else {
        None
    }
}

/// The text before the first `(` of a text.
pub open spec fn before_parenthesis(s: Seq<char>) -> Seq<char> {
    trimmed(s.take(run_len(s, CharClass::Not('(')) as int))
}

/// The items of a list in parentheses: none where the list is blank.
pub open spec fn items(inner: Seq<char>) -> Seq<Seq<char>> {
    if trimmed(inner).len() == 0 {
        Seq::empty()
    } else {
        split(inner, ',')
    }
}

/// The call that the operands of `%call` denote: `dst, f(a, b)`.
pub open spec fn call_of(rest: Seq<char>) -> Option<StmtView> {
    let n = run_len(rest, CharClass::Not(',')) as int;
    if n < rest.len() {
        let target = trimmed(rest.skip(n + 1));
        match (place_of(trimmed(rest.take(n))), in_parentheses(target)) {
            (Some(dst), Some(inner)) => {
                let name = before_parenthesis(target);
                let fields = items(inner);
                match places_of(fields, fields.len() as int) {
                    Some(args) => if name.len() > 0 {
                        Some(StmtView::Call(dst, name, args))
                    } else {
                        None
                    },
                    None => None,
                }
            },
            _ => None,
        }
    } else {
        None
    }
}

/// The statement that an opcode and its operands denote.
pub open spec fn statement_of(word: Seq<char>, rest: Seq<char>) -> Option<StmtView> {
    let fields = split(rest, ',');
    let places = places_of(fields, fields.len() as int);
    if word == "%int"@ {
        if rest.len() > 0 {
            Some(StmtView::Int(rest))
        } else {
            None
        }
    } else if word == "%int[]"@ {
        if fields.len() == 2 && trimmed(fields[0]).len() > 0 {
            match int_of(trimmed(fields[1])) {
                Some(size) => if size > 0 {
                    Some(StmtView::Array(trimmed(fields[0]), size as nat))
                } else {
                    None
                },
                None => None,
            }
        } else {
            None
        }
    } else if word == "%mov"@ {
        match places {
            Some(p) => if p.len() == 2 {
                Some(StmtView::Mov(p[0], p[1]))
            } else {
                None
            },
            None => None,
        }
    } else if word == "%jmp"@ {
        if rest.len() > 0 {
            Some(StmtView::Jmp(rest))
        } else {
            None
        }
    } else if word == "%branch_if"@ || word == "%branch_ifn"@ {
        if fields.len() == 2 && trimmed(fields[1]).len() > 0 {
            match place_of(trimmed(fields[0])) {
                Some(cond) => if word == "%branch_if"@ {
                    Some(StmtView::BranchIf(cond, trimmed(fields[1])))
                } else {
                    Some(StmtView::BranchIfn(cond, trimmed(fields[1])))
                },
                None => None,
            }
        } else {
            None
        }
    } else if word == "%call"@ {
        call_of(rest)
    } else if word == "%ret"@ || word == "%out"@ || word == "%input"@ {
        match place_of(rest) {
            Some(value) => if word == "%ret"@ {
                Some(StmtView::Ret(value))
            } else if word == "%out"@ {
                Some(StmtView::Out(value))
            } else {
                Some(StmtView::Input(value))
            },
            None => None,
        }
    } else {
        match (opcode_of(word), places) {
            (Some(op), Some(p)) => if p.len() == 3 {
                Some(StmtView::Binary(op, p[0], p[1], p[2]))
            } else {
                None
            },
            _ => None,
        }
    }
}

/// The name of the parameter that a declaration in a header names:
/// `%int p`.
pub open spec fn param_of(field: Seq<char>) -> Option<Seq<char>> {
    let text = trimmed(field);
    let n = run_len(text, CharClass::Not(' '));
    let name = trimmed(text.skip(n as int));
    if text.take(n as int) == "%int"@ && name.len() > 0 {
        Some(name)
    } else {
        None
    }
}

/// The names of the parameters that the first `n` of a list of
/// declarations name, if each names one.
pub open spec fn params_of(fields: Seq<Seq<char>>, n: int) -> Option<Seq<Seq<char>>>
    decreases n,
{
    if n <= 0 {
        Some(Seq::empty())
    } else {
        match params_of(fields, n - 1) {
            None => None,
            Some(params) => match param_of(fields[n - 1]) {
                None => None,
                Some(param) => Some(params.push(param)),
            },
        }
    }
}

/// What a line of the text is.
pub ghost enum LineView {
    /// Nothing but spaces.
    Blank,
    /// The header of a function: its name and its parameters.
    Func(Seq<char>, Seq<Seq<char>>),
    /// The end of a function.
    EndFunc,
    /// A statement.
    Stmt(StmtView),
}

/// The function that the operands of `%func` denote: `f (%int p, %int q)`.
pub open spec fn header_of(rest: Seq<char>) -> Option<LineView> {
    match in_parentheses(rest) {
        Some(inner) => {
            let name = before_parenthesis(rest);
            let fields = items(inner);
            match params_of(fields, fields.len() as int) {
                Some(params) => if name.len() > 0 {
                    Some(LineView::Func(name, params))
                } else {
                    None
                },
                None => None,
            }
        },
        None => None,
    }
}

/// What a line is, or nothing for a line that is malformed: a label starts
/// with `:`, anything else with an opcode that spaces part from its
/// operands.
pub open spec fn line_of(line: Seq<char>) -> Option<LineView> {
    let text = trimmed(line);
    let n = run_len(text, CharClass::Not(' '));
    let word = text.take(n as int);
    let rest = trimmed(text.skip(n as int));
    if text.len() == 0 {
        Some(LineView::Blank)
    } else if text[0] == ':' {
        Some(LineView::Stmt(StmtView::Label(text)))
    } else if word == "%endfunc"@ {
        if rest.len() == 0 {
            Some(LineView::EndFunc)
        } else {
            None
        }
    } else if word == "%func"@ {
        header_of(rest)
    } else {
        match statement_of(word, rest) {
            Some(stmt) => Some(LineView::Stmt(stmt)),
            None => None,
        }
    }
}

/// Reads an atom.
pub fn parse_atom(text: &[char]) -> (r: Option<Atom>)
    ensures
        match atom_of(text@) {
            Some(atom) => r is Some && r->0@ == atom,
            None => r is None,
        },
{
    if text.len() == 0 {
        return None;
    }
    match parse_int(text) {
        Some(n) => Some(Atom::Lit(n)),
        None => Some(Atom::Name(string_of(text))),
    }
}

/// Reads an operand.
pub fn parse_place(text: &[char]) -> (r: Option<Place>)
    ensures
        match place_of(text@) {
            Some(place) => r is Some && r->0@ == place,
            None => r is None,
        },
{
    if text.len() >= 2 && text[0] == '[' && text[text.len() - 1] == ']' {
        let inner = slice_subrange(text, 1, text.len() - 1);
        let n = count_run(inner, Class::Not('+'));
        let array = trim(first(inner, n));
        if n < inner.len() && array.len() > 0 {
            match parse_atom(trim(after(inner, n + 1))) {
                Some(index) => Some(Place::Element(string_of(array), index)),
                None => None,
            }
        } else {
            None
        }
    } else {
        match parse_atom(text) {
            Some(atom) => Some(Place::Plain(atom)),
            None => None,
        }
    }
}

/// Reads a list of operands.
pub fn parse_places(fields: &Vec<&[char]>) -> (r: Option<Vec<Place>>)
    ensures
        match places_of(piece_views(fields@), fields.len() as int) {
            Some(places) => r is Some && place_views(r->0@) == places,
            None => r is None,
        },
{
    let ghost texts = piece_views(fields@);
    let mut places: Vec<Place> = Vec::new();
    let mut i: usize = 0;
    assert(place_views(places@) =~= Seq::empty());
    while i < fields.len()
        invariant
            i <= fields.len(),
            texts == piece_views(fields@),
            places_of(texts, i as int) == Some(place_views(places@)),
        decreases fields.len() - i,
    {
        let ghost done = place_views(places@);
        match parse_place(trim(fields[i])) {
            None => {
                proof {
                    lemma_places_fail(texts, i + 1, fields.len() as int);
                }
                return None;
            },
            Some(place) => {
                places.push(place);
                assert(place_views(places@) =~= done.push(place@));
            },
        }
        i += 1;
    }
    Some(places)
}

proof fn lemma_places_fail(fields: Seq<Seq<char>>, n: int, m: int)
    requires
        0 < n <= m,
        places_of(fields, n) is None,
    ensures
        places_of(fields, m) is None,
    decreases m - n,
{
    if n < m {
        lemma_places_fail(fields, n, m - 1);
    }
}

proof fn lemma_params_fail(fields: Seq<Seq<char>>, n: int, m: int)
    requires
        0 < n <= m,
        params_of(fields, n) is None,
    ensures
        params_of(fields, m) is None,
    decreases m - n,
{
    if n < m {
        lemma_params_fail(fields, n, m - 1);
    }
}

/// Reads the name of an operation.
pub fn parse_opcode(word: &[char]) -> (r: Option<Opcode>)
    ensures
        r == opcode_of(word@),
{
    if spells(word, "%add") {
        Some(Opcode::Add)
    } else if spells(word, "%sub") {
        Some(Opcode::Sub)
    } else if spells(word, "%mult") {
        Some(Opcode::Mult)
    } else if spells(word, "%div") {
        Some(Opcode::Div)
    } else if spells(word, "%mod") {
        Some(Opcode::Mod)
    } else if spells(word, "%eq") {
        Some(Opcode::Eq)
    } else if spells(word, "%neq") {
        Some(Opcode::Neq)
    } else if spells(word, "%lt") {
        Some(Opcode::Lt)
    } else if spells(word, "%le") {
        Some(Opcode::Le)
    } else if spells(word, "%gt") {
        Some(Opcode::Gt)
    } else if spells(word, "%ge") {
        Some(Opcode::Ge)
    } else {
        None
    }
}

/// The text between the first `(` of a text and the `)` that ends it.
pub fn inside_parentheses(text: &[char]) -> (r: Option<&[char]>)
    ensures
        match in_parentheses(text@) {
            Some(inner) => r is Some && r->0@ == inner,
            None => r is None,
        },
{
    let n = count_run(text, Class::Not('('));
    if text.len() >= 1 && n < text.len() - 1 && text[text.len() - 1] == ')' {
        Some(slice_subrange(text, n + 1, text.len() - 1))
    } else {
        None
    }
}

/// The items of a list in parentheses.
pub fn list_items(inner: &[char]) -> (r: Vec<&[char]>)
    ensures
        piece_views(r@) == items(inner@),
{
    if trim(inner).len() == 0 {
        let none: Vec<&[char]> = Vec::new();
        assert(piece_views(none@) =~= Seq::empty());
        none
    } else {
        split_at(inner, ',')
    }
}

/// Reads the operands of `%call`.
pub fn parse_call(rest: &[char]) -> (r: Option<Stmt>)
    ensures
        match call_of(rest@) {
            Some(stmt) => r is Some && r->0@ == stmt,
            None => r is None,
        },
{
    let n = count_run(rest, Class::Not(','));
    if n < rest.len() {
        let target = trim(after(rest, n + 1));
        let dst = parse_place(trim(first(rest, n)));
        let inner = inside_parentheses(target);
        match (dst, inner) {
            (Some(dst), Some(inner)) => {
                let name = trim(first(target, count_run(target, Class::Not('('))));
                let fields = list_items(inner);
                match parse_places(&fields) {
                    Some(args) => if name.len() > 0 {
                        Some(Stmt::Call(dst, string_of(name), args))
                    } else {
                        None
                    },
                    None => None,
                }
            },
            _ => None,
        }
    } else {
        None
    }
}

/// Reads the statement of an opcode and its operands.
pub fn parse_operation(word: &[char], rest: &[char]) -> (r: Option<Stmt>)
    ensures
        match statement_of(word@, rest@) {
            Some(stmt) => r is Some && r->0@ == stmt,
            None => r is None,
        },
{
    let fields = split_at(rest, ',');
    if spells(word, "%int") {
        if rest.len() > 0 {
            Some(Stmt::Int(string_of(rest)))
        } else {
            None
        }
    } else if spells(word, "%int[]") {
        if fields.len() == 2 && trim(fields[0]).len() > 0 {
            match parse_int(trim(fields[1])) {
                Some(size) => if size > 0 {
                    Some(Stmt::Array(string_of(trim(fields[0])), size as usize))
                } else {
                    None
                },
                None => None,
            }
        } else {
            None
        }
    } else if spells(word, "%mov") {
        match parse_places(&fields) {
            Some(mut p) => if p.len() == 2 {
                let src = p.pop().unwrap();
                let dst = p.pop().unwrap();
                Some(Stmt::Mov(dst, src))
            } else {
                None
            },
            None => None,
        }
    } else if spells(word, "%jmp") {
        if rest.len() > 0 {
            Some(Stmt::Jmp(string_of(rest)))
        } else {
            None
        }
    } else if spells(word, "%branch_if") || spells(word, "%branch_ifn") {
        if fields.len() == 2 && trim(fields[1]).len() > 0 {
            match parse_place(trim(fields[0])) {
                Some(cond) => if spells(word, "%branch_if") {
                    Some(Stmt::BranchIf(cond, string_of(trim(fields[1]))))
                } else {
                    Some(Stmt::BranchIfn(cond, string_of(trim(fields[1]))))
                },
                None => None,
            }
        } else {
            None
        }
    } else if spells(word, "%call") {
        parse_call(rest)
    } else if spells(word, "%ret") || spells(word, "%out") || spells(word, "%input") {
        match parse_place(rest) {
            Some(value) => if spells(word, "%ret") {
                Some(Stmt::Ret(value))
            } else if spells(word, "%out") {
                Some(Stmt::Out(value))
            } else {
                Some(Stmt::Input(value))
            },
            None => None,
        }
    } else {
        match (parse_opcode(word), parse_places(&fields)) {
            (Some(op), Some(mut p)) => if p.len() == 3 {
                let b = p.pop().unwrap();
                let a = p.pop().unwrap();
                let dst = p.pop().unwrap();
                Some(Stmt::Binary(op, dst, a, b))
            } else {
                None
            },
            _ => None,
        }
    }
}

/// What a line of the text is.
#[derive(Debug)]
pub enum Line {
    Blank,
    Func(String, Vec<String>),
    EndFunc,
    Stmt(Stmt),
}

impl View for Line {
    type V = LineView;

    open spec fn view(&self) -> LineView {
        match self {
            Line::Blank => LineView::Blank,
            Line::Func(name, params) => LineView::Func(name@, name_views(params@)),
            Line::EndFunc => LineView::EndFunc,
            Line::Stmt(stmt) => LineView::Stmt(stmt@),
        }
    }
}

/// Reads the name of a parameter from its declaration in a header.
pub fn parse_param(field: &[char]) -> (r: Option<String>)
    ensures
        match param_of(field@) {
            Some(name) => r is Some && r->0@ == name,
            None => r is None,
        },
{
    let text = trim(field);
    let n = count_run(text, Class::Not(' '));
    let name = trim(after(text, n));
    if spells(first(text, n), "%int") && name.len() > 0 {
        Some(string_of(name))
    } else {
        None
    }
}

/// Reads the operands of `%func`.
pub fn parse_header(rest: &[char]) -> (r: Option<Line>)
    ensures
        match header_of(rest@) {
            Some(line) => r is Some && r->0@ == line,
            None => r is None,
        },
{
    match inside_parentheses(rest) {
        Some(inner) => {
            let name = trim(first(rest, count_run(rest, Class::Not('('))));
            let fields = list_items(inner);
            let ghost texts = piece_views(fields@);
            let mut params: Vec<String> = Vec::new();
            let mut i: usize = 0;
            assert(name_views(params@) =~= Seq::empty());
            while i < fields.len()
                invariant
                    i <= fields.len(),
                    texts == piece_views(fields@),
                    texts == items(inner@),
                    in_parentheses(rest@) == Some(inner@),
                    params_of(texts, i as int) == Some(name_views(params@)),
                decreases fields.len() - i,
            {
                let ghost done = name_views(params@);
                match parse_param(fields[i]) {
                    None => {
                        proof {
                            lemma_params_fail(texts, i + 1, fields.len() as int);
                        }
                        return None;
                    },
                    Some(param) => {
                        params.push(param);
                        assert(name_views(params@) =~= done.push(param@));
                    },
                }
                i += 1;
            }
            if name.len() > 0 {
                Some(Line::Func(string_of(name), params))
            } else {
                None
            }
        },
        None => None,
    }
}

/// Reads a line of the text.
pub fn parse_line(line: &[char]) -> (r: Option<Line>)
    ensures
        match line_of(line@) {
            Some(found) => r is Some && r->0@ == found,
            None => r is None,
        },
{
    let text = trim(line);
    let n = count_run(text, Class::Not(' '));
    let word = first(text, n);
    let rest = trim(after(text, n));
    if text.len() == 0 {
        Some(Line::Blank)
    } else if text[0] == ':' {
        Some(Line::Stmt(Stmt::Label(string_of(text))))
    } else if spells(word, "%endfunc") {
        if rest.len() == 0 {
            Some(Line::EndFunc)
        } else {
            None
        }
    } else if spells(word, "%func") {
        parse_header(rest)
    } else {
        match parse_operation(word, rest) {
            Some(stmt) => Some(Line::Stmt(stmt)),
            None => None,
        }
    }
}

/// The message for a line that is malformed.
pub open spec fn malformed(line: Seq<char>) -> Seq<char> {
    "Malformed instruction: "@ + trimmed(line)
}

/// The message for a line that stands where it cannot: a statement or an
/// end outside a function, a header inside one.
pub open spec fn misplaced(line: Seq<char>) -> Seq<char> {
    "Misplaced instruction: "@ + trimmed(line)
}

/// The functions that the lines from `at` on define, after the functions
/// that the lines before them have defined and the function, if any, whose
/// header stands among those lines and whose end does not.
pub open spec fn assemble(
    lines: Seq<Seq<char>>,
    at: int,
    functions: Seq<FunctionView>,
    current: Option<FunctionView>,
) -> Result<Seq<FunctionView>, Seq<char>>
    decreases lines.len() - at,
{
    if at < 0 || at >= lines.len() {
        match current {
            None => Ok(functions),
            Some(_) => Err("Function without %endfunc"@),
        }
    } else {
        match (line_of(lines[at]), current) {
            (None, _) => Err(malformed(lines[at])),
            (Some(LineView::Blank), _) => assemble(lines, at + 1, functions, current),
            (Some(LineView::Func(name, params)), None) => assemble(
                lines,
                at + 1,
                functions,
                Some(FunctionView { name, params, body: Seq::empty() }),
            ),
            (Some(LineView::EndFunc), Some(function)) => assemble(
                lines,
                at + 1,
                functions.push(function),
                None,
            ),
            (Some(LineView::Stmt(stmt)), Some(function)) => assemble(
                lines,
                at + 1,
                functions,
                Some(FunctionView { body: function.body.push(stmt), ..function }),
            ),
            _ => Err(misplaced(lines[at])),
        }
    }
}

/// The program that a text of intermediate representation denotes: its
/// lines are statements, grouped into functions by `%func` and `%endfunc`;
/// blank lines count for nothing.
pub open spec fn program_of(text: Seq<char>) -> Result<ProgramView, Seq<char>> {
    match assemble(split(text, '\n'), 0, Seq::empty(), None) {
        Ok(functions) => Ok(ProgramView { functions }),
        Err(message) => Err(message),
    }
}

/// The table of the labels of a body.
pub fn build_labels(body: &Vec<Stmt>) -> (labels: Vec<(String, usize)>)
    ensures
        table_view(labels@) == label_table(stmt_views(body@)),
{
    let ghost views = stmt_views(body@);
    let mut labels: Vec<(String, usize)> = Vec::new();
    let mut k: usize = 0;
    assert(table_view(labels@) =~= label_table(views.take(0)));
    while k < body.len()
        invariant
            k <= body.len(),
            views == stmt_views(body@),
            table_view(labels@) == label_table(views.take(k as int)),
        decreases body.len() - k,
    {
        let ghost before = table_view(labels@);
        proof {
            assert(views.take(k + 1).drop_last() =~= views.take(k as int));
            assert(views.take(k + 1).last() == body[k as int]@);
        }
        match &body[k] {
            Stmt::Label(name) => {
                labels.push((name.clone(), k));
                assert(table_view(labels@) =~= before.push((name@, k as int)));
            },
            _ => {},
        }
        k += 1;
    }
    assert(views.take(k as int) =~= views);
    labels
}

/// A message made of a fixed text and a line without the spaces around it.
pub fn complaint(about: &str, line: &[char]) -> (message: String)
    ensures
        message@ == about@ + trimmed(line@),
{
    let mut message = String::from_str(about);
    push_chars(&mut message, trim(line));
    message
}

/// The function that is being read, if one is.
pub open spec fn open_function(
    open: bool,
    name: String,
    params: Vec<String>,
    body: Vec<Stmt>,
) -> Option<FunctionView> {
    if open {
        Some(FunctionView { name: name@, params: name_views(params@), body: stmt_views(body@) })
    } else {
        None
    }
}

/// Reads a program from its text: one statement a line, the statements of
/// each function between `%func` and `%endfunc`. A line that is malformed
/// or stands where it cannot ends the reading with a message that holds the
/// line.
pub fn load(ir: &str) -> (r: Result<Program, String>)
    ensures
        match program_of(ir@) {
            Ok(program) => r is Ok && r->Ok_0@ == program && r->Ok_0.wf(),
            Err(message) => r is Err && r->Err_0@ == message,
        },
{
    let chars = to_chars(ir);
    let lines = split_at(chars.as_slice(), '\n');
    let ghost texts = piece_views(lines@);
    let mut program = Program { functions: Vec::new() };
    let mut open = false;
    let mut name = String::new();
    let mut params: Vec<String> = Vec::new();
    let mut body: Vec<Stmt> = Vec::new();
    let mut at: usize = 0;
    assert(program@.functions =~= Seq::empty());
    while at < lines.len()
        invariant
            at <= lines.len(),
            texts == piece_views(lines@),
            texts == split(ir@, '\n'),
            program.wf(),
            assemble(texts, 0, Seq::empty(), None) == assemble(
                texts,
                at as int,
                program@.functions,
                open_function(open, name, params, body),
            ),
        decreases lines.len() - at,
    {
        let ghost functions = program@.functions;
        let ghost statements = stmt_views(body@);
        match parse_line(lines[at]) {
            None => {
                return Err(complaint("Malformed instruction: ", lines[at]));
            },
            Some(Line::Blank) => {},
            Some(Line::Func(found, declared)) => {
                if open {
                    return Err(complaint("Misplaced instruction: ", lines[at]));
                }
                open = true;
                name = found;
                params = declared;
                body = Vec::new();
                assert(stmt_views(body@) =~= Seq::empty());
            },
            Some(Line::EndFunc) => {
                if !open {
                    return Err(complaint("Misplaced instruction: ", lines[at]));
                }
                let labels = build_labels(&body);
                let function = Function { name, params, body, labels };
                program.functions.push(function);
                assert(program@.functions =~= functions.push(function@));
                open = false;
                name = String::new();
                params = Vec::new();
                body = Vec::new();
            },
            Some(Line::Stmt(stmt)) => {
                if !open {
                    return Err(complaint("Misplaced instruction: ", lines[at]));
                }
                body.push(stmt);
                assert(stmt_views(body@) =~= statements.push(stmt@));
            },
        }
        at += 1;
    }
    if open {
        return Err(String::from_str("Function without %endfunc"));
    }
    Ok(program)
}

} // verus!
