//! What the parser writes, the loader reads: the text of an instruction is
//! read back as the instruction, and the text of a compiled program as a
//! program in which every jump and every call finds what it names.

use crate::format::{
    lacks, lemma_list_lacks, lemma_list_pieces, lemma_run_all, lemma_run_stops,
    lemma_split_first, lemma_split_one, lemma_trimmed_empty, lemma_trimmed_tight, listable,
    tight,
};
use crate::grammar::{
    block, condition_in, declaration, expect, function, function_code, functions_from,
    if_statement, parameters, program, statement, statements, token_at, while_statement,
    Counters, ParseState, Scope,
};
use crate::ir::{
    comma_list, declared, indexed, loop_begin, loop_end, opcode, render, render_instr,
    render_operand, render_operands, temp_name, BinaryOp, Instr, Operand,
};
use crate::kinds::{function_typed, lemma_unit_typed, typed};
use crate::laws::{lemma_block, lemma_parameters};
use crate::loader::{
    assemble, atom_of, before_parenthesis, call_of, header_of, in_parentheses, items, line_of,
    misplaced, opcode_of, param_of, params_of, place_of, places_of, program_of, split,
    statement_of, LineView,
};
use crate::machine::{finds, resolvable};
use crate::program::{
    function_index, label_table, lemma_function_found, lemma_label_table_holds,
    lemma_lookup_finds, lookup_label, AtomView, FunctionView, Opcode, PlaceView, ProgramView,
    StmtView,
};
use crate::scanner::{lemma_lex_names, spec_lex};
use crate::sound::{
    closed, count, counted, counter_of, declared_arrays, fresh_label, instr_ok, label_text,
    lemma_count_contains, operand_ok, LabelKind,
};
use crate::text::{
    decimal, decimal_nat, int_of, is_digit, is_name, is_name_char, lemma_decimal_value,
    lemma_int_of_decimal, lemma_run_len, run_len, trimmed, CharClass,
};
use crate::token::{identifiers_are_names, TokenView};
use vstd::prelude::*;

verus! {

/// Whether a text is made of the characters of names, colons and minus
/// signs: what an operand that is no array element is made of.
pub open spec fn solid(s: Seq<char>) -> bool {
    s.len() > 0 && forall|i: int|
        0 <= i < s.len() ==> is_name_char(#[trigger] s[i]) || s[i] == ':' || s[i] == '-'
}

/// Whether a text can stand for a name: it is solid, without a minus sign,
/// and does not start with a digit, so that it is no number.
pub open spec fn is_word(s: Seq<char>) -> bool {
    &&& s.len() > 0
    &&& !is_digit(s[0])
    &&& forall|i: int| 0 <= i < s.len() ==> is_name_char(#[trigger] s[i]) || s[i] == ':'
}

/// A solid text has no space around it and none of the characters that
/// part the operands of a line.
pub proof fn lemma_solid(s: Seq<char>)
    requires
        solid(s),
    ensures
        tight(s),
        lacks(s, ','),
        lacks(s, ' '),
        lacks(s, '\n'),
        lacks(s, '('),
        lacks(s, ')'),
        lacks(s, '+'),
        s[0] != '[',
        s[0] != '%',
{
    assert(is_name_char(s[0]) || s[0] == ':' || s[0] == '-');
    assert(is_name_char(s.last()) || s.last() == ':' || s.last() == '-');
}

/// A word is solid and denotes the variable of its name.
pub proof fn lemma_word(s: Seq<char>)
    requires
        is_word(s),
    ensures
        solid(s),
        atom_of(s) == Some(AtomView::Name(s)),
        place_of(s) == Some(PlaceView::Plain(AtomView::Name(s))),
{
    assert(is_name_char(s[0]) || s[0] == ':');
    lemma_run_len(s, CharClass::Digit, 0);
    assert(int_of(s) is None);
    lemma_solid(s);
}

/// The decimal notation of a number that fits in 32 bits is solid and
/// denotes the number.
pub proof fn lemma_numeral(n: i32)
    ensures
        solid(decimal(n as int)),
        atom_of(decimal(n as int)) == Some(AtomView::Lit(n)),
        place_of(decimal(n as int)) == Some(PlaceView::Plain(AtomView::Lit(n))),
{
    let m: nat = if n < 0 {
        (-(n as int)) as nat
    } else {
        n as nat
    };
    lemma_decimal_value(m);
    lemma_int_of_decimal(n);
    let s = decimal(n as int);
    assert forall|i: int| 0 <= i < s.len() implies is_name_char(#[trigger] s[i]) || s[i] == ':'
        || s[i] == '-' by {
        if n < 0 {
            if i > 0 {
                assert(s[i] == decimal_nat(m)[i - 1]);
            }
        }
    }
    lemma_solid(s);
}

/// The names of the temporaries are words.
pub proof fn lemma_temp_is_word(n: nat)
    ensures
        is_word(temp_name(n)),
{
    reveal_strlit("_temp");
    lemma_decimal_value(n);
    let s = temp_name(n);
    assert forall|i: int| 0 <= i < s.len() implies is_name_char(#[trigger] s[i]) || s[i] == ':' by {
        if i >= 5 {
            assert(s[i] == decimal_nat(n)[i - 5]);
        }
    }
    assert(s[0] == '_');
}

/// Whether an operand can be written and read back: a number that fits in
/// 32 bits, a variable whose name is a word, or a temporary.
pub open spec fn valid_operand(operand: Operand) -> bool {
    match operand {
        Operand::Lit(n) => i32::MIN <= n <= i32::MAX,
        Operand::Var(name) => is_word(name),
        Operand::Temp(_) => true,
    }
}

/// The atom that an operand is read back as.
pub open spec fn lower_operand(operand: Operand) -> AtomView {
    match operand {
        Operand::Lit(n) => AtomView::Lit(n as i32),
        Operand::Var(name) => AtomView::Name(name),
        Operand::Temp(n) => AtomView::Name(temp_name(n)),
    }
}

/// The text of an operand is solid and is read back as the operand.
pub proof fn lemma_operand(operand: Operand)
    requires
        valid_operand(operand),
    ensures
        solid(render_operand(operand)),
        atom_of(render_operand(operand)) == Some(lower_operand(operand)),
        place_of(render_operand(operand)) == Some(PlaceView::Plain(lower_operand(operand))),
        operand !is Lit ==> is_word(render_operand(operand)),
{
    match operand {
        Operand::Lit(n) => {
            lemma_numeral(n as i32);
        },
        Operand::Var(name) => {
            lemma_word(name);
        },
        Operand::Temp(n) => {
            lemma_temp_is_word(n);
            lemma_word(temp_name(n));
        },
    }
}

/// The text between the brackets of an array element: the array, a plus
/// sign between spaces, and the index.
pub open spec fn index_inner(array: Seq<char>, text: Seq<char>) -> Seq<char> {
    array + seq![' ', '+', ' '] + text
}

/// What reading takes the text between the brackets apart into: the array
/// and the index.
pub proof fn lemma_index_inner(array: Seq<char>, text: Seq<char>)
    requires
        solid(array),
        solid(text),
    ensures
        ({
            let inner = index_inner(array, text);
            let n = run_len(inner, CharClass::Not('+')) as int;
            &&& n < inner.len()
            &&& trimmed(inner.take(n)) == array
            &&& trimmed(inner.skip(n + 1)) == text
            &&& lacks(inner, ',')
            &&& lacks(inner, '\n')
        }),
{
    let inner = index_inner(array, text);
    lemma_solid(array);
    lemma_solid(text);
    let left = array + seq![' '];
    let right = seq![' '] + text;
    assert(inner =~= left + seq!['+'] + right);
    assert forall|i: int| 0 <= i < left.len() implies left[i] != '+' by {
        if i < array.len() {
            assert(left[i] == array[i]);
        }
    }
    lemma_run_stops(left, '+', right);
    lemma_trimmed_after(array);
    lemma_trimmed_tight(text);
    assert forall|i: int| 0 <= i < inner.len() implies inner[i] != ',' && inner[i] != '\n' by {
        if i < array.len() {
            assert(inner[i] == array[i]);
        } else if i >= array.len() + 3 {
            assert(inner[i] == text[i - array.len() - 3]);
        }
    }
}

/// The text of an array element has no space around it and no comma, and
/// is read back as the element.
pub proof fn lemma_indexed(array: Seq<char>, index: Operand)
    requires
        is_word(array),
        valid_operand(index),
    ensures
        tight(indexed(array, render_operand(index))),
        lacks(indexed(array, render_operand(index)), ','),
        lacks(indexed(array, render_operand(index)), '\n'),
        place_of(indexed(array, render_operand(index))) == Some(
            PlaceView::Element(array, lower_operand(index)),
        ),
{
    reveal_strlit("[");
    reveal_strlit(" + ");
    reveal_strlit("]");
    let text = render_operand(index);
    let s = indexed(array, text);
    let inner = index_inner(array, text);
    lemma_word(array);
    lemma_operand(index);
    lemma_index_inner(array, text);
    assert(" + "@ =~= seq![' ', '+', ' ']);
    assert(s =~= seq!['['] + inner + seq![']']);
    assert(s.subrange(1, s.len() - 1) =~= inner);
    assert(s[0] == '[');
    assert(s.last() == ']');
    assert forall|i: int| 0 <= i < s.len() implies s[i] != ',' && s[i] != '\n' by {
        if 0 < i < s.len() - 1 {
            assert(s[i] == inner[i - 1]);
        }
    }
}

/// The words that start the lines of the statements.
pub open spec fn opwords() -> Seq<Seq<char>> {
    seq![
        "%int"@,
        "%int[]"@,
        "%mov"@,
        "%jmp"@,
        "%branch_if"@,
        "%branch_ifn"@,
        "%call"@,
        "%ret"@,
        "%out"@,
        "%input"@,
        "%add"@,
        "%sub"@,
        "%mult"@,
        "%div"@,
        "%mod"@,
        "%eq"@,
        "%neq"@,
        "%lt"@,
        "%le"@,
        "%gt"@,
        "%ge"@,
        "%func"@,
        "%endfunc"@,
    ]
}

/// The words that start the lines are different from each other; each
/// starts with `%` and holds no space and no line feed.
pub proof fn lemma_opwords()
    ensures
        forall|i: int, j: int|
            0 <= i < 23 && 0 <= j < 23 && i != j ==> #[trigger] opwords()[i]
                != #[trigger] opwords()[j],
        forall|i: int|
            0 <= i < 23 ==> {
                let w = #[trigger] opwords()[i];
                w.len() >= 3 && w[0] == '%' && lacks(w, ' ') && lacks(w, '\n') && lacks(w, '(')
            },
{
    reveal_strlit("%int");
    reveal_strlit("%int[]");
    reveal_strlit("%mov");
    reveal_strlit("%jmp");
    reveal_strlit("%branch_if");
    reveal_strlit("%branch_ifn");
    reveal_strlit("%call");
    reveal_strlit("%ret");
    reveal_strlit("%out");
    reveal_strlit("%input");
    reveal_strlit("%add");
    reveal_strlit("%sub");
    reveal_strlit("%mult");
    reveal_strlit("%div");
    reveal_strlit("%mod");
    reveal_strlit("%eq");
    reveal_strlit("%neq");
    reveal_strlit("%lt");
    reveal_strlit("%le");
    reveal_strlit("%gt");
    reveal_strlit("%ge");
    reveal_strlit("%func");
    reveal_strlit("%endfunc");
    let w = opwords();
    assert(w[0][1] == 'i' && w[0].len() == 4);
    assert(w[1][1] == 'i' && w[1].len() == 6);
    assert(w[2][1] == 'm' && w[2][3] == 'v' && w[2].len() == 4);
    assert(w[3][1] == 'j' && w[3].len() == 4);
    assert(w[4][1] == 'b' && w[4].len() == 10);
    assert(w[5][1] == 'b' && w[5].len() == 11);
    assert(w[6][1] == 'c' && w[6].len() == 5);
    assert(w[7][1] == 'r' && w[7].len() == 4);
    assert(w[8][1] == 'o' && w[8].len() == 4);
    assert(w[9][1] == 'i' && w[9].len() == 6 && w[9][4] == 'u');
    assert(w[10][1] == 'a' && w[10].len() == 4);
    assert(w[11][1] == 's' && w[11].len() == 4);
    assert(w[12][1] == 'm' && w[12].len() == 5);
    assert(w[13][1] == 'd' && w[13].len() == 4);
    assert(w[14][1] == 'm' && w[14][3] == 'd' && w[14].len() == 4);
    assert(w[15][1] == 'e' && w[15].len() == 3);
    assert(w[16][1] == 'n' && w[16].len() == 4);
    assert(w[17][1] == 'l' && w[17][2] == 't' && w[17].len() == 3);
    assert(w[18][1] == 'l' && w[18][2] == 'e' && w[18].len() == 3);
    assert(w[19][1] == 'g' && w[19][2] == 't' && w[19].len() == 3);
    assert(w[20][1] == 'g' && w[20][2] == 'e' && w[20].len() == 3);
    assert(w[21][1] == 'f' && w[21].len() == 5);
    assert(w[22][1] == 'e' && w[22].len() == 8);
    assert(w[1][4] == '[');
}

/// A line made of a word, a space and a list of operands.
pub open spec fn sentence(word: Seq<char>, operands: Seq<Seq<char>>) -> Seq<char> {
    word + seq![' '] + comma_list(operands)
}

/// What reading takes a sentence apart into: the word, and the operands.
pub proof fn lemma_sentence(word: Seq<char>, operands: Seq<Seq<char>>)
    requires
        word.len() > 0,
        word[0] == '%',
        lacks(word, ' '),
        operands.len() >= 1,
        listable(operands),
    ensures
        ({
            let text = sentence(word, operands);
            let n = run_len(text, CharClass::Not(' ')) as int;
            let list = comma_list(operands);
            &&& trimmed(text) == text
            &&& text.len() > 0
            &&& text[0] == '%'
            &&& text.take(n) == word
            &&& trimmed(text.skip(n)) == list
            &&& list.len() > 0
            &&& split(list, ',').len() == operands.len()
            &&& forall|i: int|
                0 <= i < operands.len() ==> trimmed(#[trigger] split(list, ',')[i]) == operands[i]
        }),
{
    let list = comma_list(operands);
    let text = sentence(word, operands);
    lemma_list_pieces(operands);
    assert(text[0] == word[0]);
    assert(text.last() == list.last());
    lemma_trimmed_tight(text);
    lemma_run_stops(word, ' ', list);
    assert(text.skip(word.len() as int) =~= seq![' '] + list);
    lemma_trimmed_tight(list);
}

/// The operation that reading gives for an operation of the code.
pub open spec fn lower_op(op: BinaryOp) -> Opcode {
    match op {
        BinaryOp::Add => Opcode::Add,
        BinaryOp::Sub => Opcode::Sub,
        BinaryOp::Mult => Opcode::Mult,
        BinaryOp::Div => Opcode::Div,
        BinaryOp::Mod => Opcode::Mod,
        BinaryOp::Eq => Opcode::Eq,
        BinaryOp::Neq => Opcode::Neq,
        BinaryOp::Lt => Opcode::Lt,
        BinaryOp::Le => Opcode::Le,
        BinaryOp::Gt => Opcode::Gt,
        BinaryOp::Ge => Opcode::Ge,
    }
}

/// The operand that reading gives for an operand of the code.
pub open spec fn lower_plain(operand: Operand) -> PlaceView {
    PlaceView::Plain(lower_operand(operand))
}

/// The operands that reading gives for the arguments of a call.
pub open spec fn lower_args(args: Seq<Operand>) -> Seq<PlaceView> {
    Seq::new(args.len(), |i: int| lower_plain(args[i]))
}

/// The line that reading gives for an instruction of the code.
pub open spec fn lower_line(instr: Instr) -> LineView {
    match instr {
        Instr::Func { name, params } => LineView::Func(name, params),
        Instr::EndFunc => LineView::EndFunc,
        Instr::Int { var } => LineView::Stmt(StmtView::Int(render_operand(var))),
        Instr::Array { name, size } => LineView::Stmt(StmtView::Array(name, size as nat)),
        Instr::Mov { dst, src } => LineView::Stmt(StmtView::Mov(lower_plain(dst), lower_plain(src))),
        Instr::Store { array, index, src } => LineView::Stmt(
            StmtView::Mov(PlaceView::Element(array, lower_operand(index)), lower_plain(src)),
        ),
        Instr::Load { dst, array, index } => LineView::Stmt(
            StmtView::Mov(lower_plain(dst), PlaceView::Element(array, lower_operand(index))),
        ),
        Instr::Binary { op, dst, left, right } => LineView::Stmt(
            StmtView::Binary(lower_op(op), lower_plain(dst), lower_plain(left), lower_plain(right)),
        ),
        Instr::Label { name } => LineView::Stmt(StmtView::Label(name)),
        Instr::Jmp { target } => LineView::Stmt(StmtView::Jmp(target)),
        Instr::BranchIf { cond, target } => LineView::Stmt(
            StmtView::BranchIf(lower_plain(cond), target),
        ),
        Instr::BranchIfn { cond, target } => LineView::Stmt(
            StmtView::BranchIfn(lower_plain(cond), target),
        ),
        Instr::Call { dst, func, args } => LineView::Stmt(
            StmtView::Call(lower_plain(dst), func, lower_args(args)),
        ),
        Instr::Ret { value } => LineView::Stmt(StmtView::Ret(lower_plain(value))),
        Instr::Out { value } => LineView::Stmt(StmtView::Out(lower_plain(value))),
        Instr::Input { value } => LineView::Stmt(StmtView::Input(lower_plain(value))),
    }
}

/// Whether a list of names holds words only.
pub open spec fn all_words(names: Seq<Seq<char>>) -> bool {
    forall|i: int| 0 <= i < names.len() ==> is_word(#[trigger] names[i])
}

/// Whether a list of names holds names only, as the scanner finds them.
pub open spec fn all_names(names: Seq<Seq<char>>) -> bool {
    forall|i: int| 0 <= i < names.len() ==> is_name(#[trigger] names[i])
}

/// Whether a list of operands holds valid ones only.
pub open spec fn all_valid(operands: Seq<Operand>) -> bool {
    forall|i: int| 0 <= i < operands.len() ==> valid_operand(#[trigger] operands[i])
}

/// Whether an instruction can be written and read back: its names are
/// words, its numbers fit in 32 bits, a label starts with a colon, and the
/// size of an array is positive.
pub open spec fn valid_instr(instr: Instr) -> bool {
    match instr {
        Instr::Func { name, params } => is_word(name) && all_words(params),
        Instr::EndFunc => true,
        Instr::Int { var } => valid_operand(var) && !(var is Lit),
        Instr::Array { name, size } => is_word(name) && 0 < size <= i32::MAX,
        Instr::Mov { dst, src } => valid_operand(dst) && valid_operand(src),
        Instr::Store { array, index, src } => is_word(array) && valid_operand(index)
            && valid_operand(src),
        Instr::Load { dst, array, index } => is_word(array) && valid_operand(index)
            && valid_operand(dst),
        Instr::Binary { op, dst, left, right } => valid_operand(dst) && valid_operand(left)
            && valid_operand(right),
        Instr::Label { name } => is_word(name) && name[0] == ':',
        Instr::Jmp { target } => is_word(target),
        Instr::BranchIf { cond, target } => valid_operand(cond) && is_word(target),
        Instr::BranchIfn { cond, target } => valid_operand(cond) && is_word(target),
        Instr::Call { dst, func, args } => valid_operand(dst) && is_word(func) && all_valid(args),
        Instr::Ret { value } => valid_operand(value),
        Instr::Out { value } => valid_operand(value),
        Instr::Input { value } => valid_operand(value),
    }
}

/// The line of an instruction, without the line feed that ends it.
pub open spec fn bare(instr: Instr) -> Seq<char> {
    match instr {
        Instr::Func { name, params } => "%func"@ + seq![' '] + name + seq![' ', '('] + comma_list(
            declared(params),
        ) + seq![')'],
        Instr::EndFunc => "%endfunc"@,
        Instr::Int { var } => sentence("%int"@, seq![render_operand(var)]),
        Instr::Array { name, size } => sentence("%int[]"@, seq![name, decimal(size)]),
        Instr::Mov { dst, src } => sentence("%mov"@, seq![render_operand(dst), render_operand(src)]),
        Instr::Store { array, index, src } => sentence(
            "%mov"@,
            seq![indexed(array, render_operand(index)), render_operand(src)],
        ),
        Instr::Load { dst, array, index } => sentence(
            "%mov"@,
            seq![render_operand(dst), indexed(array, render_operand(index))],
        ),
        Instr::Binary { op, dst, left, right } => sentence(
            opcode(op),
            seq![render_operand(dst), render_operand(left), render_operand(right)],
        ),
        Instr::Label { name } => name,
        Instr::Jmp { target } => sentence("%jmp"@, seq![target]),
        Instr::BranchIf { cond, target } => sentence(
            "%branch_if"@,
            seq![render_operand(cond), target],
        ),
        Instr::BranchIfn { cond, target } => sentence(
            "%branch_ifn"@,
            seq![render_operand(cond), target],
        ),
        Instr::Call { dst, func, args } => "%call"@ + seq![' '] + (render_operand(dst) + seq![
            ',',
            ' ',
        ] + func + seq!['('] + comma_list(render_operands(args)) + seq![')']),
        Instr::Ret { value } => sentence("%ret"@, seq![render_operand(value)]),
        Instr::Out { value } => sentence("%out"@, seq![render_operand(value)]),
        Instr::Input { value } => sentence("%input"@, seq![render_operand(value)]),
    }
}

/// The line feeds that end the line of an instruction: two after the end
/// of a function, one after anything else.
pub open spec fn ending(instr: Instr) -> Seq<char> {
    if instr is EndFunc {
        seq!['\n', '\n']
    } else {
        seq!['\n']
    }
}

/// The lists of one, two and three items.
pub proof fn lemma_short_lists(a: Seq<char>, b: Seq<char>, c: Seq<char>)
    ensures
        comma_list(seq![a]) == a,
        comma_list(seq![a, b]) == a + seq![',', ' '] + b,
        comma_list(seq![a, b, c]) == a + seq![',', ' '] + b + seq![',', ' '] + c,
{
    reveal_strlit(", ");
    assert(", "@ =~= seq![',', ' ']);
    assert(seq![a, b].drop_last() =~= seq![a]);
    assert(seq![a, b, c].drop_last() =~= seq![a, b]);
    assert(comma_list(seq![a, b]) == comma_list(seq![a]) + ", "@ + b);
    assert(comma_list(seq![a, b, c]) == comma_list(seq![a, b]) + ", "@ + c);
}

/// The text of an instruction is its line and the line feeds that end it.
pub proof fn lemma_bare(instr: Instr)
    ensures
        render_instr(instr) == bare(instr) + ending(instr),
{
    reveal_strlit(" ");
    reveal_strlit(", ");
    reveal_strlit("\n");
    reveal_strlit(")\n");
    reveal_strlit("(");
    reveal_strlit(" (");
    reveal_strlit("%func ");
    reveal_strlit("%func");
    reveal_strlit("%call ");
    reveal_strlit("%call");
    reveal_strlit("%endfunc\n\n");
    reveal_strlit("%endfunc");
    assert(" "@ =~= seq![' ']);
    assert(", "@ =~= seq![',', ' ']);
    assert("\n"@ =~= seq!['\n']);
    match instr {
        Instr::Func { name, params } => {
            assert(render_instr(instr) =~= bare(instr) + ending(instr));
        },
        Instr::EndFunc => {
            assert(render_instr(instr) =~= bare(instr) + ending(instr));
        },
        Instr::Int { var } => {
            lemma_short_lists(render_operand(var), Seq::empty(), Seq::empty());
            assert(render_instr(instr) =~= bare(instr) + ending(instr));
        },
        Instr::Array { name, size } => {
            lemma_short_lists(name, decimal(size), Seq::empty());
            assert(render_instr(instr) =~= bare(instr) + ending(instr));
        },
        Instr::Mov { dst, src } => {
            lemma_short_lists(render_operand(dst), render_operand(src), Seq::empty());
            assert(render_instr(instr) =~= bare(instr) + ending(instr));
        },
        Instr::Store { array, index, src } => {
            lemma_short_lists(
                indexed(array, render_operand(index)),
                render_operand(src),
                Seq::empty(),
            );
            assert(render_instr(instr) =~= bare(instr) + ending(instr));
        },
        Instr::Load { dst, array, index } => {
            lemma_short_lists(
                render_operand(dst),
                indexed(array, render_operand(index)),
                Seq::empty(),
            );
            assert(render_instr(instr) =~= bare(instr) + ending(instr));
        },
        Instr::Binary { op, dst, left, right } => {
            lemma_short_lists(render_operand(dst), render_operand(left), render_operand(right));
            assert(render_instr(instr) =~= bare(instr) + ending(instr));
        },
        Instr::Label { name } => {},
        Instr::Jmp { target } => {
            lemma_short_lists(target, Seq::empty(), Seq::empty());
            assert(render_instr(instr) =~= bare(instr) + ending(instr));
        },
        Instr::BranchIf { cond, target } => {
            lemma_short_lists(render_operand(cond), target, Seq::empty());
            assert(render_instr(instr) =~= bare(instr) + ending(instr));
        },
        Instr::BranchIfn { cond, target } => {
            lemma_short_lists(render_operand(cond), target, Seq::empty());
            assert(render_instr(instr) =~= bare(instr) + ending(instr));
        },
        Instr::Call { dst, func, args } => {
            assert(render_instr(instr) =~= bare(instr) + ending(instr));
        },
        Instr::Ret { value } => {
            lemma_short_lists(render_operand(value), Seq::empty(), Seq::empty());
            assert(render_instr(instr) =~= bare(instr) + ending(instr));
        },
        Instr::Out { value } => {
            lemma_short_lists(render_operand(value), Seq::empty(), Seq::empty());
            assert(render_instr(instr) =~= bare(instr) + ending(instr));
        },
        Instr::Input { value } => {
            lemma_short_lists(render_operand(value), Seq::empty(), Seq::empty());
            assert(render_instr(instr) =~= bare(instr) + ending(instr));
        },
    }
}

/// The operands that a list of texts denotes, if each text denotes one.
pub proof fn lemma_places(fields: Seq<Seq<char>>, places: Seq<PlaceView>, n: int)
    requires
        0 <= n <= fields.len(),
        n <= places.len(),
        forall|i: int| 0 <= i < n ==> place_of(trimmed(#[trigger] fields[i])) == Some(places[i]),
    ensures
        places_of(fields, n) == Some(places.take(n)),
    decreases n,
{
    if n > 0 {
        lemma_places(fields, places, n - 1);
        assert(places.take(n) =~= places.take(n - 1).push(places[n - 1]));
    } else {
        assert(places.take(0) =~= Seq::empty());
    }
}

/// What reading makes of the line of a statement whose word and operands
/// denote one.
pub proof fn lemma_regular_line(k: int, operands: Seq<Seq<char>>, expected: StmtView)
    requires
        0 <= k < 21,
        operands.len() >= 1,
        listable(operands),
        forall|i: int| 0 <= i < operands.len() ==> lacks(#[trigger] operands[i], '\n'),
        statement_of(opwords()[k], comma_list(operands)) == Some(expected),
    ensures
        line_of(sentence(opwords()[k], operands)) == Some(LineView::Stmt(expected)),
        lacks(sentence(opwords()[k], operands), '\n'),
{
    let word = opwords()[k];
    let list = comma_list(operands);
    let text = sentence(word, operands);
    lemma_opwords();
    lemma_sentence(word, operands);
    assert(opwords()[21] == "%func"@);
    assert(opwords()[22] == "%endfunc"@);
    lemma_list_lacks(operands, '\n');
    assert forall|i: int| 0 <= i < text.len() implies text[i] != '\n' by {
        if i < word.len() {
            assert(text[i] == word[i]);
        } else if i > word.len() {
            assert(text[i] == list[i - word.len() - 1]);
        }
    }
}

/// The statements of one operand that is read as a text: `%int`, `%jmp`.
pub proof fn lemma_statement_text(k: int, text: Seq<char>)
    requires
        k == 0 || k == 3,
        text.len() > 0,
    ensures
        statement_of(opwords()[k], text) == Some(
            if k == 0 {
                StmtView::Int(text)
            } else {
                StmtView::Jmp(text)
            },
        ),
{
    lemma_opwords();
    assert(opwords()[0] == "%int"@);
    assert(opwords()[1] == "%int[]"@);
    assert(opwords()[2] == "%mov"@);
    assert(opwords()[3] == "%jmp"@);
}

/// The statements of one operand that is read as an operand: `%ret`,
/// `%out`, `%input`.
pub proof fn lemma_statement_value(k: int, text: Seq<char>, place: PlaceView)
    requires
        7 <= k <= 9,
        place_of(text) == Some(place),
    ensures
        statement_of(opwords()[k], text) == Some(
            if k == 7 {
                StmtView::Ret(place)
            } else if k == 8 {
                StmtView::Out(place)
            } else {
                StmtView::Input(place)
            },
        ),
{
    lemma_opwords();
    assert(opwords()[0] == "%int"@);
    assert(opwords()[1] == "%int[]"@);
    assert(opwords()[2] == "%mov"@);
    assert(opwords()[3] == "%jmp"@);
    assert(opwords()[4] == "%branch_if"@);
    assert(opwords()[5] == "%branch_ifn"@);
    assert(opwords()[6] == "%call"@);
    assert(opwords()[7] == "%ret"@);
    assert(opwords()[8] == "%out"@);
    assert(opwords()[9] == "%input"@);
}

/// The statements of two operands: `%mov`, `%int[]`, `%branch_if`,
/// `%branch_ifn`.
pub proof fn lemma_statement_pair(k: int, a: Seq<char>, b: Seq<char>)
    requires
        k == 1 || k == 2 || k == 4 || k == 5,
        listable(seq![a, b]),
    ensures
        ({
            let found = statement_of(opwords()[k], comma_list(seq![a, b]));
            &&& k == 1 ==> (int_of(b) matches Some(size) ==> (size > 0 ==> found == Some(
                StmtView::Array(a, size as nat),
            )))
            &&& k == 2 ==> (place_of(a) matches Some(dst) ==> (place_of(b) matches Some(src)
                ==> found == Some(StmtView::Mov(dst, src))))
            &&& k == 4 ==> (place_of(a) matches Some(cond) ==> found == Some(
                StmtView::BranchIf(cond, b),
            ))
            &&& k == 5 ==> (place_of(a) matches Some(cond) ==> found == Some(
                StmtView::BranchIfn(cond, b),
            ))
        }),
{
    lemma_opwords();
    assert(opwords()[0] == "%int"@);
    assert(opwords()[1] == "%int[]"@);
    assert(opwords()[2] == "%mov"@);
    assert(opwords()[3] == "%jmp"@);
    assert(opwords()[4] == "%branch_if"@);
    assert(opwords()[5] == "%branch_ifn"@);
    let items = seq![a, b];
    let list = comma_list(items);
    lemma_list_pieces(items);
    let fields = split(list, ',');
    assert(trimmed(fields[0]) == a);
    assert(trimmed(fields[1]) == b);
    if k == 2 {
        if let Some(dst) = place_of(a) {
            if let Some(src) = place_of(b) {
                lemma_places(fields, seq![dst, src], 2);
                assert(seq![dst, src].take(2) =~= seq![dst, src]);
            }
        }
    }
}

/// The statements of three operands: the operations.
pub proof fn lemma_statement_triple(
    op: BinaryOp,
    a: Seq<char>,
    b: Seq<char>,
    c: Seq<char>,
    dst: PlaceView,
    left: PlaceView,
    right: PlaceView,
)
    requires
        listable(seq![a, b, c]),
        place_of(a) == Some(dst),
        place_of(b) == Some(left),
        place_of(c) == Some(right),
    ensures
        statement_of(opcode(op), comma_list(seq![a, b, c])) == Some(
            StmtView::Binary(lower_op(op), dst, left, right),
        ),
        exists|k: int| 10 <= k < 21 && #[trigger] opwords()[k] == opcode(op),
{
    lemma_opwords();
    assert(opwords()[0] == "%int"@);
    assert(opwords()[1] == "%int[]"@);
    assert(opwords()[2] == "%mov"@);
    assert(opwords()[3] == "%jmp"@);
    assert(opwords()[4] == "%branch_if"@);
    assert(opwords()[5] == "%branch_ifn"@);
    assert(opwords()[6] == "%call"@);
    assert(opwords()[7] == "%ret"@);
    assert(opwords()[8] == "%out"@);
    assert(opwords()[9] == "%input"@);
    assert(opwords()[10] == "%add"@);
    assert(opwords()[11] == "%sub"@);
    assert(opwords()[12] == "%mult"@);
    assert(opwords()[13] == "%div"@);
    assert(opwords()[14] == "%mod"@);
    assert(opwords()[15] == "%eq"@);
    assert(opwords()[16] == "%neq"@);
    assert(opwords()[17] == "%lt"@);
    assert(opwords()[18] == "%le"@);
    assert(opwords()[19] == "%gt"@);
    assert(opwords()[20] == "%ge"@);
    let items = seq![a, b, c];
    let list = comma_list(items);
    lemma_list_pieces(items);
    let fields = split(list, ',');
    assert(trimmed(fields[0]) == a);
    assert(trimmed(fields[1]) == b);
    assert(trimmed(fields[2]) == c);
    lemma_places(fields, seq![dst, left, right], 3);
    assert(seq![dst, left, right].take(3) =~= seq![dst, left, right]);
    assert(opcode_of(opcode(op)) == Some(lower_op(op)));
}

/// What reading takes a line apart into: its first word, and the rest.
pub proof fn lemma_line_parts(word: Seq<char>, rest: Seq<char>)
    requires
        word.len() > 0,
        word[0] == '%',
        lacks(word, ' '),
        tight(rest),
    ensures
        ({
            let text = word + seq![' '] + rest;
            let n = run_len(text, CharClass::Not(' ')) as int;
            &&& trimmed(text) == text
            &&& text.len() > 0
            &&& text[0] == '%'
            &&& text.take(n) == word
            &&& trimmed(text.skip(n)) == rest
        }),
{
    let text = word + seq![' '] + rest;
    assert(text[0] == word[0]);
    assert(text.last() == rest.last());
    lemma_trimmed_tight(text);
    lemma_run_stops(word, ' ', rest);
    assert(text.skip(word.len() as int) =~= seq![' '] + rest);
    lemma_trimmed_tight(rest);
}

/// A word with a space after it is the word once the space is gone.
pub proof fn lemma_trimmed_after(word: Seq<char>)
    requires
        tight(word),
    ensures
        trimmed(word + seq![' ']) == word,
{
    let s = word + seq![' '];
    crate::text::lemma_tail_len(s, CharClass::Blank, 1);
    lemma_run_len(s, CharClass::Blank, 0);
    assert(s.skip(0) =~= s);
    assert(s.take(s.len() - 1) =~= word);
}

/// The texts of valid operands make a list that can be read back.
pub proof fn lemma_operands_listable(args: Seq<Operand>)
    requires
        all_valid(args),
    ensures
        listable(render_operands(args)),
        forall|i: int| 0 <= i < args.len() ==> lacks(#[trigger] render_operands(args)[i], '\n'),
        forall|i: int|
            0 <= i < args.len() ==> place_of(#[trigger] render_operands(args)[i]) == Some(
                lower_args(args)[i],
            ),
{
    assert forall|i: int| 0 <= i < args.len() implies tight(#[trigger] render_operands(args)[i])
        && lacks(render_operands(args)[i], ',') && lacks(render_operands(args)[i], '\n')
        && place_of(render_operands(args)[i]) == Some(lower_args(args)[i]) by {
        lemma_operand(args[i]);
        lemma_solid(render_operand(args[i]));
    }
}

/// The rest of the line of a call: the operand that takes the result, the
/// function, and the arguments in parentheses.
pub open spec fn call_rest(dst: Operand, func: Seq<char>, args: Seq<Operand>) -> Seq<char> {
    render_operand(dst) + seq![',', ' '] + func + seq!['('] + comma_list(render_operands(args))
        + seq![')']
}

/// The function of a call and its arguments in parentheses.
pub open spec fn call_target(func: Seq<char>, args: Seq<Operand>) -> Seq<char> {
    func + seq!['('] + comma_list(render_operands(args)) + seq![')']
}

/// What reading finds in the parentheses of a call: the arguments.
pub proof fn lemma_call_target(func: Seq<char>, args: Seq<Operand>)
    requires
        is_word(func),
        all_valid(args),
    ensures
        ({
            let target = call_target(func, args);
            let fields = items(in_parentheses(target)->0);
            &&& tight(target)
            &&& lacks(target, '\n')
            &&& in_parentheses(target) is Some
            &&& before_parenthesis(target) == func
            &&& places_of(fields, fields.len() as int) == Some(lower_args(args))
        }),
{
    let target = call_target(func, args);
    let list = comma_list(render_operands(args));
    let texts = render_operands(args);
    lemma_word(func);
    lemma_solid(func);
    lemma_operands_listable(args);
    lemma_list_lacks(texts, '\n');
    assert(target[0] == func[0]);
    assert(target.last() == ')');
    assert(target =~= func + seq!['('] + (list + seq![')']));
    lemma_run_stops(func, '(', list + seq![')']);
    assert(target.subrange(func.len() as int + 1, target.len() - 1) =~= list);
    lemma_trimmed_tight(func);
    if args.len() == 0 {
        assert(list =~= Seq::<char>::empty());
        lemma_trimmed_empty();
        lemma_places(Seq::empty(), lower_args(args), 0);
        assert(lower_args(args).take(0) =~= lower_args(args));
    } else {
        lemma_list_pieces(texts);
        lemma_trimmed_tight(list);
        let fields = split(list, ',');
        assert forall|i: int| 0 <= i < args.len() implies place_of(trimmed(#[trigger] fields[i]))
            == Some(lower_args(args)[i]) by {
            assert(trimmed(fields[i]) == texts[i]);
        }
        lemma_places(fields, lower_args(args), args.len() as int);
        assert(lower_args(args).take(args.len() as int) =~= lower_args(args));
    }
    assert forall|m: int| 0 <= m < target.len() implies target[m] != '\n' by {
        if m < func.len() {
            assert(target[m] == func[m]);
        } else if func.len() < m < target.len() - 1 {
            assert(target[m] == list[m - func.len() - 1]);
        }
    }
}

/// What reading makes of the operands of a call.
pub proof fn lemma_call_of(dst: Operand, func: Seq<char>, args: Seq<Operand>)
    requires
        valid_operand(dst),
        is_word(func),
        all_valid(args),
    ensures
        call_of(call_rest(dst, func, args)) == Some(
            StmtView::Call(lower_plain(dst), func, lower_args(args)),
        ),
        tight(call_rest(dst, func, args)),
        lacks(call_rest(dst, func, args), '\n'),
{
    let d = render_operand(dst);
    let target = call_target(func, args);
    let rest = call_rest(dst, func, args);
    lemma_operand(dst);
    lemma_solid(d);
    lemma_call_target(func, args);
    assert(rest =~= d + seq![','] + (seq![' '] + target));
    assert(rest[0] == d[0]);
    assert(rest.last() == ')');
    lemma_run_stops(d, ',', seq![' '] + target);
    lemma_trimmed_tight(target);
    lemma_trimmed_tight(d);
    assert forall|j: int| 0 <= j < rest.len() implies rest[j] != '\n' by {
        if j < d.len() {
            assert(rest[j] == d[j]);
        } else if j >= d.len() + 2 {
            assert(rest[j] == target[j - d.len() - 2]);
        }
    }
}

/// A line that starts with a word and a space holds no line feed if
/// neither the word nor the rest holds one.
pub proof fn lemma_line_lacks(word: Seq<char>, rest: Seq<char>)
    requires
        lacks(word, '\n'),
        lacks(rest, '\n'),
    ensures
        lacks(word + seq![' '] + rest, '\n'),
{
    let text = word + seq![' '] + rest;
    assert forall|i: int| 0 <= i < text.len() implies text[i] != '\n' by {
        if i < word.len() {
            assert(text[i] == word[i]);
        } else if i > word.len() {
            assert(text[i] == rest[i - word.len() - 1]);
        }
    }
}

/// What reading makes of the line of a call.
pub proof fn lemma_call_line(dst: Operand, func: Seq<char>, args: Seq<Operand>)
    requires
        valid_operand(dst),
        is_word(func),
        all_valid(args),
    ensures
        line_of(bare(Instr::Call { dst, func, args })) == Some(
            lower_line(Instr::Call { dst, func, args }),
        ),
        lacks(bare(Instr::Call { dst, func, args }), '\n'),
{
    lemma_opwords();
    assert(opwords()[0] == "%int"@);
    assert(opwords()[1] == "%int[]"@);
    assert(opwords()[2] == "%mov"@);
    assert(opwords()[3] == "%jmp"@);
    assert(opwords()[4] == "%branch_if"@);
    assert(opwords()[5] == "%branch_ifn"@);
    assert(opwords()[6] == "%call"@);
    assert(opwords()[21] == "%func"@);
    assert(opwords()[22] == "%endfunc"@);
    let rest = call_rest(dst, func, args);
    lemma_call_of(dst, func, args);
    lemma_line_parts("%call"@, rest);
    lemma_line_lacks("%call"@, rest);
    assert(bare(Instr::Call { dst, func, args }) == "%call"@ + seq![' '] + rest);
}

/// The names that a list of declarations names, if each names one.
pub proof fn lemma_params(fields: Seq<Seq<char>>, params: Seq<Seq<char>>, n: int)
    requires
        0 <= n <= fields.len(),
        n <= params.len(),
        forall|i: int| 0 <= i < n ==> param_of(#[trigger] fields[i]) == Some(params[i]),
    ensures
        params_of(fields, n) == Some(params.take(n)),
    decreases n,
{
    if n > 0 {
        lemma_params(fields, params, n - 1);
        assert(params.take(n) =~= params.take(n - 1).push(params[n - 1]));
    } else {
        assert(params.take(0) =~= Seq::empty());
    }
}

/// The rest of the header of a function: the name, and the declarations
/// of the parameters in parentheses.
pub open spec fn header_rest(name: Seq<char>, params: Seq<Seq<char>>) -> Seq<char> {
    name + seq![' ', '('] + comma_list(declared(params)) + seq![')']
}

/// The declarations of parameters make a list that can be read back.
pub proof fn lemma_declared(params: Seq<Seq<char>>)
    requires
        all_words(params),
    ensures
        listable(declared(params)),
        forall|i: int| 0 <= i < params.len() ==> lacks(#[trigger] declared(params)[i], '\n'),
        forall|i: int|
            0 <= i < params.len() ==> param_of(#[trigger] declared(params)[i]) == Some(params[i]),
        forall|i: int|
            0 <= i < params.len() ==> param_of(seq![' '] + #[trigger] declared(params)[i]) == Some(
                params[i],
            ),
{
    reveal_strlit("%int ");
    reveal_strlit("%int");
    let items = declared(params);
    assert forall|i: int| 0 <= i < params.len() implies tight(#[trigger] items[i]) && lacks(
        items[i],
        ',',
    ) && lacks(items[i], '\n') && param_of(items[i]) == Some(params[i]) && param_of(
        seq![' '] + items[i],
    ) == Some(params[i]) by {
        lemma_word(params[i]);
        lemma_solid(params[i]);
        let item = "%int "@ + params[i];
        assert(items[i] == item);
        assert(item.last() == params[i].last());
        assert(item[0] == '%');
        assert forall|j: int| 0 <= j < item.len() implies item[j] != ',' && item[j] != '\n' by {
            if j >= 5 {
                assert(item[j] == params[i][j - 5]);
            }
        }
        lemma_trimmed_tight(item);
        assert(item =~= "%int"@ + seq![' '] + params[i]);
        lemma_run_stops("%int"@, ' ', params[i]);
        assert(item.skip(4) =~= seq![' '] + params[i]);
        lemma_trimmed_tight(params[i]);
    }
}

/// What reading makes of the rest of the header of a function.
pub proof fn lemma_header_of(name: Seq<char>, params: Seq<Seq<char>>)
    requires
        is_word(name),
        all_words(params),
    ensures
        header_of(header_rest(name, params)) == Some(LineView::Func(name, params)),
        tight(header_rest(name, params)),
        lacks(header_rest(name, params), '\n'),
{
    let items = declared(params);
    let list = comma_list(items);
    let rest = header_rest(name, params);
    lemma_word(name);
    lemma_solid(name);
    lemma_declared(params);
    lemma_list_lacks(items, '\n');
    assert(rest[0] == name[0]);
    assert(rest.last() == ')');
    let left = name + seq![' '];
    assert(rest =~= left + seq!['('] + (list + seq![')']));
    assert(lacks(left, '('));
    lemma_run_stops(left, '(', list + seq![')']);
    assert(rest.subrange(left.len() as int + 1, rest.len() - 1) =~= list);
    lemma_trimmed_after(name);
    if params.len() == 0 {
        assert(list =~= Seq::<char>::empty());
        lemma_trimmed_empty();
        lemma_params(Seq::empty(), params, 0);
        assert(params.take(0) =~= params);
    } else {
        lemma_list_pieces(items);
        lemma_trimmed_tight(list);
        let fields = split(list, ',');
        assert forall|i: int| 0 <= i < params.len() implies param_of(#[trigger] fields[i]) == Some(
            params[i],
        ) by {
            assert(trimmed(fields[i]) == items[i]);
            assert(param_of(items[i]) == Some(params[i]));
            lemma_trimmed_tight(items[i]);
            assert(trimmed(trimmed(fields[i])) == trimmed(fields[i]));
        }
        lemma_params(fields, params, params.len() as int);
        assert(params.take(params.len() as int) =~= params);
    }
    assert forall|j: int| 0 <= j < rest.len() implies rest[j] != '\n' by {
        if j < name.len() {
            assert(rest[j] == name[j]);
        } else if name.len() + 2 <= j < rest.len() - 1 {
            assert(rest[j] == list[j - name.len() - 2]);
        }
    }
}

/// What reading makes of the header of a function.
pub proof fn lemma_func_line(name: Seq<char>, params: Seq<Seq<char>>)
    requires
        is_word(name),
        all_words(params),
    ensures
        line_of(bare(Instr::Func { name, params })) == Some(LineView::Func(name, params)),
        lacks(bare(Instr::Func { name, params }), '\n'),
{
    lemma_opwords();
    assert(opwords()[21] == "%func"@);
    assert(opwords()[22] == "%endfunc"@);
    let rest = header_rest(name, params);
    lemma_header_of(name, params);
    lemma_line_parts("%func"@, rest);
    lemma_line_lacks("%func"@, rest);
    assert(bare(Instr::Func { name, params }) =~= "%func"@ + seq![' '] + rest);
}

proof fn lemma_endfunc_line()
    requires
        valid_instr(Instr::EndFunc),
    ensures
        line_of(bare(Instr::EndFunc)) == Some(lower_line(Instr::EndFunc)),
        lacks(bare(Instr::EndFunc), '\n'),
{
    lemma_opwords();
    let text = "%endfunc"@;
    assert(opwords()[22] == text);
    lemma_trimmed_tight(text);
    lemma_run_all(text, ' ');
    assert(text.take(text.len() as int) =~= text);
    assert(text.skip(text.len() as int) =~= Seq::<char>::empty());
    lemma_trimmed_empty();
}

proof fn lemma_int_line(var: Operand)
    requires
        valid_instr(Instr::Int { var }),
    ensures
        line_of(bare(Instr::Int { var })) == Some(lower_line(Instr::Int { var })),
        lacks(bare(Instr::Int { var }), '\n'),
{
    lemma_opwords();
    let t = render_operand(var);
    lemma_operand(var);
    lemma_solid(t);
    lemma_short_lists(t, Seq::empty(), Seq::empty());
    lemma_statement_text(0, t);
    lemma_regular_line(0, seq![t], StmtView::Int(t));
    assert(opwords()[0] == "%int"@);
}

proof fn lemma_array_line(name: Seq<char>, size: int)
    requires
        valid_instr(Instr::Array { name, size }),
    ensures
        line_of(bare(Instr::Array { name, size })) == Some(lower_line(Instr::Array { name, size })),
        lacks(bare(Instr::Array { name, size }), '\n'),
{
    lemma_opwords();
    let digits = decimal(size);
    lemma_word(name);
    lemma_solid(name);
    lemma_numeral(size as i32);
    lemma_solid(digits);
    lemma_statement_pair(1, name, digits);
    lemma_regular_line(1, seq![name, digits], StmtView::Array(name, size as nat));
    assert(opwords()[1] == "%int[]"@);
}

proof fn lemma_mov_line(dst: Operand, src: Operand)
    requires
        valid_instr(Instr::Mov { dst, src }),
    ensures
        line_of(bare(Instr::Mov { dst, src })) == Some(lower_line(Instr::Mov { dst, src })),
        lacks(bare(Instr::Mov { dst, src }), '\n'),
{
    lemma_opwords();
    let a = render_operand(dst);
    let b = render_operand(src);
    lemma_operand(dst);
    lemma_operand(src);
    lemma_solid(a);
    lemma_solid(b);
    lemma_statement_pair(2, a, b);
    lemma_regular_line(2, seq![a, b], StmtView::Mov(lower_plain(dst), lower_plain(src)));
    assert(opwords()[2] == "%mov"@);
}

proof fn lemma_store_line(array: Seq<char>, index: Operand, src: Operand)
    requires
        valid_instr(Instr::Store { array, index, src }),
    ensures
        line_of(bare(Instr::Store { array, index, src })) == Some(lower_line(Instr::Store { array, index, src })),
        lacks(bare(Instr::Store { array, index, src }), '\n'),
{
    lemma_opwords();
    let a = indexed(array, render_operand(index));
    let b = render_operand(src);
    lemma_indexed(array, index);
    lemma_operand(src);
    lemma_solid(b);
    lemma_statement_pair(2, a, b);
    lemma_regular_line(
        2,
        seq![a, b],
        StmtView::Mov(PlaceView::Element(array, lower_operand(index)), lower_plain(src)),
    );
    assert(opwords()[2] == "%mov"@);
}

proof fn lemma_load_line(dst: Operand, array: Seq<char>, index: Operand)
    requires
        valid_instr(Instr::Load { dst, array, index }),
    ensures
        line_of(bare(Instr::Load { dst, array, index })) == Some(lower_line(Instr::Load { dst, array, index })),
        lacks(bare(Instr::Load { dst, array, index }), '\n'),
{
    lemma_opwords();
    let a = render_operand(dst);
    let b = indexed(array, render_operand(index));
    lemma_indexed(array, index);
    lemma_operand(dst);
    lemma_solid(a);
    lemma_statement_pair(2, a, b);
    lemma_regular_line(
        2,
        seq![a, b],
        StmtView::Mov(lower_plain(dst), PlaceView::Element(array, lower_operand(index))),
    );
    assert(opwords()[2] == "%mov"@);
}

proof fn lemma_binary_line(op: BinaryOp, dst: Operand, left: Operand, right: Operand)
    requires
        valid_instr(Instr::Binary { op, dst, left, right }),
    ensures
        line_of(bare(Instr::Binary { op, dst, left, right })) == Some(lower_line(Instr::Binary { op, dst, left, right })),
        lacks(bare(Instr::Binary { op, dst, left, right }), '\n'),
{
    lemma_opwords();
    let a = render_operand(dst);
    let b = render_operand(left);
    let c = render_operand(right);
    lemma_operand(dst);
    lemma_operand(left);
    lemma_operand(right);
    lemma_solid(a);
    lemma_solid(b);
    lemma_solid(c);
    lemma_statement_triple(op, a, b, c, lower_plain(dst), lower_plain(left), lower_plain(right));
    let k = choose|k: int| 10 <= k < 21 && #[trigger] opwords()[k] == opcode(op);
    lemma_regular_line(
        k,
        seq![a, b, c],
        StmtView::Binary(lower_op(op), lower_plain(dst), lower_plain(left), lower_plain(right)),
    );
}

proof fn lemma_label_line(name: Seq<char>)
    requires
        valid_instr(Instr::Label { name }),
    ensures
        line_of(bare(Instr::Label { name })) == Some(lower_line(Instr::Label { name })),
        lacks(bare(Instr::Label { name }), '\n'),
{
    lemma_opwords();
    lemma_word(name);
    lemma_solid(name);
    lemma_trimmed_tight(name);
}

proof fn lemma_jmp_line(target: Seq<char>)
    requires
        valid_instr(Instr::Jmp { target }),
    ensures
        line_of(bare(Instr::Jmp { target })) == Some(lower_line(Instr::Jmp { target })),
        lacks(bare(Instr::Jmp { target }), '\n'),
{
    lemma_opwords();
    lemma_word(target);
    lemma_solid(target);
    lemma_short_lists(target, Seq::empty(), Seq::empty());
    lemma_statement_text(3, target);
    lemma_regular_line(3, seq![target], StmtView::Jmp(target));
    assert(opwords()[3] == "%jmp"@);
}

proof fn lemma_branch_if_line(cond: Operand, target: Seq<char>)
    requires
        valid_instr(Instr::BranchIf { cond, target }),
    ensures
        line_of(bare(Instr::BranchIf { cond, target })) == Some(lower_line(Instr::BranchIf { cond, target })),
        lacks(bare(Instr::BranchIf { cond, target }), '\n'),
{
    lemma_opwords();
    let a = render_operand(cond);
    lemma_operand(cond);
    lemma_solid(a);
    lemma_word(target);
    lemma_solid(target);
    lemma_statement_pair(4, a, target);
    lemma_regular_line(4, seq![a, target], StmtView::BranchIf(lower_plain(cond), target));
    assert(opwords()[4] == "%branch_if"@);
}

proof fn lemma_branch_ifn_line(cond: Operand, target: Seq<char>)
    requires
        valid_instr(Instr::BranchIfn { cond, target }),
    ensures
        line_of(bare(Instr::BranchIfn { cond, target })) == Some(lower_line(Instr::BranchIfn { cond, target })),
        lacks(bare(Instr::BranchIfn { cond, target }), '\n'),
{
    lemma_opwords();
    let a = render_operand(cond);
    lemma_operand(cond);
    lemma_solid(a);
    lemma_word(target);
    lemma_solid(target);
    lemma_statement_pair(5, a, target);
    lemma_regular_line(5, seq![a, target], StmtView::BranchIfn(lower_plain(cond), target));
    assert(opwords()[5] == "%branch_ifn"@);
}

proof fn lemma_ret_line(value: Operand)
    requires
        valid_instr(Instr::Ret { value }),
    ensures
        line_of(bare(Instr::Ret { value })) == Some(lower_line(Instr::Ret { value })),
        lacks(bare(Instr::Ret { value }), '\n'),
{
    lemma_opwords();
    let t = render_operand(value);
    lemma_operand(value);
    lemma_solid(t);
    lemma_short_lists(t, Seq::empty(), Seq::empty());
    lemma_statement_value(7, t, lower_plain(value));
    lemma_regular_line(7, seq![t], StmtView::Ret(lower_plain(value)));
    assert(opwords()[7] == "%ret"@);
}

proof fn lemma_out_line(value: Operand)
    requires
        valid_instr(Instr::Out { value }),
    ensures
        line_of(bare(Instr::Out { value })) == Some(lower_line(Instr::Out { value })),
        lacks(bare(Instr::Out { value }), '\n'),
{
    lemma_opwords();
    let t = render_operand(value);
    lemma_operand(value);
    lemma_solid(t);
    lemma_short_lists(t, Seq::empty(), Seq::empty());
    lemma_statement_value(8, t, lower_plain(value));
    lemma_regular_line(8, seq![t], StmtView::Out(lower_plain(value)));
    assert(opwords()[8] == "%out"@);
}

proof fn lemma_input_line(value: Operand)
    requires
        valid_instr(Instr::Input { value }),
    ensures
        line_of(bare(Instr::Input { value })) == Some(lower_line(Instr::Input { value })),
        lacks(bare(Instr::Input { value }), '\n'),
{
    lemma_opwords();
    let t = render_operand(value);
    lemma_operand(value);
    lemma_solid(t);
    lemma_short_lists(t, Seq::empty(), Seq::empty());
    lemma_statement_value(9, t, lower_plain(value));
    lemma_regular_line(9, seq![t], StmtView::Input(lower_plain(value)));
    assert(opwords()[9] == "%input"@);
}

/// What reading makes of the line of an instruction that can be read back:
/// the instruction. The line holds no line feed.
pub proof fn lemma_line(instr: Instr)
    requires
        valid_instr(instr),
    ensures
        line_of(bare(instr)) == Some(lower_line(instr)),
        lacks(bare(instr), '\n'),
{
    match instr {
        Instr::Func { name, params } => lemma_func_line(name, params),
        Instr::EndFunc => lemma_endfunc_line(),
        Instr::Int { var } => lemma_int_line(var),
        Instr::Array { name, size } => lemma_array_line(name, size),
        Instr::Mov { dst, src } => lemma_mov_line(dst, src),
        Instr::Store { array, index, src } => lemma_store_line(array, index, src),
        Instr::Load { dst, array, index } => lemma_load_line(dst, array, index),
        Instr::Binary { op, dst, left, right } => lemma_binary_line(op, dst, left, right),
        Instr::Label { name } => lemma_label_line(name),
        Instr::Jmp { target } => lemma_jmp_line(target),
        Instr::BranchIf { cond, target } => lemma_branch_if_line(cond, target),
        Instr::BranchIfn { cond, target } => lemma_branch_ifn_line(cond, target),
        Instr::Call { dst, func, args } => lemma_call_line(dst, func, args),
        Instr::Ret { value } => lemma_ret_line(value),
        Instr::Out { value } => lemma_out_line(value),
        Instr::Input { value } => lemma_input_line(value),
    }
}

/// Whether every instruction of a piece of code can be written and read
/// back.
pub open spec fn valid_code(code: Seq<Instr>) -> bool {
    forall|k: int| 0 <= k < code.len() ==> valid_instr(#[trigger] code[k])
}

/// The lines of the text of an instruction: its line, and after the end of
/// a function an empty one.
pub open spec fn lines_of(instr: Instr) -> Seq<Seq<char>> {
    if instr is EndFunc {
        seq![bare(instr), Seq::empty()]
    } else {
        seq![bare(instr)]
    }
}

/// The lines of the text of a piece of code.
pub open spec fn text_lines(code: Seq<Instr>) -> Seq<Seq<char>>
    decreases code.len(),
{
    if code.len() == 0 {
        Seq::empty()
    } else {
        lines_of(code[0]) + text_lines(code.skip(1))
    }
}

/// The text of a piece of code is the text of its first instruction and
/// the text of the others.
pub proof fn lemma_render_front(code: Seq<Instr>)
    requires
        code.len() > 0,
    ensures
        render(code) == render_instr(code[0]) + render(code.skip(1)),
{
    crate::ir::lemma_render_one(code[0]);
    crate::ir::lemma_render_concat(seq![code[0]], code.skip(1));
    assert(seq![code[0]] + code.skip(1) =~= code);
}

/// The lines of the text of a piece of code, with any text after it, are
/// the lines of its instructions and the lines of the text after it.
pub proof fn lemma_text_lines(code: Seq<Instr>, after: Seq<char>)
    requires
        valid_code(code),
    ensures
        split(render(code) + after, '\n') == text_lines(code) + split(after, '\n'),
    decreases code.len(),
{
    if code.len() == 0 {
        crate::ir::lemma_render_empty();
        assert(render(code) + after =~= after);
        assert(text_lines(code) + split(after, '\n') =~= split(after, '\n'));
    } else {
        let first = code[0];
        let rest = code.skip(1);
        lemma_render_front(code);
        lemma_bare(first);
        lemma_line(first);
        assert forall|k: int| 0 <= k < rest.len() implies valid_instr(#[trigger] rest[k]) by {
            assert(rest[k] == code[k + 1]);
        }
        lemma_text_lines(rest, after);
        let tail = render(rest) + after;
        if first is EndFunc {
            let more = seq!['\n'] + tail;
            assert(render(code) + after =~= bare(first) + seq!['\n'] + more);
            lemma_split_first(bare(first), '\n', more);
            assert(more =~= Seq::<char>::empty() + seq!['\n'] + tail);
            lemma_split_first(Seq::empty(), '\n', tail);
            assert(text_lines(code) + split(after, '\n') =~= seq![bare(first)] + (seq![
                Seq::<char>::empty(),
            ] + split(tail, '\n')));
        } else {
            assert(render(code) + after =~= bare(first) + seq!['\n'] + tail);
            lemma_split_first(bare(first), '\n', tail);
            assert(text_lines(code) + split(after, '\n') =~= seq![bare(first)] + split(
                tail,
                '\n',
            ));
        }
    }
}

/// What the functions read so far and the function that is being read
/// become with the instructions of a piece of code, or the message for an
/// instruction that stands where it cannot.
pub open spec fn settle(
    code: Seq<Instr>,
    functions: Seq<FunctionView>,
    current: Option<FunctionView>,
) -> Result<(Seq<FunctionView>, Option<FunctionView>), Seq<char>>
    decreases code.len(),
{
    if code.len() == 0 {
        Ok((functions, current))
    } else {
        match (lower_line(code[0]), current) {
            (LineView::Func(name, params), None) => settle(
                code.skip(1),
                functions,
                Some(FunctionView { name, params, body: Seq::empty() }),
            ),
            (LineView::EndFunc, Some(function)) => settle(
                code.skip(1),
                functions.push(function),
                None,
            ),
            (LineView::Stmt(stmt), Some(function)) => settle(
                code.skip(1),
                functions,
                Some(FunctionView { body: function.body.push(stmt), ..function }),
            ),
            _ => Err(misplaced(bare(code[0]))),
        }
    }
}

/// The functions that have been read when the text ends, or the message
/// for a function that has not ended.
pub open spec fn finished(
    state: Result<(Seq<FunctionView>, Option<FunctionView>), Seq<char>>,
) -> Result<Seq<FunctionView>, Seq<char>> {
    match state {
        Ok((functions, None)) => Ok(functions),
        Ok((_, Some(_))) => Err("Function without %endfunc"@),
        Err(message) => Err(message),
    }
}

/// The program that a piece of code stands for: its instructions as
/// statements, grouped into functions.
pub open spec fn lowered(code: Seq<Instr>) -> Result<ProgramView, Seq<char>> {
    match finished(settle(code, Seq::empty(), None)) {
        Ok(functions) => Ok(ProgramView { functions }),
        Err(message) => Err(message),
    }
}

/// Reading goes on after a line as it would start after it.
pub proof fn lemma_assemble_shift(
    lines: Seq<Seq<char>>,
    at: int,
    functions: Seq<FunctionView>,
    current: Option<FunctionView>,
)
    requires
        0 <= at < lines.len(),
    ensures
        assemble(lines, at + 1, functions, current) == assemble(
            lines.skip(1),
            at,
            functions,
            current,
        ),
    decreases lines.len() - at,
{
    let rest = lines.skip(1);
    if at + 1 < lines.len() {
        assert(rest[at] == lines[at + 1]);
        match (line_of(lines[at + 1]), current) {
            (None, _) => {},
            (Some(LineView::Blank), _) => {
                lemma_assemble_shift(lines, at + 1, functions, current);
            },
            (Some(LineView::Func(name, params)), None) => {
                lemma_assemble_shift(
                    lines,
                    at + 1,
                    functions,
                    Some(FunctionView { name, params, body: Seq::empty() }),
                );
            },
            (Some(LineView::EndFunc), Some(function)) => {
                lemma_assemble_shift(lines, at + 1, functions.push(function), None);
            },
            (Some(LineView::Stmt(stmt)), Some(function)) => {
                lemma_assemble_shift(
                    lines,
                    at + 1,
                    functions,
                    Some(FunctionView { body: function.body.push(stmt), ..function }),
                );
            },
            _ => {},
        }
    }
}

/// An empty line counts for nothing.
pub proof fn lemma_assemble_blank(
    rest: Seq<Seq<char>>,
    functions: Seq<FunctionView>,
    current: Option<FunctionView>,
)
    ensures
        assemble(seq![Seq::<char>::empty()] + rest, 0, functions, current) == assemble(
            rest,
            0,
            functions,
            current,
        ),
{
    let lines = seq![Seq::<char>::empty()] + rest;
    lemma_trimmed_empty();
    assert(lines[0] == Seq::<char>::empty());
    assert(line_of(lines[0]) == Some(LineView::Blank));
    lemma_assemble_shift(lines, 0, functions, current);
    assert(lines.skip(1) =~= rest);
}

/// Reading the lines of a piece of code that can be read back gives what
/// the code stands for.
pub proof fn lemma_assemble(
    code: Seq<Instr>,
    functions: Seq<FunctionView>,
    current: Option<FunctionView>,
)
    requires
        valid_code(code),
    ensures
        assemble(text_lines(code) + seq![Seq::<char>::empty()], 0, functions, current)
            == finished(settle(code, functions, current)),
    decreases code.len(),
{
    let last = seq![Seq::<char>::empty()];
    if code.len() == 0 {
        assert(text_lines(code) + last =~= last + Seq::<Seq<char>>::empty());
        lemma_assemble_blank(Seq::empty(), functions, current);
    } else {
        let first = code[0];
        let rest = code.skip(1);
        let lines = text_lines(code) + last;
        let after = text_lines(rest) + last;
        lemma_line(first);
        assert forall|k: int| 0 <= k < rest.len() implies valid_instr(#[trigger] rest[k]) by {
            assert(rest[k] == code[k + 1]);
        }
        assert(lines[0] == bare(first));
        lemma_assemble_shift(lines, 0, functions, current);
        if first is EndFunc {
            assert(lines.skip(1) =~= last + after);
        } else {
            assert(lines.skip(1) =~= after);
        }
        match (lower_line(first), current) {
            (LineView::Func(name, params), None) => {
                let next = Some(FunctionView { name, params, body: Seq::empty() });
                lemma_assemble_shift(lines, 0, functions, next);
                lemma_assemble(rest, functions, next);
            },
            (LineView::EndFunc, Some(function)) => {
                lemma_assemble_shift(lines, 0, functions.push(function), None);
                lemma_assemble_blank(after, functions.push(function), None);
                lemma_assemble(rest, functions.push(function), None);
            },
            (LineView::Stmt(stmt), Some(function)) => {
                let next = Some(FunctionView { body: function.body.push(stmt), ..function });
                lemma_assemble_shift(lines, 0, functions, next);
                lemma_assemble(rest, functions, next);
            },
            _ => {},
        }
    }
}

/// The text of a piece of code that can be read back is read as the
/// program that the code stands for.
pub proof fn lemma_reads_back(code: Seq<Instr>)
    requires
        valid_code(code),
    ensures
        program_of(render(code)) == lowered(code),
{
    lemma_text_lines(code, Seq::empty());
    assert(render(code) + Seq::<char>::empty() =~= render(code));
    lemma_split_one(Seq::empty(), '\n');
    lemma_assemble(code, Seq::empty(), None);
}

/// The labels that the parser makes are words that start with a colon.
pub proof fn lemma_label_is_word(kind: LabelKind, n: nat)
    ensures
        is_word(label_text(kind, n)),
        label_text(kind, n)[0] == ':',
{
    reveal_strlit(":beginloop");
    reveal_strlit(":endloop");
    reveal_strlit(":iftrue");
    reveal_strlit(":else");
    reveal_strlit(":endif");
    lemma_decimal_value(n);
    let s = label_text(kind, n);
    let digits = decimal_nat(n);
    let prefix: Seq<char> = match kind {
        LabelKind::LoopBegin => ":beginloop"@,
        LabelKind::LoopEnd => ":endloop"@,
        LabelKind::Then => ":iftrue"@,
        LabelKind::Else => ":else"@,
        LabelKind::End => ":endif"@,
    };
    assert(s == prefix + digits);
    assert forall|i: int| 0 <= i < s.len() implies is_name_char(#[trigger] s[i]) || s[i] == ':' by {
        if i >= prefix.len() {
            assert(s[i] == digits[i - prefix.len()]);
        } else {
            assert(s[i] == prefix[i]);
        }
    }
    assert(s[0] == prefix[0]);
}

/// Whether the names of a scope are words.
pub open spec fn scope_words(scope: Scope) -> bool {
    all_words(scope.symbols) && all_names(scope.arrays) && all_words(scope.functions)
}

/// Words stay words when one more joins them.
pub proof fn lemma_words_push(names: Seq<Seq<char>>, name: Seq<char>)
    requires
        all_words(names),
        is_word(name),
    ensures
        all_words(names.push(name)),
{
    assert forall|i: int| 0 <= i < names.push(name).len() implies is_word(
        #[trigger] names.push(name)[i],
    ) by {
        if i < names.len() {
            assert(names.push(name)[i] == names[i]);
        }
    }
}

/// The name of an identifier among tokens whose identifiers are names is a
/// word.
pub proof fn lemma_token_word(tokens: Seq<TokenView>, at: int)
    requires
        identifiers_are_names(tokens),
    ensures
        token_at(tokens, at) matches Some(TokenView::Ident(name)) ==> is_name(name) && is_word(
            name,
        ),
{
    if 0 <= at < tokens.len() {
        assert(token_at(tokens, at) == Some(tokens[at]));
    }
}

/// A declaration keeps the names of the tables words.
pub proof fn lemma_words_declaration(
    tokens: Seq<TokenView>,
    at: int,
    symbols: Seq<Seq<char>>,
    arrays: Seq<Seq<char>>,
)
    requires
        identifiers_are_names(tokens),
        all_words(symbols),
        all_names(arrays),
    ensures
        all_words(declaration(tokens, at, symbols, arrays).symbols),
        all_names(declaration(tokens, at, symbols, arrays).arrays),
{
    reveal(declaration);
    lemma_token_word(tokens, at + 1);
    lemma_token_word(tokens, at + 4);
    match token_at(tokens, at + 1) {
        Some(TokenView::Ident(name)) => {
            lemma_words_push(symbols, name);
        },
        _ => {},
    }
    match token_at(tokens, at + 4) {
        Some(TokenView::Ident(name)) => {
            assert forall|i: int| 0 <= i < arrays.push(name).len() implies is_name(
                #[trigger] arrays.push(name)[i],
            ) by {
                if i < arrays.len() {
                    assert(arrays.push(name)[i] == arrays[i]);
                }
            }
        },
        _ => {},
    }
}

/// Statements in braces keep the names of the scope words.
pub proof fn lemma_words_block(
    tokens: Seq<TokenView>,
    state: ParseState,
    open_message: Seq<char>,
    close_message: Seq<char>,
)
    requires
        identifiers_are_names(tokens),
        scope_words(state.scope),
    ensures
        scope_words(block(tokens, state, open_message, close_message).state.scope),
    decreases tokens.len() - state.at, 3nat,
{
    reveal(block);
    reveal(statements);
    let opening = expect(tokens, state, TokenView::LeftCurly, open_message);
    if opening.result is Ok {
        lemma_words_statements(tokens, opening.state, Seq::empty());
    }
}

/// A loop keeps the names of the scope words.
pub proof fn lemma_words_while(tokens: Seq<TokenView>, state: ParseState)
    requires
        identifiers_are_names(tokens),
        scope_words(state.scope),
    ensures
        scope_words(while_statement(tokens, state).state.scope),
    decreases tokens.len() - state.at, 0nat,
{
    reveal(while_statement);
    reveal(block);
    let n = state.counters.loops + 1;
    let entered = ParseState {
        at: state.at + 1,
        counters: Counters { loops: n, ..state.counters },
        labels: state.labels.push((loop_begin(n), loop_end(n))),
        ..state
    };
    let cond = condition_in(tokens, entered);
    if cond.result is Ok {
        if state.at < cond.state.at <= tokens.len() {
            lemma_words_block(tokens, cond.state, "expected '{'"@, "expected '}' after while"@);
        }
    }
}

/// A conditional keeps the names of the scope words.
pub proof fn lemma_words_if(tokens: Seq<TokenView>, state: ParseState)
    requires
        identifiers_are_names(tokens),
        scope_words(state.scope),
    ensures
        scope_words(if_statement(tokens, state).state.scope),
    decreases tokens.len() - state.at, 0nat,
{
    reveal(if_statement);
    reveal(block);
    let n = state.counters.branches + 1;
    let entered = ParseState {
        at: state.at + 1,
        counters: Counters { branches: n, ..state.counters },
        ..state
    };
    let cond = condition_in(tokens, entered);
    if cond.result is Ok {
        if state.at < cond.state.at <= tokens.len() {
            lemma_words_block(tokens, cond.state, "expected '{'"@, "expected '}' after if"@);
            let first = block(tokens, cond.state, "expected '{'"@, "expected '}' after if"@);
            if first.result is Ok {
                match token_at(tokens, first.state.at) {
                    Some(TokenView::Else) => {
                        if state.at < first.state.at <= tokens.len() {
                            lemma_words_block(
                                tokens,
                                first.state.moved(1),
                                "expected '{'"@,
                                "expected '}' after else"@,
                            );
                        }
                    },
                    _ => {},
                }
            }
        }
    }
}

/// A statement keeps the names of the scope words.
pub proof fn lemma_words_statement(tokens: Seq<TokenView>, state: ParseState)
    requires
        identifiers_are_names(tokens),
        scope_words(state.scope),
    ensures
        scope_words(statement(tokens, state).state.scope),
    decreases tokens.len() - state.at, 1nat,
{
    reveal(statement);
    reveal(while_statement);
    reveal(if_statement);
    match token_at(tokens, state.at) {
        Some(TokenView::Int) => {
            lemma_words_declaration(tokens, state.at, state.scope.symbols, state.scope.arrays);
        },
        Some(TokenView::While) => {
            lemma_words_while(tokens, state);
        },
        Some(TokenView::If) => {
            lemma_words_if(tokens, state);
        },
        _ => {},
    }
}

/// Statements keep the names of the scope words.
pub proof fn lemma_words_statements(tokens: Seq<TokenView>, state: ParseState, code: Seq<Instr>)
    requires
        identifiers_are_names(tokens),
        scope_words(state.scope),
    ensures
        scope_words(statements(tokens, state, code).state.scope),
    decreases tokens.len() - state.at, 2nat,
{
    reveal(statements);
    reveal(statement);
    lemma_words_statement(tokens, state);
    let one = statement(tokens, state);
    if let Ok(Some(more)) = one.result {
        if state.at < one.state.at <= tokens.len() {
            lemma_words_statements(tokens, one.state, code + more);
        }
    }
}

/// The names of the parameters of a function are words.
pub proof fn lemma_words_parameters(tokens: Seq<TokenView>, at: int, params: Seq<Seq<char>>)
    requires
        identifiers_are_names(tokens),
        all_words(params),
    ensures
        parameters(tokens, at, params).result matches Ok(all) ==> all_words(all),
    decreases tokens.len() - at,
{
    reveal(parameters);
    lemma_token_word(tokens, at + 1);
    match token_at(tokens, at) {
        Some(TokenView::Int) => match token_at(tokens, at + 1) {
            Some(TokenView::Ident(name)) => {
                if !params.contains(name) {
                    lemma_words_push(params, name);
                    match token_at(tokens, at + 2) {
                        Some(TokenView::Comma) => {
                            lemma_words_parameters(tokens, at + 3, params.push(name));
                        },
                        _ => {},
                    }
                }
            },
            _ => {},
        },
        _ => {},
    }
}

/// A name among words is a word.
pub proof fn lemma_member_is_word(names: Seq<Seq<char>>, name: Seq<char>)
    requires
        all_words(names),
        names.contains(name),
    ensures
        is_word(name),
{
    let i = choose|i: int| 0 <= i < names.len() && names[i] == name;
    assert(is_word(names[i]));
}

/// A member of a list of names is a name, and so a word.
pub proof fn lemma_member_is_name(names: Seq<Seq<char>>, name: Seq<char>)
    requires
        all_names(names),
        names.contains(name),
    ensures
        is_name(name),
        is_word(name),
{
    let i = choose|i: int| 0 <= i < names.len() && names[i] == name;
    assert(is_name(names[i]));
}

/// A label that the parser makes is a word that starts with a colon.
pub proof fn lemma_fresh_is_word(name: Seq<char>, lo: Counters, hi: Counters)
    requires
        fresh_label(name, lo, hi),
    ensures
        is_word(name),
        name[0] == ':',
{
    let (kind, n) = choose|kind: LabelKind, n: nat| #[trigger]
        label_text(kind, n) == name && counter_of(kind, lo) < n <= counter_of(kind, hi);
    lemma_label_is_word(kind, n);
}

/// An operand of a function's body can be written and read back if the
/// names of the variables are words.
pub proof fn lemma_valid_operand(
    operand: Operand,
    symbols: Seq<Seq<char>>,
    lo: Counters,
    hi: Counters,
)
    requires
        operand_ok(operand, symbols, lo, hi),
        all_words(symbols),
    ensures
        valid_operand(operand),
{
    match operand {
        Operand::Var(name) => {
            lemma_member_is_word(symbols, name);
        },
        _ => {},
    }
}

/// An instruction of a function's body can be written and read back if the
/// names of the scope are words.
pub proof fn lemma_valid_instr(instr: Instr, scope: Scope, lo: Counters, hi: Counters)
    requires
        instr_ok(instr, scope, lo, hi, Seq::empty()),
        scope_words(scope),
        instr matches Instr::Label { name } ==> fresh_label(name, lo, hi),
    ensures
        valid_instr(instr),
        lower_line(instr) is Stmt,
{
    match instr {
        Instr::Func { name, params } => {},
        Instr::EndFunc => {},
        Instr::Int { var } => {
            match var {
                Operand::Var(name) => {
                    lemma_member_is_word(scope.symbols, name);
                },
                _ => {},
            }
        },
        Instr::Array { name, size } => {
            lemma_member_is_name(scope.arrays, name);
        },
        Instr::Mov { dst, src } => {
            lemma_valid_operand(dst, scope.symbols, lo, hi);
            lemma_valid_operand(src, scope.symbols, lo, hi);
        },
        Instr::Store { array, index, src } => {
            lemma_member_is_name(scope.arrays, array);
            lemma_valid_operand(index, scope.symbols, lo, hi);
            lemma_valid_operand(src, scope.symbols, lo, hi);
        },
        Instr::Load { dst, array, index } => {
            lemma_member_is_name(scope.arrays, array);
            lemma_valid_operand(index, scope.symbols, lo, hi);
            lemma_valid_operand(dst, scope.symbols, lo, hi);
        },
        Instr::Binary { op, dst, left, right } => {
            lemma_valid_operand(dst, scope.symbols, lo, hi);
            lemma_valid_operand(left, scope.symbols, lo, hi);
            lemma_valid_operand(right, scope.symbols, lo, hi);
        },
        Instr::Label { name } => {
            lemma_fresh_is_word(name, lo, hi);
        },
        Instr::Jmp { target } => {
            lemma_fresh_is_word(target, lo, hi);
        },
        Instr::BranchIf { cond, target } => {
            lemma_valid_operand(cond, scope.symbols, lo, hi);
            lemma_fresh_is_word(target, lo, hi);
        },
        Instr::BranchIfn { cond, target } => {
            lemma_valid_operand(cond, scope.symbols, lo, hi);
            lemma_fresh_is_word(target, lo, hi);
        },
        Instr::Call { dst, func, args } => {
            lemma_valid_operand(dst, scope.symbols, lo, hi);
            lemma_member_is_word(scope.functions, func);
            assert forall|j: int| 0 <= j < args.len() implies valid_operand(#[trigger] args[j]) by {
                assert(operand_ok(args[j], scope.symbols, lo, hi));
                lemma_valid_operand(args[j], scope.symbols, lo, hi);
            }
        },
        Instr::Ret { value } => {
            lemma_valid_operand(value, scope.symbols, lo, hi);
        },
        Instr::Out { value } => {
            lemma_valid_operand(value, scope.symbols, lo, hi);
        },
        Instr::Input { value } => {
            lemma_valid_operand(value, scope.symbols, lo, hi);
        },
    }
}

/// The instructions of a function's body can be written and read back if
/// the names of the scope are words.
pub proof fn lemma_valid_body(body: Seq<Instr>, scope: Scope, lo: Counters, hi: Counters)
    requires
        closed(body, scope, lo, hi, Seq::empty()),
        counted(body, lo, hi),
        scope_words(scope),
    ensures
        valid_code(body),
        forall|k: int| 0 <= k < body.len() ==> lower_line(#[trigger] body[k]) is Stmt,
{
    assert forall|k: int| 0 <= k < body.len() implies valid_instr(#[trigger] body[k])
        && lower_line(body[k]) is Stmt by {
        let instr = body[k];
        assert(instr_ok(instr, scope, lo, hi, Seq::empty()));
        if let Instr::Label { name } = instr {
            assert(body.contains(instr));
            lemma_count_contains(body, instr);
            assert(count(body, Instr::Label { name }) > 0);
        }
        lemma_valid_instr(instr, scope, lo, hi);
    }
}

/// The statements that the instructions of a body stand for.
pub open spec fn lower_body(body: Seq<Instr>) -> Seq<StmtView> {
    Seq::new(body.len(), |k: int| lower_line(body[k])->Stmt_0)
}

/// The instructions of a body join the function that is being read.
pub proof fn lemma_settle_body(
    body: Seq<Instr>,
    tail: Seq<Instr>,
    functions: Seq<FunctionView>,
    function: FunctionView,
)
    requires
        forall|k: int| 0 <= k < body.len() ==> lower_line(#[trigger] body[k]) is Stmt,
    ensures
        settle(body + tail, functions, Some(function)) == settle(
            tail,
            functions,
            Some(FunctionView { body: function.body + lower_body(body), ..function }),
        ),
    decreases body.len(),
{
    if body.len() == 0 {
        assert(body + tail =~= tail);
        assert(function.body + lower_body(body) =~= function.body);
    } else {
        let all = body + tail;
        let rest = body.skip(1);
        assert(all[0] == body[0]);
        assert(all.skip(1) =~= rest + tail);
        let stmt = lower_line(body[0])->Stmt_0;
        let next = FunctionView { body: function.body.push(stmt), ..function };
        assert forall|k: int| 0 <= k < rest.len() implies lower_line(#[trigger] rest[k]) is Stmt by {
            assert(rest[k] == body[k + 1]);
        }
        lemma_settle_body(rest, tail, functions, next);
        assert(next.body + lower_body(rest) =~= function.body + lower_body(body));
    }
}

/// The function that the code of a function stands for.
pub open spec fn lower_unit(name: Seq<char>, params: Seq<Seq<char>>, body: Seq<Instr>) -> FunctionView {
    FunctionView { name, params, body: lower_body(body) }
}

/// The code of a function adds the function to the functions read so far.
pub proof fn lemma_settle_unit(
    name: Seq<char>,
    params: Seq<Seq<char>>,
    body: Seq<Instr>,
    functions: Seq<FunctionView>,
)
    requires
        forall|k: int| 0 <= k < body.len() ==> lower_line(#[trigger] body[k]) is Stmt,
    ensures
        settle(function_code(name, params, body), functions, None) == Ok::<
            (Seq<FunctionView>, Option<FunctionView>),
            Seq<char>,
        >((functions.push(lower_unit(name, params, body)), None)),
{
    let head = Instr::Func { name, params };
    let unit = function_code(name, params, body);
    let tail = seq![Instr::EndFunc];
    let start = FunctionView { name, params, body: Seq::empty() };
    assert(unit[0] == head);
    assert(unit.skip(1) =~= body + tail);
    lemma_settle_body(body, tail, functions, start);
    assert(start.body + lower_body(body) =~= lower_body(body));
    let whole = lower_unit(name, params, body);
    assert(whole == (FunctionView { body: start.body + lower_body(body), ..start }));
    assert(tail.skip(1) =~= Seq::<Instr>::empty());
    assert(tail[0] == Instr::EndFunc);
    assert(lower_line(head) == LineView::Func(name, params));
    assert(settle(unit, functions, None) == settle(unit.skip(1), functions, Some(start)));
    assert(settle(tail, functions, Some(whole)) == settle(
        tail.skip(1),
        functions.push(whole),
        None,
    ));
    assert(settle(Seq::<Instr>::empty(), functions.push(whole), None) == Ok::<
        (Seq<FunctionView>, Option<FunctionView>),
        Seq<char>,
    >((functions.push(whole), None)));
}

/// What code becomes is what its first part becomes and then its second.
pub proof fn lemma_settle_concat(
    a: Seq<Instr>,
    b: Seq<Instr>,
    functions: Seq<FunctionView>,
    current: Option<FunctionView>,
)
    ensures
        settle(a + b, functions, current) == match settle(a, functions, current) {
            Ok((found, open)) => settle(b, found, open),
            Err(message) => Err(message),
        },
    decreases a.len(),
{
    if a.len() == 0 {
        assert(a + b =~= b);
    } else {
        let all = a + b;
        assert(all[0] == a[0]);
        assert(all.skip(1) =~= a.skip(1) + b);
        match (lower_line(a[0]), current) {
            (LineView::Func(name, params), None) => {
                lemma_settle_concat(
                    a.skip(1),
                    b,
                    functions,
                    Some(FunctionView { name, params, body: Seq::empty() }),
                );
            },
            (LineView::EndFunc, Some(function)) => {
                lemma_settle_concat(a.skip(1), b, functions.push(function), None);
            },
            (LineView::Stmt(stmt), Some(function)) => {
                lemma_settle_concat(
                    a.skip(1),
                    b,
                    functions,
                    Some(FunctionView { body: function.body.push(stmt), ..function }),
                );
            },
            _ => {},
        }
    }
}

/// Whether the statements of a function find what they name: a jump its
/// label in the function, a call its function among `names`.
pub open spec fn unit_finds(function: FunctionView, names: Seq<Seq<char>>) -> bool {
    forall|k: int|
        0 <= k < function.body.len() ==> match #[trigger] function.body[k] {
            StmtView::Jmp(target) => lookup_label(label_table(function.body), target) is Some,
            StmtView::BranchIf(_, target) => lookup_label(label_table(function.body), target)
                is Some,
            StmtView::BranchIfn(_, target) => lookup_label(label_table(function.body), target)
                is Some,
            StmtView::Call(_, name, _) => names.contains(name),
            _ => true,
        }
}

/// Whether functions have the given names, in order, their statements
/// find what they name, and each takes its names for what they are.
pub open spec fn linked(functions: Seq<FunctionView>, names: Seq<Seq<char>>) -> bool {
    &&& functions.len() == names.len()
    &&& forall|j: int|
        0 <= j < functions.len() ==> (#[trigger] functions[j]).name == names[j] && unit_finds(
            functions[j],
            names,
        ) && function_typed(functions[j])
}

/// Functions that are linked stay so when one more joins them.
pub proof fn lemma_linked_more(
    functions: Seq<FunctionView>,
    names: Seq<Seq<char>>,
    function: FunctionView,
)
    requires
        linked(functions, names),
        unit_finds(function, names.push(function.name)),
        function_typed(function),
    ensures
        linked(functions.push(function), names.push(function.name)),
{
    let more = names.push(function.name);
    assert forall|name: Seq<char>| names.contains(name) implies more.contains(name) by {
        let i = choose|i: int| 0 <= i < names.len() && names[i] == name;
        assert(more[i] == name);
    }
    assert forall|j: int| 0 <= j < functions.push(function).len() implies (
    #[trigger] functions.push(function)[j]).name == more[j] && unit_finds(
        functions.push(function)[j],
        more,
    ) && function_typed(functions.push(function)[j]) by {
        if j < functions.len() {
            let f = functions[j];
            assert(functions.push(function)[j] == f);
            assert(unit_finds(f, names));
            assert forall|k: int| 0 <= k < f.body.len() implies match #[trigger] f.body[k] {
                StmtView::Jmp(target) => lookup_label(label_table(f.body), target) is Some,
                StmtView::BranchIf(_, target) => lookup_label(label_table(f.body), target) is Some,
                StmtView::BranchIfn(_, target) => lookup_label(label_table(f.body), target)
                    is Some,
                StmtView::Call(_, name, _) => more.contains(name),
                _ => true,
            } by {}
        }
    }
}

/// In a program whose functions are linked every jump and every call
/// finds what it names, and every function takes its names for what they
/// are.
pub proof fn lemma_linked_resolves(functions: Seq<FunctionView>, names: Seq<Seq<char>>)
    requires
        linked(functions, names),
    ensures
        resolvable(ProgramView { functions }),
        typed(ProgramView { functions }),
{
    let program = ProgramView { functions };
    assert forall|f: int| 0 <= f < functions.len() implies function_typed(
        #[trigger] program.functions[f],
    ) by {
        assert(function_typed(functions[f]));
    }
    assert forall|f: int, k: int|
        0 <= f < functions.len() && 0 <= k < functions[f].body.len() implies finds(
        program,
        functions[f],
        #[trigger] functions[f].body[k],
    ) by {
        assert(unit_finds(functions[f], names));
        match functions[f].body[k] {
            StmtView::Call(_, name, _) => {
                let j = choose|j: int| 0 <= j < names.len() && names[j] == name;
                assert(functions[j].name == name);
                lemma_function_found(functions, name, 0, j);
            },
            _ => {},
        }
    }
}

/// The statements of the code of a function find what they name.
pub proof fn lemma_unit_finds(
    name: Seq<char>,
    params: Seq<Seq<char>>,
    body: Seq<Instr>,
    scope: Scope,
    lo: Counters,
    hi: Counters,
)
    requires
        closed(body, scope, lo, hi, Seq::empty()),
        counted(body, lo, hi),
    ensures
        unit_finds(lower_unit(name, params, body), scope.functions),
{
    let function = lower_unit(name, params, body);
    let stmts = function.body;
    assert forall|target: Seq<char>| fresh_label(target, lo, hi) implies lookup_label(
        label_table(stmts),
        target,
    ) is Some by {
        let label = Instr::Label { name: target };
        assert(count(body, label) == 1);
        lemma_count_contains(body, label);
        let m = choose|m: int| 0 <= m < body.len() && body[m] == label;
        assert(stmts[m] == StmtView::Label(target));
        lemma_label_table_holds(stmts, m, target);
        lemma_lookup_finds(label_table(stmts), target);
    }
    assert forall|k: int| 0 <= k < stmts.len() implies match #[trigger] stmts[k] {
        StmtView::Jmp(target) => lookup_label(label_table(stmts), target) is Some,
        StmtView::BranchIf(_, target) => lookup_label(label_table(stmts), target) is Some,
        StmtView::BranchIfn(_, target) => lookup_label(label_table(stmts), target) is Some,
        StmtView::Call(_, func, _) => scope.functions.contains(func),
        _ => true,
    } by {
        assert(instr_ok(body[k], scope, lo, hi, Seq::empty()));
        assert(stmts[k] == lower_line(body[k])->Stmt_0);
    }
}

/// Whether a piece of code can be written and read back as a program:
/// each instruction can, and the instructions make whole functions, which
/// have the given names and whose statements find what they name.
pub open spec fn readable(code: Seq<Instr>, names: Seq<Seq<char>>) -> bool {
    &&& valid_code(code)
    &&& settle(code, Seq::empty(), None) matches Ok((functions, None)) && linked(functions, names)
}

/// The code of a function of tokens whose identifiers are names can be
/// written and read back, and stands for one function.
pub proof fn lemma_function_readable(
    tokens: Seq<TokenView>,
    at: int,
    functions: Seq<Seq<char>>,
    counters: Counters,
    read: Seq<FunctionView>,
)
    requires
        identifiers_are_names(tokens),
        all_words(functions),
        linked(read, functions),
    ensures
        ({
            let unit = function(tokens, at, functions, counters);
            unit.result matches Ok(Some(code)) ==> {
                &&& valid_code(code)
                &&& all_words(unit.functions)
                &&& settle(code, read, None) matches Ok((found, None)) && linked(
                    found,
                    unit.functions,
                )
            }
        }),
{
    reveal(function);
    let unit = function(tokens, at, functions, counters);
    if let Ok(Some(code)) = unit.result {
        let name = token_at(tokens, at + 1)->0->Ident_0;
        let known = functions.push(name);
        let header = parameters(tokens, at + 3, Seq::empty());
        let params = header.result->Ok_0;
        lemma_token_word(tokens, at + 1);
        lemma_words_push(functions, name);
        lemma_words_parameters(tokens, at + 3, Seq::empty());
        let start = ParseState {
            at: header.at,
            counters,
            scope: Scope { symbols: params, arrays: Seq::empty(), functions: known },
            labels: Seq::empty(),
        };
        let open = "expected '{' for function"@;
        let close = "expected '}' after function"@;
        lemma_block(tokens, start, open, close);
        lemma_words_block(tokens, start, open, close);
        let body = block(tokens, start, open, close);
        let b = body.result->Ok_0;
        lemma_valid_body(b, body.state.scope, counters, body.state.counters);
        lemma_settle_unit(name, params, b, read);
        lemma_unit_finds(name, params, b, body.state.scope, counters, body.state.counters);
        lemma_parameters(tokens, at + 3, Seq::empty());
        assert(Seq::<Seq<char>>::empty() + declared_arrays(b) =~= declared_arrays(b));
        lemma_unit_typed(name, params, b, body.state.scope, counters, body.state.counters);
        lemma_linked_more(read, functions, lower_unit(name, params, b));
        assert forall|k: int| 0 <= k < code.len() implies valid_instr(#[trigger] code[k]) by {
            if 0 < k < code.len() - 1 {
                assert(code[k] == b[k - 1]);
            }
        }
    }
}

/// The code of functions of tokens whose identifiers are names can be
/// written and read back as a program, after code that can.
pub proof fn lemma_functions_readable(
    tokens: Seq<TokenView>,
    at: int,
    functions: Seq<Seq<char>>,
    counters: Counters,
    code: Seq<Instr>,
)
    requires
        identifiers_are_names(tokens),
        all_words(functions),
        readable(code, functions),
    ensures
        ({
            let found = functions_from(tokens, at, functions, counters, code);
            found.result matches Ok(Some(all)) ==> readable(all, found.functions)
        }),
    decreases tokens.len() - at,
{
    reveal(functions_from);
    reveal(function);
    let read = settle(code, Seq::empty(), None)->Ok_0.0;
    lemma_function_readable(tokens, at, functions, counters, read);
    let one = function(tokens, at, functions, counters);
    match one.result {
        Ok(Some(more)) => {
            if at < one.at <= tokens.len() {
                let all = code + more;
                lemma_settle_concat(code, more, Seq::empty(), None);
                assert forall|k: int| 0 <= k < all.len() implies valid_instr(#[trigger] all[k]) by {
                    if k < code.len() {
                        assert(all[k] == code[k]);
                    } else {
                        assert(all[k] == more[k - code.len()]);
                    }
                }
                lemma_functions_readable(tokens, one.at, one.functions, one.counters, all);
            }
        },
        _ => {},
    }
}

/// What the parser writes, the interpreter reads: the text of the code of
/// a program of tokens whose identifiers are names is read without an
/// error, as the program that the code stands for, and in that program
/// every jump finds its label, every call its function, every name is an
/// integer only or an array only, and there is a function `main`.
pub proof fn lemma_program_reads_back(tokens: Seq<TokenView>, at: int)
    requires
        identifiers_are_names(tokens),
    ensures
        program(tokens, at).result matches Ok(code) ==> program_of(render(code)) == lowered(code)
            && (lowered(code) matches Ok(found) && resolvable(found) && typed(found)
            && function_index(found.functions, "main"@, 0) is Some),
{
    reveal(program);
    let zero = Counters { temps: 0, loops: 0, branches: 0 };
    lemma_functions_readable(tokens, at, Seq::empty(), zero, Seq::empty());
    if let Ok(code) = program(tokens, at).result {
        lemma_reads_back(code);
        let functions = settle(code, Seq::empty(), None)->Ok_0.0;
        let names = program(tokens, at).functions;
        lemma_linked_resolves(functions, names);
        let j = choose|j: int| 0 <= j < names.len() && names[j] == "main"@;
        assert(functions[j].name == "main"@);
        lemma_function_found(functions, "main"@, 0, j);
    }
}

/// What is compiled can be run: where the scanner finds the tokens of a
/// text and the parser a program in them, the text of the program's code is
/// read without an error, and in the program that is read every jump finds
/// its label, every call its function, and every name is an integer only
/// or an array only.
pub proof fn lemma_compiled_text_loads(source: Seq<char>)
    ensures
        spec_lex(source) matches Ok(tokens) ==> (program(tokens, 0).result matches Ok(code) ==> (
        program_of(render(code)) matches Ok(found) && resolvable(found) && typed(found)
            && function_index(found.functions, "main"@, 0) is Some)),
{
    lemma_lex_names(source);
    if let Ok(tokens) = spec_lex(source) {
        lemma_program_reads_back(tokens, 0);
    }
}

} // verus!
