//! The parser: one pass over the tokens that checks the static rules and
//! writes the intermediate representation.

use crate::grammar::{
    additive, assignment, binary, block, bool_operation, branch_code, call, call_arguments,
    condition_in, declaration, done, element, expression, expression_rest, function,
    functions_from, if_statement, jump_statement, lemma_render_binary, lemma_render_branch,
    lemma_render_call, lemma_render_element, lemma_render_function, lemma_render_loop,
    lemma_render_parts, loop_code, mul_expression, mul_rest, multiplicative, no_token,
    parameters, program, relational, return_statement, statement, statements, term,
    transfer_statement, while_statement, Counters, ExprIr, ParseState, Scope, Step, Unit,
};
use crate::ir::{
    branch_else, branch_end, branch_then, call_line, comma_list, declared, func_line,
    group_render, indexed, lemma_render_concat, lemma_render_empty, line1, line2, line3,
    loop_begin, loop_end, opcode, render, render_instr, render_operand, render_operands,
    temp_name, Instr, Operand,
};
use crate::laws::{balanced, defined_once, lemma_program, scoped, unique};
use crate::text::{push_decimal, push_integer};
use crate::token::{token_views, Token};
use std::collections::VecDeque;
use vstd::prelude::*;
use vstd::string::*;

verus! {

/// The code that computes an expression, and the name of what holds its
/// value: a variable, a temporary, or the digits of a number.
pub struct Expression {
    pub code: String,
    pub name: String,
}

/// The counters from which the parser makes fresh names: one for
/// temporaries, one for the labels of loops, one for those of conditionals.
pub struct NameSupply {
    pub temps: u64,
    pub loops: u64,
    pub branches: u64,
}

impl View for NameSupply {
    type V = Counters;

    open spec fn view(&self) -> Counters {
        Counters {
            temps: self.temps as nat,
            loops: self.loops as nat,
            branches: self.branches as nat,
        }
    }
}

impl NameSupply {
    /// A supply from which no name has been taken.
    pub fn new() -> (names: NameSupply)
        ensures
            names@ == (Counters { temps: 0, loops: 0, branches: 0 }),
    {
        NameSupply { temps: 0, loops: 0, branches: 0 }
    }
}

/// The contents of a table of names.
pub open spec fn names_of(table: Seq<String>) -> Seq<Seq<char>> {
    Seq::new(table.len(), |i: int| table[i]@)
}

/// The scope that three tables of names stand for.
pub open spec fn scope_of(
    symbol_table: Seq<String>,
    function_table: Seq<String>,
    arr_table: Seq<String>,
) -> Scope {
    Scope {
        symbols: names_of(symbol_table),
        arrays: names_of(arr_table),
        functions: names_of(function_table),
    }
}

/// Whether each counter can still grow by the number of tokens left.
pub open spec fn room(names: NameSupply, left: int) -> bool {
    &&& names.temps + left <= u64::MAX
    &&& names.loops + left <= u64::MAX
    &&& names.branches + left <= u64::MAX
}

/// What holds of every parsing function: the position only moves forward
/// and stays within the tokens, and each counter grows by no more than the
/// number of tokens consumed.
pub open spec fn progress(len: int, from: int, to: int, before: NameSupply, now: NameSupply) -> bool {
    &&& from <= to
    &&& to <= len || to == from
    &&& before.temps <= now.temps <= before.temps + (to - from)
    &&& before.loops <= now.loops <= before.loops + (to - from)
    &&& before.branches <= now.branches <= before.branches + (to - from)
}

/// Whether an expression's text is that of the given code and operand.
pub open spec fn expression_is(e: Expression, ir: ExprIr) -> bool {
    e.code@ == render(ir.code) && e.name@ == render_operand(ir.operand)
}

/// Whether what an expression parser returned and left behind is what the
/// grammar says.
pub open spec fn parsed(
    step: Step<ExprIr>,
    result: Result<Expression, String>,
    index: usize,
    names: NameSupply,
    before: NameSupply,
) -> bool {
    &&& index == step.at
    &&& names.temps == step.temps
    &&& names.loops == before.loops
    &&& names.branches == before.branches
    &&& match step.result {
        Ok(ir) => result is Ok && expression_is(result->Ok_0, ir),
        Err(message) => result is Err && result->Err_0@ == message,
    }
}

/// The token at `index`, if there is one.
pub fn peek<'a>(tokens: &'a Vec<Token>, index: usize) -> (r: Option<&'a Token>)
    ensures
        r == (if index < tokens.len() {
            Some(&tokens[index as int])
        } else {
            None
        }),
{
    if index < tokens.len() {
        return Some(&tokens[index]);
    } else {
        return None;
    }
}

/// The token at `index`, or the error for a token that is missing.
pub fn peek_result<'a>(tokens: &'a Vec<Token>, index: usize) -> (r: Result<&'a Token, String>)
    ensures
        index < tokens.len() ==> r == Ok::<&Token, String>(&tokens[index as int]),
        index >= tokens.len() ==> r is Err && r->Err_0@ == no_token(),
{
    if index < tokens.len() {
        return Ok(&tokens[index]);
    } else {
        return Err(String::from_str("expected a token, but got nothing"));
    }
}

/// The token at `index`, if there is one; the index then moves past it.
pub fn next<'a>(tokens: &'a Vec<Token>, index: &mut usize) -> (r: Option<&'a Token>)
    ensures
        *old(index) < tokens.len() ==> r == Some(&tokens[*old(index) as int]) && *final(index)
            == *old(index) + 1,
        *old(index) >= tokens.len() ==> r is None && *final(index) == *old(index),
{
    if *index < tokens.len() {
        let ret = *index;
        *index += 1;
        return Some(&tokens[ret]);
    } else {
        return None;
    }
}

/// The token at `index`, past which the index then moves, or the error for
/// a token that is missing.
pub fn next_result<'a>(tokens: &'a Vec<Token>, index: &mut usize) -> (r: Result<&'a Token, String>)
    ensures
        *old(index) < tokens.len() ==> r == Ok::<&Token, String>(&tokens[*old(index) as int])
            && *final(index) == *old(index) + 1,
        *old(index) >= tokens.len() ==> r is Err && r->Err_0@ == no_token() && *final(index)
            == *old(index),
{
    if *index < tokens.len() {
        let ret = *index;
        *index += 1;
        return Ok(&tokens[ret]);
    } else {
        return Err(String::from_str("expected a token, but got nothing"));
    }
}

/// Whether a table holds a name.
pub fn find_symbol(symbol_table: &Vec<String>, symbol: &String) -> (found: bool)
    ensures
        found == names_of(symbol_table@).contains(symbol@),
{
    let mut i: usize = 0;
    while i < symbol_table.len()
        invariant
            i <= symbol_table.len(),
            forall|k: int| 0 <= k < i ==> symbol_table[k]@ != symbol@,
        decreases symbol_table.len() - i,
    {
        if symbol_table[i] == *symbol {
            assert(names_of(symbol_table@)[i as int] == symbol@);
            return true;
        }
        i += 1;
    }
    false
}

/// Takes the next temporary from the supply and returns its name.
pub fn create_temp(names: &mut NameSupply) -> (name: String)
    requires
        old(names).temps < u64::MAX,
    ensures
        final(names).temps == old(names).temps + 1,
        final(names).loops == old(names).loops,
        final(names).branches == old(names).branches,
        name@ == temp_name(final(names).temps as nat),
{
    names.temps = names.temps + 1;
    let mut name = String::from_str("_temp");
    push_decimal(&mut name, names.temps);
    name
}

/// Takes the labels of the next loop from the supply: where the loop
/// begins, and where it ends.
pub fn get_unique_loop_labels(names: &mut NameSupply) -> (labels: (String, String))
    requires
        old(names).loops < u64::MAX,
    ensures
        final(names).loops == old(names).loops + 1,
        final(names).temps == old(names).temps,
        final(names).branches == old(names).branches,
        labels.0@ == loop_begin(final(names).loops as nat),
        labels.1@ == loop_end(final(names).loops as nat),
{
    names.loops = names.loops + 1;
    let mut begin = String::from_str(":beginloop");
    push_decimal(&mut begin, names.loops);
    let mut end = String::from_str(":endloop");
    push_decimal(&mut end, names.loops);
    (begin, end)
}

/// Takes the labels of the next conditional from the supply: its first
/// branch, its second branch, and what follows it.
pub fn get_if_labels(names: &mut NameSupply) -> (labels: (String, String, String))
    requires
        old(names).branches < u64::MAX,
    ensures
        final(names).branches == old(names).branches + 1,
        final(names).temps == old(names).temps,
        final(names).loops == old(names).loops,
        labels.0@ == branch_then(final(names).branches as nat),
        labels.1@ == branch_else(final(names).branches as nat),
        labels.2@ == branch_end(final(names).branches as nat),
{
    names.branches = names.branches + 1;
    let mut first = String::from_str(":iftrue");
    push_decimal(&mut first, names.branches);
    let mut second = String::from_str(":else");
    push_decimal(&mut second, names.branches);
    let mut end = String::from_str(":endif");
    push_decimal(&mut end, names.branches);
    (first, second, end)
}

/// Appends a line with one operand.
pub fn emit1(code: &mut String, opcode: &str, a: &str)
    ensures
        final(code)@ == old(code)@ + line1(opcode@, a@),
{
    code.append(opcode);
    code.append(" ");
    code.append(a);
    code.append("\n");
    assert(code@ =~= old(code)@ + line1(opcode@, a@));
}

/// Appends a line with two operands.
pub fn emit2(code: &mut String, opcode: &str, a: &str, b: &str)
    ensures
        final(code)@ == old(code)@ + line2(opcode@, a@, b@),
{
    code.append(opcode);
    code.append(" ");
    code.append(a);
    code.append(", ");
    code.append(b);
    code.append("\n");
    assert(code@ =~= old(code)@ + line2(opcode@, a@, b@));
}

/// Appends a line with three operands.
pub fn emit3(code: &mut String, opcode: &str, a: &str, b: &str, c: &str)
    ensures
        final(code)@ == old(code)@ + line3(opcode@, a@, b@, c@),
{
    code.append(opcode);
    code.append(" ");
    code.append(a);
    code.append(", ");
    code.append(b);
    code.append(", ");
    code.append(c);
    code.append("\n");
    assert(code@ =~= old(code)@ + line3(opcode@, a@, b@, c@));
}

/// An array element as an operand.
pub fn element_of(array: &str, index: &str) -> (name: String)
    ensures
        name@ == indexed(array@, index@),
{
    let mut name = String::from_str("[");
    name.append(array);
    name.append(" + ");
    name.append(index);
    name.append("]");
    assert(name@ =~= indexed(array@, index@));
    name
}

/// A message made of a fixed text, a name, and a second fixed text.
pub fn message_about(before: &str, name: &str, after: &str) -> (message: String)
    ensures
        message@ == before@ + name@ + after@,
{
    let mut message = String::from_str(before);
    message.append(name);
    message.append(after);
    message
}

/// A list with one more item is the list, a comma and the item.
pub proof fn lemma_comma_list_push(items: Seq<Seq<char>>, item: Seq<char>)
    ensures
        comma_list(items.push(item)) == if items.len() == 0 {
            item
        } else {
            comma_list(items) + ", "@ + item
        },
{
    assert(items.push(item).drop_last() =~= items);
}

/// Appends the items of a list, with `, ` between each two.
pub fn emit_list(code: &mut String, items: &Vec<String>)
    ensures
        final(code)@ == old(code)@ + comma_list(names_of(items@)),
{
    let mut i: usize = 0;
    assert(names_of(items@).take(0) =~= Seq::empty());
    assert(code@ =~= old(code)@ + Seq::<char>::empty());
    while i < items.len()
        invariant
            i <= items.len(),
            code@ == old(code)@ + comma_list(names_of(items@).take(i as int)),
        decreases items.len() - i,
    {
        let ghost shown = names_of(items@).take(i as int);
        proof {
            lemma_comma_list_push(shown, items[i as int]@);
            assert(names_of(items@).take(i + 1) =~= shown.push(items[i as int]@));
        }
        if i > 0 {
            code.append(", ");
        }
        code.append(items[i].as_str());
        assert(code@ =~= old(code)@ + comma_list(names_of(items@).take(i + 1)));
        i += 1;
    }
    assert(names_of(items@).take(i as int) =~= names_of(items@));
}

/// The opcode for `+` or `-`.
pub fn additive_opcode(token: &Token) -> (r: Option<&'static str>)
    ensures
        match additive(token@) {
            Some(op) => r is Some && r->0@ == opcode(op),
            None => r is None,
        },
{
    match token {
        Token::Plus => Some("%add"),
        Token::Subtract => Some("%sub"),
        _ => None,
    }
}

/// The opcode for `*`, `/` or `%`.
pub fn multiplicative_opcode(token: &Token) -> (r: Option<&'static str>)
    ensures
        match multiplicative(token@) {
            Some(op) => r is Some && r->0@ == opcode(op),
            None => r is None,
        },
{
    match token {
        Token::Multiply => Some("%mult"),
        Token::Modulus => Some("%mod"),
        Token::Divide => Some("%div"),
        _ => None,
    }
}

/// The opcode for a comparison.
pub fn relational_opcode(token: &Token) -> (r: Option<&'static str>)
    ensures
        match relational(token@) {
            Some(op) => r is Some && r->0@ == opcode(op),
            None => r is None,
        },
{
    match token {
        Token::Equality => Some("%eq"),
        Token::NotEqual => Some("%neq"),
        Token::Greater => Some("%gt"),
        Token::GreaterEqual => Some("%ge"),
        Token::Less => Some("%lt"),
        Token::LessEqual => Some("%le"),
        _ => None,
    }
}

/// A message made of a fixed text and a name.
pub fn message_naming(before: &str, name: &str) -> (message: String)
    ensures
        message@ == before@ + name@,
{
    let mut message = String::from_str(before);
    message.append(name);
    message
}

/// Appends a call line.
pub fn emit_call(code: &mut String, dst: &str, func: &str, args: &Vec<String>)
    ensures
        final(code)@ == old(code)@ + call_line(dst@, func@, names_of(args@)),
{
    let ghost start = code@;
    code.append("%call ");
    code.append(dst);
    code.append(", ");
    code.append(func);
    code.append("(");
    emit_list(code, args);
    code.append(")\n");
    assert(code@ =~= start + call_line(dst@, func@, names_of(args@)));
}

/// Whether what the argument parser returned and left behind is what the
/// grammar says.
pub open spec fn parsed_arguments(
    step: Step<(Seq<Instr>, Seq<Operand>)>,
    result: Result<(String, Vec<String>), String>,
    index: usize,
    names: NameSupply,
    before: NameSupply,
) -> bool {
    &&& index == step.at
    &&& names.temps == step.temps
    &&& names.loops == before.loops
    &&& names.branches == before.branches
    &&& match step.result {
        Ok((code, operands)) => result is Ok && result->Ok_0.0@ == render(code) && names_of(
            result->Ok_0.1@,
        ) == render_operands(operands),
        Err(message) => result is Err && result->Err_0@ == message,
    }
}

/// Parses the arguments of a call, from after `(` through `)`: expressions
/// with commas between them. Returns the code that computes them, and the
/// names of what holds their values.
pub fn parse_arguments(
    tokens: &Vec<Token>,
    index: &mut usize,
    symbol_table: &mut Vec<String>,
    function_table: &mut Vec<String>,
    arr_table: &mut Vec<String>,
    names: &mut NameSupply,
) -> (result: Result<(String, Vec<String>), String>)
    requires
        room(*old(names), tokens.len() - *old(index)),
    ensures
        final(symbol_table)@ == old(symbol_table)@,
        final(function_table)@ == old(function_table)@,
        final(arr_table)@ == old(arr_table)@,
        parsed_arguments(
            call_arguments(
                token_views(tokens@),
                scope_of(old(symbol_table)@, old(function_table)@, old(arr_table)@),
                *old(index) as int,
                old(names).temps as nat,
                Seq::empty(),
                Seq::empty(),
            ),
            result,
            *final(index),
            *final(names),
            *old(names),
        ),
        progress(
            tokens.len() as int,
            *old(index) as int,
            *final(index) as int,
            *old(names),
            *final(names),
        ),
    decreases tokens.len() - *old(index), 3nat,
{
    broadcast use group_render;

    let ghost views = token_views(tokens@);
    let ghost scope = scope_of(symbol_table@, function_table@, arr_table@);
    let ghost from = *index as int;
    let ghost before = *names;
    let ghost all = call_arguments(
        views,
        scope,
        from,
        before.temps as nat,
        Seq::empty(),
        Seq::empty(),
    );
    let mut code = String::new();
    let mut args: Vec<String> = Vec::new();
    let ghost mut acc_code: Seq<Instr> = Seq::empty();
    let ghost mut acc_ops: Seq<Operand> = Seq::empty();
    assert(names_of(args@) =~= render_operands(acc_ops));
    loop
        invariant_except_break
            all == call_arguments(views, scope, *index as int, names.temps as nat, acc_code, acc_ops),
        invariant
            views == token_views(tokens@),
            scope == scope_of(symbol_table@, function_table@, arr_table@),
            symbol_table@ == old(symbol_table)@,
            function_table@ == old(function_table)@,
            arr_table@ == old(arr_table)@,
            from == *old(index),
            before == *old(names),
            room(before, tokens.len() - from),
            progress(tokens.len() as int, from, *index as int, before, *names),
            names.loops == before.loops,
            names.branches == before.branches,
            all == call_arguments(
                views,
                scope,
                from,
                before.temps as nat,
                Seq::empty(),
                Seq::empty(),
            ),
            code@ == render(acc_code),
            names_of(args@) == render_operands(acc_ops),
        ensures
            all == done(*index as int, names.temps as nat, (acc_code, acc_ops)),
        decreases tokens.len() - *index,
    {
        proof {
            reveal(call_arguments);
            reveal(expression);
        }
        if matches!(peek_result(tokens, *index)?, Token::RightParen) {
            *index += 1;
            break ;
        }
        let ghost here = *index as int;
        let ghost temps = names.temps as nat;
        let arg = parse_expression(tokens, index, symbol_table, function_table, arr_table, names)?;
        let ghost e = expression(views, scope, here, temps).result->Ok_0;
        assert(arg.name@ == render_operand(e.operand));
        let ghost shown = names_of(args@);
        code.append(arg.code.as_str());
        args.push(arg.name);
        proof {
            assert(names_of(args@) =~= shown.push(render_operand(e.operand)));
            assert(render_operands(acc_ops.push(e.operand)) =~= render_operands(acc_ops).push(
                render_operand(e.operand),
            ));
            lemma_render_concat(acc_code, e.code);
            acc_code = acc_code + e.code;
            acc_ops = acc_ops.push(e.operand);
        }
        if matches!(peek_result(tokens, *index)?, Token::Comma) {
            *index += 1;
        } else if matches!(peek_result(tokens, *index)?, Token::RightParen) {
            *index += 1;
            break ;
        } else {
            return Err(String::from_str("expected ',' or ')' in function call"));
        }
    }
    Ok((code, args))
}

/// Parses a term: a number, a variable, a call `f(e, ...)`, an array
/// element `a[e]`, or an expression in parentheses. A name has to be known
/// in the table for its kind.
pub fn parse_term(
    tokens: &Vec<Token>,
    index: &mut usize,
    symbol_table: &mut Vec<String>,
    function_table: &mut Vec<String>,
    arr_table: &mut Vec<String>,
    names: &mut NameSupply,
) -> (result: Result<Expression, String>)
    requires
        room(*old(names), tokens.len() - *old(index)),
    ensures
        final(symbol_table)@ == old(symbol_table)@,
        final(function_table)@ == old(function_table)@,
        final(arr_table)@ == old(arr_table)@,
        parsed(
            term(
                token_views(tokens@),
                scope_of(old(symbol_table)@, old(function_table)@, old(arr_table)@),
                *old(index) as int,
                old(names).temps as nat,
            ),
            result,
            *final(index),
            *final(names),
            *old(names),
        ),
        progress(
            tokens.len() as int,
            *old(index) as int,
            *final(index) as int,
            *old(names),
            *final(names),
        ),
    decreases tokens.len() - *old(index), 0nat,
{
    broadcast use group_render;

    proof {

        reveal(term);
        reveal(call_arguments);
        reveal(expression);

    }

    let ghost views = token_views(tokens@);
    let ghost scope = scope_of(symbol_table@, function_table@, arr_table@);
    let ghost from = *index as int;
    let ghost before = *names;
    match next_result(tokens, index)? {
        Token::Ident(ident) => {
            if matches!(peek_result(tokens, *index)?, Token::LeftParen) {
                *index += 1;
                if !find_symbol(function_table, ident) {
                    return Err(message_about("Function ", ident.as_str(), " not initialised"));
                }
                let ghost all = call_arguments(
                    views,
                    scope,
                    from + 2,
                    before.temps as nat,
                    Seq::empty(),
                    Seq::empty(),
                );
                let (mut args_code, args) = parse_arguments(
                    tokens,
                    index,
                    symbol_table,
                    function_table,
                    arr_table,
                    names,
                )?;
                let temp = create_temp(names);
                emit1(&mut args_code, "%int", temp.as_str());
                emit_call(&mut args_code, temp.as_str(), ident.as_str(), &args);
                proof {
                    lemma_render_call(
                        ident@,
                        all.result->Ok_0.0,
                        all.result->Ok_0.1,
                        names.temps as nat,
                    );
                }
                return Ok(Expression { code: args_code, name: temp });
            } else if matches!(peek_result(tokens, *index)?, Token::LeftBracket) {
                *index += 1;
                if !find_symbol(arr_table, ident) {
                    return Err(message_about("Array ", ident.as_str(), " undeclared"));
                }
                let position = parse_expression(
                    tokens,
                    index,
                    symbol_table,
                    function_table,
                    arr_table,
                    names,
                )?;
                let ghost i = expression(views, scope, from + 2, before.temps as nat).result->Ok_0;
                if !matches!(next_result(tokens, index)?, Token::RightBracket) {
                    return Err(String::from_str("expected ']'"));
                }
                let temp = create_temp(names);
                let mut code = String::new();
                emit1(&mut code, "%int", temp.as_str());
                code.append(position.code.as_str());
                let place = element_of(ident.as_str(), position.name.as_str());
                emit2(&mut code, "%mov", temp.as_str(), place.as_str());
                proof {
                    lemma_render_element(ident@, i, names.temps as nat);
                    assert(code@ =~= render(element(ident@, i, names.temps as nat).code));
                }
                return Ok(Expression { code, name: temp });
            } else {
                if !find_symbol(symbol_table, ident) {
                    return Err(message_naming("Error. undeclared variable ", ident.as_str()));
                }
                return Ok(Expression { code: String::new(), name: ident.clone() });
            }
        },
        Token::Num(num) => {
            let mut name = String::new();
            push_integer(&mut name, *num);
            assert(name@ =~= render_operand(Operand::Lit(*num as int)));
            return Ok(Expression { code: String::new(), name });
        },
        Token::LeftParen => {
            let inner = parse_expression(
                tokens,
                index,
                symbol_table,
                function_table,
                arr_table,
                names,
            )?;
            if !matches!(next_result(tokens, index)?, Token::RightParen) {
                return Err(String::from_str("expected ')'"));
            }
            return Ok(inner);
        },
        _ => {
            return Err(String::from_str("invalid expression"));
        },
    }
}

/// Parses a product: terms joined by `*`, `/` and `%`, grouped from the
/// left. Each operation gets a fresh temporary for its result.
pub fn parse_mul_expression(
    tokens: &Vec<Token>,
    index: &mut usize,
    symbol_table: &mut Vec<String>,
    function_table: &mut Vec<String>,
    arr_table: &mut Vec<String>,
    names: &mut NameSupply,
) -> (result: Result<Expression, String>)
    requires
        room(*old(names), tokens.len() - *old(index)),
    ensures
        final(symbol_table)@ == old(symbol_table)@,
        final(function_table)@ == old(function_table)@,
        final(arr_table)@ == old(arr_table)@,
        parsed(
            mul_expression(
                token_views(tokens@),
                scope_of(old(symbol_table)@, old(function_table)@, old(arr_table)@),
                *old(index) as int,
                old(names).temps as nat,
            ),
            result,
            *final(index),
            *final(names),
            *old(names),
        ),
        progress(
            tokens.len() as int,
            *old(index) as int,
            *final(index) as int,
            *old(names),
            *final(names),
        ),
    decreases tokens.len() - *old(index), 1nat,
{
    broadcast use group_render;

    proof {

        reveal(mul_expression);
        reveal(term);
        reveal(mul_rest);

    }

    let ghost views = token_views(tokens@);
    let ghost scope = scope_of(symbol_table@, function_table@, arr_table@);
    let ghost from = *index as int;
    let ghost before = *names;
    let ghost all = mul_expression(views, scope, from, before.temps as nat);
    let first = parse_term(tokens, index, symbol_table, function_table, arr_table, names)?;
    let mut code = first.code;
    let mut name = first.name;
    let ghost mut ir = term(views, scope, from, before.temps as nat).result->Ok_0;
    loop
        invariant_except_break
            all == mul_rest(views, scope, *index as int, names.temps as nat, ir),
        invariant
            views == token_views(tokens@),
            scope == scope_of(symbol_table@, function_table@, arr_table@),
            symbol_table@ == old(symbol_table)@,
            function_table@ == old(function_table)@,
            arr_table@ == old(arr_table)@,
            from == *old(index),
            before == *old(names),
            all == mul_expression(views, scope, from, before.temps as nat),
            room(before, tokens.len() - from),
            progress(tokens.len() as int, from, *index as int, before, *names),
            names.loops == before.loops,
            names.branches == before.branches,
            code@ == render(ir.code),
            name@ == render_operand(ir.operand),
        ensures
            all == done(*index as int, names.temps as nat, ir),
        decreases tokens.len() - *index,
    {
        proof {
            reveal(mul_rest);
            reveal(term);
        }
        let token = peek_result(tokens, *index)?;
        let found = multiplicative_opcode(token);
        if found.is_none() {
            break ;
        }
        let ghost op = multiplicative(token@)->0;
        let ghost here = *index as int;
        let ghost temps = names.temps as nat;
        *index += 1;
        let right = parse_term(tokens, index, symbol_table, function_table, arr_table, names)?;
        let ghost r = term(views, scope, here + 1, temps).result->Ok_0;
        let temp = create_temp(names);
        emit1(&mut code, "%int", temp.as_str());
        code.append(right.code.as_str());
        emit3(&mut code, found.unwrap(), temp.as_str(), name.as_str(), right.name.as_str());
        proof {
            lemma_render_binary(op, ir, r, names.temps as nat);
            ir = binary(op, ir, r, names.temps as nat);
        }
        name = temp;
    }
    Ok(Expression { code, name })
}

/// Parses an expression: products joined by `+` and `-`, grouped from the
/// left. Each operation gets a fresh temporary for its result.
pub fn parse_expression(
    tokens: &Vec<Token>,
    index: &mut usize,
    symbol_table: &mut Vec<String>,
    function_table: &mut Vec<String>,
    arr_table: &mut Vec<String>,
    names: &mut NameSupply,
) -> (result: Result<Expression, String>)
    requires
        room(*old(names), tokens.len() - *old(index)),
    ensures
        final(symbol_table)@ == old(symbol_table)@,
        final(function_table)@ == old(function_table)@,
        final(arr_table)@ == old(arr_table)@,
        parsed(
            expression(
                token_views(tokens@),
                scope_of(old(symbol_table)@, old(function_table)@, old(arr_table)@),
                *old(index) as int,
                old(names).temps as nat,
            ),
            result,
            *final(index),
            *final(names),
            *old(names),
        ),
        progress(
            tokens.len() as int,
            *old(index) as int,
            *final(index) as int,
            *old(names),
            *final(names),
        ),
    decreases tokens.len() - *old(index), 2nat,
{
    broadcast use group_render;

    proof {

        reveal(expression);
        reveal(mul_expression);
        reveal(expression_rest);

    }

    let ghost views = token_views(tokens@);
    let ghost scope = scope_of(symbol_table@, function_table@, arr_table@);
    let ghost from = *index as int;
    let ghost before = *names;
    let ghost all = expression(views, scope, from, before.temps as nat);
    let first = parse_mul_expression(tokens, index, symbol_table, function_table, arr_table, names)?;
    let mut code = first.code;
    let mut name = first.name;
    let ghost mut ir = mul_expression(views, scope, from, before.temps as nat).result->Ok_0;
    loop
        invariant_except_break
            all == expression_rest(views, scope, *index as int, names.temps as nat, ir),
        invariant
            views == token_views(tokens@),
            scope == scope_of(symbol_table@, function_table@, arr_table@),
            symbol_table@ == old(symbol_table)@,
            function_table@ == old(function_table)@,
            arr_table@ == old(arr_table)@,
            from == *old(index),
            before == *old(names),
            all == expression(views, scope, from, before.temps as nat),
            room(before, tokens.len() - from),
            progress(tokens.len() as int, from, *index as int, before, *names),
            names.loops == before.loops,
            names.branches == before.branches,
            code@ == render(ir.code),
            name@ == render_operand(ir.operand),
        ensures
            all == done(*index as int, names.temps as nat, ir),
        decreases tokens.len() - *index,
    {
        proof {
            reveal(expression_rest);
            reveal(mul_expression);
        }
        let token = peek_result(tokens, *index)?;
        let found = additive_opcode(token);
        if found.is_none() {
            break ;
        }
        let ghost op = additive(token@)->0;
        let ghost here = *index as int;
        let ghost temps = names.temps as nat;
        *index += 1;
        let right = parse_mul_expression(
            tokens,
            index,
            symbol_table,
            function_table,
            arr_table,
            names,
        )?;
        let ghost r = mul_expression(views, scope, here + 1, temps).result->Ok_0;
        let temp = create_temp(names);
        emit1(&mut code, "%int", temp.as_str());
        code.append(right.code.as_str());
        emit3(&mut code, found.unwrap(), temp.as_str(), name.as_str(), right.name.as_str());
        proof {
            lemma_render_binary(op, ir, r, names.temps as nat);
            ir = binary(op, ir, r, names.temps as nat);
        }
        name = temp;
    }
    Ok(Expression { code, name })
}

/// Parses a comparison of two terms. The temporary for its result is taken
/// before the operator is looked at.
pub fn parse_bool_operation(
    tokens: &Vec<Token>,
    index: &mut usize,
    symbol_table: &mut Vec<String>,
    function_table: &mut Vec<String>,
    arr_table: &mut Vec<String>,
    names: &mut NameSupply,
) -> (result: Result<Expression, String>)
    requires
        room(*old(names), tokens.len() - *old(index)),
    ensures
        final(symbol_table)@ == old(symbol_table)@,
        final(function_table)@ == old(function_table)@,
        final(arr_table)@ == old(arr_table)@,
        parsed(
            bool_operation(
                token_views(tokens@),
                scope_of(old(symbol_table)@, old(function_table)@, old(arr_table)@),
                *old(index) as int,
                old(names).temps as nat,
            ),
            result,
            *final(index),
            *final(names),
            *old(names),
        ),
        progress(
            tokens.len() as int,
            *old(index) as int,
            *final(index) as int,
            *old(names),
            *final(names),
        ),
{
    broadcast use group_render;

    proof {

        reveal(bool_operation);

    }

    let ghost views = token_views(tokens@);
    let ghost scope = scope_of(symbol_table@, function_table@, arr_table@);
    let ghost from = *index as int;
    let ghost before = *names;
    let left = parse_term(tokens, index, symbol_table, function_table, arr_table, names)?;
    let ghost l = term(views, scope, from, before.temps as nat).result->Ok_0;
    let operator = next_result(tokens, index)?;
    let ghost here = *index as int;
    let ghost temps = names.temps as nat;
    let right = parse_term(tokens, index, symbol_table, function_table, arr_table, names)?;
    let ghost r = term(views, scope, here, temps).result->Ok_0;
    let temp = create_temp(names);
    match relational_opcode(operator) {
        Some(op) => {
            let mut code = left.code;
            emit1(&mut code, "%int", temp.as_str());
            code.append(right.code.as_str());
            emit3(&mut code, op, temp.as_str(), left.name.as_str(), right.name.as_str());
            proof {
                lemma_render_binary(relational(operator@)->0, l, r, names.temps as nat);
            }
            Ok(Expression { code, name: temp })
        },
        None => Err(String::from_str("expect boolean operator (i.e. \"<\" or \"==\")...")),
    }
}

/// The contents of a stack of loop labels.
pub open spec fn labels_of(table: Seq<(String, String)>) -> Seq<(Seq<char>, Seq<char>)> {
    Seq::new(table.len(), |i: int| (table[i].0@, table[i].1@))
}

/// The state that a position, the four tables and a supply stand for.
pub open spec fn state_of(
    index: usize,
    symbol_table: Seq<String>,
    function_table: Seq<String>,
    arr_table: Seq<String>,
    label_table: Seq<(String, String)>,
    names: NameSupply,
) -> ParseState {
    ParseState {
        at: index as int,
        counters: names@,
        scope: scope_of(symbol_table, function_table, arr_table),
        labels: labels_of(label_table),
    }
}

/// Whether a text is that of the code that the grammar gives, or a message
/// the one that it gives.
pub open spec fn code_is(result: Result<String, String>, expected: Result<Seq<Instr>, Seq<char>>) -> bool {
    match expected {
        Ok(code) => result is Ok && result->Ok_0@ == render(code),
        Err(message) => result is Err && result->Err_0@ == message,
    }
}

/// The same for a result that may be nothing.
pub open spec fn statement_is(
    result: Result<Option<String>, String>,
    expected: Result<Option<Seq<Instr>>, Seq<char>>,
) -> bool {
    match expected {
        Ok(Some(code)) => result is Ok && result->Ok_0 is Some && result->Ok_0->0@ == render(code),
        Ok(None) => result is Ok && result->Ok_0 is None,
        Err(message) => result is Err && result->Err_0@ == message,
    }
}

/// Whether what a parser of part of a statement returned and left behind
/// is what the grammar says.
pub open spec fn parsed_code(
    step: Step<Seq<Instr>>,
    result: Result<String, String>,
    index: usize,
    names: NameSupply,
    before: NameSupply,
) -> bool {
    &&& index == step.at
    &&& names.temps == step.temps
    &&& names.loops == before.loops
    &&& names.branches == before.branches
    &&& code_is(result, step.result)
}

/// Appends the line of a label.
pub fn emit_label(code: &mut String, label: &str)
    ensures
        final(code)@ == old(code)@ + (label@ + "\n"@),
{
    code.append(label);
    code.append("\n");
    assert(code@ =~= old(code)@ + (label@ + "\n"@));
}

/// Parses a declaration, `int x` or `int[N] a` with `N` at least 1. The
/// name must be in neither table, and is added to the one for its kind.
pub fn parse_declaration(
    tokens: &Vec<Token>,
    index: &mut usize,
    symbol_table: &mut Vec<String>,
    arr_table: &mut Vec<String>,
) -> (result: Result<String, String>)
    ensures
        ({
            let found = declaration(
                token_views(tokens@),
                *old(index) as int,
                names_of(old(symbol_table)@),
                names_of(old(arr_table)@),
            );
            &&& *final(index) == found.at
            &&& names_of(final(symbol_table)@) == found.symbols
            &&& names_of(final(arr_table)@) == found.arrays
            &&& code_is(result, found.result)
        }),
        *old(index) <= *final(index),
        *final(index) <= tokens.len() || *final(index) == *old(index),
        result is Ok ==> *final(index) > *old(index),
{
    broadcast use group_render;

    proof {

        reveal(declaration);

    }

    match next_result(tokens, index)? {
        Token::Int => {
            match next_result(tokens, index)? {
                Token::LeftBracket => {
                    let size: i32;
                    match next_result(tokens, index)? {
                        Token::Num(num) => {
                            if *num <= 0 {
                                return Err(
                                    String::from_str("Arrays have to be at least one element long"),
                                );
                            }
                            size = *num;
                        },
                        _ => {
                            return Err(
                                String::from_str("Error: expected Token::Num as length of array"),
                            );
                        },
                    }
                    if !matches!(next_result(tokens, index)?, Token::RightBracket) {
                        return Err(String::from_str("expect ']' closing array size declaration"));
                    }
                    match next_result(tokens, index)? {
                        Token::Ident(ident) => {
                            if find_symbol(symbol_table, ident) || find_symbol(arr_table, ident) {
                                return Err(
                                    message_naming(
                                        "Found a duplicate array variable ",
                                        ident.as_str(),
                                    ),
                                );
                            }
                            let ghost arrays = names_of(arr_table@);
                            arr_table.push(ident.clone());
                            assert(names_of(arr_table@) =~= arrays.push(ident@));
                            let mut length = String::new();
                            push_integer(&mut length, size);
                            let mut statement = String::new();
                            emit2(&mut statement, "%int[]", ident.as_str(), length.as_str());
                            assert(statement@ =~= render_instr(
                                Instr::Array { name: ident@, size: size as int },
                            ));
                            Ok(statement)
                        },
                        _ => Err(String::from_str("expected identifier for array name")),
                    }
                },
                Token::Ident(ident) => {
                    if find_symbol(symbol_table, ident) || find_symbol(arr_table, ident) {
                        return Err(message_naming("Found a duplicate variable ", ident.as_str()));
                    }
                    let ghost symbols = names_of(symbol_table@);
                    symbol_table.push(ident.clone());
                    assert(names_of(symbol_table@) =~= symbols.push(ident@));
                    let mut statement = String::new();
                    emit1(&mut statement, "%int", ident.as_str());
                    assert(statement@ =~= render_instr(Instr::Int { var: Operand::Var(ident@) }));
                    Ok(statement)
                },
                _ => Err(
                    String::from_str(
                        "expected '[' for array declaration or identifier for int variable",
                    ),
                ),
            }
        },
        _ => Err(String::from_str("invalid declaration, expected 'int' type")),
    }
}

/// Parses what follows the name in an assignment: `= e` for a variable,
/// `[e] = e` for an array element. The name has to be in the table for its
/// kind.
pub fn parse_assignment(
    tokens: &Vec<Token>,
    index: &mut usize,
    symbol_table: &mut Vec<String>,
    function_table: &mut Vec<String>,
    arr_table: &mut Vec<String>,
    names: &mut NameSupply,
    ident: &String,
) -> (result: Result<String, String>)
    requires
        room(*old(names), tokens.len() - *old(index)),
    ensures
        final(symbol_table)@ == old(symbol_table)@,
        final(function_table)@ == old(function_table)@,
        final(arr_table)@ == old(arr_table)@,
        parsed_code(
            assignment(
                token_views(tokens@),
                scope_of(old(symbol_table)@, old(function_table)@, old(arr_table)@),
                *old(index) as int,
                old(names).temps as nat,
                ident@,
            ),
            result,
            *final(index),
            *final(names),
            *old(names),
        ),
        progress(
            tokens.len() as int,
            *old(index) as int,
            *final(index) as int,
            *old(names),
            *final(names),
        ),
{
    let ghost views = token_views(tokens@);
    proof {
        reveal(assignment);
    }
    let ghost scope = scope_of(symbol_table@, function_table@, arr_table@);
    let ghost from = *index as int;
    let ghost before = *names;
    if matches!(peek_result(tokens, *index)?, Token::LeftBracket) {
        if !find_symbol(arr_table, ident) {
            return Err(message_about("Array '", ident.as_str(), "' not declared"));
        }
        *index += 1;
        let position = parse_expression(
            tokens,
            index,
            symbol_table,
            function_table,
            arr_table,
            names,
        )?;
        let ghost i = expression(views, scope, from + 1, before.temps as nat).result->Ok_0;
        if !matches!(next_result(tokens, index)?, Token::RightBracket) {
            return Err(String::from_str("expected ']'"));
        }
        if !matches!(next_result(tokens, index)?, Token::Assign) {
            return Err(String::from_str("expected '=' assignment operator"));
        }
        let ghost here = *index as int;
        let ghost temps = names.temps as nat;
        let value = parse_expression(tokens, index, symbol_table, function_table, arr_table, names)?;
        let ghost v = expression(views, scope, here, temps).result->Ok_0;
        let mut code = value.code;
        code.append(position.code.as_str());
        let place = element_of(ident.as_str(), position.name.as_str());
        emit2(&mut code, "%mov", place.as_str(), value.name.as_str());
        proof {
            lemma_render_parts(
                v.code,
                i.code,
                Instr::Store { array: ident@, index: i.operand, src: v.operand },
            );
        }
        Ok(code)
    } else {
        if !find_symbol(symbol_table, ident) {
            return Err(message_naming("Variable not declared: ", ident.as_str()));
        }
        if !matches!(next_result(tokens, index)?, Token::Assign) {
            return Err(String::from_str("expected '=' assignment operator"));
        }
        let ghost here = *index as int;
        let ghost temps = names.temps as nat;
        let value = parse_expression(tokens, index, symbol_table, function_table, arr_table, names)?;
        let ghost v = expression(views, scope, here, temps).result->Ok_0;
        let mut code = value.code;
        emit2(&mut code, "%mov", ident.as_str(), value.name.as_str());
        proof {
            lemma_render_parts(
                v.code,
                Seq::empty(),
                Instr::Mov { dst: Operand::Var(ident@), src: v.operand },
            );
            assert(render(v.code) + render(Seq::<Instr>::empty()) =~= render(v.code));
        }
        Ok(code)
    }
}

/// Parses what follows `return`: the expression whose value is returned.
pub fn parse_return(
    tokens: &Vec<Token>,
    index: &mut usize,
    symbol_table: &mut Vec<String>,
    function_table: &mut Vec<String>,
    arr_table: &mut Vec<String>,
    names: &mut NameSupply,
) -> (result: Result<String, String>)
    requires
        room(*old(names), tokens.len() - *old(index)),
    ensures
        final(symbol_table)@ == old(symbol_table)@,
        final(function_table)@ == old(function_table)@,
        final(arr_table)@ == old(arr_table)@,
        parsed_code(
            return_statement(
                token_views(tokens@),
                scope_of(old(symbol_table)@, old(function_table)@, old(arr_table)@),
                *old(index) as int,
                old(names).temps as nat,
            ),
            result,
            *final(index),
            *final(names),
            *old(names),
        ),
        progress(
            tokens.len() as int,
            *old(index) as int,
            *final(index) as int,
            *old(names),
            *final(names),
        ),
{
    broadcast use group_render;

    proof {

        reveal(return_statement);

    }

    let value = parse_expression(tokens, index, symbol_table, function_table, arr_table, names)?;
    let mut code = value.code;
    emit1(&mut code, "%ret", value.name.as_str());
    Ok(code)
}

/// Parses what follows `print` or `read`: an expression in parentheses.
pub fn parse_transfer(
    tokens: &Vec<Token>,
    index: &mut usize,
    symbol_table: &mut Vec<String>,
    function_table: &mut Vec<String>,
    arr_table: &mut Vec<String>,
    names: &mut NameSupply,
    reads: bool,
) -> (result: Result<String, String>)
    requires
        room(*old(names), tokens.len() - *old(index)),
    ensures
        final(symbol_table)@ == old(symbol_table)@,
        final(function_table)@ == old(function_table)@,
        final(arr_table)@ == old(arr_table)@,
        parsed_code(
            transfer_statement(
                token_views(tokens@),
                scope_of(old(symbol_table)@, old(function_table)@, old(arr_table)@),
                *old(index) as int,
                old(names).temps as nat,
                reads,
            ),
            result,
            *final(index),
            *final(names),
            *old(names),
        ),
        progress(
            tokens.len() as int,
            *old(index) as int,
            *final(index) as int,
            *old(names),
            *final(names),
        ),
{
    broadcast use group_render;

    proof {

        reveal(transfer_statement);

    }

    if !matches!(next_result(tokens, index)?, Token::LeftParen) {
        return Err(String::from_str("expect '(' opening statement"));
    }
    let value = parse_expression(tokens, index, symbol_table, function_table, arr_table, names)?;
    let mut code = value.code;
    if reads {
        emit1(&mut code, "%input", value.name.as_str());
    } else {
        emit1(&mut code, "%out", value.name.as_str());
    }
    if !matches!(next_result(tokens, index)?, Token::RightParen) {
        return Err(String::from_str("expect ')' closing statement"));
    }
    Ok(code)
}

/// Parses what follows `break` or `continue`: the semicolon. The code is a
/// jump to the end or to the beginning of the innermost loop, so there has
/// to be one.
pub fn parse_jump(
    tokens: &Vec<Token>,
    index: &mut usize,
    label_table: &VecDeque<(String, String)>,
    again: bool,
) -> (result: Result<String, String>)
    ensures
        ({
            let step = jump_statement(
                token_views(tokens@),
                *old(index) as int,
                labels_of(label_table@),
                again,
            );
            *final(index) == step.at && code_is(result, step.result)
        }),
        *old(index) <= *final(index),
        *final(index) <= tokens.len() || *final(index) == *old(index),
{
    broadcast use group_render;

    proof {

        reveal(jump_statement);

    }

    if label_table.len() == 0 {
        if again {
            return Err(String::from_str("`continue` statement not within loop"));
        } else {
            return Err(String::from_str("`break` statement not within loop"));
        }
    }
    let top = &label_table[label_table.len() - 1];
    let mut code = String::new();
    if again {
        emit1(&mut code, "%jmp", top.0.as_str());
        if !matches!(next_result(tokens, index)?, Token::Semicolon) {
            return Err(String::from_str("expect ';' after 'continue'"));
        }
    } else {
        emit1(&mut code, "%jmp", top.1.as_str());
        if !matches!(next_result(tokens, index)?, Token::Semicolon) {
            return Err(String::from_str("expect ';' after 'break'"));
        }
    }
    assert(code@ =~= render(
        seq![
            Instr::Jmp {
                target: if again {
                    labels_of(label_table@).last().0
                } else {
                    labels_of(label_table@).last().1
                },
            },
        ],
    ));
    Ok(code)
}

/// Parses statements in braces and returns their code. The messages are
/// for a token that stands where a brace has to.
pub fn parse_block(
    tokens: &Vec<Token>,
    index: &mut usize,
    symbol_table: &mut Vec<String>,
    function_table: &mut Vec<String>,
    arr_table: &mut Vec<String>,
    label_table: &mut VecDeque<(String, String)>,
    names: &mut NameSupply,
    open_message: &str,
    close_message: &str,
) -> (result: Result<String, String>)
    requires
        room(*old(names), tokens.len() - *old(index)),
    ensures
        final(function_table)@ == old(function_table)@,
        ({
            let all = block(
                token_views(tokens@),
                state_of(
                    *old(index),
                    old(symbol_table)@,
                    old(function_table)@,
                    old(arr_table)@,
                    old(label_table)@,
                    *old(names),
                ),
                open_message@,
                close_message@,
            );
            &&& all.state == state_of(
                *final(index),
                final(symbol_table)@,
                final(function_table)@,
                final(arr_table)@,
                final(label_table)@,
                *final(names),
            )
            &&& code_is(result, all.result)
        }),
        progress(
            tokens.len() as int,
            *old(index) as int,
            *final(index) as int,
            *old(names),
            *final(names),
        ),
        result is Ok ==> final(label_table)@ == old(label_table)@,
    decreases tokens.len() - *old(index), 3nat,
{
    proof {
        reveal(block);
        reveal(statements);
    }
    if !matches!(next_result(tokens, index)?, Token::LeftCurly) {
        return Err(String::from_str(open_message));
    }
    let code = parse_statements(tokens, index, symbol_table, function_table, arr_table, label_table, names)?;
    if !matches!(next_result(tokens, index)?, Token::RightCurly) {
        return Err(String::from_str(close_message));
    }
    Ok(code)
}

/// Parses a loop, at `while`: the comparison and the body in braces. The
/// loop takes the next pair of loop labels; while its body is parsed they
/// are on top of the stack, where `break` and `continue` find them.
pub fn parse_while(
    tokens: &Vec<Token>,
    index: &mut usize,
    symbol_table: &mut Vec<String>,
    function_table: &mut Vec<String>,
    arr_table: &mut Vec<String>,
    label_table: &mut VecDeque<(String, String)>,
    names: &mut NameSupply,
) -> (result: Result<Option<String>, String>)
    requires
        room(*old(names), tokens.len() - *old(index)),
        *old(index) < tokens.len(),
    ensures
        final(function_table)@ == old(function_table)@,
        ({
            let all = while_statement(
                token_views(tokens@),
                state_of(
                    *old(index),
                    old(symbol_table)@,
                    old(function_table)@,
                    old(arr_table)@,
                    old(label_table)@,
                    *old(names),
                ),
            );
            &&& all.state == state_of(
                *final(index),
                final(symbol_table)@,
                final(function_table)@,
                final(arr_table)@,
                final(label_table)@,
                *final(names),
            )
            &&& statement_is(result, all.result)
        }),
        progress(
            tokens.len() as int,
            *old(index) as int,
            *final(index) as int,
            *old(names),
            *final(names),
        ),
        result is Ok ==> final(label_table)@ == old(label_table)@,
        result is Ok ==> *final(index) > *old(index),
    decreases tokens.len() - *old(index), 0nat,
{
    proof {
        reveal(while_statement);
        reveal(block);
    }
    let ghost views = token_views(tokens@);
    *index += 1;
    let (begin, end) = get_unique_loop_labels(names);
    let ghost outer = label_table@;
    label_table.push_back((begin.clone(), end.clone()));
    let ghost n = names.loops as nat;
    assert(labels_of(label_table@) =~= labels_of(outer).push((loop_begin(n), loop_end(n))));
    let ghost entered = state_of(
        *index,
        symbol_table@,
        function_table@,
        arr_table@,
        label_table@,
        *names,
    );
    let cond = parse_bool_operation(tokens, index, symbol_table, function_table, arr_table, names)?;
    let ghost c = condition_in(views, entered).result->Ok_0;
    let mut code = String::new();
    emit_label(&mut code, begin.as_str());
    code.append(cond.code.as_str());
    emit2(&mut code, "%branch_ifn", cond.name.as_str(), end.as_str());
    let ghost opened = state_of(
        *index,
        symbol_table@,
        function_table@,
        arr_table@,
        label_table@,
        *names,
    );
    let body = parse_block(tokens, index, symbol_table, function_table, arr_table, label_table, names, "expected '{'", "expected '}' after while")?;
    let ghost b = block(views, opened, "expected '{'"@, "expected '}' after while"@).result->Ok_0;
    code.append(body.as_str());
    emit1(&mut code, "%jmp", begin.as_str());
    emit_label(&mut code, end.as_str());
    let ghost inner = label_table@;
    label_table.pop_back();
    proof {
        assert(label_table@ =~= outer);
        assert(labels_of(label_table@) =~= labels_of(inner).drop_last());
        lemma_render_loop(n, c, b);
        assert(code@ =~= render(loop_code(n, c, b)));
    }
    Ok(Some(code))
}

/// Parses a conditional, at `if`: the comparison, the first branch in
/// braces, and after `else` the second. The conditional takes the next
/// triple of labels.
pub fn parse_if(
    tokens: &Vec<Token>,
    index: &mut usize,
    symbol_table: &mut Vec<String>,
    function_table: &mut Vec<String>,
    arr_table: &mut Vec<String>,
    label_table: &mut VecDeque<(String, String)>,
    names: &mut NameSupply,
) -> (result: Result<Option<String>, String>)
    requires
        room(*old(names), tokens.len() - *old(index)),
        *old(index) < tokens.len(),
    ensures
        final(function_table)@ == old(function_table)@,
        ({
            let all = if_statement(
                token_views(tokens@),
                state_of(
                    *old(index),
                    old(symbol_table)@,
                    old(function_table)@,
                    old(arr_table)@,
                    old(label_table)@,
                    *old(names),
                ),
            );
            &&& all.state == state_of(
                *final(index),
                final(symbol_table)@,
                final(function_table)@,
                final(arr_table)@,
                final(label_table)@,
                *final(names),
            )
            &&& statement_is(result, all.result)
        }),
        progress(
            tokens.len() as int,
            *old(index) as int,
            *final(index) as int,
            *old(names),
            *final(names),
        ),
        result is Ok ==> final(label_table)@ == old(label_table)@,
        result is Ok ==> *final(index) > *old(index),
    decreases tokens.len() - *old(index), 0nat,
{
    proof {
        reveal(if_statement);
        reveal(block);
    }
    let ghost views = token_views(tokens@);
    *index += 1;
    let (first, second, end) = get_if_labels(names);
    let ghost n = names.branches as nat;
    let ghost entered = state_of(
        *index,
        symbol_table@,
        function_table@,
        arr_table@,
        label_table@,
        *names,
    );
    let cond = parse_bool_operation(tokens, index, symbol_table, function_table, arr_table, names)?;
    let ghost c = condition_in(views, entered).result->Ok_0;
    let mut code = cond.code;
    emit2(&mut code, "%branch_if", cond.name.as_str(), first.as_str());
    emit1(&mut code, "%jmp", second.as_str());
    emit_label(&mut code, first.as_str());
    let ghost opened = state_of(
        *index,
        symbol_table@,
        function_table@,
        arr_table@,
        label_table@,
        *names,
    );
    let body = parse_block(tokens, index, symbol_table, function_table, arr_table, label_table, names, "expected '{'", "expected '}' after if")?;
    let ghost b1 = block(views, opened, "expected '{'"@, "expected '}' after if"@).result->Ok_0;
    code.append(body.as_str());
    emit1(&mut code, "%jmp", end.as_str());
    emit_label(&mut code, second.as_str());
    let ghost mut b2: Seq<Instr> = Seq::empty();
    let ghost head = code@;
    let follows = match peek(tokens, *index) {
        Some(token) => matches!(token, Token::Else),
        None => false,
    };
    if follows {
        *index += 1;
        let ghost reopened = state_of(
        *index,
        symbol_table@,
        function_table@,
        arr_table@,
        label_table@,
        *names,
    );
        let other = parse_block(tokens, index, symbol_table, function_table, arr_table, label_table, names, "expected '{'", "expected '}' after else")?;
        proof {
            b2 = block(views, reopened, "expected '{'"@, "expected '}' after else"@).result->Ok_0;
        }
        code.append(other.as_str());
    } else {
        proof {
            lemma_render_empty();
            assert(head + render(b2) =~= head);
        }
    }
    emit_label(&mut code, end.as_str());
    proof {
        lemma_render_branch(n, c, b1, b2);
        assert(code@ =~= render(branch_code(n, c, b1, b2)));
    }
    Ok(Some(code))
}

/// Parses one statement and returns its code, or nothing where the tokens
/// end or `}` stands. A declaration adds its name to a table.
pub fn parse_statement(
    tokens: &Vec<Token>,
    index: &mut usize,
    symbol_table: &mut Vec<String>,
    function_table: &mut Vec<String>,
    arr_table: &mut Vec<String>,
    label_table: &mut VecDeque<(String, String)>,
    names: &mut NameSupply,
) -> (result: Result<Option<String>, String>)
    requires
        room(*old(names), tokens.len() - *old(index)),
    ensures
        final(function_table)@ == old(function_table)@,
        ({
            let all = statement(
                token_views(tokens@),
                state_of(
                    *old(index),
                    old(symbol_table)@,
                    old(function_table)@,
                    old(arr_table)@,
                    old(label_table)@,
                    *old(names),
                ),
            );
            &&& all.state == state_of(
                *final(index),
                final(symbol_table)@,
                final(function_table)@,
                final(arr_table)@,
                final(label_table)@,
                *final(names),
            )
            &&& statement_is(result, all.result)
        }),
        progress(
            tokens.len() as int,
            *old(index) as int,
            *final(index) as int,
            *old(names),
            *final(names),
        ),
        result is Ok ==> final(label_table)@ == old(label_table)@,
        result is Ok && result->Ok_0 is Some ==> *final(index) > *old(index),
    decreases tokens.len() - *old(index), 1nat,
{
    proof {
        reveal(statement);
        reveal(while_statement);
        reveal(if_statement);
    }
    match peek(tokens, *index) {
        None => {
            return Ok(None);
        },
        Some(token) => {
            match token {
                Token::RightCurly => {
                    return Ok(None);
                },
                Token::Int => {
                    let code = parse_declaration(tokens, index, symbol_table, arr_table)?;
                    if !matches!(next_result(tokens, index)?, Token::Semicolon) {
                        return Err(String::from_str("expect ';' closing statement"));
                    }
                    return Ok(Some(code));
                },
                Token::Ident(ident) => {
                    *index += 1;
                    let code = parse_assignment(tokens, index, symbol_table, function_table, arr_table, names, ident)?;
                    if !matches!(next_result(tokens, index)?, Token::Semicolon) {
                        return Err(String::from_str("expect ';' closing statement"));
                    }
                    return Ok(Some(code));
                },
                Token::Return => {
                    *index += 1;
                    let code = parse_return(tokens, index, symbol_table, function_table, arr_table, names)?;
                    if !matches!(next_result(tokens, index)?, Token::Semicolon) {
                        return Err(String::from_str("expect ';' closing statement"));
                    }
                    return Ok(Some(code));
                },
                Token::Print => {
                    *index += 1;
                    let code = parse_transfer(tokens, index, symbol_table, function_table, arr_table, names, false)?;
                    if !matches!(next_result(tokens, index)?, Token::Semicolon) {
                        return Err(String::from_str("expect ';' closing statement"));
                    }
                    return Ok(Some(code));
                },
                Token::Read => {
                    *index += 1;
                    let code = parse_transfer(tokens, index, symbol_table, function_table, arr_table, names, true)?;
                    if !matches!(next_result(tokens, index)?, Token::Semicolon) {
                        return Err(String::from_str("expect ';' closing statement"));
                    }
                    return Ok(Some(code));
                },
                Token::While => {
                    return parse_while(tokens, index, symbol_table, function_table, arr_table, label_table, names);
                },
                Token::If => {
                    return parse_if(tokens, index, symbol_table, function_table, arr_table, label_table, names);
                },
                Token::Break => {
                    *index += 1;
                    let code = parse_jump(tokens, index, label_table, false)?;
                    return Ok(Some(code));
                },
                Token::Continue => {
                    *index += 1;
                    let code = parse_jump(tokens, index, label_table, true)?;
                    return Ok(Some(code));
                },
                _ => {
                    return Err(String::from_str("invalid statement."));
                },
            }
        },
    }
}

/// Parses statements up to where the tokens end or `}` stands, and returns
/// their code, one statement's after the other's.
pub fn parse_statements(
    tokens: &Vec<Token>,
    index: &mut usize,
    symbol_table: &mut Vec<String>,
    function_table: &mut Vec<String>,
    arr_table: &mut Vec<String>,
    label_table: &mut VecDeque<(String, String)>,
    names: &mut NameSupply,
) -> (result: Result<String, String>)
    requires
        room(*old(names), tokens.len() - *old(index)),
    ensures
        final(function_table)@ == old(function_table)@,
        ({
            let all = statements(
                token_views(tokens@),
                state_of(
                    *old(index),
                    old(symbol_table)@,
                    old(function_table)@,
                    old(arr_table)@,
                    old(label_table)@,
                    *old(names),
                ),
                Seq::empty(),
            );
            &&& all.state == state_of(
                *final(index),
                final(symbol_table)@,
                final(function_table)@,
                final(arr_table)@,
                final(label_table)@,
                *final(names),
            )
            &&& code_is(result, all.result)
        }),
        progress(
            tokens.len() as int,
            *old(index) as int,
            *final(index) as int,
            *old(names),
            *final(names),
        ),
        result is Ok ==> final(label_table)@ == old(label_table)@,
    decreases tokens.len() - *old(index), 2nat,
{
    let ghost views = token_views(tokens@);
    let ghost start = state_of(
        *index,
        symbol_table@,
        function_table@,
        arr_table@,
        label_table@,
        *names,
    );
    let ghost from = *index as int;
    let ghost before = *names;
    let ghost all = statements(views, start, Seq::empty());
    let mut code = String::new();
    let ghost mut acc: Seq<Instr> = Seq::empty();
    proof {
        lemma_render_empty();
    }
    loop
        invariant_except_break
            all == statements(
                views,
                state_of(
                    *index,
                    symbol_table@,
                    function_table@,
                    arr_table@,
                    label_table@,
                    *names,
                ),
                acc,
            ),
        invariant
            views == token_views(tokens@),
            function_table@ == old(function_table)@,
            label_table@ == old(label_table)@,
            from == *old(index),
            before == *old(names),
            all == statements(
                views,
                state_of(
                    *old(index),
                    old(symbol_table)@,
                    old(function_table)@,
                    old(arr_table)@,
                    old(label_table)@,
                    *old(names),
                ),
                Seq::empty(),
            ),
            room(before, tokens.len() - from),
            progress(tokens.len() as int, from, *index as int, before, *names),
            code@ == render(acc),
        ensures
            all.state == state_of(
                *index,
                symbol_table@,
                function_table@,
                arr_table@,
                label_table@,
                *names,
            ),
            all.result == Ok::<Seq<Instr>, Seq<char>>(acc),
        decreases tokens.len() - *index,
    {
        proof {
            reveal(statements);
            reveal(statement);
        }
        let ghost here = state_of(
            *index,
            symbol_table@,
            function_table@,
            arr_table@,
            label_table@,
            *names,
        );
        match parse_statement(
            tokens,
            index,
            symbol_table,
            function_table,
            arr_table,
            label_table,
            names,
        )? {
            None => {
                break ;
            },
            Some(more) => {
                let ghost m = statement(views, here).result->Ok_0->0;
                code.append(more.as_str());
                proof {
                    lemma_render_concat(acc, m);
                    acc = acc + m;
                }
            },
        }
    }
    Ok(code)
}

/// Parses the parameters of a function, from after `(` through `)`: each
/// is `int` and a name that no parameter before it has, with commas between
/// them. Returns the names, and the list of their declarations as the
/// function's header holds it.
pub fn parse_parameters(tokens: &Vec<Token>, index: &mut usize) -> (result: Result<
    (Vec<String>, String),
    String,
>)
    ensures
        ({
            let step = parameters(token_views(tokens@), *old(index) as int, Seq::empty());
            &&& *final(index) == step.at
            &&& match step.result {
                Ok(params) => result is Ok && names_of(result->Ok_0.0@) == params
                    && result->Ok_0.1@ == comma_list(declared(params)),
                Err(message) => result is Err && result->Err_0@ == message,
            }
        }),
        *old(index) <= *final(index),
        *final(index) <= tokens.len() || *final(index) == *old(index),
        result is Ok ==> *final(index) > *old(index),
{
    let ghost views = token_views(tokens@);
    let ghost all = parameters(views, *index as int, Seq::empty());
    let mut params: Vec<String> = Vec::new();
    let mut list = String::new();
    assert(names_of(params@) =~= Seq::empty());
    assert(declared(names_of(params@)) =~= Seq::empty());
    loop
        invariant_except_break
            all == parameters(views, *index as int, names_of(params@)),
        invariant
            views == token_views(tokens@),
            all == parameters(views, *old(index) as int, Seq::empty()),
            *old(index) <= *index,
            *index <= tokens.len() || *index == *old(index),
            list@ == comma_list(declared(names_of(params@))),
        ensures
            all == done(*index as int, 0, names_of(params@)),
            *index > *old(index),
        decreases tokens.len() - *index,
    {
        proof {
            reveal(parameters);
        }
        match next_result(tokens, index)? {
            Token::RightParen => {
                break ;
            },
            Token::Int => {
                match next_result(tokens, index)? {
                    Token::Ident(param) => {
                        if find_symbol(&params, param) {
                            return Err(
                                message_naming("Found a duplicate variable ", param.as_str()),
                            );
                        }
                        let ghost known = names_of(params@);
                        if params.len() > 0 {
                            list.append(", ");
                        }
                        list.append("%int ");
                        list.append(param.as_str());
                        params.push(param.clone());
                        proof {
                            assert(names_of(params@) =~= known.push(param@));
                            assert(declared(known.push(param@)) =~= declared(known).push(
                                "%int "@ + param@,
                            ));
                            lemma_comma_list_push(declared(known), "%int "@ + param@);
                            assert(list@ =~= comma_list(declared(names_of(params@))));
                        }
                        match peek_result(tokens, *index)? {
                            Token::Comma => {
                                *index += 1;
                            },
                            Token::RightParen => {},
                            _ => {
                                return Err(String::from_str("expected ',' or ')'"));
                            },
                        }
                    },
                    _ => {
                        return Err(String::from_str("expected ident function parameter"));
                    },
                }
            },
            _ => {
                return Err(String::from_str("expected 'int' keyword or ')' token"));
            },
        }
    }
    Ok((params, list))
}

/// Parses one function and returns its code, or nothing where the tokens
/// end. The function's name must be new in the table, and is added to it, so
/// that the body can call the function itself.
pub fn parse_function(
    tokens: &Vec<Token>,
    index: &mut usize,
    function_table: &mut Vec<String>,
    names: &mut NameSupply,
) -> (result: Result<Option<String>, String>)
    requires
        room(*old(names), tokens.len() - *old(index)),
    ensures
        ({
            let unit = function(
                token_views(tokens@),
                *old(index) as int,
                names_of(old(function_table)@),
                old(names)@,
            );
            &&& *final(index) == unit.at
            &&& final(names)@ == unit.counters
            &&& names_of(final(function_table)@) == unit.functions
            &&& statement_is(result, unit.result)
        }),
        progress(
            tokens.len() as int,
            *old(index) as int,
            *final(index) as int,
            *old(names),
            *final(names),
        ),
        result is Ok && result->Ok_0 is Some ==> *final(index) > *old(index),
{
    proof {
        reveal(function);
    }
    let ghost views = token_views(tokens@);
    match next(tokens, index) {
        None => {
            return Ok(None);
        },
        Some(token) => {
            if !matches!(token, Token::Func) {
                return Err(String::from_str("functions must begin with func"));
            }
        },
    }
    let func_ident = match next_result(tokens, index)? {
        Token::Ident(func_ident) => func_ident,
        _ => {
            return Err(String::from_str("functions must have a function identifier"));
        },
    };
    if find_symbol(function_table, func_ident) {
        return Err(message_about("Error: Function ", func_ident.as_str(), " already declared"));
    }
    let ghost functions = names_of(function_table@);
    function_table.push(func_ident.clone());
    assert(names_of(function_table@) =~= functions.push(func_ident@));
    if !matches!(next_result(tokens, index)?, Token::LeftParen) {
        return Err(String::from_str("expected '('"));
    }
    let (mut symbol_table, list) = parse_parameters(tokens, index)?;
    let ghost params = names_of(symbol_table@);
    let mut code = String::from_str("%func ");
    code.append(func_ident.as_str());
    code.append(" (");
    code.append(list.as_str());
    code.append(")\n");
    assert(code@ =~= func_line(func_ident@, params));
    let mut arr_table: Vec<String> = Vec::new();
    let mut label_table: VecDeque<(String, String)> = VecDeque::new();
    assert(names_of(arr_table@) =~= Seq::empty());
    assert(labels_of(label_table@) =~= Seq::empty());
    let ghost start = state_of(
        *index,
        symbol_table@,
        function_table@,
        arr_table@,
        label_table@,
        *names,
    );
    let body = parse_block(
        tokens,
        index,
        &mut symbol_table,
        function_table,
        &mut arr_table,
        &mut label_table,
        names,
        "expected '{' for function",
        "expected '}' after function",
    )?;
    let ghost b = block(
        views,
        start,
        "expected '{' for function"@,
        "expected '}' after function"@,
    ).result->Ok_0;
    code.append(body.as_str());
    code.append("%endfunc\n\n");
    proof {
        lemma_render_function(func_ident@, params, b);
    }
    Ok(Some(code))
}

/// Parses a program, functions up to the end of the tokens, and returns
/// their code, one function's after the other's. Names are made from a
/// fresh supply. One of the functions must be `main`. In the code that is
/// returned no temporary is declared twice and no label defined twice,
/// every jump goes to a label that is defined exactly once, every name is
/// used in its scope, and no two functions have one name.
pub fn parse_program(tokens: &Vec<Token>, index: &mut usize) -> (result: Result<String, String>)
    ensures
        ({
            let all = program(token_views(tokens@), *old(index) as int);
            *final(index) == all.at && code_is(result, all.result)
        }),
        *old(index) <= *final(index),
        *final(index) <= tokens.len() || *final(index) == *old(index),
        result is Ok ==> ({
            let all = program(token_views(tokens@), *old(index) as int);
            &&& unique(all.result->Ok_0)
            &&& balanced(all.result->Ok_0)
            &&& scoped(all.result->Ok_0, all.functions)
            &&& defined_once(all.result->Ok_0, all.functions)
        }),
{
    proof {
        reveal(program);
        lemma_render_empty();
        lemma_program(token_views(tokens@), *index as int);
    }
    let ghost views = token_views(tokens@);
    let ghost all = functions_from(
        views,
        *index as int,
        Seq::empty(),
        Counters { temps: 0, loops: 0, branches: 0 },
        Seq::empty(),
    );
    let mut generated_code = String::new();
    let mut function_table: Vec<String> = Vec::new();
    let mut names = NameSupply::new();
    let ghost mut acc: Seq<Instr> = Seq::empty();
    assert(names_of(function_table@) =~= Seq::empty());
    loop
        invariant_except_break
            all == functions_from(views, *index as int, names_of(function_table@), names@, acc),
        invariant
            views == token_views(tokens@),
            all == functions_from(
                views,
                *old(index) as int,
                Seq::empty(),
                Counters { temps: 0, loops: 0, branches: 0 },
                Seq::empty(),
            ),
            *old(index) <= *index,
            *index <= tokens.len() || *index == *old(index),
            room(names, tokens.len() - *index),
            generated_code@ == render(acc),
        ensures
            all == (Unit {
                at: *index as int,
                counters: names@,
                functions: names_of(function_table@),
                result: Ok(Some(acc)),
            }),
        decreases tokens.len() - *index,
    {
        proof {
            reveal(program);
            reveal(functions_from);
        }
        let ghost here = *index as int;
        let ghost functions = names_of(function_table@);
        let ghost counters = names@;
        match parse_function(tokens, index, &mut function_table, &mut names)? {
            None => {
                break ;
            },
            Some(more) => {
                let ghost m = function(views, here, functions, counters).result->Ok_0->0;
                generated_code.append(more.as_str());
                proof {
                    lemma_render_concat(acc, m);
                    acc = acc + m;
                }
            },
        }
    }
    let main = String::from_str("main");
    if !find_symbol(&function_table, &main) {
        return Err(String::from_str("Missing 'main' function"));
    }
    Ok(generated_code)
}

} // verus!
