//! What an editor shows when the cursor rests on a part of a program: the
//! documentation of a built-in function, the value of an `env(..)` variable, or
//! the url a request goes to.
use vstd::prelude::*;
use vstd::string::*;

use crate::error_meta::opt_view;
use crate::interpreter::ir::RequestItem;
use crate::interpreter::runtime::Environment;
use crate::interpreter::{block_statements, items_run, view_of, Interpreter, RequestView};
use crate::locations::GetSpan;
use crate::names::unique_names;
use crate::parser::ast::{endpoint_span, item_in, item_span, Expression, Item, Statement};
use crate::parser::{program_spec, step_kinds, Parser};
use crate::text::str_eq;

use super::completions::{holds_cursor, item_at, lemma_item_at_stays, read_from, span_holds_cursor};

verus! {

/// The documentation of the built-in function `name`; empty for any other name.
pub open spec fn builtin_doc(name: Seq<char>) -> Seq<char> {
    if name == "env"@ {
        "Read env file to grab values.\nRead `.env.rd.json` from the current workspace if there is one,\notherwise read that in the home directory.\n```typescript\n(builtin) env(variable: string): string\n```"@
    } else if name == "json"@ {
        "Convert any value to a json string.\n```typescript\n(builtin) json(value: any): string\n```"@
    } else if name == "read"@ {
        "Read file contents into a string and returns that string.\n```typescript\n(builtin) read(filename: string): string\n```"@
    } else if name == "escape_new_lines"@ {
        "Escape the '\\n' characters in a string.\n```typescript\n(builtin) escape_new_lines(value: string): string\n```"@
    } else {
        Seq::empty()
    }
}

/// What the cursor finds in an expression: on the name of a call, the
/// documentation of that function; on a string among the arguments of an
/// `env(..)` call (`in_env`), the value of the variable it names; otherwise
/// what the last of its parts that finds anything finds.
pub open spec fn hover_expr(
    e: Expression,
    in_env: bool,
    env: Environment,
    line: nat,
    character: nat,
) -> Option<Seq<char>>
    decreases e, 1nat,
{
    match e {
        Expression::Call { identifier, arguments } => if holds_cursor(identifier.span, line, character) {
            Some(builtin_doc(identifier.name@))
        } else {
            hover_list(
                arguments@,
                arguments@.len(),
                in_env || identifier.name@ == "env"@,
                env,
                line,
                character,
            )
        },
        Expression::String(s) => if in_env && holds_cursor(s.span, line, character) {
            env.value_of(s.value@)
        } else {
            None
        },
        Expression::TemplateSringLiteral { parts, .. } => hover_list(
            parts@,
            parts@.len(),
            in_env,
            env,
            line,
            character,
        ),
        Expression::Object((_, fields)) => hover_fields(
            fields@,
            fields@.len(),
            in_env,
            env,
            line,
            character,
        ),
        Expression::Array((_, items)) => hover_list(
            items@,
            items@.len(),
            in_env,
            env,
            line,
            character,
        ),
        _ => None,
    }
}

/// What the cursor finds among the first `n` expressions: what the last of them
/// that finds anything finds.
pub open spec fn hover_list(
    es: Seq<Expression>,
    n: nat,
    in_env: bool,
    env: Environment,
    line: nat,
    character: nat,
) -> Option<Seq<char>>
    decreases es, n,
{
    if n == 0 || n > es.len() {
        None
    } else {
        match hover_expr(es[n - 1], in_env, env, line, character) {
            Some(t) => Some(t),
            None => hover_list(es, (n - 1) as nat, in_env, env, line, character),
        }
    }
}

/// What the cursor finds among the values of the first `n` fields of an object.
pub open spec fn hover_fields(
    fields: Seq<(&str, Expression)>,
    n: nat,
    in_env: bool,
    env: Environment,
    line: nat,
    character: nat,
) -> Option<Seq<char>>
    decreases fields, n,
{
    if n == 0 || n > fields.len() {
        None
    } else {
        match hover_expr(fields[n - 1].1, in_env, env, line, character) {
            Some(t) => Some(t),
            None => hover_fields(fields, (n - 1) as nat, in_env, env, line, character),
        }
    }
}

/// What the cursor finds in a statement: in the value of a header or a body.
pub open spec fn hover_statement(s: Statement, env: Environment, line: nat, character: nat) -> Option<
    Seq<char>,
> {
    match s {
        Statement::Header { value, .. } => hover_expr(value, false, env, line, character),
        Statement::Body { value, .. } => hover_expr(value, false, env, line, character),
        Statement::LineComment(_) => None,
    }
}

/// What the cursor finds among the first `n` statements: the last that finds anything.
pub open spec fn hover_statements(ss: Seq<Statement>, n: nat, env: Environment, line: nat, character: nat) -> Option<
    Seq<char>,
>
    decreases n,
{
    if n == 0 || n > ss.len() {
        None
    } else {
        match hover_statement(ss[n - 1], env, line, character) {
            Some(t) => Some(t),
            None => hover_statements(ss, (n - 1) as nat, env, line, character),
        }
    }
}

/// What the cursor finds in an item without the requests the program describes.
pub open spec fn hover_item(item: Item, env: Environment, line: nat, character: nat) -> Option<Seq<char>> {
    match item {
        Item::SetConstant { value, .. } => hover_expr(value, false, env, line, character),
        Item::Let { value, .. } => hover_expr(value, false, env, line, character),
        Item::Request { block, .. } => {
            let ss = block_statements(block);
            hover_statements(ss, ss.len(), env, line, character)
        },
        Item::Attribute { parameters, .. } => hover_list(
            parameters@,
            parameters@.len(),
            false,
            env,
            line,
            character,
        ),
        Item::Expr(e) => hover_expr(e, false, env, line, character),
        Item::LineComment(_) => None,
    }
}

/// The cursor rests on the endpoint of a request.
pub open spec fn on_endpoint(item: Item, line: nat, character: nat) -> bool {
    item matches Item::Request { endpoint, .. } && holds_cursor(endpoint_span(endpoint), line, character)
}

/// The url of the first of the first `n` requests whose span holds the cursor.
pub open spec fn url_at(requests: Seq<RequestView>, n: nat, line: nat, character: nat) -> Option<Seq<char>>
    decreases n,
{
    if n == 0 || n > requests.len() {
        None
    } else {
        match url_at(requests, (n - 1) as nat, line, character) {
            Some(u) => Some(u),
            None => if holds_cursor(requests[n - 1].span, line, character) {
                Some(requests[n - 1].url)
            } else {
                None
            },
        }
    }
}

/// What the cursor finds in an item, given the requests the program describes:
/// what its parts find, or else, on the endpoint of a request, the url of the
/// request that holds the cursor.
pub open spec fn item_hover(
    item: Item,
    requests: Seq<RequestView>,
    env: Environment,
    line: nat,
    character: nat,
) -> Option<Seq<char>> {
    match hover_item(item, env, line, character) {
        Some(t) => Some(t),
        None => if on_endpoint(item, line, character) {
            url_at(requests, requests.len(), line, character)
        } else {
            None
        },
    }
}

/// What hovering at the cursor shows for a program of `items`: nothing when no
/// item holds the cursor or the program does not evaluate without error;
/// otherwise what the first item that holds the cursor finds, empty when it
/// finds nothing.
pub open spec fn hover_of(
    items: Seq<Item>,
    env: Environment,
    files: Seq<(String, Result<String, String>)>,
    line: nat,
    character: nat,
) -> Option<Seq<char>> {
    let k = item_at(items, items.len(), line, character);
    if k < 0 {
        None
    } else {
        match items_run(items, items.len(), env, files) {
            Ok((st, faults)) => if faults.len() == 0 {
                Some(
                    match item_hover(items[k], st.requests, env, line, character) {
                        Some(t) => t,
                        None => Seq::empty(),
                    },
                )
            } else {
                None
            },
            Err(_) => None,
        }
    }
}

/// The documentation of a built-in function.
fn builtin_doc_text(name: &str) -> (r: String)
    ensures
        r@ == builtin_doc(name@),
{
    if str_eq(name, "env") {
        String::from_str(
            "Read env file to grab values.\nRead `.env.rd.json` from the current workspace if there is one,\notherwise read that in the home directory.\n```typescript\n(builtin) env(variable: string): string\n```",
        )
    } else if str_eq(name, "json") {
        String::from_str("Convert any value to a json string.\n```typescript\n(builtin) json(value: any): string\n```")
    } else if str_eq(name, "read") {
        String::from_str(
            "Read file contents into a string and returns that string.\n```typescript\n(builtin) read(filename: string): string\n```",
        )
    } else if str_eq(name, "escape_new_lines") {
        String::from_str(
            "Escape the '\\n' characters in a string.\n```typescript\n(builtin) escape_new_lines(value: string): string\n```",
        )
    } else {
        String::new()
    }
}

/// What the cursor finds in an expression.
fn hover_in_expr(e: &Expression, in_env: bool, env: &Environment, line: usize, character: usize) -> (r: Option<String>)
    requires
        env.wf(),
    ensures
        opt_view(r) == hover_expr(*e, in_env, *env, line as nat, character as nat),
    decreases e,
{
    match e {
        Expression::Call { identifier, arguments } => {
            if span_holds_cursor(identifier.span, line, character) {
                return Some(builtin_doc_text(identifier.name));
            }
            let inner = in_env || str_eq(identifier.name, "env");
            let mut found: Option<String> = None;
            let mut i: usize = 0;
            while i < arguments.len()
                invariant
                    env.wf(),
                    *e matches Expression::Call { arguments: a, .. } && a == arguments,
                    i <= arguments@.len(),
                    opt_view(found) == hover_list(arguments@, i as nat, inner, *env, line as nat, character as nat),
                decreases arguments@.len() - i,
            {
                proof {
                    assert(decreases_to!(*e => arguments@[i as int]));
                }
                let h = hover_in_expr(&arguments[i], inner, env, line, character);
                if h.is_some() {
                    found = h;
                }
                i = i + 1;
            }
            found
        },
        Expression::String(s) => {
            if in_env && span_holds_cursor(s.span, line, character) {
                match env.get_variable_value(String::from_str(s.value)) {
                    Some(v) => Some(v.clone()),
                    None => None,
                }
            } else {
                None
            }
        },
        Expression::TemplateSringLiteral { parts, .. } => {
            let mut found: Option<String> = None;
            let mut i: usize = 0;
            while i < parts.len()
                invariant
                    env.wf(),
                    *e matches Expression::TemplateSringLiteral { parts: p, .. } && p == parts,
                    i <= parts@.len(),
                    opt_view(found) == hover_list(parts@, i as nat, in_env, *env, line as nat, character as nat),
                decreases parts@.len() - i,
            {
                proof {
                    assert(decreases_to!(*e => parts@[i as int]));
                }
                let h = hover_in_expr(&parts[i], in_env, env, line, character);
                if h.is_some() {
                    found = h;
                }
                i = i + 1;
            }
            found
        },
        Expression::Object((_, fields)) => {
            let mut found: Option<String> = None;
            let mut i: usize = 0;
            while i < fields.len()
                invariant
                    env.wf(),
                    *e matches Expression::Object((_, fs)) && fs == fields,
                    i <= fields@.len(),
                    opt_view(found) == hover_fields(fields@, i as nat, in_env, *env, line as nat, character as nat),
                decreases fields@.len() - i,
            {
                proof {
                    assert(decreases_to!(*e => fields@[i as int].1));
                }
                let h = hover_in_expr(&fields[i].1, in_env, env, line, character);
                if h.is_some() {
                    found = h;
                }
                i = i + 1;
            }
            found
        },
        Expression::Array((_, items)) => {
            let mut found: Option<String> = None;
            let mut i: usize = 0;
            while i < items.len()
                invariant
                    env.wf(),
                    *e matches Expression::Array((_, its)) && its == items,
                    i <= items@.len(),
                    opt_view(found) == hover_list(items@, i as nat, in_env, *env, line as nat, character as nat),
                decreases items@.len() - i,
            {
                proof {
                    assert(decreases_to!(*e => items@[i as int]));
                }
                let h = hover_in_expr(&items[i], in_env, env, line, character);
                if h.is_some() {
                    found = h;
                }
                i = i + 1;
            }
            found
        },
        _ => None,
    }
}

/// What the cursor finds in the statements of a request.
fn hover_in_statements(ss: &Vec<Statement>, env: &Environment, line: usize, character: usize) -> (r: Option<String>)
    requires
        env.wf(),
    ensures
        opt_view(r) == hover_statements(ss@, ss@.len(), *env, line as nat, character as nat),
{
    let mut found: Option<String> = None;
    let mut i: usize = 0;
    while i < ss.len()
        invariant
            env.wf(),
            i <= ss@.len(),
            opt_view(found) == hover_statements(ss@, i as nat, *env, line as nat, character as nat),
        decreases ss@.len() - i,
    {
        let h = match &ss[i] {
            Statement::Header { value, .. } => hover_in_expr(value, false, env, line, character),
            Statement::Body { value, .. } => hover_in_expr(value, false, env, line, character),
            Statement::LineComment(_) => None,
        };
        if h.is_some() {
            found = h;
        }
        i = i + 1;
    }
    found
}

/// What the cursor finds in an item without the requests the program describes.
fn hover_in_item(item: &Item, env: &Environment, line: usize, character: usize) -> (r: Option<String>)
    requires
        env.wf(),
    ensures
        opt_view(r) == hover_item(*item, *env, line as nat, character as nat),
{
    match item {
        Item::SetConstant { value, .. } => hover_in_expr(value, false, env, line, character),
        Item::Let { value, .. } => hover_in_expr(value, false, env, line, character),
        Item::Request { block, .. } => match block {
            Some(b) => hover_in_statements(&b.statements, env, line, character),
            None => None,
        },
        Item::Attribute { parameters, .. } => {
            let mut found: Option<String> = None;
            let mut i: usize = 0;
            while i < parameters.len()
                invariant
                    env.wf(),
                    i <= parameters@.len(),
                    opt_view(found) == hover_list(parameters@, i as nat, false, *env, line as nat, character as nat),
                decreases parameters@.len() - i,
            {
                let h = hover_in_expr(&parameters[i], false, env, line, character);
                if h.is_some() {
                    found = h;
                }
                i = i + 1;
            }
            found
        },
        Item::Expr(e) => hover_in_expr(e, false, env, line, character),
        Item::LineComment(_) => None,
    }
}

/// The url of the first request whose span holds the cursor.
fn url_in(requests: &Vec<RequestItem>, line: usize, character: usize) -> (r: Option<String>)
    ensures
        opt_view(r) == url_at(
            requests@.map_values(|q: RequestItem| view_of(q)),
            requests@.len(),
            line as nat,
            character as nat,
        ),
{
    let ghost views = requests@.map_values(|q: RequestItem| view_of(q));
    let mut i: usize = 0;
    while i < requests.len()
        invariant
            views == requests@.map_values(|q: RequestItem| view_of(q)),
            i <= requests@.len(),
            url_at(views, i as nat, line as nat, character as nat) is None,
        decreases requests@.len() - i,
    {
        if span_holds_cursor(requests[i].span, line, character) {
            proof {
                assert(views[i as int] == view_of(requests@[i as int]));
                lemma_url_at_stays(views, (i + 1) as nat, views.len(), line as nat, character as nat);
            }
            return Some(requests[i].request.url.clone());
        }
        proof {
            assert(views[i as int] == view_of(requests@[i as int]));
        }
        i = i + 1;
    }
    None
}

/// Once a request holds the cursor, later requests do not change the url found.
proof fn lemma_url_at_stays(requests: Seq<RequestView>, m: nat, n: nat, line: nat, character: nat)
    requires
        m <= n <= requests.len(),
        url_at(requests, m, line, character) is Some,
    ensures
        url_at(requests, n, line, character) == url_at(requests, m, line, character),
    decreases n - m,
{
    if n > m {
        lemma_url_at_stays(requests, m, (n - 1) as nat, line, character);
    }
}

/// What an editor shows when the cursor rests at `line` and `character` of
/// `code`, with the variables of `env` and the files read so far: nothing when
/// the text does not parse; otherwise as `hover_of` says of the items read from it.
pub fn hover_docs(
    code: &str,
    env: Environment,
    files: &Vec<(String, Result<String, String>)>,
    line: usize,
    character: usize,
) -> (r: Option<String>)
    requires
        2 * code.spec_bytes().len() + 8 <= usize::MAX,
        env.wf(),
        unique_names(files@),
    ensures
        ({
            let src = code.spec_bytes();
            let outcome = program_spec(step_kinds(src), 0);
            &&& outcome.1.len() > 0 ==> r is None
            &&& outcome.1.len() == 0 ==> exists|items: Seq<Item>|
                read_from(items, src) && opt_view(r) == #[trigger] hover_of(
                    items,
                    env,
                    files@,
                    line as nat,
                    character as nat,
                )
        }),
{
    let mut parser = Parser::new(code);
    let ghost p0 = parser;
    let ghost src = code.spec_bytes();
    proof {
        assert(p0.source() == src);
        assert(p0.pos() == -1);
    }
    let program = match parser.parse() {
        Ok(program) => program,
        Err(_) => return None,
    };
    let ghost items = program.items@;
    let ghost l = line as nat;
    let ghost c = character as nat;
    proof {
        assert(read_from(items, src));
        assert(forall|j: int| 0 <= j < items.len() ==> item_in(#[trigger] items[j], src));
    }
    let mut k: usize = 0;
    while k < program.items.len()
        invariant
            items == program.items@,
            l == line as nat,
            c == character as nat,
            k <= items.len(),
            item_at(items, k as nat, l, c) < 0,
        ensures
            k < items.len() ==> item_at(items, (k + 1) as nat, l, c) == k,
        decreases items.len() - k,
    {
        let span = program.items[k].span();
        proof {
            assert(span == item_span(items[k as int]));
        }
        if span_holds_cursor(span, line, character) {
            proof {
                assert(item_at(items, (k + 1) as nat, l, c) == k);
            }
            break;
        }
        proof {
            assert(item_at(items, (k + 1) as nat, l, c) < 0);
        }
        k = k + 1;
    }
    if k == program.items.len() {
        proof {
            assert(hover_of(items, env, files@, l, c) is None);
        }
        return None;
    }
    proof {
        lemma_item_at_stays(items, (k + 1) as nat, items.len(), l, c);
    }
    let found = hover_in_item(&program.items[k], &env, line, character);
    let endpoint = match &program.items[k] {
        Item::Request { endpoint, .. } => span_holds_cursor(endpoint.span(), line, character),
        _ => false,
    };
    let mut interpreter = Interpreter::new(code, env);
    let evaluated = interpreter.evaluate_program(program, files);
    let requests = match evaluated {
        Ok(requests) => requests,
        Err(_) => return None,
    };
    let text = match found {
        Some(t) => t,
        None => if endpoint {
            match url_in(&requests, line, character) {
                Some(u) => u,
                None => String::new(),
            }
        } else {
            String::new()
        },
    };
    Some(text)
}

/// `e` is a call of `env(..)` whose one argument is the string `arg`, and the
/// cursor rests on that string, not on the name of the call.
pub open spec fn cursor_on_env_argument(e: Expression, arg: Seq<char>, line: nat, character: nat) -> bool {
    e matches Expression::Call { identifier, arguments } && {
        &&& identifier.name@ == "env"@
        &&& !holds_cursor(identifier.span, line, character)
        &&& arguments@.len() == 1
        &&& arguments@[0] matches Expression::String(s) && s.value@ == arg && holds_cursor(
            s.span,
            line,
            character,
        )
    }
}

/// Hovering the string of an `env(..)` call shows the value of the variable it
/// names (nothing when the environment has none), inside any expression.
pub proof fn hovering_an_env_argument_shows_its_value(
    e: Expression,
    arg: Seq<char>,
    in_env: bool,
    env: Environment,
    line: nat,
    character: nat,
)
    requires
        cursor_on_env_argument(e, arg, line, character),
    ensures
        hover_expr(e, in_env, env, line, character) == env.value_of(arg),
{
    if let Expression::Call { identifier, arguments } = e {
        assert(hover_list(arguments@, 0, true, env, line, character) is None);
        assert(hover_expr(arguments@[0], true, env, line, character) == env.value_of(arg));
    }
}

/// Whatever item holds the call (a `let`, a `set`, an expression standing
/// alone, or the value of a header or body of a request whose other statements
/// show nothing), hovering the string of an `env(..)` call shows the variable's
/// value.
pub proof fn hovering_an_env_argument_in_any_item(
    item: Item,
    e: Expression,
    arg: Seq<char>,
    env: Environment,
    line: nat,
    character: nat,
)
    requires
        cursor_on_env_argument(e, arg, line, character),
        env.value_of(arg) is Some,
        match item {
            Item::Let { value, .. } => value == e,
            Item::SetConstant { value, .. } => value == e,
            Item::Expr(v) => v == e,
            Item::Request { block: Some(b), .. } => exists|j: int|
                0 <= j < b.statements@.len() && (match #[trigger] b.statements@[j] {
                    Statement::Header { value, .. } => value == e,
                    Statement::Body { value, .. } => value == e,
                    _ => false,
                }) && forall|i: int|
                    j < i < b.statements@.len() ==> hover_statement(
                        #[trigger] b.statements@[i],
                        env,
                        line,
                        character,
                    ) is None,
            _ => false,
        },
    ensures
        hover_item(item, env, line, character) == env.value_of(arg),
{
    hovering_an_env_argument_shows_its_value(e, arg, false, env, line, character);
    if let Item::Request { block: Some(b), .. } = item {
        let ss = b.statements@;
        let j = choose|j: int|
            0 <= j < ss.len() && (match #[trigger] ss[j] {
                Statement::Header { value, .. } => value == e,
                Statement::Body { value, .. } => value == e,
                _ => false,
            }) && forall|i: int| j < i < ss.len() ==> hover_statement(#[trigger] ss[i], env, line, character) is None;
        assert(hover_statement(ss[j], env, line, character) == env.value_of(arg));
        lemma_statements_after(ss, j, ss.len(), env, line, character);
    }
}

/// Statements after the `j`th that show nothing leave what it shows.
proof fn lemma_statements_after(ss: Seq<Statement>, j: int, n: nat, env: Environment, line: nat, character: nat)
    requires
        0 <= j < n <= ss.len(),
        hover_statement(ss[j], env, line, character) is Some,
        forall|i: int| j < i < ss.len() ==> hover_statement(#[trigger] ss[i], env, line, character) is None,
    ensures
        hover_statements(ss, n, env, line, character) == hover_statement(ss[j], env, line, character),
    decreases n,
{
    if n > j + 1 {
        lemma_statements_after(ss, j, (n - 1) as nat, env, line, character);
    }
}

/// Hovering the string of an `env(..)` call in the first item that holds the
/// cursor, in a program that evaluates without error, shows the variable's value.
pub proof fn hovering_an_env_argument_in_a_program(
    items: Seq<Item>,
    e: Expression,
    arg: Seq<char>,
    env: Environment,
    files: Seq<(String, Result<String, String>)>,
    line: nat,
    character: nat,
)
    requires
        item_at(items, items.len(), line, character) >= 0,
        cursor_on_env_argument(e, arg, line, character),
        env.value_of(arg) is Some,
        match items[item_at(items, items.len(), line, character)] {
            Item::Let { value, .. } => value == e,
            Item::SetConstant { value, .. } => value == e,
            Item::Expr(v) => v == e,
            _ => false,
        },
        items_run(items, items.len(), env, files) matches Ok((_, faults)) && faults.len() == 0,
    ensures
        hover_of(items, env, files, line, character) == env.value_of(arg),
{
    hovering_an_env_argument_in_any_item(
        items[item_at(items, items.len(), line, character)],
        e,
        arg,
        env,
        line,
        character,
    );
}

/// Hovering the name of a call shows the documentation of that function, which
/// differs for each built-in function and is empty for any other name.
pub proof fn hovering_a_call_name_shows_its_documentation(
    e: Expression,
    in_env: bool,
    env: Environment,
    line: nat,
    character: nat,
)
    ensures
        e matches Expression::Call { identifier, .. } ==> (holds_cursor(identifier.span, line, character)
            ==> hover_expr(e, in_env, env, line, character) == Some(builtin_doc(identifier.name@))),
        builtin_doc("env"@).len() > 0,
        builtin_doc("json"@).len() > 0,
        builtin_doc("read"@).len() > 0,
        builtin_doc("escape_new_lines"@).len() > 0,
        builtin_doc("env"@) != builtin_doc("json"@),
        builtin_doc("env"@) != builtin_doc("read"@),
        builtin_doc("env"@) != builtin_doc("escape_new_lines"@),
        builtin_doc("json"@) != builtin_doc("read"@),
        builtin_doc("json"@) != builtin_doc("escape_new_lines"@),
        builtin_doc("read"@) != builtin_doc("escape_new_lines"@),
        forall|n: Seq<char>|
            n != "env"@ && n != "json"@ && n != "read"@ && n != "escape_new_lines"@ ==> builtin_doc(n).len()
                == 0,
{
    reveal_strlit("env");
    reveal_strlit("json");
    reveal_strlit("read");
    reveal_strlit("escape_new_lines");
    reveal_strlit("Read env file to grab values.\nRead `.env.rd.json` from the current workspace if there is one,\notherwise read that in the home directory.\n```typescript\n(builtin) env(variable: string): string\n```");
    reveal_strlit("Convert any value to a json string.\n```typescript\n(builtin) json(value: any): string\n```");
    reveal_strlit("Read file contents into a string and returns that string.\n```typescript\n(builtin) read(filename: string): string\n```");
    reveal_strlit("Escape the '\\n' characters in a string.\n```typescript\n(builtin) escape_new_lines(value: string): string\n```");
    assert("json"@.len() != "env"@.len());
    assert("read"@.len() != "env"@.len());
    assert("read"@[0] != "json"@[0]);
    assert("escape_new_lines"@.len() != "env"@.len());
    assert("escape_new_lines"@.len() != "json"@.len());
    assert("escape_new_lines"@.len() != "read"@.len());
    let d_env = builtin_doc("env"@);
    let d_json = builtin_doc("json"@);
    let d_read = builtin_doc("read"@);
    let d_esc = builtin_doc("escape_new_lines"@);
    assert(d_env[0] == 'R' && d_env[1] == 'e' && d_env[5] == 'e');
    assert(d_json[0] == 'C');
    assert(d_read[0] == 'R' && d_read[5] == 'f');
    assert(d_esc[0] == 'E');
}

} // verus!
