//! Warnings an editor shows beside a program: `env(..)` variables that some
//! namespaces of the environment lack.
use vstd::prelude::*;
use vstd::string::*;

use crate::interpreter::runtime::Environment;
use crate::locations::Span;
use crate::names::{find_name, index_of, unique_names};
use crate::parser::ast::{Expression, Item, Statement};
use crate::parser::{program_spec, step_kinds, Parser};
use crate::text::str_eq;

use super::completions::read_from;

verus! {

/// A warning on a stretch of source text.
pub struct EnvWarning {
    pub span: Span,
    pub message: String,
}

/// How a warning reads: where it points and what it says.
pub open spec fn warning_view(w: EnvWarning) -> (Span, Seq<char>) {
    (w.span, w.message@)
}

/// The names of the namespaces among the first `n` of `nss` that lack the
/// variable `name`, in order.
pub open spec fn missing_from(nss: Seq<(String, Vec<(String, String)>)>, n: nat, name: Seq<char>) -> Seq<
    Seq<char>,
>
    decreases n,
{
    if n == 0 || n > nss.len() {
        Seq::empty()
    } else if index_of(nss[n - 1].1@, name) < 0 {
        missing_from(nss, (n - 1) as nat, name).push(nss[n - 1].0@)
    } else {
        missing_from(nss, (n - 1) as nat, name)
    }
}

/// The first `n` texts of `parts`, separated by a comma and a space.
pub open spec fn joined(parts: Seq<Seq<char>>, n: nat) -> Seq<char>
    decreases n,
{
    if n == 0 || n > parts.len() {
        Seq::empty()
    } else if n == 1 {
        parts[0]
    } else {
        joined(parts, (n - 1) as nat) + ", "@ + parts[n - 1]
    }
}

/// The warning an expression gives of its own: a call of `env` whose first
/// argument is a string naming a variable that some namespaces lack, pointing
/// at that string and naming those namespaces.
pub open spec fn env_call_warning(e: Expression, env: Environment) -> Option<(Span, Seq<char>)> {
    match e {
        Expression::Call { identifier, arguments } => if identifier.name@ == "env"@ && arguments@.len() > 0 {
            match arguments@[0] {
                Expression::String(s) => {
                    let nss = env.namespaced_variables@;
                    let missing = missing_from(nss, nss.len(), s.value@);
                    if missing.len() > 0 {
                        Some(
                            (
                                s.span,
                                "variable '"@ + s.value@ + "' missing from some namespaces: "@ + joined(
                                    missing,
                                    missing.len(),
                                ),
                            ),
                        )
                    } else {
                        None
                    }
                },
                _ => None,
            }
        } else {
            None
        },
        _ => None,
    }
}

/// The warnings after visiting an expression: those of its parts, then its own.
pub open spec fn warn_expr(e: Expression, acc: Seq<(Span, Seq<char>)>, env: Environment) -> Seq<
    (Span, Seq<char>),
>
    decreases e, 2nat,
{
    let inner = warn_parts(e, acc, env);
    match env_call_warning(e, env) {
        Some(w) => inner.push(w),
        None => inner,
    }
}

/// The warnings after visiting the parts of an expression, in order.
pub open spec fn warn_parts(e: Expression, acc: Seq<(Span, Seq<char>)>, env: Environment) -> Seq<
    (Span, Seq<char>),
>
    decreases e, 1nat,
{
    match e {
        Expression::Call { arguments, .. } => warn_list(arguments@, arguments@.len(), acc, env),
        Expression::TemplateSringLiteral { parts, .. } => warn_list(parts@, parts@.len(), acc, env),
        Expression::Object((_, fields)) => warn_fields(fields@, fields@.len(), acc, env),
        Expression::Array((_, items)) => warn_list(items@, items@.len(), acc, env),
        _ => acc,
    }
}

/// The warnings after visiting the first `n` expressions, in order.
pub open spec fn warn_list(es: Seq<Expression>, n: nat, acc: Seq<(Span, Seq<char>)>, env: Environment) -> Seq<
    (Span, Seq<char>),
>
    decreases es, n,
{
    if n == 0 || n > es.len() {
        acc
    } else {
        warn_expr(es[n - 1], warn_list(es, (n - 1) as nat, acc, env), env)
    }
}

/// The warnings after visiting the values of the first `n` fields, in order.
pub open spec fn warn_fields(
    fields: Seq<(&str, Expression)>,
    n: nat,
    acc: Seq<(Span, Seq<char>)>,
    env: Environment,
) -> Seq<(Span, Seq<char>)>
    decreases fields, n,
{
    if n == 0 || n > fields.len() {
        acc
    } else {
        warn_expr(fields[n - 1].1, warn_fields(fields, (n - 1) as nat, acc, env), env)
    }
}

/// The warnings after visiting a statement.
pub open spec fn warn_statement(s: Statement, acc: Seq<(Span, Seq<char>)>, env: Environment) -> Seq<
    (Span, Seq<char>),
> {
    match s {
        Statement::Header { value, .. } => warn_expr(value, acc, env),
        Statement::Body { value, .. } => warn_expr(value, acc, env),
        Statement::LineComment(_) => acc,
    }
}

/// The warnings after visiting the first `n` statements, in order.
pub open spec fn warn_statements(ss: Seq<Statement>, n: nat, acc: Seq<(Span, Seq<char>)>, env: Environment) -> Seq<
    (Span, Seq<char>),
>
    decreases n,
{
    if n == 0 || n > ss.len() {
        acc
    } else {
        warn_statement(ss[n - 1], warn_statements(ss, (n - 1) as nat, acc, env), env)
    }
}

/// The warnings after visiting an item.
pub open spec fn warn_item(item: Item, acc: Seq<(Span, Seq<char>)>, env: Environment) -> Seq<
    (Span, Seq<char>),
> {
    match item {
        Item::SetConstant { value, .. } => warn_expr(value, acc, env),
        Item::Let { value, .. } => warn_expr(value, acc, env),
        Item::Request { block, .. } => match block {
            Some(b) => warn_statements(b.statements@, b.statements@.len(), acc, env),
            None => acc,
        },
        Item::Attribute { parameters, .. } => warn_list(parameters@, parameters@.len(), acc, env),
        Item::Expr(e) => warn_expr(e, acc, env),
        Item::LineComment(_) => acc,
    }
}

/// The warnings of the first `n` items, in order.
pub open spec fn warn_items(items: Seq<Item>, n: nat, env: Environment) -> Seq<(Span, Seq<char>)>
    decreases n,
{
    if n == 0 || n > items.len() {
        Seq::empty()
    } else {
        warn_item(items[n - 1], warn_items(items, (n - 1) as nat, env), env)
    }
}

/// `a` begins with `b`.
pub open spec fn extends(a: Seq<(Span, Seq<char>)>, b: Seq<(Span, Seq<char>)>) -> bool {
    b.len() <= a.len() && a.subrange(0, b.len() as int) =~= b
}

proof fn lemma_extends_trans(a: Seq<(Span, Seq<char>)>, b: Seq<(Span, Seq<char>)>, c: Seq<(Span, Seq<char>)>)
    requires
        extends(a, b),
        extends(b, c),
    ensures
        extends(a, c),
{
    assert(a.subrange(0, c.len() as int) =~= b.subrange(0, c.len() as int));
}

/// Visiting an expression only adds warnings after those gathered.
proof fn lemma_warn_expr_extends(e: Expression, acc: Seq<(Span, Seq<char>)>, env: Environment)
    ensures
        extends(warn_expr(e, acc, env), acc),
    decreases e, 2nat,
{
    lemma_warn_parts_extends(e, acc, env);
    let inner = warn_parts(e, acc, env);
    if let Some(w) = env_call_warning(e, env) {
        lemma_extends_trans(inner.push(w), inner, acc);
    }
}

proof fn lemma_warn_parts_extends(e: Expression, acc: Seq<(Span, Seq<char>)>, env: Environment)
    ensures
        extends(warn_parts(e, acc, env), acc),
    decreases e, 1nat,
{
    match e {
        Expression::Call { arguments, .. } => lemma_warn_list_extends(arguments@, arguments@.len(), acc, env),
        Expression::TemplateSringLiteral { parts, .. } => lemma_warn_list_extends(parts@, parts@.len(), acc, env),
        Expression::Object((_, fields)) => lemma_warn_fields_extends(fields@, fields@.len(), acc, env),
        Expression::Array((_, items)) => lemma_warn_list_extends(items@, items@.len(), acc, env),
        _ => {},
    }
}

proof fn lemma_warn_list_extends(es: Seq<Expression>, n: nat, acc: Seq<(Span, Seq<char>)>, env: Environment)
    ensures
        extends(warn_list(es, n, acc, env), acc),
    decreases es, n,
{
    if n > 0 && n <= es.len() {
        lemma_warn_list_extends(es, (n - 1) as nat, acc, env);
        let before = warn_list(es, (n - 1) as nat, acc, env);
        lemma_warn_expr_extends(es[n - 1], before, env);
        lemma_extends_trans(warn_list(es, n, acc, env), before, acc);
    }
}

proof fn lemma_warn_fields_extends(
    fields: Seq<(&str, Expression)>,
    n: nat,
    acc: Seq<(Span, Seq<char>)>,
    env: Environment,
)
    ensures
        extends(warn_fields(fields, n, acc, env), acc),
    decreases fields, n,
{
    if n > 0 && n <= fields.len() {
        lemma_warn_fields_extends(fields, (n - 1) as nat, acc, env);
        let before = warn_fields(fields, (n - 1) as nat, acc, env);
        lemma_warn_expr_extends(fields[n - 1].1, before, env);
        lemma_extends_trans(warn_fields(fields, n, acc, env), before, acc);
    }
}

proof fn lemma_warn_statements_extends(
    ss: Seq<Statement>,
    m: nat,
    n: nat,
    acc: Seq<(Span, Seq<char>)>,
    env: Environment,
)
    requires
        m <= n <= ss.len(),
    ensures
        extends(warn_statements(ss, n, acc, env), warn_statements(ss, m, acc, env)),
    decreases n,
{
    if n > m {
        lemma_warn_statements_extends(ss, m, (n - 1) as nat, acc, env);
        let before = warn_statements(ss, (n - 1) as nat, acc, env);
        match ss[n - 1] {
            Statement::Header { value, .. } => lemma_warn_expr_extends(value, before, env),
            Statement::Body { value, .. } => lemma_warn_expr_extends(value, before, env),
            Statement::LineComment(_) => {},
        }
        lemma_extends_trans(warn_statements(ss, n, acc, env), before, warn_statements(ss, m, acc, env));
    } else {
        assert(extends(warn_statements(ss, n, acc, env), warn_statements(ss, m, acc, env)));
    }
}

proof fn lemma_warn_item_extends(item: Item, acc: Seq<(Span, Seq<char>)>, env: Environment)
    ensures
        extends(warn_item(item, acc, env), acc),
{
    match item {
        Item::SetConstant { value, .. } => lemma_warn_expr_extends(value, acc, env),
        Item::Let { value, .. } => lemma_warn_expr_extends(value, acc, env),
        Item::Request { block, .. } => match block {
            Some(b) => lemma_warn_statements_extends(b.statements@, 0, b.statements@.len(), acc, env),
            None => {},
        },
        Item::Attribute { parameters, .. } => lemma_warn_list_extends(parameters@, parameters@.len(), acc, env),
        Item::Expr(e) => lemma_warn_expr_extends(e, acc, env),
        Item::LineComment(_) => {},
    }
}

proof fn lemma_warn_items_extends(items: Seq<Item>, m: nat, n: nat, env: Environment)
    requires
        m <= n <= items.len(),
    ensures
        extends(warn_items(items, n, env), warn_items(items, m, env)),
    decreases n,
{
    if n > m {
        lemma_warn_items_extends(items, m, (n - 1) as nat, env);
        lemma_warn_item_extends(items[n - 1], warn_items(items, (n - 1) as nat, env), env);
        lemma_extends_trans(warn_items(items, n, env), warn_items(items, (n - 1) as nat, env), warn_items(items, m, env));
    } else {
        assert(extends(warn_items(items, n, env), warn_items(items, m, env)));
    }
}

/// The namespaces named as lacking a variable are exactly those among the first
/// `n` whose variables do not hold it.
pub proof fn the_missing_namespaces_are_those_that_lack_it(
    nss: Seq<(String, Vec<(String, String)>)>,
    n: nat,
    name: Seq<char>,
    ns: Seq<char>,
)
    requires
        n <= nss.len(),
    ensures
        missing_from(nss, n, name).contains(ns) <==> exists|i: int|
            0 <= i < n && (#[trigger] nss[i]).0@ == ns && index_of(nss[i].1@, name) < 0,
    decreases n,
{
    if n > 0 {
        the_missing_namespaces_are_those_that_lack_it(nss, (n - 1) as nat, name, ns);
        let prev = missing_from(nss, (n - 1) as nat, name);
        if index_of(nss[n - 1].1@, name) < 0 {
            let now = prev.push(nss[n - 1].0@);
            if now.contains(ns) {
                let k = choose|k: int| 0 <= k < now.len() && now[k] == ns;
                if k < prev.len() {
                    assert(prev[k] == ns);
                }
            }
            if prev.contains(ns) {
                let k = choose|k: int| 0 <= k < prev.len() && prev[k] == ns;
                assert(now[k] == ns);
            }
            assert(now[now.len() - 1] == nss[n - 1].0@);
        }
    }
}

/// `e` calls `env(..)` with the string `name` at `span` as its first argument.
pub open spec fn env_call_of(e: Expression, name: Seq<char>, span: Span) -> bool {
    e matches Expression::Call { identifier, arguments } && {
        &&& identifier.name@ == "env"@
        &&& arguments@.len() > 0
        &&& arguments@[0] matches Expression::String(s) && s.value@ == name && s.span == span
    }
}

/// The warning on a variable that the namespaces `missing` lack.
pub open spec fn lacking_warning(name: Seq<char>, span: Span, missing: Seq<Seq<char>>) -> (Span, Seq<char>) {
    (span, "variable '"@ + name + "' missing from some namespaces: "@ + joined(missing, missing.len()))
}

/// `item` holds `e` as its value, or as the value of a header or body of its block.
pub open spec fn holds_as_value(item: Item, e: Expression) -> bool {
    match item {
        Item::Let { value, .. } => value == e,
        Item::SetConstant { value, .. } => value == e,
        Item::Expr(v) => v == e,
        Item::Request { block: Some(b), .. } => exists|j: int|
            0 <= j < b.statements@.len() && match #[trigger] b.statements@[j] {
                Statement::Header { value, .. } => value == e,
                Statement::Body { value, .. } => value == e,
                _ => false,
            },
        _ => false,
    }
}

/// Every `env("name")` call that stands as the value of an item, or of a header
/// or a body of a request, is warned of, at its string, when some namespace
/// lacks the variable: the warning names those namespaces, in order.
pub proof fn every_lacking_variable_is_warned_of(
    items: Seq<Item>,
    k: int,
    e: Expression,
    name: Seq<char>,
    span: Span,
    env: Environment,
)
    requires
        0 <= k < items.len(),
        env_call_of(e, name, span),
        holds_as_value(items[k], e),
        missing_from(env.namespaced_variables@, env.namespaced_variables@.len(), name).len() > 0,
    ensures
        warn_items(items, items.len(), env).contains(
            lacking_warning(
                name,
                span,
                missing_from(env.namespaced_variables@, env.namespaced_variables@.len(), name),
            ),
        ),
{
    let w = lacking_warning(
        name,
        span,
        missing_from(env.namespaced_variables@, env.namespaced_variables@.len(), name),
    );
    assert(env_call_warning(e, env) == Some(w));
    let before = warn_items(items, k as nat, env);
    let after = warn_items(items, (k + 1) as nat, env);
    let item = items[k];
    // the warning is in what the item gives
    assert(warn_item(item, before, env).contains(w)) by {
        lemma_warn_parts_extends(e, before, env);
        match item {
            Item::Request { block: Some(b), .. } => {
                let ss = b.statements@;
                let j = choose|j: int|
                    0 <= j < ss.len() && match #[trigger] ss[j] {
                        Statement::Header { value, .. } => value == e,
                        Statement::Body { value, .. } => value == e,
                        _ => false,
                    };
                let pre = warn_statements(ss, j as nat, before, env);
                lemma_warn_parts_extends(e, pre, env);
                let at_j = warn_statements(ss, (j + 1) as nat, before, env);
                assert(at_j == warn_parts(e, pre, env).push(w));
                assert(at_j[at_j.len() - 1] == w);
                lemma_warn_statements_extends(ss, (j + 1) as nat, ss.len(), before, env);
                let all = warn_statements(ss, ss.len(), before, env);
                assert(all[at_j.len() - 1] == at_j[at_j.len() - 1]);
            },
            _ => {
                let out = warn_parts(e, before, env).push(w);
                assert(out[out.len() - 1] == w);
            },
        }
    }
    assert(after == warn_item(item, before, env));
    lemma_warn_items_extends(items, (k + 1) as nat, items.len(), env);
    let all = warn_items(items, items.len(), env);
    let i = choose|i: int| 0 <= i < after.len() && after[i] == w;
    assert(all[i] == after[i]);
}

/// The names of the namespaces that lack the variable `name`.
fn namespaces_missing(env: &Environment, name: &str) -> (r: Vec<String>)
    requires
        env.wf(),
    ensures
        r@.map_values(|s: String| s@) == missing_from(
            env.namespaced_variables@,
            env.namespaced_variables@.len(),
            name@,
        ),
{
    let nss = &env.namespaced_variables;
    let mut r: Vec<String> = Vec::new();
    let mut i: usize = 0;
    while i < nss.len()
        invariant
            env.wf(),
            nss == &env.namespaced_variables,
            i <= nss@.len(),
            r@.map_values(|s: String| s@) == missing_from(nss@, i as nat, name@),
        decreases nss@.len() - i,
    {
        proof {
            assert(unique_names(nss@[i as int].1@));
        }
        if find_name(&nss[i].1, name).is_none() {
            let ghost before = r@;
            r.push(nss[i].0.clone());
            proof {
                assert(r@.map_values(|s: String| s@) =~= before.map_values(|s: String| s@).push(nss@[i as int].0@));
            }
        }
        i = i + 1;
    }
    r
}

/// The names, separated by a comma and a space.
fn join_names(parts: &Vec<String>) -> (r: String)
    ensures
        r@ == joined(parts@.map_values(|s: String| s@), parts@.len()),
{
    let ghost views = parts@.map_values(|s: String| s@);
    let mut r = String::new();
    let mut i: usize = 0;
    while i < parts.len()
        invariant
            views == parts@.map_values(|s: String| s@),
            i <= parts@.len(),
            r@ == joined(views, i as nat),
        decreases parts@.len() - i,
    {
        let ghost before = r@;
        if i > 0 {
            r.append(", ");
        }
        r.append(parts[i].as_str());
        proof {
            reveal_strlit(", ");
            if i == 0 {
                assert(r@ =~= views[0]);
            } else {
                assert(r@ =~= before + ", "@ + views[i as int]);
            }
        }
        i = i + 1;
    }
    r
}

/// The warning an expression gives of its own.
fn own_warning(e: &Expression, env: &Environment) -> (r: Option<EnvWarning>)
    requires
        env.wf(),
    ensures
        match r {
            Some(w) => env_call_warning(*e, *env) == Some(warning_view(w)),
            None => env_call_warning(*e, *env) is None,
        },
{
    if let Expression::Call { identifier, arguments } = e {
        if str_eq(identifier.name, "env") && arguments.len() > 0 {
            if let Expression::String(s) = &arguments[0] {
                let missing = namespaces_missing(env, s.value);
                if missing.len() > 0 {
                    let mut message = String::from_str("variable '");
                    message.append(s.value);
                    message.append("' missing from some namespaces: ");
                    let names = join_names(&missing);
                    message.append(names.as_str());
                    proof {
                        reveal_strlit("variable '");
                        reveal_strlit("' missing from some namespaces: ");
                    }
                    return Some(EnvWarning { span: s.span, message });
                }
            }
        }
    }
    None
}

/// Gathers the warnings of an expression.
fn warn_in_expr(e: &Expression, acc: &mut Vec<EnvWarning>, env: &Environment)
    requires
        env.wf(),
    ensures
        final(acc)@.map_values(|w: EnvWarning| warning_view(w)) == warn_expr(
            *e,
            old(acc)@.map_values(|w: EnvWarning| warning_view(w)),
            *env,
        ),
    decreases e, 2nat,
{
    warn_in_parts(e, acc, env);
    match own_warning(e, env) {
        Some(w) => {
            let ghost before = acc@;
            acc.push(w);
            proof {
                assert(acc@.map_values(|w: EnvWarning| warning_view(w)) =~= before.map_values(
                    |w: EnvWarning| warning_view(w),
                ).push(warning_view(w)));
            }
        },
        None => {},
    }
}

/// Gathers the warnings of the parts of an expression, in order.
fn warn_in_parts(e: &Expression, acc: &mut Vec<EnvWarning>, env: &Environment)
    requires
        env.wf(),
    ensures
        final(acc)@.map_values(|w: EnvWarning| warning_view(w)) == warn_parts(
            *e,
            old(acc)@.map_values(|w: EnvWarning| warning_view(w)),
            *env,
        ),
    decreases e, 1nat,
{
    let ghost a0 = acc@.map_values(|w: EnvWarning| warning_view(w));
    match e {
        Expression::Call { arguments, .. } => {
            let mut i: usize = 0;
            while i < arguments.len()
                invariant
                    env.wf(),
                    *e matches Expression::Call { arguments: a, .. } && a == arguments,
                    i <= arguments@.len(),
                    acc@.map_values(|w: EnvWarning| warning_view(w)) == warn_list(arguments@, i as nat, a0, *env),
                decreases arguments@.len() - i,
            {
                proof {
                    assert(decreases_to!(*e => arguments@[i as int]));
                }
                warn_in_expr(&arguments[i], acc, env);
                i = i + 1;
            }
        },
        Expression::TemplateSringLiteral { parts, .. } => {
            let mut i: usize = 0;
            while i < parts.len()
                invariant
                    env.wf(),
                    *e matches Expression::TemplateSringLiteral { parts: p, .. } && p == parts,
                    i <= parts@.len(),
                    acc@.map_values(|w: EnvWarning| warning_view(w)) == warn_list(parts@, i as nat, a0, *env),
                decreases parts@.len() - i,
            {
                proof {
                    assert(decreases_to!(*e => parts@[i as int]));
                }
                warn_in_expr(&parts[i], acc, env);
                i = i + 1;
            }
        },
        Expression::Object((_, fields)) => {
            let mut i: usize = 0;
            while i < fields.len()
                invariant
                    env.wf(),
                    *e matches Expression::Object((_, fs)) && fs == fields,
                    i <= fields@.len(),
                    acc@.map_values(|w: EnvWarning| warning_view(w)) == warn_fields(fields@, i as nat, a0, *env),
                decreases fields@.len() - i,
            {
                proof {
                    assert(decreases_to!(*e => fields@[i as int].1));
                }
                warn_in_expr(&fields[i].1, acc, env);
                i = i + 1;
            }
        },
        Expression::Array((_, items)) => {
            let mut i: usize = 0;
            while i < items.len()
                invariant
                    env.wf(),
                    *e matches Expression::Array((_, its)) && its == items,
                    i <= items@.len(),
                    acc@.map_values(|w: EnvWarning| warning_view(w)) == warn_list(items@, i as nat, a0, *env),
                decreases items@.len() - i,
            {
                proof {
                    assert(decreases_to!(*e => items@[i as int]));
                }
                warn_in_expr(&items[i], acc, env);
                i = i + 1;
            }
        },
        _ => {},
    }
}

/// Gathers the warnings of an item.
fn warn_in_item(item: &Item, acc: &mut Vec<EnvWarning>, env: &Environment)
    requires
        env.wf(),
    ensures
        final(acc)@.map_values(|w: EnvWarning| warning_view(w)) == warn_item(
            *item,
            old(acc)@.map_values(|w: EnvWarning| warning_view(w)),
            *env,
        ),
{
    let ghost a0 = acc@.map_values(|w: EnvWarning| warning_view(w));
    match item {
        Item::SetConstant { value, .. } => warn_in_expr(value, acc, env),
        Item::Let { value, .. } => warn_in_expr(value, acc, env),
        Item::Request { block, .. } => match block {
            Some(b) => {
                let mut i: usize = 0;
                while i < b.statements.len()
                    invariant
                        env.wf(),
                        i <= b.statements@.len(),
                        acc@.map_values(|w: EnvWarning| warning_view(w)) == warn_statements(
                            b.statements@,
                            i as nat,
                            a0,
                            *env,
                        ),
                    decreases b.statements@.len() - i,
                {
                    match &b.statements[i] {
                        Statement::Header { value, .. } => warn_in_expr(value, acc, env),
                        Statement::Body { value, .. } => warn_in_expr(value, acc, env),
                        Statement::LineComment(_) => {},
                    }
                    i = i + 1;
                }
            },
            None => {},
        },
        Item::Attribute { parameters, .. } => {
            let mut i: usize = 0;
            while i < parameters.len()
                invariant
                    env.wf(),
                    i <= parameters@.len(),
                    acc@.map_values(|w: EnvWarning| warning_view(w)) == warn_list(parameters@, i as nat, a0, *env),
                decreases parameters@.len() - i,
            {
                warn_in_expr(&parameters[i], acc, env);
                i = i + 1;
            }
        },
        Item::Expr(e) => warn_in_expr(e, acc, env),
        Item::LineComment(_) => {},
    }
}

/// The warnings of `code` about `env(..)` variables that some namespaces of
/// `env` lack, in the order of the text: none when the text does not parse;
/// otherwise as `warn_items` says of the items read from it.
pub fn env_var_warnings(code: &str, env: &Environment) -> (r: Vec<EnvWarning>)
    requires
        2 * code.spec_bytes().len() + 8 <= usize::MAX,
        env.wf(),
    ensures
        ({
            let src = code.spec_bytes();
            let outcome = program_spec(step_kinds(src), 0);
            &&& outcome.1.len() > 0 ==> r@.len() == 0
            &&& outcome.1.len() == 0 ==> exists|items: Seq<Item>|
                read_from(items, src) && r@.map_values(|w: EnvWarning| warning_view(w)) == #[trigger] warn_items(
                    items,
                    items.len(),
                    *env,
                )
        }),
{
    let mut parser = Parser::new(code);
    let ghost p0 = parser;
    let ghost src = code.spec_bytes();
    proof {
        assert(p0.source() == src);
        assert(p0.pos() == -1);
    }
    let program = match parser.parse() {
        Ok(program) => program,
        Err(_) => return Vec::new(),
    };
    let ghost items = program.items@;
    proof {
        assert(read_from(items, src));
    }
    let mut acc: Vec<EnvWarning> = Vec::new();
    let mut i: usize = 0;
    proof {
        assert(acc@.map_values(|w: EnvWarning| warning_view(w)) =~= warn_items(items, 0, *env));
    }
    while i < program.items.len()
        invariant
            env.wf(),
            items == program.items@,
            i <= items.len(),
            acc@.map_values(|w: EnvWarning| warning_view(w)) == warn_items(items, i as nat, *env),
        decreases items.len() - i,
    {
        warn_in_item(&program.items[i], &mut acc, env);
        i = i + 1;
    }
    proof {
        assert(warn_items(items, items.len(), *env) == acc@.map_values(|w: EnvWarning| warning_view(w)));
    }
    acc
}

} // verus!
