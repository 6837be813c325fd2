//! The text of the parts of a program, one item per line, as the formatter
//! writes them.
use vstd::prelude::*;
use vstd::string::*;

use crate::locations::{spec_is_before, Location};
use crate::parser::ast::{Endpoint, Expression, Identifier, Item, Program, RequestMethod, Statement};

verus! {

/// The texts of `parts`, with `sep` between them.
pub open spec fn join(parts: Seq<Seq<char>>, sep: Seq<char>) -> Seq<char>
    decreases parts.len(),
{
    if parts.len() == 0 {
        Seq::empty()
    } else if parts.len() == 1 {
        parts[0]
    } else {
        join(parts.drop_last(), sep) + sep + parts.last()
    }
}

/// How a method is written.
pub open spec fn method_text(m: RequestMethod) -> Seq<char> {
    match m {
        RequestMethod::GET => "GET"@,
        RequestMethod::POST => "POST"@,
        RequestMethod::DELETE => "DELETE"@,
        RequestMethod::PATCH => "PATCH"@,
        RequestMethod::PUT => "PUT"@,
    }
}

impl RequestMethod {
    pub fn to_string(&self) -> (r: String)
        ensures
            r@ == method_text(*self),
    {
        match self {
            RequestMethod::GET => String::from_str("GET"),
            RequestMethod::POST => String::from_str("POST"),
            RequestMethod::DELETE => String::from_str("DELETE"),
            RequestMethod::PATCH => String::from_str("PATCH"),
            RequestMethod::PUT => String::from_str("PUT"),
        }
    }
}

/// How an expression is written: names and raw strings as they are, calls with
/// their arguments between parentheses, the parts of a template string, objects
/// and arrays with their members, all separated by spaces.
pub open spec fn expr_text(e: Expression) -> Seq<char>
    decreases e, 0nat,
{
    match e {
        Expression::Identifier(i) => i.name@,
        Expression::String(l) => l.raw@,
        Expression::Bool(l) => l.value@,
        Expression::Number(l) => l.value@,
        Expression::Null(_) => "null"@,
        Expression::Call { identifier, arguments } => identifier.name@ + "("@ + exprs_text(
            arguments@,
            arguments@.len(),
        ) + ")"@,
        Expression::TemplateSringLiteral { parts, .. } => exprs_text(parts@, parts@.len()),
        Expression::EmptyObject(_) => "{}"@,
        Expression::Object((_, fields)) => "{"@ + fields_text(fields@, fields@.len()) + "}"@,
        Expression::EmptyArray(_) => "[]"@,
        Expression::Array((_, items)) => "["@ + exprs_text(items@, items@.len()) + "]"@,
    }
}

/// The first `n` expressions written and joined by spaces.
pub open spec fn exprs_text(es: Seq<Expression>, n: nat) -> Seq<char>
    decreases es, n,
{
    if n == 0 || n > es.len() {
        Seq::empty()
    } else if n == 1 {
        expr_text(es[0])
    } else {
        exprs_text(es, (n - 1) as nat) + " "@ + expr_text(es[n - 1])
    }
}

/// The first `n` fields of an object written as `key: value`, joined by spaces.
pub open spec fn fields_text(fs: Seq<(&str, Expression)>, n: nat) -> Seq<char>
    decreases fs, n,
{
    if n == 0 || n > fs.len() {
        Seq::empty()
    } else if n == 1 {
        fs[0].0@ + ": "@ + expr_text(fs[0].1)
    } else {
        fields_text(fs, (n - 1) as nat) + " "@ + fs[n - 1].0@ + ": "@ + expr_text(fs[n - 1].1)
    }
}

fn exprs_to_string(es: &Vec<Expression>) -> (r: String)
    ensures
        r@ == exprs_text(es@, es@.len()),
    decreases es@, 1nat,
{
    let mut s = String::new();
    let mut i: usize = 0;
    while i < es.len()
        invariant
            0 <= i <= es@.len(),
            s@ == exprs_text(es@, i as nat),
        decreases es@.len() - i,
    {
        if i > 0 {
            s.append(" ");
        }
        proof {
            assert(decreases_to!(es@ => es@[i as int]));
        }
        let t = es[i].to_string();
        s.append(t.as_str());
        i = i + 1;
    }
    s
}

fn fields_to_string(fs: &Vec<(&str, Expression)>) -> (r: String)
    ensures
        r@ == fields_text(fs@, fs@.len()),
    decreases fs@, 1nat,
{
    let mut s = String::new();
    let mut i: usize = 0;
    while i < fs.len()
        invariant
            0 <= i <= fs@.len(),
            s@ == fields_text(fs@, i as nat),
        decreases fs@.len() - i,
    {
        if i > 0 {
            s.append(" ");
        }
        s.append(fs[i].0);
        s.append(": ");
        proof {
            assert(decreases_to!(fs@ => fs@[i as int].1));
        }
        let t = fs[i].1.to_string();
        s.append(t.as_str());
        i = i + 1;
    }
    s
}

impl<'source> Expression<'source> {
    pub fn to_string(&self) -> (r: String)
        ensures
            r@ == expr_text(*self),
        decreases *self, 2nat,
    {
        match self {
            Expression::Identifier(i) => i.name.to_string(),
            Expression::String(l) => l.raw.to_string(),
            Expression::Bool(l) => l.value.to_string(),
            Expression::Number(l) => l.value.to_string(),
            Expression::Null(_) => String::from_str("null"),
            Expression::Call { identifier, arguments } => {
                let mut s = identifier.name.to_string();
                s.append("(");
                let a = exprs_to_string(arguments);
                s.append(a.as_str());
                s.append(")");
                s
            },
            Expression::TemplateSringLiteral { parts, .. } => exprs_to_string(parts),
            Expression::EmptyObject(_) => String::from_str("{}"),
            Expression::Object((_, fields)) => {
                let mut s = String::from_str("{");
                let f = fields_to_string(fields);
                s.append(f.as_str());
                s.append("}");
                s
            },
            Expression::EmptyArray(_) => String::from_str("[]"),
            Expression::Array((_, items)) => {
                let mut s = String::from_str("[");
                let a = exprs_to_string(items);
                s.append(a.as_str());
                s.append("]");
                s
            },
        }
    }
}

/// How a statement is written.
pub open spec fn statement_text(s: Statement) -> Seq<char> {
    match s {
        Statement::Header { name, value } => "header "@ + name.raw@ + " "@ + expr_text(value),
        Statement::Body { value, .. } => "body "@ + expr_text(value),
        Statement::LineComment(l) => l.value@,
    }
}

impl<'source> Statement<'source> {
    pub fn to_string(&self) -> (r: String)
        ensures
            r@ == statement_text(*self),
    {
        match self {
            Statement::Header { name, value } => {
                let mut s = String::from_str("header ");
                s.append(name.raw);
                s.append(" ");
                let v = value.to_string();
                s.append(v.as_str());
                s
            },
            Statement::Body { value, .. } => {
                let mut s = String::from_str("body ");
                let v = value.to_string();
                s.append(v.as_str());
                s
            },
            Statement::LineComment(l) => l.value.to_string(),
        }
    }
}

/// How an endpoint is written.
pub open spec fn endpoint_text(e: Endpoint) -> Seq<char> {
    match e {
        Endpoint::Url(l) => l.value@,
        Endpoint::Pathname(l) => l.value@,
    }
}

impl<'source> Endpoint<'source> {
    pub fn to_string(&self) -> (r: String)
        ensures
            r@ == endpoint_text(*self),
    {
        match self {
            Endpoint::Url(l) => l.value.to_string(),
            Endpoint::Pathname(l) => l.value.to_string(),
        }
    }
}

/// The first `n` statements written and joined by spaces.
pub open spec fn statements_text(ss: Seq<Statement>, n: nat) -> Seq<char>
    decreases n,
{
    if n == 0 || n > ss.len() {
        Seq::empty()
    } else if n == 1 {
        statement_text(ss[0])
    } else {
        statements_text(ss, (n - 1) as nat) + " "@ + statement_text(ss[n - 1])
    }
}

/// How an item is written.
pub open spec fn item_text(item: Item) -> Seq<char> {
    match item {
        Item::SetConstant { identifier, value } => "set "@ + identifier.name@ + " "@ + expr_text(
            value,
        ),
        Item::Let { identifier, value } => "let "@ + identifier.name@ + " "@ + expr_text(value),
        Item::LineComment(l) => l.value@,
        Item::Request { method, endpoint, block, .. } => method_text(method) + " "@ + endpoint_text(
            endpoint,
        ) + " { "@ + match block {
            Some(b) => statements_text(b.statements@, b.statements@.len()),
            None => Seq::empty(),
        } + " }"@,
        Item::Attribute { identifier, parameters, .. } => "@"@ + identifier.name@ + "("@
            + exprs_text(parameters@, parameters@.len()) + ")"@,
        Item::Expr(e) => expr_text(e),
    }
}

impl<'source> Item<'source> {
    pub fn to_string(&self) -> (r: String)
        ensures
            r@ == item_text(*self),
    {
        match self {
            Item::SetConstant { identifier, value } => {
                let mut s = String::from_str("set ");
                s.append(identifier.name);
                s.append(" ");
                let v = value.to_string();
                s.append(v.as_str());
                s
            },
            Item::Let { identifier, value } => {
                let mut s = String::from_str("let ");
                s.append(identifier.name);
                s.append(" ");
                let v = value.to_string();
                s.append(v.as_str());
                s
            },
            Item::LineComment(l) => l.value.to_string(),
            Item::Request { method, endpoint, block, .. } => {
                let mut s = method.to_string();
                s.append(" ");
                let e = endpoint.to_string();
                s.append(e.as_str());
                s.append(" { ");
                match block {
                    Some(b) => {
                        let mut i: usize = 0;
                        while i < b.statements.len()
                            invariant
                                0 <= i <= b.statements@.len(),
                                s@ == method_text(*method) + " "@ + endpoint_text(*endpoint)
                                    + " { "@ + statements_text(b.statements@, i as nat),
                            decreases b.statements@.len() - i,
                        {
                            let ghost before = s@;
                            if i > 0 {
                                s.append(" ");
                            }
                            let t = b.statements[i].to_string();
                            s.append(t.as_str());
                            proof {
                                assert(s@ =~= method_text(*method) + " "@ + endpoint_text(*endpoint)
                                    + " { "@ + statements_text(b.statements@, (i + 1) as nat));
                            }
                            i = i + 1;
                        }
                    },
                    None => {
                        proof {
                            assert(s@ + Seq::<char>::empty() =~= s@);
                        }
                    },
                }
                s.append(" }");
                s
            },
            Item::Attribute { identifier, parameters, .. } => {
                let mut s = String::from_str("@");
                s.append(identifier.name);
                s.append("(");
                let p = exprs_to_string(parameters);
                s.append(p.as_str());
                s.append(")");
                s
            },
            Item::Expr(e) => e.to_string(),
        }
    }
}

/// The names that the `let` items of `items` bind, in order.
pub open spec fn let_names<'s>(items: Seq<Item<'s>>) -> Seq<Identifier<'s>>
    decreases items.len(),
{
    if items.len() == 0 {
        Seq::empty()
    } else {
        let rest = let_names(items.drop_last());
        match items.last() {
            Item::Let { identifier, .. } => rest.push(identifier),
            _ => rest,
        }
    }
}

/// The names of `names` that start at or before `location`, in order.
pub open spec fn names_before<'s>(names: Seq<Identifier<'s>>, location: Location) -> Seq<Identifier<'s>>
    decreases names.len(),
{
    if names.len() == 0 {
        Seq::empty()
    } else {
        let rest = names_before(names.drop_last(), location);
        if spec_is_before(names.last().span.start, location) {
            rest.push(names.last())
        } else {
            rest
        }
    }
}

impl<'source> Program<'source> {
    /// The names bound by `let`, in order.
    pub fn variables(&self) -> (r: Vec<&Identifier<'source>>)
        ensures
            r@.len() == let_names(self.items@).len(),
            forall|j: int| 0 <= j < r@.len() ==> *#[trigger] r@[j] == let_names(self.items@)[j],
    {
        let mut r: Vec<&Identifier<'source>> = Vec::new();
        let mut i: usize = 0;
        while i < self.items.len()
            invariant
                0 <= i <= self.items@.len(),
                r@.len() == let_names(self.items@.subrange(0, i as int)).len(),
                forall|j: int|
                    0 <= j < r@.len() ==> *#[trigger] r@[j] == let_names(
                        self.items@.subrange(0, i as int),
                    )[j],
            decreases self.items@.len() - i,
        {
            proof {
                assert(self.items@.subrange(0, i + 1).drop_last() =~= self.items@.subrange(
                    0,
                    i as int,
                ));
            }
            match &self.items[i] {
                Item::Let { identifier, .. } => {
                    r.push(identifier);
                },
                _ => {},
            }
            i = i + 1;
        }
        proof {
            assert(self.items@.subrange(0, self.items@.len() as int) =~= self.items@);
        }
        r
    }

    /// The names bound by `let` that start at or before `location`, in order.
    pub fn variables_before(&self, location: Location) -> (r: Vec<&Identifier<'source>>)
        ensures
            r@.len() == names_before(let_names(self.items@), location).len(),
            forall|j: int|
                0 <= j < r@.len() ==> *#[trigger] r@[j] == names_before(
                    let_names(self.items@),
                    location,
                )[j],
    {
        let vars = self.variables();
        let ghost names = let_names(self.items@);
        let mut r: Vec<&Identifier<'source>> = Vec::new();
        let mut i: usize = 0;
        while i < vars.len()
            invariant
                0 <= i <= vars@.len(),
                vars@.len() == names.len(),
                forall|j: int| 0 <= j < vars@.len() ==> *#[trigger] vars@[j] == names[j],
                r@.len() == names_before(names.subrange(0, i as int), location).len(),
                forall|j: int|
                    0 <= j < r@.len() ==> *#[trigger] r@[j] == names_before(
                        names.subrange(0, i as int),
                        location,
                    )[j],
            decreases vars@.len() - i,
        {
            proof {
                assert(names.subrange(0, i + 1).drop_last() =~= names.subrange(0, i as int));
            }
            let v = vars[i];
            if v.span.start.is_before(location) {
                r.push(v);
            }
            i = i + 1;
        }
        proof {
            assert(names.subrange(0, names.len() as int) =~= names);
        }
        r
    }
}

} // verus!
