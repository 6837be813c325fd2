//! What an editor is offered to complete at a cursor.
use vstd::prelude::*;
use vstd::string::*;

use crate::locations::{GetSpan, Span};
use crate::parser::ast::{endpoint_span, expression_span, item_span, statement_span, Endpoint, Expression, Item, Statement};
use crate::text::str_eq;
use crate::parser::{item_kind_is, item_text_is, kat, program_spec, step_kinds, Parser};

verus! {

/// The sorts of completions an editor can be offered.
#[derive(Debug, PartialEq, Eq, Clone, Copy, Structural)]
pub enum SuggestionKind {
    Nothing,
    Identifiers,
    SetIdentifiers,
    Functions,
    StatementKeywords,
    ItemKeywords,
    Attributes,
    EnvVars,
    Headers,
}

/// The cursor at `line` and `character` stands inside `span`: on a span of one
/// line, on that line between both ends; otherwise on any line of the span.
pub open spec fn holds_cursor(span: Span, line: nat, character: nat) -> bool {
    if span.start.line == span.end.line && span.start.line == line {
        span.start.col <= character <= span.end.col
    } else {
        span.start.line <= line <= span.end.line
    }
}

/// Whether the cursor stands inside `span`.
pub fn span_holds_cursor(span: Span, line: usize, character: usize) -> (r: bool)
    ensures
        r == holds_cursor(span, line as nat, character as nat),
{
    if span.start.line == span.end.line && span.start.line == line {
        return span.start.col <= character && character <= span.end.col;
    }
    span.start.line <= line && line <= span.end.line
}

/// `items` are the items that parsing `src` reads, error free: of the sorts their
/// first tokens start, holding the texts of their tokens.
pub open spec fn read_from(items: Seq<Item>, src: Seq<u8>) -> bool {
    let outcome = program_spec(step_kinds(src), 0);
    &&& outcome.1.len() == 0
    &&& items.len() == outcome.0.len()
    &&& forall|j: int|
        0 <= j < items.len() ==> item_kind_is(#[trigger] items[j], kat(step_kinds(src), outcome.0[j]))
    &&& forall|j: int| 0 <= j < items.len() ==> item_text_is(#[trigger] items[j], src, outcome.0[j])
}

/// The cursor stands before `span`: on an earlier line, or on its first line
/// before its start.
pub open spec fn before_cursor_is(span: Span, line: nat, character: nat) -> bool {
    span.start.line > line || (span.start.line == line && span.start.col > character)
}

/// The cursor stands inside `span` or before it.
pub open spec fn on_or_after(span: Span, line: nat, character: nat) -> bool {
    before_cursor_is(span, line, character) || holds_cursor(span, line, character)
}

/// Offering `k`: added at the end unless it is offered already.
pub open spec fn suggest(list: Seq<SuggestionKind>, k: SuggestionKind) -> Seq<SuggestionKind> {
    if list.contains(k) {
        list
    } else {
        list.push(k)
    }
}

/// Offering `k` in place of the last offer.
pub open spec fn suggest_over(list: Seq<SuggestionKind>, k: SuggestionKind) -> Seq<SuggestionKind> {
    suggest(
        if list.len() > 0 {
            list.drop_last()
        } else {
            list
        },
        k,
    )
}

/// The arguments `es` are some and the cursor stands between the start of the
/// first and the end of the last.
pub open spec fn args_hold(es: Seq<Expression>, line: nat, character: nat) -> bool {
    es.len() > 0 && holds_cursor(
        Span { start: expression_span(es[0]).start, end: expression_span(es[es.len() - 1]).end },
        line,
        character,
    )
}

/// The index of the first of the first `n` expressions that holds the cursor;
/// -1 when there is none.
pub open spec fn expr_at(es: Seq<Expression>, n: nat, line: nat, character: nat) -> int
    decreases n,
{
    if n == 0 || n > es.len() {
        -1
    } else if expr_at(es, (n - 1) as nat, line, character) >= 0 {
        expr_at(es, (n - 1) as nat, line, character)
    } else if holds_cursor(expression_span(es[n - 1]), line, character) {
        n - 1
    } else {
        -1
    }
}

/// The offers after visiting an expression that holds the cursor: its parts
/// first, then what the expression itself offers. The name of a call, a string
/// and a number offer nothing of their own.
pub open spec fn collect_expr(
    e: Expression,
    list: Seq<SuggestionKind>,
    line: nat,
    character: nat,
) -> Seq<SuggestionKind>
    decreases e, 2nat,
{
    if !holds_cursor(expression_span(e), line, character) {
        list
    } else {
        let inner = collect_parts(e, list, line, character);
        match e {
            Expression::Call { identifier, arguments } => if !args_hold(arguments@, line, character) {
                inner
            } else if identifier.name@ == "env"@ {
                let k = expr_at(arguments@, arguments@.len(), line, character);
                if k < 0 {
                    suggest(inner, SuggestionKind::Identifiers)
                } else if arguments@[k] is String {
                    suggest_over(inner, SuggestionKind::EnvVars)
                } else {
                    inner
                }
            } else {
                suggest(inner, SuggestionKind::Identifiers)
            },
            Expression::Array(_) => suggest(inner, SuggestionKind::Identifiers),
            Expression::EmptyArray(_) => suggest(inner, SuggestionKind::Identifiers),
            Expression::EmptyObject(_) => suggest(inner, SuggestionKind::Nothing),
            Expression::Object((_, fields)) => suggest(
                collect_fields(fields@, fields@.len(), inner, line, character),
                SuggestionKind::Nothing,
            ),
            Expression::Identifier(_) => suggest(inner, SuggestionKind::Identifiers),
            Expression::String(_) => suggest(inner, SuggestionKind::Nothing),
            _ => inner,
        }
    }
}

/// The offers after visiting the parts of an expression, in order.
pub open spec fn collect_parts(
    e: Expression,
    list: Seq<SuggestionKind>,
    line: nat,
    character: nat,
) -> Seq<SuggestionKind>
    decreases e, 1nat,
{
    match e {
        Expression::Call { arguments, .. } => collect_list(arguments@, arguments@.len(), list, line, character),
        Expression::TemplateSringLiteral { parts, .. } => collect_list(parts@, parts@.len(), list, line, character),
        Expression::Object((_, fields)) => collect_fields(fields@, fields@.len(), list, line, character),
        Expression::Array((_, items)) => collect_list(items@, items@.len(), list, line, character),
        _ => list,
    }
}

/// The offers after visiting the first `n` expressions, in order.
pub open spec fn collect_list(
    es: Seq<Expression>,
    n: nat,
    list: Seq<SuggestionKind>,
    line: nat,
    character: nat,
) -> Seq<SuggestionKind>
    decreases es, n,
{
    if n == 0 || n > es.len() {
        list
    } else {
        collect_expr(es[n - 1], collect_list(es, (n - 1) as nat, list, line, character), line, character)
    }
}

/// The offers after visiting the values of the first `n` fields, in order.
pub open spec fn collect_fields(
    fields: Seq<(&str, Expression)>,
    n: nat,
    list: Seq<SuggestionKind>,
    line: nat,
    character: nat,
) -> Seq<SuggestionKind>
    decreases fields, n,
{
    if n == 0 || n > fields.len() {
        list
    } else {
        collect_expr(
            fields[n - 1].1,
            collect_fields(fields, (n - 1) as nat, list, line, character),
            line,
            character,
        )
    }
}

/// The offers after visiting a statement: for a header, its value, then the
/// header names when the cursor is on or before the name, the identifiers when
/// it is before the value, else the value once more; for a body, its value and
/// then the identifiers.
pub open spec fn collect_statement(
    s: Statement,
    list: Seq<SuggestionKind>,
    line: nat,
    character: nat,
) -> Seq<SuggestionKind> {
    if !holds_cursor(statement_span(s), line, character) {
        list
    } else {
        match s {
            Statement::Header { name, value } => {
                let inner = collect_expr(value, list, line, character);
                if on_or_after(name.span, line, character) {
                    suggest(inner, SuggestionKind::Headers)
                } else if before_cursor_is(expression_span(value), line, character) {
                    suggest(inner, SuggestionKind::Identifiers)
                } else {
                    collect_expr(value, inner, line, character)
                }
            },
            Statement::Body { value, .. } => suggest(
                collect_expr(value, list, line, character),
                SuggestionKind::Identifiers,
            ),
            Statement::LineComment(_) => list,
        }
    }
}

/// The offers after visiting the first `n` statements, in order.
pub open spec fn collect_statements(
    ss: Seq<Statement>,
    n: nat,
    list: Seq<SuggestionKind>,
    line: nat,
    character: nat,
) -> Seq<SuggestionKind>
    decreases n,
{
    if n == 0 || n > ss.len() {
        list
    } else {
        collect_statement(ss[n - 1], collect_statements(ss, (n - 1) as nat, list, line, character), line, character)
    }
}

/// The offers after visiting an endpoint: the identifiers when it holds the cursor.
pub open spec fn collect_endpoint(
    endpoint: Endpoint,
    list: Seq<SuggestionKind>,
    line: nat,
    character: nat,
) -> Seq<SuggestionKind> {
    if holds_cursor(endpoint_span(endpoint), line, character) {
        suggest(list, SuggestionKind::Identifiers)
    } else {
        list
    }
}

/// The offers after visiting the item that holds the cursor.
pub open spec fn collect_item(item: Item, line: nat, character: nat) -> Seq<SuggestionKind> {
    let list = Seq::<SuggestionKind>::empty();
    match item {
        Item::SetConstant { identifier, value } => if on_or_after(identifier.span, line, character) {
            suggest(list, SuggestionKind::SetIdentifiers)
        } else {
            suggest(collect_expr(value, list, line, character), SuggestionKind::Identifiers)
        },
        Item::Let { identifier, value } => if on_or_after(identifier.span, line, character) {
            list
        } else {
            suggest(collect_expr(value, list, line, character), SuggestionKind::Identifiers)
        },
        Item::Request { endpoint, block, .. } => {
            let inner = collect_endpoint(endpoint, list, line, character);
            match block {
                Some(b) => if !holds_cursor(b.span, line, character) {
                    inner
                } else {
                    suggest(
                        collect_statements(b.statements@, b.statements@.len(), inner, line, character),
                        SuggestionKind::StatementKeywords,
                    )
                },
                None => suggest(inner, SuggestionKind::Identifiers),
            }
        },
        Item::Attribute { identifier, parameters, .. } => if on_or_after(identifier.span, line, character) {
            suggest(list, SuggestionKind::Attributes)
        } else {
            let inner = collect_list(parameters@, parameters@.len(), list, line, character);
            if args_hold(parameters@, line, character) {
                suggest(inner, SuggestionKind::Identifiers)
            } else {
                inner
            }
        },
        _ => list,
    }
}

/// The index of the first of the first `n` items whose span holds the cursor; -1
/// when there is none.
pub open spec fn item_at(items: Seq<Item>, n: nat, line: nat, character: nat) -> int
    decreases n,
{
    if n == 0 || n > items.len() {
        -1
    } else if item_at(items, (n - 1) as nat, line, character) >= 0 {
        item_at(items, (n - 1) as nat, line, character)
    } else if holds_cursor(item_span(items[n - 1]), line, character) {
        n - 1
    } else {
        -1
    }
}

/// Once an item holds the cursor, later items do not change which is first.
pub proof fn lemma_item_at_stays(items: Seq<Item>, m: nat, n: nat, line: nat, character: nat)
    requires
        m <= n <= items.len(),
        item_at(items, m, line, character) >= 0,
    ensures
        item_at(items, n, line, character) == item_at(items, m, line, character),
    decreases n - m,
{
    if n > m {
        lemma_item_at_stays(items, m, (n - 1) as nat, line, character);
    }
}

/// What a program of `items` offers at the cursor: the keywords that start
/// items when no item holds the cursor; otherwise the first offer gathered from
/// the first item that holds it, or none when it gathers none.
pub open spec fn completion_choice(items: Seq<Item>, line: nat, character: nat) -> Option<SuggestionKind> {
    let k = item_at(items, items.len(), line, character);
    if k < 0 {
        Some(SuggestionKind::ItemKeywords)
    } else {
        let list = collect_item(items[k], line, character);
        if list.len() == 0 {
            None
        } else {
            Some(list[0])
        }
    }
}

/// On the name of a header: when the cursor stands on the name of a header
/// statement that holds it, the header names are offered; when the value does
/// not hold the cursor, they are all that the statement offers.
pub proof fn on_a_header_name_the_headers_are_offered(
    st: Statement,
    list: Seq<SuggestionKind>,
    line: nat,
    character: nat,
)
    requires
        st matches Statement::Header { name, .. } && holds_cursor(name.span, line, character),
        holds_cursor(statement_span(st), line, character),
    ensures
        collect_statement(st, list, line, character).contains(SuggestionKind::Headers),
        st matches Statement::Header { value, .. } && !holds_cursor(expression_span(value), line, character)
            ==> collect_statement(st, Seq::empty(), line, character) == seq![SuggestionKind::Headers],
{
    if let Statement::Header { name, value } = st {
        let inner = collect_expr(value, list, line, character);
        let out = suggest(inner, SuggestionKind::Headers);
        if !inner.contains(SuggestionKind::Headers) {
            assert(out[out.len() - 1] == SuggestionKind::Headers);
        }
        if !holds_cursor(expression_span(value), line, character) {
            assert(collect_expr(value, Seq::empty(), line, character) == Seq::<SuggestionKind>::empty());
            assert(suggest(Seq::empty(), SuggestionKind::Headers) =~= seq![SuggestionKind::Headers]);
        }
    }
}

/// Statements that do not hold the cursor offer nothing.
proof fn lemma_statements_away(ss: Seq<Statement>, lo: nat, n: nat, list: Seq<SuggestionKind>, line: nat, character: nat)
    requires
        lo <= n <= ss.len(),
        forall|i: int| lo <= i < n ==> !holds_cursor(statement_span(#[trigger] ss[i]), line, character),
    ensures
        collect_statements(ss, n, list, line, character) == collect_statements(ss, lo, list, line, character),
    decreases n,
{
    if n > lo {
        lemma_statements_away(ss, lo, (n - 1) as nat, list, line, character);
    }
}

/// Inside a request's block, on the name of a header that alone among the
/// statements holds the cursor, and not on the request's endpoint, the header
/// names are the first offer.
pub proof fn in_a_request_the_header_names_come_first(
    item: Item,
    j: int,
    line: nat,
    character: nat,
)
    requires
        item matches Item::Request { endpoint, block: Some(b), .. } && {
            &&& !holds_cursor(endpoint_span(endpoint), line, character)
            &&& holds_cursor(b.span, line, character)
            &&& 0 <= j < b.statements@.len()
            &&& b.statements@[j] matches Statement::Header { name, value } && holds_cursor(
                name.span,
                line,
                character,
            ) && !holds_cursor(expression_span(value), line, character)
            &&& holds_cursor(statement_span(b.statements@[j]), line, character)
            &&& forall|i: int|
                0 <= i < b.statements@.len() && i != j ==> !holds_cursor(
                    statement_span(#[trigger] b.statements@[i]),
                    line,
                    character,
                )
        },
    ensures
        collect_item(item, line, character).len() > 0,
        collect_item(item, line, character)[0] == SuggestionKind::Headers,
{
    if let Item::Request { endpoint, block: Some(b), .. } = item {
        let ss = b.statements@;
        let empty = Seq::<SuggestionKind>::empty();
        assert(collect_endpoint(endpoint, empty, line, character) == empty);
        lemma_statements_away(ss, 0, j as nat, empty, line, character);
        on_a_header_name_the_headers_are_offered(ss[j], empty, line, character);
        assert(collect_statements(ss, (j + 1) as nat, empty, line, character) == seq![SuggestionKind::Headers]);
        lemma_statements_away(ss, (j + 1) as nat, ss.len(), empty, line, character);
        let all = collect_statements(ss, ss.len(), empty, line, character);
        assert(all == seq![SuggestionKind::Headers]);
        let out = suggest(all, SuggestionKind::StatementKeywords);
        assert(out[0] == SuggestionKind::Headers);
    }
}

/// What completion offers, for a program whose first item at the cursor is
/// such a request: the header names.
pub proof fn the_header_names_are_offered_on_a_header_name(
    items: Seq<Item>,
    j: int,
    line: nat,
    character: nat,
)
    requires
        item_at(items, items.len(), line, character) >= 0,
        items[item_at(items, items.len(), line, character)] matches Item::Request {
            endpoint,
            block: Some(b),
            ..
        } && {
            &&& !holds_cursor(endpoint_span(endpoint), line, character)
            &&& holds_cursor(b.span, line, character)
            &&& 0 <= j < b.statements@.len()
            &&& b.statements@[j] matches Statement::Header { name, value } && holds_cursor(
                name.span,
                line,
                character,
            ) && !holds_cursor(expression_span(value), line, character)
            &&& holds_cursor(statement_span(b.statements@[j]), line, character)
            &&& forall|i: int|
                0 <= i < b.statements@.len() && i != j ==> !holds_cursor(
                    statement_span(#[trigger] b.statements@[i]),
                    line,
                    character,
                )
        },
    ensures
        completion_choice(items, line, character) == Some(SuggestionKind::Headers),
{
    in_a_request_the_header_names_come_first(
        items[item_at(items, items.len(), line, character)],
        j,
        line,
        character,
    );
}

/// On the name of a `set` item the constants that can be set are offered, and
/// on the name of an attribute the attributes are offered; nothing else comes first.
pub proof fn on_a_set_or_attribute_name_its_kind_is_offered(item: Item, line: nat, character: nat)
    ensures
        item matches Item::SetConstant { identifier, .. } && holds_cursor(identifier.span, line, character)
            ==> collect_item(item, line, character) == seq![SuggestionKind::SetIdentifiers],
        item matches Item::Attribute { identifier, .. } && holds_cursor(identifier.span, line, character)
            ==> collect_item(item, line, character) == seq![SuggestionKind::Attributes],
{
    let empty = Seq::<SuggestionKind>::empty();
    assert(suggest(empty, SuggestionKind::SetIdentifiers) =~= seq![SuggestionKind::SetIdentifiers]);
    assert(suggest(empty, SuggestionKind::Attributes) =~= seq![SuggestionKind::Attributes]);
}

/// Whether `k` is offered already.
fn offers(list: &Vec<SuggestionKind>, k: SuggestionKind) -> (r: bool)
    ensures
        r == list@.contains(k),
{
    let mut i: usize = 0;
    while i < list.len()
        invariant
            i <= list@.len(),
            forall|j: int| 0 <= j < i ==> list@[j] != k,
        decreases list@.len() - i,
    {
        if list[i] == k {
            proof {
                assert(list@[i as int] == k);
            }
            return true;
        }
        i = i + 1;
    }
    false
}

/// Offers `k` unless it is offered already.
fn push_offer(list: &mut Vec<SuggestionKind>, k: SuggestionKind)
    ensures
        final(list)@ == suggest(old(list)@, k),
{
    if !offers(list, k) {
        list.push(k);
    }
}

/// Offers `k` in place of the last offer.
fn push_offer_over(list: &mut Vec<SuggestionKind>, k: SuggestionKind)
    ensures
        final(list)@ == suggest_over(old(list)@, k),
{
    if list.len() > 0 {
        list.pop();
    }
    push_offer(list, k);
}

/// Whether the arguments are some and the cursor stands among them.
fn args_hold_cursor(es: &Vec<Expression>, line: usize, character: usize) -> (r: bool)
    ensures
        r == args_hold(es@, line as nat, character as nat),
{
    if es.len() == 0 {
        return false;
    }
    let span = es[0].span().to_end_of(es[es.len() - 1].span());
    span_holds_cursor(span, line, character)
}

/// The first argument that holds the cursor.
fn arg_at(es: &Vec<Expression>, line: usize, character: usize) -> (r: Option<usize>)
    ensures
        match r {
            Some(k) => k < es@.len() && k as int == expr_at(es@, es@.len(), line as nat, character as nat),
            None => expr_at(es@, es@.len(), line as nat, character as nat) < 0,
        },
{
    let mut i: usize = 0;
    while i < es.len()
        invariant
            i <= es@.len(),
            expr_at(es@, i as nat, line as nat, character as nat) < 0,
        decreases es@.len() - i,
    {
        if span_holds_cursor(es[i].span(), line, character) {
            proof {
                assert(expr_at(es@, (i + 1) as nat, line as nat, character as nat) == i);
                lemma_expr_at_stays(es@, (i + 1) as nat, es@.len(), line as nat, character as nat);
            }
            return Some(i);
        }
        i = i + 1;
    }
    None
}

/// Once an expression holds the cursor, later ones do not change which is first.
proof fn lemma_expr_at_stays(es: Seq<Expression>, m: nat, n: nat, line: nat, character: nat)
    requires
        m <= n <= es.len(),
        expr_at(es, m, line, character) >= 0,
    ensures
        expr_at(es, n, line, character) == expr_at(es, m, line, character),
    decreases n - m,
{
    if n > m {
        lemma_expr_at_stays(es, m, (n - 1) as nat, line, character);
    }
}

/// Gathers the offers of an expression that holds the cursor.
fn collect_in_expr(e: &Expression, list: &mut Vec<SuggestionKind>, line: usize, character: usize)
    ensures
        final(list)@ == collect_expr(*e, old(list)@, line as nat, character as nat),
    decreases e, 2nat,
{
    if !span_holds_cursor(e.span(), line, character) {
        return;
    }
    collect_in_parts(e, list, line, character);
    match e {
        Expression::Call { identifier, arguments } => {
            if !args_hold_cursor(arguments, line, character) {
                return;
            }
            if str_eq(identifier.name, "env") {
                match arg_at(arguments, line, character) {
                    None => push_offer(list, SuggestionKind::Identifiers),
                    Some(k) => {
                        if let Expression::String(_) = &arguments[k] {
                            push_offer_over(list, SuggestionKind::EnvVars);
                        }
                    },
                }
            } else {
                push_offer(list, SuggestionKind::Identifiers);
            }
        },
        Expression::Array(_) => push_offer(list, SuggestionKind::Identifiers),
        Expression::EmptyArray(_) => push_offer(list, SuggestionKind::Identifiers),
        Expression::EmptyObject(_) => push_offer(list, SuggestionKind::Nothing),
        Expression::Object((_, fields)) => {
            let ghost l0 = list@;
            let mut i: usize = 0;
            while i < fields.len()
                invariant
                    *e matches Expression::Object((_, fs)) && fs == fields,
                    i <= fields@.len(),
                    list@ == collect_fields(fields@, i as nat, l0, line as nat, character as nat),
                decreases fields@.len() - i,
            {
                proof {
                    assert(decreases_to!(*e => fields@[i as int].1));
                }
                collect_in_expr(&fields[i].1, list, line, character);
                i = i + 1;
            }
            push_offer(list, SuggestionKind::Nothing);
        },
        Expression::Identifier(_) => push_offer(list, SuggestionKind::Identifiers),
        Expression::String(_) => push_offer(list, SuggestionKind::Nothing),
        _ => {},
    }
}

/// Gathers the offers of the parts of an expression, in order.
fn collect_in_parts(e: &Expression, list: &mut Vec<SuggestionKind>, line: usize, character: usize)
    ensures
        final(list)@ == collect_parts(*e, old(list)@, line as nat, character as nat),
    decreases e, 1nat,
{
    let ghost l0 = list@;
    match e {
        Expression::Call { arguments, .. } => {
            let mut i: usize = 0;
            while i < arguments.len()
                invariant
                    *e matches Expression::Call { arguments: a, .. } && a == arguments,
                    i <= arguments@.len(),
                    list@ == collect_list(arguments@, i as nat, l0, line as nat, character as nat),
                decreases arguments@.len() - i,
            {
                proof {
                    assert(decreases_to!(*e => arguments@[i as int]));
                }
                collect_in_expr(&arguments[i], list, line, character);
                i = i + 1;
            }
        },
        Expression::TemplateSringLiteral { parts, .. } => {
            let mut i: usize = 0;
            while i < parts.len()
                invariant
                    *e matches Expression::TemplateSringLiteral { parts: p, .. } && p == parts,
                    i <= parts@.len(),
                    list@ == collect_list(parts@, i as nat, l0, line as nat, character as nat),
                decreases parts@.len() - i,
            {
                proof {
                    assert(decreases_to!(*e => parts@[i as int]));
                }
                collect_in_expr(&parts[i], list, line, character);
                i = i + 1;
            }
        },
        Expression::Object((_, fields)) => {
            let mut i: usize = 0;
            while i < fields.len()
                invariant
                    *e matches Expression::Object((_, fs)) && fs == fields,
                    i <= fields@.len(),
                    list@ == collect_fields(fields@, i as nat, l0, line as nat, character as nat),
                decreases fields@.len() - i,
            {
                proof {
                    assert(decreases_to!(*e => fields@[i as int].1));
                }
                collect_in_expr(&fields[i].1, list, line, character);
                i = i + 1;
            }
        },
        Expression::Array((_, items)) => {
            let mut i: usize = 0;
            while i < items.len()
                invariant
                    *e matches Expression::Array((_, its)) && its == items,
                    i <= items@.len(),
                    list@ == collect_list(items@, i as nat, l0, line as nat, character as nat),
                decreases items@.len() - i,
            {
                proof {
                    assert(decreases_to!(*e => items@[i as int]));
                }
                collect_in_expr(&items[i], list, line, character);
                i = i + 1;
            }
        },
        _ => {},
    }
}

/// Whether the cursor stands before `span`.
fn is_before_cursor(span: Span, line: usize, character: usize) -> (r: bool)
    ensures
        r == before_cursor_is(span, line as nat, character as nat),
{
    span.start.line > line || (span.start.line == line && span.start.col > character)
}

/// Whether the cursor stands inside `span` or before it.
fn is_on_or_after_cursor(span: Span, line: usize, character: usize) -> (r: bool)
    ensures
        r == on_or_after(span, line as nat, character as nat),
{
    is_before_cursor(span, line, character) || span_holds_cursor(span, line, character)
}

/// Gathers the offers of a statement.
fn collect_in_statement(st: &Statement, list: &mut Vec<SuggestionKind>, line: usize, character: usize)
    ensures
        final(list)@ == collect_statement(*st, old(list)@, line as nat, character as nat),
{
    if !span_holds_cursor(st.span(), line, character) {
        return;
    }
    match st {
        Statement::Header { name, value } => {
            collect_in_expr(value, list, line, character);
            if is_on_or_after_cursor(name.span, line, character) {
                push_offer(list, SuggestionKind::Headers);
            } else if is_before_cursor(value.span(), line, character) {
                push_offer(list, SuggestionKind::Identifiers);
            } else {
                collect_in_expr(value, list, line, character);
            }
        },
        Statement::Body { value, .. } => {
            collect_in_expr(value, list, line, character);
            push_offer(list, SuggestionKind::Identifiers);
        },
        Statement::LineComment(_) => {},
    }
}

/// Gathers the offers of the item that holds the cursor.
fn collect_in_item(item: &Item, line: usize, character: usize) -> (r: Vec<SuggestionKind>)
    ensures
        r@ == collect_item(*item, line as nat, character as nat),
{
    let mut list: Vec<SuggestionKind> = Vec::new();
    match item {
        Item::SetConstant { identifier, value } => {
            if is_on_or_after_cursor(identifier.span, line, character) {
                push_offer(&mut list, SuggestionKind::SetIdentifiers);
            } else {
                collect_in_expr(value, &mut list, line, character);
                push_offer(&mut list, SuggestionKind::Identifiers);
            }
        },
        Item::Let { identifier, value } => {
            if !is_on_or_after_cursor(identifier.span, line, character) {
                collect_in_expr(value, &mut list, line, character);
                push_offer(&mut list, SuggestionKind::Identifiers);
            }
        },
        Item::Request { endpoint, block, .. } => {
            if span_holds_cursor(endpoint.span(), line, character) {
                push_offer(&mut list, SuggestionKind::Identifiers);
            }
            match block {
                Some(b) => {
                    if span_holds_cursor(b.span, line, character) {
                        let ghost l0 = list@;
                        let mut i: usize = 0;
                        while i < b.statements.len()
                            invariant
                                i <= b.statements@.len(),
                                list@ == collect_statements(
                                    b.statements@,
                                    i as nat,
                                    l0,
                                    line as nat,
                                    character as nat,
                                ),
                            decreases b.statements@.len() - i,
                        {
                            collect_in_statement(&b.statements[i], &mut list, line, character);
                            i = i + 1;
                        }
                        push_offer(&mut list, SuggestionKind::StatementKeywords);
                    }
                },
                None => push_offer(&mut list, SuggestionKind::Identifiers),
            }
        },
        Item::Attribute { identifier, parameters, .. } => {
            if is_on_or_after_cursor(identifier.span, line, character) {
                push_offer(&mut list, SuggestionKind::Attributes);
            } else {
                let mut i: usize = 0;
                while i < parameters.len()
                    invariant
                        i <= parameters@.len(),
                        list@ == collect_list(
                            parameters@,
                            i as nat,
                            Seq::empty(),
                            line as nat,
                            character as nat,
                        ),
                    decreases parameters@.len() - i,
                {
                    collect_in_expr(&parameters[i], &mut list, line, character);
                    i = i + 1;
                }
                if args_hold_cursor(parameters, line, character) {
                    push_offer(&mut list, SuggestionKind::Identifiers);
                }
            }
        },
        _ => {},
    }
    list
}

/// What the editor is offered at the cursor in `code`: only the functions when
/// the text does not parse; otherwise as `completion_choice` says of the items
/// read from it (no offer at all when it says none).
pub fn completion_kind(code: &str, line: usize, character: usize) -> (r: Option<SuggestionKind>)
    requires
        2 * code.spec_bytes().len() + 8 <= usize::MAX,
    ensures
        ({
            let src = code.spec_bytes();
            let outcome = program_spec(step_kinds(src), 0);
            &&& outcome.1.len() > 0 ==> r == Some(SuggestionKind::Functions)
            &&& outcome.1.len() == 0 ==> exists|items: Seq<Item>|
                read_from(items, src) && r == #[trigger] completion_choice(
                    items,
                    line as nat,
                    character as nat,
                )
        }),
{
    let mut parser = Parser::new(code);
    let ghost p0 = parser;
    let ghost src = code.spec_bytes();
    proof {
        assert(p0.source() == src);
        assert(p0.pos() == -1);
    }
    let program = match parser.parse() {
        Ok(program) => program,
        Err(_) => return Some(SuggestionKind::Functions),
    };
    let ghost items = program.items@;
    let ghost l = line as nat;
    let ghost c = character as nat;
    proof {
        assert(read_from(items, src));
    }
    let mut k: usize = 0;
    while k < program.items.len()
        invariant
            items == program.items@,
            l == line as nat,
            c == character as nat,
            k <= items.len(),
            item_at(items, k as nat, l, c) < 0,
        ensures
            k < items.len() ==> item_at(items, (k + 1) as nat, l, c) == k,
        decreases items.len() - k,
    {
        let span = program.items[k].span();
        if span_holds_cursor(span, line, character) {
            break;
        }
        k = k + 1;
    }
    if k == program.items.len() {
        proof {
            assert(completion_choice(items, l, c) == Some(SuggestionKind::ItemKeywords));
        }
        return Some(SuggestionKind::ItemKeywords);
    }
    proof {
        lemma_item_at_stays(items, (k + 1) as nat, items.len(), l, c);
    }
    let list = collect_in_item(&program.items[k], line, character);
    let r = if list.len() == 0 {
        None
    } else {
        Some(list[0])
    };
    proof {
        assert(completion_choice(items, l, c) == r);
    }
    r
}

} // verus!
