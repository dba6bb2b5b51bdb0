//! The SQL query grammar: a recursive-descent parser from tokens to a query tree.
//!
//! ```text
//! query   := SELECT item (, item)* FROM name [WHERE expr] [ORDER BY name [DESC|ASC]] [LIMIT n]
//! item    := * | expr [AS name]
//! expr    := and (OR and)*
//! and     := comparison (AND comparison)*
//! comparison := sum [(= | != | <> | > | < | >= | <=) sum]
//! sum     := product ((+ | -) product)*
//! product := primary ((* | /) primary)*
//! primary := 'text' | "text" | integer | number | true | false | [numbers]
//!          | name ( [expr (, expr)*] ) | name
//! ```
//! Keywords ignore ASCII case. Which texts are floating-point numbers, and their values, the
//! parser reads from its `numbers` table.
use vstd::prelude::*;
use crate::net::{parse_i64, parse_i64_spec};
use crate::sql::{eq_ignore_ascii_case, same_ignoring_ascii_case, token_views, SqlParser};
use crate::strmap::StrMap;
use crate::net::chars_in;
use crate::text::{
    chars_are, chars_of, lowercase, parse_u64, parse_u64_spec, push_str, string_from_range,
    string_of, to_lowercase, trim_bounds, trim_spec,
};
use crate::value::{Value, ValueView};

verus! {

pub enum SqlExpr {
    Column(String),
    Literal(Value),
    /// The bit patterns of the components.
    VectorLiteral(Vec<u64>),
    BinaryOp { op: String, left: Box<SqlExpr>, right: Box<SqlExpr> },
    FunctionCall { name: String, args: Vec<SqlExpr> },
}

pub enum SqlExprView {
    Column(Seq<char>),
    Literal(ValueView),
    VectorLiteral(Seq<u64>),
    BinaryOp { op: Seq<char>, left: Box<SqlExprView>, right: Box<SqlExprView> },
    FunctionCall { name: Seq<char>, args: Seq<SqlExprView> },
}

impl SqlExpr {
    pub open spec fn model(self) -> SqlExprView
        decreases self,
    {
        match self {
            SqlExpr::Column(c) => SqlExprView::Column(c@),
            SqlExpr::Literal(v) => SqlExprView::Literal(v@),
            SqlExpr::VectorLiteral(v) => SqlExprView::VectorLiteral(v@),
            SqlExpr::BinaryOp { op, left, right } => SqlExprView::BinaryOp {
                op: op@,
                left: Box::new(left.model()),
                right: Box::new(right.model()),
            },
            SqlExpr::FunctionCall { name, args } => SqlExprView::FunctionCall {
                name: name@,
                args: expr_models(args@),
            },
        }
    }
}

/// The models of a list of expressions.
pub open spec fn expr_models(s: Seq<SqlExpr>) -> Seq<SqlExprView>
    decreases s,
{
    if s.len() == 0 {
        Seq::empty()
    } else {
        expr_models(s.drop_last()).push(s.last().model())
    }
}

impl View for SqlExpr {
    type V = SqlExprView;

    open spec fn view(&self) -> SqlExprView {
        self.model()
    }
}

pub struct SelectItem {
    pub expr: SqlExpr,
    pub alias: Option<String>,
}

pub struct SqlQuery {
    pub select: Vec<SelectItem>,
    pub from: String,
    pub where_clause: Option<SqlExpr>,
    /// The column, and whether the order is descending.
    pub order_by: Option<(String, bool)>,
    pub limit: Option<usize>,
}

pub struct SqlQueryView {
    pub select: Seq<(SqlExprView, Option<Seq<char>>)>,
    pub from: Seq<char>,
    pub where_clause: Option<SqlExprView>,
    pub order_by: Option<(Seq<char>, bool)>,
    pub limit: Option<usize>,
}

pub open spec fn opt_view(o: Option<String>) -> Option<Seq<char>> {
    match o {
        Some(s) => Some(s@),
        None => None,
    }
}

impl View for SqlQuery {
    type V = SqlQueryView;

    open spec fn view(&self) -> SqlQueryView {
        SqlQueryView {
            select: self.select@.map_values(|it: SelectItem| (it.expr@, opt_view(it.alias))),
            from: self.from@,
            where_clause: match self.where_clause {
                Some(e) => Some(e@),
                None => None,
            },
            order_by: match self.order_by {
                Some((c, d)) => Some((c@, d)),
                None => None,
            },
            limit: self.limit,
        }
    }
}

/// What parsing from a position gives: a result and the position after it, an error message,
/// or an abort (slicing a lone quote character as if it were a quoted text panics).
pub enum Parsed<T> {
    Done(T, int),
    Fails(Seq<char>),
    Aborts,
}

/// Token `i` is `lit`.
pub open spec fn tok_at(t: Seq<Seq<char>>, i: int, lit: Seq<char>) -> bool {
    0 <= i < t.len() && t[i] == lit
}

/// Token `i` is the keyword `k`, ignoring ASCII case.
pub open spec fn kw_at(t: Seq<Seq<char>>, i: int, k: Seq<char>) -> bool {
    0 <= i < t.len() && eq_ignore_ascii_case(t[i], k)
}

/// The pieces of `s` between commas, as `str::split(',')` yields them, scanning from `i` with
/// the current piece starting at `start`.
pub open spec fn comma_pieces_from(s: Seq<char>, start: int, i: int) -> Seq<Seq<char>>
    decreases s.len() - i,
{
    if i >= s.len() {
        seq![s.subrange(start, s.len() as int)]
    } else if s[i] == ',' {
        seq![s.subrange(start, i)] + comma_pieces_from(s, i + 1, i + 1)
    } else {
        comma_pieces_from(s, start, i + 1)
    }
}

/// Each text trimmed.
pub open spec fn trimmed(v: Seq<Seq<char>>) -> Seq<Seq<char>> {
    v.map_values(|p: Seq<char>| trim_spec(p))
}

/// The trimmed pieces between the commas of `s`.
pub open spec fn number_pieces(s: Seq<char>) -> Seq<Seq<char>> {
    trimmed(comma_pieces_from(s, 0, 0))
}

pub open spec fn char_views(v: Seq<Vec<char>>) -> Seq<Seq<char>> {
    v.map_values(|p: Vec<char>| p@)
}

/// The readings of those of `pieces` that are numbers, in order.
pub open spec fn known_numbers(pieces: Seq<Seq<char>>, nums: Map<Seq<char>, u64>) -> Seq<u64>
    decreases pieces.len(),
{
    if pieces.len() == 0 {
        Seq::empty()
    } else {
        let rest = known_numbers(pieces.drop_last(), nums);
        if nums.contains_key(pieces.last()) {
            rest.push(nums[pieces.last()])
        } else {
            rest
        }
    }
}

/// A text in matching quotes, or a lone quote character.
pub open spec fn is_quoted(t: Seq<char>) -> bool {
    t.len() > 0 && ((t[0] == '\'' && t.last() == '\'') || (t[0] == '"' && t.last() == '"'))
}

pub open spec fn is_bracketed(t: Seq<char>) -> bool {
    t.len() > 0 && t[0] == '[' && t.last() == ']'
}

/// The comparison operators.
pub open spec fn comparison_at(t: Seq<Seq<char>>, i: int) -> bool {
    tok_at(t, i, "="@) || tok_at(t, i, "!="@) || tok_at(t, i, "<>"@) || tok_at(t, i, ">"@)
        || tok_at(t, i, "<"@) || tok_at(t, i, ">="@) || tok_at(t, i, "<="@)
}

pub open spec fn bin(op: Seq<char>, l: SqlExprView, r: SqlExprView) -> SqlExprView {
    SqlExprView::BinaryOp { op, left: Box::new(l), right: Box::new(r) }
}

/// A primary expression at `pos`.
pub open spec fn primary_s(t: Seq<Seq<char>>, nums: Map<Seq<char>, u64>, pos: int) -> Parsed<SqlExprView>
    decreases t.len() - pos, 10nat, 0nat,
{
    if !(0 <= pos < t.len()) {
        Parsed::Fails("Unexpected end of expression"@)
    } else {
        let w = t[pos];
        if is_quoted(w) {
            if w.len() < 2 {
                Parsed::Aborts
            } else {
                Parsed::Done(SqlExprView::Literal(ValueView::String(w.subrange(1, w.len() - 1))), pos + 1)
            }
        } else if parse_i64_spec(w) is Some {
            Parsed::Done(SqlExprView::Literal(ValueView::Int(parse_i64_spec(w).unwrap())), pos + 1)
        } else if nums.contains_key(w) {
            Parsed::Done(SqlExprView::Literal(ValueView::Float(nums[w])), pos + 1)
        } else if eq_ignore_ascii_case(w, "true"@) {
            Parsed::Done(SqlExprView::Literal(ValueView::Bool(true)), pos + 1)
        } else if eq_ignore_ascii_case(w, "false"@) {
            Parsed::Done(SqlExprView::Literal(ValueView::Bool(false)), pos + 1)
        } else if is_bracketed(w) {
            Parsed::Done(
                SqlExprView::VectorLiteral(known_numbers(number_pieces(w.subrange(1, w.len() - 1)), nums)),
                pos + 1,
            )
        } else if tok_at(t, pos + 1, "("@) {
            if tok_at(t, pos + 2, ")"@) {
                Parsed::Done(SqlExprView::FunctionCall { name: lowercase(w), args: Seq::empty() }, pos + 3)
            } else {
                args_s(t, nums, pos + 2, Seq::empty(), w)
            }
        } else {
            Parsed::Done(SqlExprView::Column(w), pos + 1)
        }
    }
}

/// The arguments of a call of `w`, from `pos` on, after the arguments `acc`.
pub open spec fn args_s(
    t: Seq<Seq<char>>,
    nums: Map<Seq<char>, u64>,
    pos: int,
    acc: Seq<SqlExprView>,
    w: Seq<char>,
) -> Parsed<SqlExprView>
    decreases t.len() - pos, 21nat, 0nat,
{
    if !(0 <= pos <= t.len()) {
        Parsed::Aborts
    } else {
        match expr_s(t, nums, pos) {
            Parsed::Done(e, p) => if pos <= p <= t.len() {
                if tok_at(t, p, ","@) {
                    args_s(t, nums, p + 1, acc.push(e), w)
                } else if tok_at(t, p, ")"@) {
                    Parsed::Done(SqlExprView::FunctionCall { name: lowercase(w), args: acc.push(e) }, p + 1)
                } else {
                    Parsed::Fails("Expected closing ')' after function call '"@ + w + "'"@)
                }
            } else {
                Parsed::Aborts
            },
            Parsed::Fails(m) => Parsed::Fails(m),
            Parsed::Aborts => Parsed::Aborts,
        }
    }
}

/// `product`.
pub open spec fn product_s(t: Seq<Seq<char>>, nums: Map<Seq<char>, u64>, pos: int) -> Parsed<SqlExprView>
    decreases t.len() - pos, 12nat, 0nat,
{
    match primary_s(t, nums, pos) {
        Parsed::Done(l, p) => if pos <= p <= t.len() {
            product_rest_s(t, nums, l, p)
        } else {
            Parsed::Aborts
        },
        Parsed::Fails(m) => Parsed::Fails(m),
        Parsed::Aborts => Parsed::Aborts,
    }
}

pub open spec fn product_rest_s(
    t: Seq<Seq<char>>,
    nums: Map<Seq<char>, u64>,
    l: SqlExprView,
    pos: int,
) -> Parsed<SqlExprView>
    decreases t.len() - pos, 11nat, 0nat,
{
    if 0 <= pos && (tok_at(t, pos, "*"@) || tok_at(t, pos, "/"@)) {
        match primary_s(t, nums, pos + 1) {
            Parsed::Done(r, p) => if pos + 1 <= p <= t.len() {
                product_rest_s(t, nums, bin(t[pos], l, r), p)
            } else {
                Parsed::Aborts
            },
            Parsed::Fails(m) => Parsed::Fails(m),
            Parsed::Aborts => Parsed::Aborts,
        }
    } else {
        Parsed::Done(l, pos)
    }
}

/// `sum`.
pub open spec fn sum_s(t: Seq<Seq<char>>, nums: Map<Seq<char>, u64>, pos: int) -> Parsed<SqlExprView>
    decreases t.len() - pos, 14nat, 0nat,
{
    match product_s(t, nums, pos) {
        Parsed::Done(l, p) => if pos <= p <= t.len() {
            sum_rest_s(t, nums, l, p)
        } else {
            Parsed::Aborts
        },
        Parsed::Fails(m) => Parsed::Fails(m),
        Parsed::Aborts => Parsed::Aborts,
    }
}

pub open spec fn sum_rest_s(
    t: Seq<Seq<char>>,
    nums: Map<Seq<char>, u64>,
    l: SqlExprView,
    pos: int,
) -> Parsed<SqlExprView>
    decreases t.len() - pos, 13nat, 0nat,
{
    if 0 <= pos && (tok_at(t, pos, "+"@) || tok_at(t, pos, "-"@)) {
        match product_s(t, nums, pos + 1) {
            Parsed::Done(r, p) => if pos + 1 <= p <= t.len() {
                sum_rest_s(t, nums, bin(t[pos], l, r), p)
            } else {
                Parsed::Aborts
            },
            Parsed::Fails(m) => Parsed::Fails(m),
            Parsed::Aborts => Parsed::Aborts,
        }
    } else {
        Parsed::Done(l, pos)
    }
}

/// A comparison.
pub open spec fn comparison_s(t: Seq<Seq<char>>, nums: Map<Seq<char>, u64>, pos: int) -> Parsed<SqlExprView>
    decreases t.len() - pos, 15nat, 0nat,
{
    match sum_s(t, nums, pos) {
        Parsed::Done(l, p) => if pos <= p <= t.len() {
            if 0 <= p && comparison_at(t, p) {
                match sum_s(t, nums, p + 1) {
                    Parsed::Done(r, q) => Parsed::Done(bin(t[p], l, r), q),
                    Parsed::Fails(m) => Parsed::Fails(m),
                    Parsed::Aborts => Parsed::Aborts,
                }
            } else {
                Parsed::Done(l, p)
            }
        } else {
            Parsed::Aborts
        },
        Parsed::Fails(m) => Parsed::Fails(m),
        Parsed::Aborts => Parsed::Aborts,
    }
}

/// `and`.
pub open spec fn and_s(t: Seq<Seq<char>>, nums: Map<Seq<char>, u64>, pos: int) -> Parsed<SqlExprView>
    decreases t.len() - pos, 17nat, 0nat,
{
    match comparison_s(t, nums, pos) {
        Parsed::Done(l, p) => if pos <= p <= t.len() {
            and_rest_s(t, nums, l, p)
        } else {
            Parsed::Aborts
        },
        Parsed::Fails(m) => Parsed::Fails(m),
        Parsed::Aborts => Parsed::Aborts,
    }
}

pub open spec fn and_rest_s(
    t: Seq<Seq<char>>,
    nums: Map<Seq<char>, u64>,
    l: SqlExprView,
    pos: int,
) -> Parsed<SqlExprView>
    decreases t.len() - pos, 16nat, 0nat,
{
    if 0 <= pos && kw_at(t, pos, "AND"@) {
        match comparison_s(t, nums, pos + 1) {
            Parsed::Done(r, p) => if pos + 1 <= p <= t.len() {
                and_rest_s(t, nums, bin("AND"@, l, r), p)
            } else {
                Parsed::Aborts
            },
            Parsed::Fails(m) => Parsed::Fails(m),
            Parsed::Aborts => Parsed::Aborts,
        }
    } else {
        Parsed::Done(l, pos)
    }
}

/// `or`.
pub open spec fn or_s(t: Seq<Seq<char>>, nums: Map<Seq<char>, u64>, pos: int) -> Parsed<SqlExprView>
    decreases t.len() - pos, 19nat, 0nat,
{
    match and_s(t, nums, pos) {
        Parsed::Done(l, p) => if pos <= p <= t.len() {
            or_rest_s(t, nums, l, p)
        } else {
            Parsed::Aborts
        },
        Parsed::Fails(m) => Parsed::Fails(m),
        Parsed::Aborts => Parsed::Aborts,
    }
}

pub open spec fn or_rest_s(
    t: Seq<Seq<char>>,
    nums: Map<Seq<char>, u64>,
    l: SqlExprView,
    pos: int,
) -> Parsed<SqlExprView>
    decreases t.len() - pos, 18nat, 0nat,
{
    if 0 <= pos && kw_at(t, pos, "OR"@) {
        match and_s(t, nums, pos + 1) {
            Parsed::Done(r, p) => if pos + 1 <= p <= t.len() {
                or_rest_s(t, nums, bin("OR"@, l, r), p)
            } else {
                Parsed::Aborts
            },
            Parsed::Fails(m) => Parsed::Fails(m),
            Parsed::Aborts => Parsed::Aborts,
        }
    } else {
        Parsed::Done(l, pos)
    }
}

/// `expr`.
pub open spec fn expr_s(t: Seq<Seq<char>>, nums: Map<Seq<char>, u64>, pos: int) -> Parsed<SqlExprView>
    decreases t.len() - pos, 20nat, 0nat,
{
    or_s(t, nums, pos)
}

/// The outcome `o` of the grammar, as an executable result.
pub open spec fn matches_outcome(o: Parsed<SqlExprView>, r: Result<(SqlExpr, usize), Option<String>>) -> bool {
    match o {
        Parsed::Done(e, p) => r matches Ok((x, q)) && x@ == e && q == p,
        Parsed::Fails(m) => r matches Err(Some(x)) && x@ == m,
        Parsed::Aborts => r matches Err(None),
    }
}

/// Token `i` is `lit`.
fn tok_is(t: &Vec<String>, i: usize, lit: &str) -> (r: bool)
    ensures
        r == tok_at(token_views(t@), i as int, lit@),
        r ==> i < t@.len(),
{
    if i < t.len() {
        assert(token_views(t@)[i as int] == t@[i as int]@);
        chars_are(&chars_of(t[i].as_str()), lit)
    } else {
        false
    }
}

/// Token `i` is the keyword `k`, ignoring ASCII case.
fn kw_is(t: &Vec<String>, i: usize, k: &str) -> (r: bool)
    ensures
        r == kw_at(token_views(t@), i as int, k@),
        r ==> i < t@.len(),
{
    if i < t.len() {
        assert(token_views(t@)[i as int] == t@[i as int]@);
        same_ignoring_ascii_case(t[i].as_str(), k)
    } else {
        false
    }
}

/// The raw pieces of `s` between commas.
fn comma_pieces(s: &Vec<char>) -> (r: Vec<Vec<char>>)
    ensures
        r@.map_values(|p: Vec<char>| p@) == comma_pieces_from(s@, 0, 0),
{
    let mut out: Vec<Vec<char>> = Vec::new();
    let mut start: usize = 0;
    let mut i: usize = 0;
    while i < s.len()
        invariant
            start <= i <= s@.len(),
            char_views(out@) + comma_pieces_from(s@, start as int, i as int)
                == comma_pieces_from(s@, 0, 0),
        decreases s@.len() - i,
    {
        if s[i] == ',' {
            let piece = chars_in(s, start, i);
            let ghost before = char_views(out@);
            out.push(piece);
            assert(char_views(out@) =~= before.push(piece@));
            assert(before + comma_pieces_from(s@, start as int, i as int) =~= before.push(piece@)
                + comma_pieces_from(s@, i + 1, i + 1));
            start = i + 1;
        }
        i = i + 1;
    }
    let piece = chars_in(s, start, s.len());
    let ghost before = char_views(out@);
    out.push(piece);
    assert(char_views(out@) =~= before + comma_pieces_from(s@, start as int, i as int));
    out
}

/// The trimmed pieces between the commas of the inside of a bracketed token, which the caller
/// reads as numbers; nothing for any other token.
pub fn number_pieces_of(token: &str) -> (r: Vec<String>)
    ensures
        token_views(r@) == if is_bracketed(token@) {
            number_pieces(token@.subrange(1, token@.len() - 1))
        } else {
            Seq::<Seq<char>>::empty()
        },
{
    let c = chars_of(token);
    let n = c.len();
    let mut r: Vec<String> = Vec::new();
    if n > 0 && c[0] == '[' && c[n - 1] == ']' {
        let inner = chars_in(&c, 1, n - 1);
        let raws = comma_pieces(&inner);
        let ghost raw_views = char_views(raws@);
        let mut j: usize = 0;
        while j < raws.len()
            invariant
                j <= raws@.len(),
                raw_views == char_views(raws@),
                raw_views == comma_pieces_from(inner@, 0, 0),
                token_views(r@) == trimmed(raw_views.take(j as int)),
            decreases raws@.len() - j,
        {
            let (lo, hi) = trim_bounds(&raws[j]);
            let piece = string_from_range(&raws[j], lo, hi);
            let ghost before = token_views(r@);
            r.push(piece);
            assert(raw_views[j as int] == raws@[j as int]@);
            assert(token_views(r@) =~= before.push(piece@));
            assert(raw_views.take(j + 1) =~= raw_views.take(j as int).push(raw_views[j as int]));
            assert(trimmed(raw_views.take(j + 1)) =~= trimmed(raw_views.take(j as int)).push(trim_spec(raw_views[j as int])));
            j = j + 1;
        }
        assert(raw_views.take(raws@.len() as int) =~= raw_views);
        assert(inner@ =~= token@.subrange(1, token@.len() - 1));
    } else {
        assert(token_views(r@) =~= Seq::<Seq<char>>::empty());
    }
    r
}

/// The readings of those of `pieces` that are numbers.
fn known_number_bits(pieces: &Vec<String>, nums: &StrMap<u64>) -> (r: Vec<u64>)
    ensures
        r@ == known_numbers(token_views(pieces@), nums@),
{
    let ghost pv = token_views(pieces@);
    let mut r: Vec<u64> = Vec::new();
    let mut j: usize = 0;
    assert(pv.take(0) =~= Seq::<Seq<char>>::empty());
    while j < pieces.len()
        invariant
            j <= pieces@.len(),
            pv == token_views(pieces@),
            r@ == known_numbers(pv.take(j as int), nums@),
        decreases pieces@.len() - j,
    {
        assert(pv.take(j + 1).drop_last() =~= pv.take(j as int));
        assert(pv.take(j + 1).last() == pieces@[j as int]@);
        match nums.lookup(&pieces[j]) {
            Some(b) => {
                r.push(*b);
            },
            None => {},
        }
        j = j + 1;
    }
    assert(pv.take(pieces@.len() as int) =~= pv);
    r
}

fn call_error(w: &String) -> (e: String)
    ensures
        e@ == "Expected closing ')' after function call '"@ + w@ + "'"@,
{
    let mut e = string_of("Expected closing ')' after function call '");
    push_str(&mut e, w.as_str());
    push_str(&mut e, "'");
    e
}

fn parse_primary(t: &Vec<String>, nums: &StrMap<u64>, pos: usize) -> (r: Result<(SqlExpr, usize), Option<String>>)
    requires
        pos <= t@.len(),
    ensures
        matches_outcome(primary_s(token_views(t@), nums@, pos as int), r),
        r matches Ok((_, p)) ==> pos < p <= t@.len(),
    decreases t@.len() - pos, 10nat,
{
    if pos >= t.len() {
        return Err(Some(string_of("Unexpected end of expression")));
    }
    let w = &t[pos];
    let ghost tv = token_views(t@);
    assert(tv[pos as int] == w@);
    let c = chars_of(w.as_str());
    let n = c.len();
    if n > 0 && ((c[0] == '\'' && c[n - 1] == '\'') || (c[0] == '"' && c[n - 1] == '"')) {
        if n < 2 {
            return Err(None);
        }
        let text = string_from_range(&c, 1, n - 1);
        return Ok((SqlExpr::Literal(Value::String(text)), pos + 1));
    }
    match parse_i64(&c) {
        Some(i) => {
            return Ok((SqlExpr::Literal(Value::Int(i)), pos + 1));
        },
        None => {},
    }
    match nums.lookup(w) {
        Some(b) => {
            return Ok((SqlExpr::Literal(Value::Float(*b)), pos + 1));
        },
        None => {},
    }
    if same_ignoring_ascii_case(w.as_str(), "true") {
        return Ok((SqlExpr::Literal(Value::Bool(true)), pos + 1));
    }
    if same_ignoring_ascii_case(w.as_str(), "false") {
        return Ok((SqlExpr::Literal(Value::Bool(false)), pos + 1));
    }
    if n > 0 && c[0] == '[' && c[n - 1] == ']' {
        let pieces = number_pieces_of(w.as_str());
        let bits = known_number_bits(&pieces, nums);
        return Ok((SqlExpr::VectorLiteral(bits), pos + 1));
    }
    if tok_is(t, pos + 1, "(") {
        if tok_is(t, pos + 2, ")") {
            let name = to_lowercase(w.as_str());
            let args: Vec<SqlExpr> = Vec::new();
            assert(expr_models(args@) =~= Seq::<SqlExprView>::empty());
            return Ok((SqlExpr::FunctionCall { name, args }, pos + 3));
        }
        let none: Vec<SqlExpr> = Vec::new();
        assert(expr_models(none@) =~= Seq::<SqlExprView>::empty());
        return parse_args(t, nums, pos + 2, none, w);
    }
    Ok((SqlExpr::Column(w.clone()), pos + 1))
}

fn parse_args(t: &Vec<String>, nums: &StrMap<u64>, pos: usize, acc: Vec<SqlExpr>, w: &String) -> (r:
    Result<(SqlExpr, usize), Option<String>>)
    requires
        pos <= t@.len(),
    ensures
        matches_outcome(args_s(token_views(t@), nums@, pos as int, expr_models(acc@), w@), r),
        r matches Ok((_, p)) ==> pos < p <= t@.len(),
    decreases t@.len() - pos, 21nat,
{
    let ghost n = t@.len();
    assert(t@.len() == t.len());
    match parse_expr(t, nums, pos) {
        Ok((e, p)) => {
            let mut acc = acc;
            let ghost before = acc@;
            acc.push(e);
            assert(acc@.drop_last() =~= before);
            if tok_is(t, p, ",") {
                parse_args(t, nums, p + 1, acc, w)
            } else if tok_is(t, p, ")") {
                let name = to_lowercase(w.as_str());
                Ok((SqlExpr::FunctionCall { name, args: acc }, p + 1))
            } else {
                Err(Some(call_error(w)))
            }
        },
        Err(m) => Err(m),
    }
}

fn parse_multiplicative(t: &Vec<String>, nums: &StrMap<u64>, pos: usize) -> (r: Result<(SqlExpr, usize), Option<String>>)
    requires
        pos <= t@.len(),
    ensures
        matches_outcome(product_s(token_views(t@), nums@, pos as int), r),
        r matches Ok((_, p)) ==> pos < p <= t@.len(),
    decreases t@.len() - pos, 12nat,
{
    match parse_primary(t, nums, pos) {
        Ok((l, p)) => parse_multiplicative_rest(t, nums, l, p),
        Err(m) => Err(m),
    }
}

fn parse_multiplicative_rest(t: &Vec<String>, nums: &StrMap<u64>, l: SqlExpr, pos: usize) -> (r: Result<(SqlExpr, usize), Option<String>>)
    requires
        pos <= t@.len(),
    ensures
        matches_outcome(product_rest_s(token_views(t@), nums@, l@, pos as int), r),
        r matches Ok((_, p)) ==> pos <= p <= t@.len(),
    decreases t@.len() - pos, 11nat,
{
    let ghost n = t@.len();
    assert(t@.len() == t.len());
    if tok_is(t, pos, "*") || tok_is(t, pos, "/") {
        let op = t[pos].clone();
        assert(token_views(t@)[pos as int] == op@);
        match parse_primary(t, nums, pos + 1) {
            Ok((r, p)) => parse_multiplicative_rest(
                t,
                nums,
                SqlExpr::BinaryOp { op, left: Box::new(l), right: Box::new(r) },
                p,
            ),
            Err(m) => Err(m),
        }
    } else {
        Ok((l, pos))
    }
}

fn parse_additive(t: &Vec<String>, nums: &StrMap<u64>, pos: usize) -> (r: Result<(SqlExpr, usize), Option<String>>)
    requires
        pos <= t@.len(),
    ensures
        matches_outcome(sum_s(token_views(t@), nums@, pos as int), r),
        r matches Ok((_, p)) ==> pos < p <= t@.len(),
    decreases t@.len() - pos, 14nat,
{
    match parse_multiplicative(t, nums, pos) {
        Ok((l, p)) => parse_additive_rest(t, nums, l, p),
        Err(m) => Err(m),
    }
}

fn parse_additive_rest(t: &Vec<String>, nums: &StrMap<u64>, l: SqlExpr, pos: usize) -> (r: Result<(SqlExpr, usize), Option<String>>)
    requires
        pos <= t@.len(),
    ensures
        matches_outcome(sum_rest_s(token_views(t@), nums@, l@, pos as int), r),
        r matches Ok((_, p)) ==> pos <= p <= t@.len(),
    decreases t@.len() - pos, 13nat,
{
    let ghost n = t@.len();
    assert(t@.len() == t.len());
    if tok_is(t, pos, "+") || tok_is(t, pos, "-") {
        let op = t[pos].clone();
        assert(token_views(t@)[pos as int] == op@);
        match parse_multiplicative(t, nums, pos + 1) {
            Ok((r, p)) => parse_additive_rest(
                t,
                nums,
                SqlExpr::BinaryOp { op, left: Box::new(l), right: Box::new(r) },
                p,
            ),
            Err(m) => Err(m),
        }
    } else {
        Ok((l, pos))
    }
}

fn parse_comparison(t: &Vec<String>, nums: &StrMap<u64>, pos: usize) -> (r: Result<(SqlExpr, usize), Option<String>>)
    requires
        pos <= t@.len(),
    ensures
        matches_outcome(comparison_s(token_views(t@), nums@, pos as int), r),
        r matches Ok((_, p)) ==> pos < p <= t@.len(),
    decreases t@.len() - pos, 15nat,
{
    let ghost n = t@.len();
    assert(t@.len() == t.len());
    match parse_additive(t, nums, pos) {
        Ok((l, p)) => {
            if tok_is(t, p, "=") || tok_is(t, p, "!=") || tok_is(t, p, "<>") || tok_is(t, p, ">")
                || tok_is(t, p, "<") || tok_is(t, p, ">=") || tok_is(t, p, "<=") {
                let op = t[p].clone();
                assert(token_views(t@)[p as int] == op@);
                match parse_additive(t, nums, p + 1) {
                    Ok((r, q)) => Ok((SqlExpr::BinaryOp { op, left: Box::new(l), right: Box::new(r) }, q)),
                    Err(m) => Err(m),
                }
            } else {
                Ok((l, p))
            }
        },
        Err(m) => Err(m),
    }
}

fn parse_and_expr(t: &Vec<String>, nums: &StrMap<u64>, pos: usize) -> (r: Result<(SqlExpr, usize), Option<String>>)
    requires
        pos <= t@.len(),
    ensures
        matches_outcome(and_s(token_views(t@), nums@, pos as int), r),
        r matches Ok((_, p)) ==> pos < p <= t@.len(),
    decreases t@.len() - pos, 17nat,
{
    match parse_comparison(t, nums, pos) {
        Ok((l, p)) => parse_and_rest(t, nums, l, p),
        Err(m) => Err(m),
    }
}

fn parse_and_rest(t: &Vec<String>, nums: &StrMap<u64>, l: SqlExpr, pos: usize) -> (r: Result<(SqlExpr, usize), Option<String>>)
    requires
        pos <= t@.len(),
    ensures
        matches_outcome(and_rest_s(token_views(t@), nums@, l@, pos as int), r),
        r matches Ok((_, p)) ==> pos <= p <= t@.len(),
    decreases t@.len() - pos, 16nat,
{
    let ghost n = t@.len();
    assert(t@.len() == t.len());
    if kw_is(t, pos, "AND") {
        match parse_comparison(t, nums, pos + 1) {
            Ok((r, p)) => parse_and_rest(
                t,
                nums,
                SqlExpr::BinaryOp { op: string_of("AND"), left: Box::new(l), right: Box::new(r) },
                p,
            ),
            Err(m) => Err(m),
        }
    } else {
        Ok((l, pos))
    }
}

fn parse_or_expr(t: &Vec<String>, nums: &StrMap<u64>, pos: usize) -> (r: Result<(SqlExpr, usize), Option<String>>)
    requires
        pos <= t@.len(),
    ensures
        matches_outcome(or_s(token_views(t@), nums@, pos as int), r),
        r matches Ok((_, p)) ==> pos < p <= t@.len(),
    decreases t@.len() - pos, 19nat,
{
    match parse_and_expr(t, nums, pos) {
        Ok((l, p)) => parse_or_rest(t, nums, l, p),
        Err(m) => Err(m),
    }
}

fn parse_or_rest(t: &Vec<String>, nums: &StrMap<u64>, l: SqlExpr, pos: usize) -> (r: Result<(SqlExpr, usize), Option<String>>)
    requires
        pos <= t@.len(),
    ensures
        matches_outcome(or_rest_s(token_views(t@), nums@, l@, pos as int), r),
        r matches Ok((_, p)) ==> pos <= p <= t@.len(),
    decreases t@.len() - pos, 18nat,
{
    let ghost n = t@.len();
    assert(t@.len() == t.len());
    if kw_is(t, pos, "OR") {
        match parse_and_expr(t, nums, pos + 1) {
            Ok((r, p)) => parse_or_rest(
                t,
                nums,
                SqlExpr::BinaryOp { op: string_of("OR"), left: Box::new(l), right: Box::new(r) },
                p,
            ),
            Err(m) => Err(m),
        }
    } else {
        Ok((l, pos))
    }
}

/// An expression starting at token `pos`, and the position after it.
pub fn parse_expr(t: &Vec<String>, nums: &StrMap<u64>, pos: usize) -> (r: Result<(SqlExpr, usize), Option<String>>)
    requires
        pos <= t@.len(),
    ensures
        matches_outcome(expr_s(token_views(t@), nums@, pos as int), r),
        r matches Ok((_, p)) ==> pos < p <= t@.len(),
    decreases t@.len() - pos, 20nat,
{
    parse_or_expr(t, nums, pos)
}

/// One select item at `pos`: `*`, or an expression with an optional `AS` name.
pub open spec fn item_s(t: Seq<Seq<char>>, nums: Map<Seq<char>, u64>, pos: int) -> Parsed<(SqlExprView, Option<Seq<char>>)> {
    if tok_at(t, pos, "*"@) {
        Parsed::Done((SqlExprView::Column("*"@), None), pos + 1)
    } else {
        match expr_s(t, nums, pos) {
            Parsed::Done(e, p) => if kw_at(t, p, "AS"@) {
                if p + 1 < t.len() {
                    Parsed::Done((e, Some(t[p + 1])), p + 2)
                } else {
                    Parsed::Done((e, None), p + 1)
                }
            } else {
                Parsed::Done((e, None), p)
            },
            Parsed::Fails(m) => Parsed::Fails(m),
            Parsed::Aborts => Parsed::Aborts,
        }
    }
}

/// The select list from `pos` on, after the items `acc`.
pub open spec fn select_s(
    t: Seq<Seq<char>>,
    nums: Map<Seq<char>, u64>,
    pos: int,
    acc: Seq<(SqlExprView, Option<Seq<char>>)>,
) -> Parsed<Seq<(SqlExprView, Option<Seq<char>>)>>
    decreases t.len() - pos,
{
    if !(0 <= pos <= t.len()) {
        Parsed::Aborts
    } else {
        match item_s(t, nums, pos) {
            Parsed::Done(it, p) => if pos < p <= t.len() {
                if tok_at(t, p, ","@) {
                    select_s(t, nums, p + 1, acc.push(it))
                } else {
                    Parsed::Done(acc.push(it), p)
                }
            } else {
                Parsed::Aborts
            },
            Parsed::Fails(m) => Parsed::Fails(m),
            Parsed::Aborts => Parsed::Aborts,
        }
    }
}

/// The rest of a query from `LIMIT` on.
pub open spec fn limit_s(
    t: Seq<Seq<char>>,
    q: SqlQueryView,
    pos: int,
) -> Parsed<SqlQueryView> {
    if kw_at(t, pos, "LIMIT"@) {
        if !(pos + 1 < t.len()) {
            Parsed::Fails("Expected number after LIMIT"@)
        } else {
            match parse_u64_spec(t[pos + 1]) {
                Some(n) => if n <= usize::MAX {
                    Parsed::Done(SqlQueryView { limit: Some(n as usize), ..q }, pos + 2)
                } else {
                    Parsed::Fails("Invalid LIMIT number"@)
                },
                None => Parsed::Fails("Invalid LIMIT number"@),
            }
        }
    } else {
        Parsed::Done(q, pos)
    }
}

/// The rest of a query from `ORDER BY` on.
pub open spec fn order_s(t: Seq<Seq<char>>, q: SqlQueryView, pos: int) -> Parsed<SqlQueryView> {
    if kw_at(t, pos, "ORDER"@) {
        if !kw_at(t, pos + 1, "BY"@) {
            Parsed::Fails("Expected BY after ORDER"@)
        } else if !(pos + 2 < t.len()) {
            Parsed::Fails("Expected column after ORDER BY"@)
        } else {
            let col = t[pos + 2];
            if kw_at(t, pos + 3, "DESC"@) {
                limit_s(t, SqlQueryView { order_by: Some((col, true)), ..q }, pos + 4)
            } else if kw_at(t, pos + 3, "ASC"@) {
                limit_s(t, SqlQueryView { order_by: Some((col, false)), ..q }, pos + 4)
            } else {
                limit_s(t, SqlQueryView { order_by: Some((col, false)), ..q }, pos + 3)
            }
        }
    } else {
        limit_s(t, q, pos)
    }
}

/// The rest of a query from `FROM` on, after the select list `items`.
pub open spec fn from_s(
    t: Seq<Seq<char>>,
    nums: Map<Seq<char>, u64>,
    items: Seq<(SqlExprView, Option<Seq<char>>)>,
    p: int,
) -> Parsed<SqlQueryView> {
    if !kw_at(t, p, "FROM"@) {
        Parsed::Fails("Expected FROM clause"@)
    } else if !(p + 1 < t.len()) {
        Parsed::Fails("Expected table name after FROM"@)
    } else {
        let q = SqlQueryView {
            select: items,
            from: t[p + 1],
            where_clause: None,
            order_by: None,
            limit: None,
        };
        if kw_at(t, p + 2, "WHERE"@) {
            match expr_s(t, nums, p + 3) {
                Parsed::Done(w, r) => order_s(t, SqlQueryView { where_clause: Some(w), ..q }, r),
                Parsed::Fails(m) => Parsed::Fails(m),
                Parsed::Aborts => Parsed::Aborts,
            }
        } else {
            order_s(t, q, p + 2)
        }
    }
}

/// A query starting at `pos`.
pub open spec fn query_s(t: Seq<Seq<char>>, nums: Map<Seq<char>, u64>, pos: int) -> Parsed<SqlQueryView> {
    if !kw_at(t, pos, "SELECT"@) {
        Parsed::Fails("Expected SELECT statement"@)
    } else {
        match select_s(t, nums, pos + 1, Seq::empty()) {
            Parsed::Done(items, p) => from_s(t, nums, items, p),
            Parsed::Fails(m) => Parsed::Fails(m),
            Parsed::Aborts => Parsed::Aborts,
        }
    }
}

pub open spec fn item_views(items: Seq<SelectItem>) -> Seq<(SqlExprView, Option<Seq<char>>)> {
    items.map_values(|it: SelectItem| (it.expr@, opt_view(it.alias)))
}

fn parse_item(t: &Vec<String>, nums: &StrMap<u64>, pos: usize) -> (r: Result<(SelectItem, usize), Option<String>>)
    requires
        pos <= t@.len(),
    ensures
        match item_s(token_views(t@), nums@, pos as int) {
            Parsed::Done(it, p) => r matches Ok((x, q)) && (x.expr@, opt_view(x.alias)) == it && q == p,
            Parsed::Fails(m) => r matches Err(Some(x)) && x@ == m,
            Parsed::Aborts => r matches Err(None),
        },
        r matches Ok((_, p)) ==> pos < p <= t@.len(),
{
    assert(t@.len() == t.len());
    if tok_is(t, pos, "*") {
        return Ok((SelectItem { expr: SqlExpr::Column(string_of("*")), alias: None }, pos + 1));
    }
    match parse_expr(t, nums, pos) {
        Ok((e, p)) => {
            if kw_is(t, p, "AS") {
                if p + 1 < t.len() {
                    assert(token_views(t@)[p + 1] == t@[p + 1]@);
                    Ok((SelectItem { expr: e, alias: Some(t[p + 1].clone()) }, p + 2))
                } else {
                    Ok((SelectItem { expr: e, alias: None }, p + 1))
                }
            } else {
                Ok((SelectItem { expr: e, alias: None }, p))
            }
        },
        Err(m) => Err(m),
    }
}

fn parse_items(t: &Vec<String>, nums: &StrMap<u64>, pos: usize, acc: Vec<SelectItem>) -> (r: Result<(Vec<SelectItem>, usize), Option<String>>)
    requires
        pos <= t@.len(),
    ensures
        match select_s(token_views(t@), nums@, pos as int, item_views(acc@)) {
            Parsed::Done(items, p) => r matches Ok((x, q)) && item_views(x@) == items && q == p,
            Parsed::Fails(m) => r matches Err(Some(x)) && x@ == m,
            Parsed::Aborts => r matches Err(None),
        },
        r matches Ok((_, p)) ==> pos < p <= t@.len(),
    decreases t@.len() - pos,
{
    assert(t@.len() == t.len());
    match parse_item(t, nums, pos) {
        Ok((it, p)) => {
            let mut acc = acc;
            let ghost before = item_views(acc@);
            let ghost iv = (it.expr@, opt_view(it.alias));
            acc.push(it);
            assert(item_views(acc@) =~= before.push(iv));
            if tok_is(t, p, ",") {
                parse_items(t, nums, p + 1, acc)
            } else {
                Ok((acc, p))
            }
        },
        Err(m) => Err(m),
    }
}

fn parse_limit(t: &Vec<String>, q: SqlQuery, pos: usize) -> (r: Result<(SqlQuery, usize), Option<String>>)
    requires
        pos <= t@.len(),
    ensures
        match limit_s(token_views(t@), q@, pos as int) {
            Parsed::Done(x, p) => r matches Ok((y, k)) && y@ == x && k == p,
            Parsed::Fails(m) => r matches Err(Some(x)) && x@ == m,
            Parsed::Aborts => r matches Err(None),
        },
{
    assert(t@.len() == t.len());
    if kw_is(t, pos, "LIMIT") {
        if pos + 1 >= t.len() {
            return Err(Some(string_of("Expected number after LIMIT")));
        }
        assert(token_views(t@)[pos + 1] == t@[pos + 1]@);
        let c = chars_of(t[pos + 1].as_str());
        match parse_u64(&c) {
            Some(n) => if n <= usize::MAX as u64 {
                let mut q = q;
                q.limit = Some(n as usize);
                Ok((q, pos + 2))
            } else {
                Err(Some(string_of("Invalid LIMIT number")))
            },
            None => Err(Some(string_of("Invalid LIMIT number"))),
        }
    } else {
        Ok((q, pos))
    }
}

fn parse_order(t: &Vec<String>, q: SqlQuery, pos: usize) -> (r: Result<(SqlQuery, usize), Option<String>>)
    requires
        pos <= t@.len(),
    ensures
        match order_s(token_views(t@), q@, pos as int) {
            Parsed::Done(x, p) => r matches Ok((y, k)) && y@ == x && k == p,
            Parsed::Fails(m) => r matches Err(Some(x)) && x@ == m,
            Parsed::Aborts => r matches Err(None),
        },
{
    assert(t@.len() == t.len());
    if kw_is(t, pos, "ORDER") {
        if !kw_is(t, pos + 1, "BY") {
            return Err(Some(string_of("Expected BY after ORDER")));
        }
        if pos + 2 >= t.len() {
            return Err(Some(string_of("Expected column after ORDER BY")));
        }
        assert(token_views(t@)[pos + 2] == t@[pos + 2]@);
        let col = t[pos + 2].clone();
        let mut q = q;
        if kw_is(t, pos + 3, "DESC") {
            q.order_by = Some((col, true));
            parse_limit(t, q, pos + 4)
        } else if kw_is(t, pos + 3, "ASC") {
            q.order_by = Some((col, false));
            parse_limit(t, q, pos + 4)
        } else {
            q.order_by = Some((col, false));
            parse_limit(t, q, pos + 3)
        }
    } else {
        parse_limit(t, q, pos)
    }
}

fn parse_from(t: &Vec<String>, nums: &StrMap<u64>, select: Vec<SelectItem>, p: usize) -> (r: Result<(SqlQuery, usize), Option<String>>)
    requires
        p <= t@.len(),
    ensures
        match from_s(token_views(t@), nums@, item_views(select@), p as int) {
            Parsed::Done(x, k) => r matches Ok((y, e)) && y@ == x && e == k,
            Parsed::Fails(m) => r matches Err(Some(x)) && x@ == m,
            Parsed::Aborts => r matches Err(None),
        },
{
    assert(t@.len() == t.len());
    if !kw_is(t, p, "FROM") {
        return Err(Some(string_of("Expected FROM clause")));
    }
    if p + 1 >= t.len() {
        return Err(Some(string_of("Expected table name after FROM")));
    }
    assert(token_views(t@)[p + 1] == t@[p + 1]@);
    let from = t[p + 1].clone();
    let q = SqlQuery { select, from, where_clause: None, order_by: None, limit: None };
    if kw_is(t, p + 2, "WHERE") {
        match parse_expr(t, nums, p + 3) {
            Ok((w, r)) => {
                let mut q = q;
                q.where_clause = Some(w);
                parse_order(t, q, r)
            },
            Err(m) => Err(m),
        }
    } else {
        parse_order(t, q, p + 2)
    }
}

/// A query from `pos` on: its tree and the position after it, a message, or `None` where
/// the grammar aborts.
fn parse_query_at(t: &Vec<String>, nums: &StrMap<u64>, pos: usize) -> (r: Result<(SqlQuery, usize), Option<String>>)
    requires
        pos <= t@.len(),
    ensures
        match query_s(token_views(t@), nums@, pos as int) {
            Parsed::Done(q, p) => r matches Ok((x, k)) && x@ == q && k == p,
            Parsed::Fails(m) => r matches Err(Some(x)) && x@ == m,
            Parsed::Aborts => r matches Err(None),
        },
{
    assert(t@.len() == t.len());
    if !kw_is(t, pos, "SELECT") {
        return Err(Some(string_of("Expected SELECT statement")));
    }
    let none: Vec<SelectItem> = Vec::new();
    assert(item_views(none@) =~= Seq::<(SqlExprView, Option<Seq<char>>)>::empty());
    match parse_items(t, nums, pos + 1, none) {
        Ok((select, p)) => parse_from(t, nums, select, p),
        Err(m) => Err(m),
    }
}

impl SqlParser {
    /// Parses a query from the current token on; a query on which the grammar aborts (a lone
    /// quote character parsed as a quoted text) is not accepted.
    pub fn parse_query(&mut self) -> (r: Result<SqlQuery, String>)
        requires
            old(self).pos <= old(self).tokens@.len(),
            !(query_s(old(self).token_seq(), old(self).numbers@, old(self).pos as int) is Aborts),
        ensures
            final(self).tokens@ == old(self).tokens@,
            final(self).numbers == old(self).numbers,
            match query_s(old(self).token_seq(), old(self).numbers@, old(self).pos as int) {
                Parsed::Done(q, p) => r matches Ok(x) && x@ == q && final(self).pos == p,
                Parsed::Fails(m) => r matches Err(x) && x@ == m,
                Parsed::Aborts => false,
            },
    {
        match parse_query_at(&self.tokens, &self.numbers, self.pos) {
            Ok((q, end)) => {
                self.pos = end;
                Ok(q)
            },
            Err(Some(m)) => Err(m),
            Err(None) => Err(String::new()),
        }
    }

    /// `parse_query` where the current position is a token position, or `None` where the
    /// grammar aborts.
    pub fn try_parse_query(&mut self) -> (r: Option<Result<SqlQuery, String>>)
        ensures
            final(self).tokens@ == old(self).tokens@,
            final(self).numbers == old(self).numbers,
            old(self).pos > old(self).tokens@.len() ==> r is None,
            old(self).pos <= old(self).tokens@.len() ==> match query_s(old(self).token_seq(), old(self).numbers@, old(self).pos as int) {
                Parsed::Done(q, p) => r matches Some(Ok(x)) && x@ == q && final(self).pos == p,
                Parsed::Fails(m) => r matches Some(Err(x)) && x@ == m,
                Parsed::Aborts => r is None,
            },
    {
        if self.pos > self.tokens.len() {
            return None;
        }
        match parse_query_at(&self.tokens, &self.numbers, self.pos) {
            Ok((q, end)) => {
                self.pos = end;
                Some(Ok(q))
            },
            Err(Some(m)) => Some(Err(m)),
            Err(None) => None,
        }
    }
}

/// The pieces of a token that may be number texts: the token itself, then, for a bracketed
/// token, the trimmed pieces between its commas.
pub open spec fn token_number_texts(w: Seq<char>) -> Seq<Seq<char>> {
    seq![w] + if is_bracketed(w) {
        number_pieces(w.subrange(1, w.len() - 1))
    } else {
        Seq::empty()
    }
}

/// The texts of all tokens that may be numbers, token by token.
pub open spec fn number_texts_of(ts: Seq<Seq<char>>) -> Seq<Seq<char>>
    decreases ts.len(),
{
    if ts.len() == 0 {
        Seq::empty()
    } else {
        number_texts_of(ts.drop_last()) + token_number_texts(ts.last())
    }
}

impl SqlParser {
    /// The texts whose floating-point readings the parser may look up in `numbers`.
    pub fn number_texts(&self) -> (r: Vec<String>)
        ensures
            token_views(r@) == number_texts_of(self.token_seq()),
    {
        let mut r: Vec<String> = Vec::new();
        let mut i: usize = 0;
        let ghost tv = self.token_seq();
        assert(tv.take(0) =~= Seq::<Seq<char>>::empty());
        assert(token_views(r@) =~= Seq::<Seq<char>>::empty());
        while i < self.tokens.len()
            invariant
                i <= self.tokens@.len(),
                tv == self.token_seq(),
                token_views(r@) == number_texts_of(tv.take(i as int)),
            decreases self.tokens@.len() - i,
        {
            let w = &self.tokens[i];
            assert(tv[i as int] == w@);
            assert(tv.take(i + 1).drop_last() =~= tv.take(i as int));
            let ghost before = token_views(r@);
            r.push(w.clone());
            let pieces = number_pieces_of(w.as_str());
            let mut j: usize = 0;
            assert(token_views(r@) =~= before + seq![w@] + token_views(pieces@).take(0));
            while j < pieces.len()
                invariant
                    j <= pieces@.len(),
                    token_views(r@) == before + seq![w@] + token_views(pieces@).take(j as int),
                decreases pieces@.len() - j,
            {
                let ghost prior = r@;
                let x = pieces[j].clone();
                r.push(x);
                assert(token_views(r@) =~= token_views(prior).push(x@));
                assert(token_views(pieces@)[j as int] == x@);
                assert(token_views(pieces@).take(j + 1) =~= token_views(pieces@).take(j as int).push(x@));
                assert(token_views(r@) =~= before + seq![w@] + token_views(pieces@).take(j + 1));
                j = j + 1;
            }
            assert(token_views(pieces@).take(pieces@.len() as int) =~= token_views(pieces@));
            assert(token_views(r@) =~= before + token_number_texts(w@));
            i = i + 1;
        }
        assert(tv.take(tv.len() as int) =~= tv);
        r
    }
}

/// A token that the grammar reads as a column name: not quoted or bracketed, not a number, and
/// not a truth value.
pub open spec fn column_name(w: Seq<char>, nums: Map<Seq<char>, u64>) -> bool {
    &&& !is_quoted(w)
    &&& !is_bracketed(w)
    &&& parse_i64_spec(w) is None
    &&& !nums.contains_key(w)
    &&& !eq_ignore_ascii_case(w, "true"@)
    &&& !eq_ignore_ascii_case(w, "false"@)
}

proof fn lemma_column_primary(t: Seq<Seq<char>>, nums: Map<Seq<char>, u64>, i: int)
    requires
        0 <= i < t.len(),
        column_name(t[i], nums),
        !tok_at(t, i + 1, "("@),
    ensures
        primary_s(t, nums, i) == Parsed::Done(SqlExprView::Column(t[i]), i + 1),
{
}

proof fn lemma_operator_texts()
    ensures
        "+"@ != "*"@,
        "+"@ != "/"@,
        "-"@ != "*"@,
        "-"@ != "/"@,
        "*"@ != "+"@,
        "*"@ != "-"@,
        "+"@ != "("@,
        "-"@ != "("@,
        "*"@ != "("@,
        "<="@ != "("@,
        "<="@ != "*"@,
        "<="@ != "/"@,
        "<="@ != "+"@,
        "<="@ != "-"@,
        "<="@ == "<="@,
        !("+"@ == "="@ || "+"@ == "!="@ || "+"@ == "<>"@ || "+"@ == ">"@ || "+"@ == "<"@ || "+"@ == ">="@
            || "+"@ == "<="@),
        !("-"@ == "="@ || "-"@ == "!="@ || "-"@ == "<>"@ || "-"@ == ">"@ || "-"@ == "<"@ || "-"@ == ">="@
            || "-"@ == "<="@),
        !("*"@ == "="@ || "*"@ == "!="@ || "*"@ == "<>"@ || "*"@ == ">"@ || "*"@ == "<"@ || "*"@ == ">="@
            || "*"@ == "<="@),
        !eq_ignore_ascii_case("+"@, "AND"@),
        !eq_ignore_ascii_case("-"@, "AND"@),
        !eq_ignore_ascii_case("*"@, "AND"@),
        !eq_ignore_ascii_case("<="@, "AND"@),
        !eq_ignore_ascii_case("+"@, "OR"@),
        !eq_ignore_ascii_case("-"@, "OR"@),
        !eq_ignore_ascii_case("*"@, "OR"@),
        !eq_ignore_ascii_case("<="@, "OR"@),
{
    reveal_strlit("+");
    assert("+"@.len() == 1 && "+"@[0] == '+');
    reveal_strlit("-");
    assert("-"@.len() == 1 && "-"@[0] == '-');
    reveal_strlit("*");
    assert("*"@.len() == 1 && "*"@[0] == '*');
    reveal_strlit("/");
    assert("/"@.len() == 1 && "/"@[0] == '/');
    reveal_strlit("(");
    assert("("@.len() == 1 && "("@[0] == '(');
    reveal_strlit("=");
    assert("="@.len() == 1 && "="@[0] == '=');
    reveal_strlit(">");
    assert(">"@.len() == 1 && ">"@[0] == '>');
    reveal_strlit("<");
    assert("<"@.len() == 1 && "<"@[0] == '<');
    reveal_strlit("!=");
    assert("!="@.len() == 2 && "!="@[0] == '!' && "!="@[1] == '=');
    reveal_strlit("<>");
    assert("<>"@.len() == 2 && "<>"@[0] == '<' && "<>"@[1] == '>');
    reveal_strlit(">=");
    assert(">="@.len() == 2 && ">="@[0] == '>' && ">="@[1] == '=');
    reveal_strlit("<=");
    assert("<="@.len() == 2 && "<="@[0] == '<' && "<="@[1] == '=');
    reveal_strlit("OR");
    assert("OR"@.len() == 2 && "OR"@[0] == 'O' && "OR"@[1] == 'R');
    reveal_strlit("AND");
    assert("AND"@.len() == 3);
}

proof fn lemma_precedence_case0(x: Seq<char>, y: Seq<char>, z: Seq<char>, nums: Map<Seq<char>, u64>)
    requires
        column_name(x, nums),
        column_name(y, nums),
        column_name(z, nums),
    ensures
        expr_s(seq![x, "+"@, y, "*"@, z], nums, 0) == Parsed::Done(
            bin("+"@, SqlExprView::Column(x), bin("*"@, SqlExprView::Column(y), SqlExprView::Column(z))),
            5,
        ),
{
    lemma_operator_texts();
    let (cx, cy, cz) = (SqlExprView::Column(x), SqlExprView::Column(y), SqlExprView::Column(z));
    let t = seq![x, "+"@, y, "*"@, z];
    lemma_column_primary(t, nums, 0);
    lemma_column_primary(t, nums, 2);
    lemma_column_primary(t, nums, 4);
    assert(product_rest_s(t, nums, cx, 1) == Parsed::Done(cx, 1));
    assert(product_s(t, nums, 0) == Parsed::Done(cx, 1));
    assert(product_rest_s(t, nums, cz, 5) == Parsed::Done(cz, 5));
    assert(product_rest_s(t, nums, bin("*"@, cy, cz), 5) == Parsed::Done(bin("*"@, cy, cz), 5));
    assert(product_rest_s(t, nums, cy, 3) == Parsed::Done(bin("*"@, cy, cz), 5));
    assert(product_s(t, nums, 2) == Parsed::Done(bin("*"@, cy, cz), 5));
    let e1 = bin("+"@, cx, bin("*"@, cy, cz));
    assert(sum_rest_s(t, nums, e1, 5) == Parsed::Done(e1, 5));
    assert(sum_rest_s(t, nums, cx, 1) == Parsed::Done(e1, 5));
    assert(sum_s(t, nums, 0) == Parsed::Done(e1, 5));
    assert(comparison_s(t, nums, 0) == Parsed::Done(e1, 5));
    assert(and_rest_s(t, nums, e1, 5) == Parsed::Done(e1, 5));
    assert(and_s(t, nums, 0) == Parsed::Done(e1, 5));
    assert(or_rest_s(t, nums, e1, 5) == Parsed::Done(e1, 5));
}

proof fn lemma_precedence_case1(x: Seq<char>, y: Seq<char>, z: Seq<char>, nums: Map<Seq<char>, u64>)
    requires
        column_name(x, nums),
        column_name(y, nums),
        column_name(z, nums),
    ensures
        expr_s(seq![x, "*"@, y, "+"@, z], nums, 0) == Parsed::Done(
            bin("+"@, bin("*"@, SqlExprView::Column(x), SqlExprView::Column(y)), SqlExprView::Column(z)),
            5,
        ),
{
    lemma_operator_texts();
    let (cx, cy, cz) = (SqlExprView::Column(x), SqlExprView::Column(y), SqlExprView::Column(z));
    let t = seq![x, "*"@, y, "+"@, z];
    lemma_column_primary(t, nums, 0);
    lemma_column_primary(t, nums, 2);
    lemma_column_primary(t, nums, 4);
    let m = bin("*"@, cx, cy);
    assert(product_rest_s(t, nums, m, 3) == Parsed::Done(m, 3));
    assert(product_rest_s(t, nums, cx, 1) == Parsed::Done(m, 3));
    assert(product_s(t, nums, 0) == Parsed::Done(m, 3));
    assert(product_rest_s(t, nums, cz, 5) == Parsed::Done(cz, 5));
    assert(product_s(t, nums, 4) == Parsed::Done(cz, 5));
    let e2 = bin("+"@, m, cz);
    assert(sum_rest_s(t, nums, e2, 5) == Parsed::Done(e2, 5));
    assert(sum_rest_s(t, nums, m, 3) == Parsed::Done(e2, 5));
    assert(sum_s(t, nums, 0) == Parsed::Done(e2, 5));
    assert(comparison_s(t, nums, 0) == Parsed::Done(e2, 5));
    assert(and_rest_s(t, nums, e2, 5) == Parsed::Done(e2, 5));
    assert(and_s(t, nums, 0) == Parsed::Done(e2, 5));
    assert(or_rest_s(t, nums, e2, 5) == Parsed::Done(e2, 5));
}

proof fn lemma_precedence_case2(x: Seq<char>, y: Seq<char>, z: Seq<char>, nums: Map<Seq<char>, u64>)
    requires
        column_name(x, nums),
        column_name(y, nums),
        column_name(z, nums),
    ensures
        expr_s(seq![x, "-"@, y, "-"@, z], nums, 0) == Parsed::Done(
            bin("-"@, bin("-"@, SqlExprView::Column(x), SqlExprView::Column(y)), SqlExprView::Column(z)),
            5,
        ),
{
    lemma_operator_texts();
    let (cx, cy, cz) = (SqlExprView::Column(x), SqlExprView::Column(y), SqlExprView::Column(z));
    let t = seq![x, "-"@, y, "-"@, z];
    lemma_column_primary(t, nums, 0);
    lemma_column_primary(t, nums, 2);
    lemma_column_primary(t, nums, 4);
    assert(product_rest_s(t, nums, cx, 1) == Parsed::Done(cx, 1));
    assert(product_s(t, nums, 0) == Parsed::Done(cx, 1));
    assert(product_rest_s(t, nums, cy, 3) == Parsed::Done(cy, 3));
    assert(product_s(t, nums, 2) == Parsed::Done(cy, 3));
    assert(product_rest_s(t, nums, cz, 5) == Parsed::Done(cz, 5));
    assert(product_s(t, nums, 4) == Parsed::Done(cz, 5));
    let d = bin("-"@, cx, cy);
    let e3 = bin("-"@, d, cz);
    assert(sum_rest_s(t, nums, e3, 5) == Parsed::Done(e3, 5));
    assert(sum_rest_s(t, nums, d, 3) == Parsed::Done(e3, 5));
    assert(sum_rest_s(t, nums, cx, 1) == Parsed::Done(e3, 5));
    assert(sum_s(t, nums, 0) == Parsed::Done(e3, 5));
    assert(comparison_s(t, nums, 0) == Parsed::Done(e3, 5));
    assert(and_rest_s(t, nums, e3, 5) == Parsed::Done(e3, 5));
    assert(and_s(t, nums, 0) == Parsed::Done(e3, 5));
    assert(or_rest_s(t, nums, e3, 5) == Parsed::Done(e3, 5));
}

proof fn lemma_precedence_case3(x: Seq<char>, y: Seq<char>, z: Seq<char>, nums: Map<Seq<char>, u64>)
    requires
        column_name(x, nums),
        column_name(y, nums),
        column_name(z, nums),
    ensures
        expr_s(seq![x, "+"@, y, "<="@, z], nums, 0) == Parsed::Done(
            bin("<="@, bin("+"@, SqlExprView::Column(x), SqlExprView::Column(y)), SqlExprView::Column(z)),
            5,
        ),
{
    lemma_operator_texts();
    let (cx, cy, cz) = (SqlExprView::Column(x), SqlExprView::Column(y), SqlExprView::Column(z));
    let t = seq![x, "+"@, y, "<="@, z];
    lemma_column_primary(t, nums, 0);
    lemma_column_primary(t, nums, 2);
    lemma_column_primary(t, nums, 4);
    assert(product_rest_s(t, nums, cx, 1) == Parsed::Done(cx, 1));
    assert(product_s(t, nums, 0) == Parsed::Done(cx, 1));
    assert(product_rest_s(t, nums, cy, 3) == Parsed::Done(cy, 3));
    assert(product_s(t, nums, 2) == Parsed::Done(cy, 3));
    let p = bin("+"@, cx, cy);
    assert(sum_rest_s(t, nums, p, 3) == Parsed::Done(p, 3));
    assert(sum_rest_s(t, nums, cx, 1) == Parsed::Done(p, 3));
    assert(sum_s(t, nums, 0) == Parsed::Done(p, 3));
    assert(product_rest_s(t, nums, cz, 5) == Parsed::Done(cz, 5));
    assert(product_s(t, nums, 4) == Parsed::Done(cz, 5));
    assert(sum_rest_s(t, nums, cz, 5) == Parsed::Done(cz, 5));
    assert(sum_s(t, nums, 4) == Parsed::Done(cz, 5));
    assert(comparison_at(t, 3));
    let e4 = bin("<="@, p, cz);
    assert(comparison_s(t, nums, 0) == Parsed::Done(e4, 5));
    assert(and_rest_s(t, nums, e4, 5) == Parsed::Done(e4, 5));
    assert(and_s(t, nums, 0) == Parsed::Done(e4, 5));
    assert(or_rest_s(t, nums, e4, 5) == Parsed::Done(e4, 5));
}

/// Operator precedence and grouping in SQL expressions, over any three column names `x`, `y`,
/// `z`: `*` binds tighter than `+` on either side (`x + y * z` is `x + (y * z)`, `x * y + z` is
/// `(x * y) + z`), `-` groups to the left (`x - y - z` is `(x - y) - z`), and a comparison takes
/// whole sums as its sides (`x + y <= z` is `(x + y) <= z`). Each reading uses all five tokens.
pub proof fn lemma_sql_precedence(x: Seq<char>, y: Seq<char>, z: Seq<char>, nums: Map<Seq<char>, u64>)
    requires
        column_name(x, nums),
        column_name(y, nums),
        column_name(z, nums),
    ensures
        expr_s(seq![x, "+"@, y, "*"@, z], nums, 0) == Parsed::Done(
            bin("+"@, SqlExprView::Column(x), bin("*"@, SqlExprView::Column(y), SqlExprView::Column(z))),
            5,
        ),
        expr_s(seq![x, "*"@, y, "+"@, z], nums, 0) == Parsed::Done(
            bin("+"@, bin("*"@, SqlExprView::Column(x), SqlExprView::Column(y)), SqlExprView::Column(z)),
            5,
        ),
        expr_s(seq![x, "-"@, y, "-"@, z], nums, 0) == Parsed::Done(
            bin("-"@, bin("-"@, SqlExprView::Column(x), SqlExprView::Column(y)), SqlExprView::Column(z)),
            5,
        ),
        expr_s(seq![x, "+"@, y, "<="@, z], nums, 0) == Parsed::Done(
            bin("<="@, bin("+"@, SqlExprView::Column(x), SqlExprView::Column(y)), SqlExprView::Column(z)),
            5,
        ),
{
    lemma_precedence_case0(x, y, z, nums);
    lemma_precedence_case1(x, y, z, nums);
    lemma_precedence_case2(x, y, z, nums);
    lemma_precedence_case3(x, y, z, nums);
}

} // verus!
