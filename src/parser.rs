//! Turns query text into the syntax tree of `ast`.
//!
//! The grammar, with case-insensitive keywords and white space between tokens:
//!
//! ```text
//! query      := MATCH part (',' part)* [WHERE or_expr] RETURN item (',' item)* [';']
//! part       := node (rel node)*
//! node       := '(' [ident] (':' ident)* ')'
//! rel        := ['<'] '-' ['[' [ident] [':' ident ('|' [':'] ident)*] [range] ']'] '-' ['>']
//! range      := '*' [digits] ['..' [digits]]
//! or_expr    := and_expr (OR and_expr)*
//! and_expr   := comparison (AND comparison)*
//! comparison := ident '(' ident ['.' ident] ')' | ref [op term]
//! op         := '=' | '<>' | '<' | '>' | '<=' | '>=' | CONTAINS
//! term       := string | integer | ref
//! ref        := ident ['.' ident]
//! item       := or_expr [AS ident]
//! ```
use vstd::prelude::*;

pub mod ast;

use crate::parser::ast::{
    AggregateExpression, AggregateFunction, Comparison, ComparisonOperator, Direction,
    Expression, Literal, MatchClause, NodePattern, PatternChain, PatternPart, PropertyOrVariable,
    Query, Range, RelationshipPattern, ReturnClause, ReturnItem, Term, WhereClause,
};
use crate::text::{char_eq_ignore_case, chars_of, is_digit, parse_i64};

verus! {

/// Why query text was rejected.
#[derive(Debug)]
pub enum ParseError {
    /// The text does not begin with `MATCH`.
    MissingMatch,
    /// The text ends before a `RETURN` clause.
    MissingReturn,
    /// An aggregate call names a function other than COUNT or SUM.
    UnknownAggregate(String),
    /// The text departs from the grammar at `position` (a character index);
    /// `fragment` is the text from there on.
    Syntax { position: usize, fragment: String },
}

impl ParseError {
    /// The text of the message: the missing clause, the unknown function's
    /// name, or the fragment where the grammar is departed from.
    pub open spec fn spec_message(&self) -> Seq<char> {
        match self {
            ParseError::MissingMatch => "Missing MATCH clause"@,
            ParseError::MissingReturn => "Missing RETURN clause"@,
            ParseError::UnknownAggregate(name) => "Unknown aggregate function: "@ + name@,
            ParseError::Syntax { fragment, .. } => "Syntax error at: "@ + fragment@,
        }
    }

    /// A one-line description of the error.
    pub fn message(&self) -> (r: String)
        ensures
            r@ == self.spec_message(),
    {
        match self {
            ParseError::MissingMatch => String::from_str("Missing MATCH clause"),
            ParseError::MissingReturn => String::from_str("Missing RETURN clause"),
            ParseError::UnknownAggregate(name) => String::from_str(
                "Unknown aggregate function: ",
            ).concat(name.as_str()),
            ParseError::Syntax { fragment, .. } => String::from_str("Syntax error at: ").concat(
                fragment.as_str(),
            ),
        }
    }
}

pub open spec fn is_letter(c: char) -> bool {
    ('a' <= c && c <= 'z') || ('A' <= c && c <= 'Z')
}

pub open spec fn is_ident_start(c: char) -> bool {
    is_letter(c) || c == '_'
}

pub open spec fn is_ident_char(c: char) -> bool {
    is_ident_start(c) || is_digit(c)
}

pub open spec fn is_ws(c: char) -> bool {
    c == ' ' || c == '\t' || c == '\n' || c == '\r'
}

/// A name: a letter or `_`, then letters, digits and `_`.
pub open spec fn is_ident(s: Seq<char>) -> bool {
    s.len() > 0 && is_ident_start(s[0]) && forall|i: int|
        0 <= i < s.len() ==> is_ident_char(#[trigger] s[i])
}

/// The first position at or after `pos` that is not white space.
pub open spec fn ws_end(s: Seq<char>, pos: int) -> int
    decreases s.len() - pos,
{
    if 0 <= pos < s.len() && is_ws(s[pos]) {
        ws_end(s, pos + 1)
    } else {
        pos
    }
}

/// The keyword `kw` (upper case) stands at `pos` as a whole word, in any case.
pub open spec fn keyword_at(s: Seq<char>, pos: int, kw: Seq<char>) -> bool {
    &&& 0 <= pos
    &&& pos + kw.len() <= s.len()
    &&& forall|i: int| 0 <= i < kw.len() ==> char_eq_ignore_case(#[trigger] s[pos + i], kw[i])
    &&& (pos + kw.len() == s.len() || !is_ident_char(s[pos + kw.len()]))
}

pub open spec fn match_keyword() -> Seq<char> {
    seq!['M', 'A', 'T', 'C', 'H']
}

/// `name` is `kw` (upper case) in any case.
pub open spec fn same_word(name: Seq<char>, kw: Seq<char>) -> bool {
    name.len() == kw.len() && forall|i: int|
        0 <= i < kw.len() ==> char_eq_ignore_case(#[trigger] name[i], kw[i])
}

pub open spec fn opt_ident(o: Option<String>) -> bool {
    o matches Some(s) ==> is_ident(s@)
}

pub open spec fn node_pattern_wf(np: NodePattern) -> bool {
    opt_ident(np.variable) && forall|j: int|
        0 <= j < np.labels@.len() ==> is_ident(#[trigger] np.labels@[j]@)
}

pub open spec fn rel_pattern_wf(rp: RelationshipPattern) -> bool {
    opt_ident(rp.variable) && opt_ident(rp.rel_type)
}

/// A chain starts with a node pattern; relationship links follow.
pub open spec fn chain_wf(chains: Seq<PatternChain>) -> bool {
    &&& chains.len() > 0
    &&& chains[0] matches PatternChain::Node(np) && node_pattern_wf(np)
    &&& forall|k: int|
        0 < k < chains.len() ==> (#[trigger] chains[k] matches PatternChain::Relationship(
            rp,
            np,
        ) && rel_pattern_wf(rp) && node_pattern_wf(np))
}

/// The shape that `parse_query` gives every query it accepts.
pub open spec fn query_wf(q: Query) -> bool {
    &&& q.match_clause.patterns@.len() > 0
    &&& forall|p: int|
        0 <= p < q.match_clause.patterns@.len() ==> chain_wf(
            #[trigger] q.match_clause.patterns@[p].chains@,
        )
    &&& q.return_clause.items@.len() > 0
}

/// An error describes the text: a syntax error carries the rest of the text
/// from where the grammar is departed from, and an unknown aggregate name is
/// the name of a call written in the text.
pub open spec fn error_in_text(s: Seq<char>, e: ParseError) -> bool {
    match e {
        ParseError::Syntax { position, fragment } => position <= s.len() && fragment@ == s.subrange(
            position as int,
            s.len() as int,
        ),
        ParseError::UnknownAggregate(name) => exists|a: int|
            #[trigger] name_text(s, a) == name@ && name_at(s, a) && char_at(
                s,
                ws_end(s, ident_stop(s, a)),
                '(',
            ),
        _ => true,
    }
}

/// An unknown aggregate name is a name other than COUNT and SUM.
pub open spec fn unknown_name_ok(e: ParseError) -> bool {
    e matches ParseError::UnknownAggregate(name) ==> is_ident(name@) && !same_word(
        name@,
        seq!['C', 'O', 'U', 'N', 'T'],
    ) && !same_word(name@, seq!['S', 'U', 'M'])
}


/// The end of the run of name characters from `i`.
pub open spec fn ident_stop(s: Seq<char>, i: int) -> int
    decreases s.len() - i,
{
    if 0 <= i < s.len() && is_ident_char(s[i]) {
        ident_stop(s, i + 1)
    } else {
        i
    }
}

/// A name starts at `a`.
pub open spec fn name_at(s: Seq<char>, a: int) -> bool {
    0 <= a < s.len() && is_ident_start(s[a])
}

/// The name that starts at `a`.
pub open spec fn name_text(s: Seq<char>, a: int) -> Seq<char> {
    s.subrange(a, ident_stop(s, a))
}

/// The end of the run of digits from `i`.
pub open spec fn digit_stop(s: Seq<char>, i: int) -> int
    decreases s.len() - i,
{
    if 0 <= i < s.len() && is_digit(s[i]) {
        digit_stop(s, i + 1)
    } else {
        i
    }
}

/// The first position at or after `i` that holds `c`, or the end.
pub open spec fn char_stop(s: Seq<char>, c: char, i: int) -> int
    decreases s.len() - i,
{
    if 0 <= i < s.len() && s[i] != c {
        char_stop(s, c, i + 1)
    } else {
        i
    }
}

/// `s[i]` is `c`.
pub open spec fn char_at(s: Seq<char>, i: int, c: char) -> bool {
    0 <= i < s.len() && s[i] == c
}

/// Where a reference `var[.prop]` that starts at `a` ends.
pub open spec fn ref_end(s: Seq<char>, a: int) -> int {
    let q = ws_end(s, ident_stop(s, a));
    if char_at(s, q, '.') {
        ident_stop(s, ws_end(s, q + 1))
    } else {
        ident_stop(s, a)
    }
}

/// `pv` is the reference `var[.prop]` written at `a`.
pub open spec fn ref_reads(s: Seq<char>, a: int, pv: PropertyOrVariable) -> bool {
    let q = ws_end(s, ident_stop(s, a));
    &&& name_at(s, a)
    &&& pv.variable@ == name_text(s, a)
    &&& if char_at(s, q, '.') {
        let t = ws_end(s, q + 1);
        name_at(s, t) && (pv.property matches Some(p) && p@ == name_text(s, t))
    } else {
        pv.property is None
    }
}

/// `t` is the term written from `a` to `b`: a quoted string, an integer or a reference.
pub open spec fn term_reads(s: Seq<char>, a: int, t: Term, b: int) -> bool {
    if char_at(s, a, '"') || char_at(s, a, '\'') {
        let close = char_stop(s, s[a], a + 1);
        close < s.len() && b == close + 1 && (t matches Term::Literal(Literal::String(x)) && x@
            == s.subrange(a + 1, close))
    } else if 0 <= a < s.len() && (is_digit(s[a]) || (s[a] == '-' && char_at(s, a + 1, s[a + 1])
        && is_digit(s[a + 1]))) {
        let e = digit_stop(s, a + 1);
        b == e && (t matches Term::Literal(Literal::Number(n)) && crate::text::i64_of_text(
            s.subrange(a, e),
        ) == Some(n))
    } else {
        t matches Term::PropertyOrVariable(pv) && ref_reads(s, a, pv) && b == ref_end(s, a)
    }
}

/// The comparison operator written at `a`, and where it ends.
pub open spec fn op_at(s: Seq<char>, a: int) -> Option<(ComparisonOperator, int)> {
    if !(0 <= a < s.len()) {
        None
    } else if s[a] == '<' && char_at(s, a + 1, '>') {
        Some((ComparisonOperator::NotEq, a + 2))
    } else if s[a] == '<' && char_at(s, a + 1, '=') {
        Some((ComparisonOperator::LtEq, a + 2))
    } else if s[a] == '>' && char_at(s, a + 1, '=') {
        Some((ComparisonOperator::GtEq, a + 2))
    } else if s[a] == '=' {
        Some((ComparisonOperator::Eq, a + 1))
    } else if s[a] == '<' {
        Some((ComparisonOperator::Lt, a + 1))
    } else if s[a] == '>' {
        Some((ComparisonOperator::Gt, a + 1))
    } else if keyword_at(s, a, seq!['C', 'O', 'N', 'T', 'A', 'I', 'N', 'S']) {
        Some((ComparisonOperator::Contains, a + 8))
    } else {
        None
    }
}

/// `e` is the aggregate call `FUNC(var[.prop])` written from `a` to `b`,
/// whose name ends at `ne` and whose `(` is at `open`.
pub open spec fn aggregate_reads(s: Seq<char>, a: int, ne: int, open: int, e: Expression, b: int) -> bool {
    let name = s.subrange(a, ne);
    let p = ws_end(s, open + 1);
    let q = ws_end(s, ident_stop(s, p));
    &&& e matches Expression::Aggregate(agg)
    &&& (if same_word(name, seq!['C', 'O', 'U', 'N', 'T']) {
        agg.func is Count
    } else {
        same_word(name, seq!['S', 'U', 'M']) && agg.func is Sum
    })
    &&& name_at(s, p)
    &&& agg.variable@ == name_text(s, p)
    &&& if char_at(s, q, '.') {
        let t = ws_end(s, q + 1);
        let q2 = ws_end(s, ident_stop(s, t));
        name_at(s, t) && char_at(s, q2, ')') && b == q2 + 1 && (agg.property matches Some(pr)
            && pr@ == name_text(s, t))
    } else {
        agg.property is None && char_at(s, q, ')') && b == q + 1
    }
}

/// `e` is the comparison (or aggregate call) written from `a` to `b`.
pub open spec fn comparison_reads(s: Seq<char>, a: int, e: Expression, b: int) -> bool {
    let ne = ident_stop(s, a);
    let open = ws_end(s, ne);
    let pe = ref_end(s, a);
    &&& name_at(s, a)
    &&& if char_at(s, open, '(') {
        aggregate_reads(s, a, ne, open, e, b)
    } else {
        e matches Expression::Comparison(c) && ref_reads(s, a, c.left) && match op_at(
            s,
            ws_end(s, pe),
        ) {
            Some((op, oe)) => c.operator == Some(op) && (c.right matches Some(t) && term_reads(
                s,
                ws_end(s, oe),
                t,
                b,
            )),
            None => c.operator is None && c.right is None && b == pe,
        }
    }
}


/// Comparisons `ps` written from `a`, joined by AND; `ends[k]` is where `ps[k]` ends.
pub open spec fn and_list(s: Seq<char>, a: int, ps: Seq<Expression>, ends: Seq<int>) -> bool {
    &&& ps.len() >= 1
    &&& ends.len() == ps.len()
    &&& comparison_reads(s, a, ps[0], ends[0])
    &&& forall|k: int| 1 <= k < ps.len() ==> #[trigger] and_link(s, ps, ends, k)
}

/// Part `k` of an AND-list follows the keyword AND after part `k - 1`.
pub open spec fn and_link(s: Seq<char>, ps: Seq<Expression>, ends: Seq<int>, k: int) -> bool {
    keyword_at(s, ws_end(s, ends[k - 1]), seq!['A', 'N', 'D']) && comparison_reads(
        s,
        ws_end(s, ws_end(s, ends[k - 1]) + 3),
        ps[k],
        ends[k],
    )
}

/// One part stands alone; several make an `And` (or an `Or`).
pub open spec fn joined(ps: Seq<Expression>, e: Expression, and: bool) -> bool {
    if ps.len() == 1 {
        e == ps[0]
    } else if and {
        e matches Expression::And(v) && v@ == ps
    } else {
        e matches Expression::Or(v) && v@ == ps
    }
}

/// `e` is the AND-expression written from `a` to `b`.
pub open spec fn and_reads(s: Seq<char>, a: int, e: Expression, b: int) -> bool {
    exists|ps: Seq<Expression>, ends: Seq<int>|
        #[trigger] and_list(s, a, ps, ends) && ends.last() == b && !keyword_at(
            s,
            ws_end(s, b),
            seq!['A', 'N', 'D'],
        ) && joined(ps, e, true)
}

/// AND-expressions `ps` written from `a`, joined by OR; `ends[k]` is where `ps[k]` ends.
pub open spec fn or_list(s: Seq<char>, a: int, ps: Seq<Expression>, ends: Seq<int>) -> bool {
    &&& ps.len() >= 1
    &&& ends.len() == ps.len()
    &&& and_reads(s, a, ps[0], ends[0])
    &&& forall|k: int| 1 <= k < ps.len() ==> #[trigger] or_link(s, ps, ends, k)
}

/// Part `k` of an OR-list follows the keyword OR after part `k - 1`.
pub open spec fn or_link(s: Seq<char>, ps: Seq<Expression>, ends: Seq<int>, k: int) -> bool {
    keyword_at(s, ws_end(s, ends[k - 1]), seq!['O', 'R']) && and_reads(
        s,
        ws_end(s, ws_end(s, ends[k - 1]) + 2),
        ps[k],
        ends[k],
    )
}

/// `e` is the expression written from `a` to `b`.
pub open spec fn expr_reads(s: Seq<char>, a: int, e: Expression, b: int) -> bool {
    exists|ps: Seq<Expression>, ends: Seq<int>|
        #[trigger] or_list(s, a, ps, ends) && ends.last() == b && !keyword_at(
            s,
            ws_end(s, b),
            seq!['O', 'R'],
        ) && joined(ps, e, false)
}

/// `item` is the RETURN item `expression [AS alias]` written from `a` to `b`.
pub open spec fn item_reads(s: Seq<char>, a: int, item: ReturnItem, b: int) -> bool {
    exists|m: int|
        #[trigger] expr_reads(s, a, item.expression, m) && {
            let q = ws_end(s, m);
            if keyword_at(s, q, seq!['A', 'S']) {
                let t = ws_end(s, q + 2);
                name_at(s, t) && b == ident_stop(s, t) && (item.alias matches Some(x) && x@
                    == name_text(s, t))
            } else {
                item.alias is None && b == m
            }
        }
}


/// Where the optional variable of a node pattern that opens at `a` ends.
pub open spec fn node_var_end(s: Seq<char>, a: int) -> int {
    let var_start = ws_end(s, a + 1);
    if name_at(s, var_start) {
        ws_end(s, ident_stop(s, var_start))
    } else {
        var_start
    }
}

/// `v` is the optional variable of the node pattern that opens at `a`.
pub open spec fn node_var_reads(s: Seq<char>, a: int, v: Option<String>) -> bool {
    let var_start = ws_end(s, a + 1);
    if name_at(s, var_start) {
        v matches Some(x) && x@ == name_text(s, var_start)
    } else {
        v is None
    }
}

/// Label `k` is `:name`, written after `start` (the first) or after label `k - 1`.
pub open spec fn label_link(s: Seq<char>, start: int, ls: Seq<String>, ends: Seq<int>, k: int) -> bool {
    let prev = if k == 0 {
        start
    } else {
        ends[k - 1]
    };
    let q = ws_end(s, prev + 1);
    char_at(s, prev, ':') && name_at(s, q) && ls[k]@ == name_text(s, q) && ends[k] == ws_end(
        s,
        ident_stop(s, q),
    )
}

/// The labels `ls` are written from `start`; label `k` ends at `ends[k]`.
pub open spec fn labels_read(s: Seq<char>, start: int, ls: Seq<String>, ends: Seq<int>) -> bool {
    ends.len() == ls.len() && forall|k: int| 0 <= k < ls.len() ==> #[trigger] label_link(s, start, ls, ends, k)
}

/// `np` is the node pattern `(var:L1:L2)` written from `a` to `b`.
pub open spec fn node_reads(s: Seq<char>, a: int, np: NodePattern, b: int) -> bool {
    &&& char_at(s, a, '(')
    &&& node_var_reads(s, a, np.variable)
    &&& exists|ends: Seq<int>|
        #[trigger] labels_read(s, node_var_end(s, a), np.labels@, ends) && {
            let last = if ends.len() == 0 {
                node_var_end(s, a)
            } else {
                ends.last()
            };
            char_at(s, last, ')') && b == last + 1
        }
}

/// Alternative `k` of a relationship type is `|[:]name`, after `start` or alternative `k - 1`.
pub open spec fn alt_link(s: Seq<char>, start: int, ends: Seq<int>, k: int) -> bool {
    let prev = if k == 0 {
        start
    } else {
        ends[k - 1]
    };
    let q = ws_end(s, prev + 1);
    let q2 = if char_at(s, q, ':') {
        ws_end(s, q + 1)
    } else {
        q
    };
    char_at(s, prev, '|') && name_at(s, q2) && ends[k] == ws_end(s, ident_stop(s, q2))
}

/// The alternatives `ends` follow one another from `start`.
pub open spec fn alt_chain(s: Seq<char>, start: int, ends: Seq<int>) -> bool {
    forall|k: int| 0 <= k < ends.len() ==> #[trigger] alt_link(s, start, ends, k)
}

/// After the first type, alternatives run from `start` to `e`.
pub open spec fn alts_read(s: Seq<char>, start: int, e: int) -> bool {
    exists|ends: Seq<int>|
        #[trigger] alt_chain(s, start, ends) && e == (if ends.len() == 0 {
            start
        } else {
            ends.last()
        }) && !char_at(s, e, '|')
}

/// The value of the digits `s[a..b]` as a range bound: none where there
/// are no digits or their number does not fit in `usize`.
pub open spec fn bound_value(s: Seq<char>, a: int, b: int) -> Option<usize> {
    let v = crate::text::digits_value(s.subrange(a, b));
    if b > a && v <= usize::MAX {
        Some(v as usize)
    } else {
        None
    }
}

/// A range quantifier `*[n][..[m]]` written from `a` to `e`; a bound is
/// absent where its digits are.
pub open spec fn range_reads(s: Seq<char>, a: int, rg: Range, e: int) -> bool {
    let p = ws_end(s, a + 1);
    let ds = digit_stop(s, p);
    let q = ws_end(s, ds);
    &&& rg.start == bound_value(s, p, ds)
    &&& if char_at(s, q, '.') && char_at(s, q + 1, '.') {
        let e2 = ws_end(s, q + 2);
        let de = digit_stop(s, e2);
        e == de && rg.end == bound_value(s, e2, de)
    } else {
        e == ds && rg.end == rg.start
    }
}

/// Where the type of a relationship detail ends, its first name at `type_start`.
pub open spec fn type_end(s: Seq<char>, type_start: int) -> int {
    if char_at(s, type_start, ':') {
        ws_end(s, ident_stop(s, ws_end(s, type_start + 1)))
    } else {
        type_start
    }
}

/// The optional range from `range_start`, up to `close_pos`.
pub open spec fn range_part(s: Seq<char>, range_start: int, range: Option<Range>, close_pos: int) -> bool {
    if char_at(s, range_start, '*') {
        exists|re: int|
            #[trigger] range_reads(s, range_start, range->Some_0, re) && range is Some && close_pos == ws_end(s, re)
    } else {
        range is None && close_pos == range_start
    }
}

/// Where the type of the detail opening at `p` would start: after `[` and
/// the optional variable.
pub open spec fn detail_type_start(s: Seq<char>, p: int) -> int {
    let detail_var = ws_end(s, p + 1);
    if name_at(s, detail_var) {
        ws_end(s, ident_stop(s, detail_var))
    } else {
        detail_var
    }
}

/// The bracketed detail `[var:TYPE|ALT*range]` opening at `p` and closing at `c`.
pub open spec fn detail_reads(
    s: Seq<char>,
    p: int,
    variable: Option<String>,
    rel_type: Option<String>,
    range: Option<Range>,
    c: int,
) -> bool {
    let detail_var = ws_end(s, p + 1);
    let type_start = detail_type_start(s, p);
    &&& (if name_at(s, detail_var) {
        variable matches Some(x) && x@ == name_text(s, detail_var)
    } else {
        variable is None
    })
    &&& (if char_at(s, type_start, ':') {
        let q = ws_end(s, type_start + 1);
        name_at(s, q) && (rel_type matches Some(t) && t@ == name_text(s, q))
    } else {
        rel_type is None
    })
    &&& exists|range_start: int|
        #[trigger] range_part(s, range_start, range, c) && char_at(s, c, ']') && (if char_at(
            s,
            type_start,
            ':',
        ) {
            alts_read(s, type_end(s, type_start), range_start)
        } else {
            range_start == type_start
        })
}

/// The closing `-` or `->` at `next`, ending at `b`, and the direction.
pub open spec fn rel_tail(s: Seq<char>, next: int, left: bool, rp: RelationshipPattern, b: int) -> bool {
    let right = char_at(s, next + 1, '>');
    char_at(s, next, '-') && b == (if right {
        next + 2
    } else {
        next + 1
    }) && rp.direction == (if left {
        Direction::Left
    } else if right {
        Direction::Right
    } else {
        Direction::Both
    })
}

/// Where the optional detail of a relationship pattern at `a` would open:
/// after `<` (if any), `-` and white space.
pub open spec fn rel_detail_start(s: Seq<char>, a: int) -> int {
    let d = if char_at(s, a, '<') {
        a + 1
    } else {
        a
    };
    ws_end(s, d + 1)
}

/// `rp` is the relationship pattern written from `a` to `b`.
pub open spec fn rel_reads(s: Seq<char>, a: int, rp: RelationshipPattern, b: int) -> bool {
    let left = char_at(s, a, '<');
    let d = if left {
        a + 1
    } else {
        a
    };
    let p = rel_detail_start(s, a);
    &&& char_at(s, d, '-')
    &&& if char_at(s, p, '[') {
        exists|cl: int|
            #[trigger] detail_reads(s, p, rp.variable, rp.rel_type, rp.range, cl) && rel_tail(
                s,
                ws_end(s, cl + 1),
                left,
                rp,
                b,
            )
    } else {
        rp.variable is None && rp.rel_type is None && rp.range is None && rel_tail(s, p, left, rp, b)
    }
}

/// Link `k` (`k >= 1`) of a chain: a relationship and a node pattern after link `k - 1`.
pub open spec fn chain_link(s: Seq<char>, cs: Seq<PatternChain>, ends: Seq<int>, k: int) -> bool {
    let q = ws_end(s, ends[k - 1]);
    (char_at(s, q, '<') || char_at(s, q, '-')) && exists|re: int|
        #![trigger rel_reads(s, q, cs[k]->Relationship_0, re)]
        cs[k] is Relationship && rel_reads(s, q, cs[k]->Relationship_0, re) && node_reads(
            s,
            ws_end(s, re),
            cs[k]->Relationship_1,
            ends[k],
        )
}

/// The links of a chain end at `ends`, its node pattern first.
pub open spec fn chain_ends(s: Seq<char>, a: int, cs: Seq<PatternChain>, ends: Seq<int>) -> bool {
    &&& ends.len() == cs.len()
    &&& cs.len() >= 1
    &&& cs[0] matches PatternChain::Node(np) && node_reads(s, a, np, ends[0])
    &&& forall|k: int| 1 <= k < cs.len() ==> #[trigger] chain_link(s, cs, ends, k)
}

/// `part` is the path pattern written from `a` to `b`.
pub open spec fn part_reads(s: Seq<char>, a: int, part: PatternPart, b: int) -> bool {
    exists|ends: Seq<int>|
        #[trigger] chain_ends(s, a, part.chains@, ends) && b == ends.last() && {
            let q = ws_end(s, b);
            !(char_at(s, q, '<') || char_at(s, q, '-'))
        }
}

/// Part `k` (`k >= 1`) of the MATCH list follows a comma after part `k - 1`.
pub open spec fn pattern_link(s: Seq<char>, ps: Seq<PatternPart>, ends: Seq<int>, k: int) -> bool {
    let q = ws_end(s, ends[k - 1]);
    char_at(s, q, ',') && part_reads(s, ws_end(s, q + 1), ps[k], ends[k])
}

/// The comma-separated pattern parts `ps` written from `a`; part `k` ends at `ends[k]`.
pub open spec fn patterns_read(s: Seq<char>, a: int, ps: Seq<PatternPart>, ends: Seq<int>) -> bool {
    &&& ends.len() == ps.len()
    &&& ps.len() >= 1
    &&& part_reads(s, a, ps[0], ends[0])
    &&& forall|k: int| 1 <= k < ps.len() ==> #[trigger] pattern_link(s, ps, ends, k)
    &&& !char_at(s, ws_end(s, ends.last()), ',')
}

/// Item `k` (`k >= 1`) of the RETURN list follows a comma after item `k - 1`.
pub open spec fn item_link(s: Seq<char>, items: Seq<ReturnItem>, ends: Seq<int>, k: int) -> bool {
    let q = ws_end(s, ends[k - 1]);
    char_at(s, q, ',') && item_reads(s, ws_end(s, q + 1), items[k], ends[k])
}

/// The comma-separated RETURN items written from `a`; item `k` ends at `ends[k]`.
pub open spec fn items_read(s: Seq<char>, a: int, items: Seq<ReturnItem>, ends: Seq<int>) -> bool {
    &&& ends.len() == items.len()
    &&& items.len() >= 1
    &&& item_reads(s, a, items[0], ends[0])
    &&& forall|k: int| 1 <= k < items.len() ==> #[trigger] item_link(s, items, ends, k)
    &&& !char_at(s, ws_end(s, ends.last()), ',')
}

/// The optional `WHERE expression` at `w`; what follows starts at `r`.
pub open spec fn where_reads(s: Seq<char>, w: int, wc: Option<WhereClause>, r: int) -> bool {
    if keyword_at(s, w, seq!['W', 'H', 'E', 'R', 'E']) {
        wc matches Some(c) && exists|m: int|
            #[trigger] expr_reads(s, ws_end(s, w + 5), c.expression, m) && r == ws_end(s, m)
    } else {
        wc is None && r == w
    }
}

/// The text ends at `e`, after white space and an optional `;`.
pub open spec fn ends_query(s: Seq<char>, e: int) -> bool {
    let z = ws_end(s, e);
    (if char_at(s, z, ';') {
        ws_end(s, z + 1)
    } else {
        z
    }) == s.len()
}

/// `q` is the query that the text `s` reads as.
pub open spec fn query_reads(s: Seq<char>, q: Query) -> bool {
    let st = ws_end(s, 0);
    &&& keyword_at(s, st, match_keyword())
    &&& exists|pe: Seq<int>|
        #[trigger] patterns_read(s, ws_end(s, st + 5), q.match_clause.patterns@, pe) && exists|
            r: int,
        |
            #[trigger] where_reads(s, ws_end(s, pe.last()), q.where_clause, r) && keyword_at(
                s,
                r,
                seq!['R', 'E', 'T', 'U', 'R', 'N'],
            ) && exists|ie: Seq<int>|
                #[trigger] items_read(s, ws_end(s, r + 6), q.return_clause.items@, ie) && ends_query(
                    s,
                    ie.last(),
                )
}

/// The first position at or after `pos` that is not white space.
fn skip_ws(cs: &Vec<char>, pos: usize) -> (r: usize)
    requires
        pos <= cs@.len(),
    ensures
        r == ws_end(cs@, pos as int),
        pos <= r <= cs@.len(),
{
    let mut i = pos;
    while i < cs.len() && (cs[i] == ' ' || cs[i] == '\t' || cs[i] == '\n' || cs[i] == '\r')
        invariant
            pos <= i <= cs@.len(),
            ws_end(cs@, pos as int) == ws_end(cs@, i as int),
        decreases cs.len() - i,
    {
        i = i + 1;
    }
    i
}

fn ident_char(c: char) -> (r: bool)
    ensures
        r == is_ident_char(c),
{
    ('a' <= c && c <= 'z') || ('A' <= c && c <= 'Z') || c == '_' || ('0' <= c && c <= '9')
}

fn ident_start(c: char) -> (r: bool)
    ensures
        r == is_ident_start(c),
{
    ('a' <= c && c <= 'z') || ('A' <= c && c <= 'Z') || c == '_'
}

/// Whether the upper-case keyword `kw` stands at `pos` as a whole word.
fn at_keyword(cs: &Vec<char>, pos: usize, kw: &str) -> (r: bool)
    requires
        pos <= cs@.len(),
    ensures
        r == keyword_at(cs@, pos as int, kw@),
{
    let k = chars_of(kw);
    if k.len() > cs.len() - pos {
        return false;
    }
    let n = cs.len();
    let mut i: usize = 0;
    while i < k.len()
        invariant
            k@ == kw@,
            n == cs@.len(),
            pos + k@.len() <= cs@.len(),
            i <= k@.len(),
            forall|j: int| 0 <= j < i ==> char_eq_ignore_case(#[trigger] cs@[pos + j], k@[j]),
        decreases k.len() - i,
    {
        let c = cs[pos + i];
        let kc = k[i];
        if !(c == kc || ('A' <= kc && kc <= 'Z' && c as u32 == kc as u32 + 32)) {
            return false;
        }
        i = i + 1;
    }
    pos + k.len() == cs.len() || !ident_char(cs[pos + k.len()])
}

/// Whether the characters `cs[a..b]` spell the upper-case word `kw` in any case.
fn word_is(cs: &Vec<char>, a: usize, b: usize, kw: &str) -> (r: bool)
    requires
        a <= b <= cs@.len(),
    ensures
        r == same_word(cs@.subrange(a as int, b as int), kw@),
{
    let k = chars_of(kw);
    if b - a != k.len() {
        return false;
    }
    let ghost w = cs@.subrange(a as int, b as int);
    let mut i: usize = 0;
    while i < k.len()
        invariant
            k@ == kw@,
            w == cs@.subrange(a as int, b as int),
            a <= b <= cs@.len(),
            b - a == k@.len(),
            i <= k@.len(),
            forall|j: int| 0 <= j < i ==> char_eq_ignore_case(#[trigger] w[j], k@[j]),
        decreases k.len() - i,
    {
        let c = cs[a + i];
        let kc = k[i];
        proof {
            assert(w[i as int] == c);
        }
        if !(c == kc || ('A' <= kc && kc <= 'Z' && c as u32 == kc as u32 + 32)) {
            return false;
        }
        i = i + 1;
    }
    true
}

/// The end of the run of name characters that starts at `pos`.
fn ident_end(cs: &Vec<char>, pos: usize) -> (r: usize)
    requires
        pos <= cs@.len(),
    ensures
        pos <= r <= cs@.len(),
        forall|i: int| pos <= i < r ==> is_ident_char(#[trigger] cs@[i]),
        r == cs@.len() || !is_ident_char(cs@[r as int]),
        r == ident_stop(cs@, pos as int),
{
    let mut i = pos;
    while i < cs.len() && ident_char(cs[i])
        invariant
            pos <= i <= cs@.len(),
            ident_stop(cs@, pos as int) == ident_stop(cs@, i as int),
            forall|j: int| pos <= j < i ==> is_ident_char(#[trigger] cs@[j]),
        decreases cs.len() - i,
    {
        i = i + 1;
    }
    i
}

/// The text between two character positions.
fn take(text: &str, a: usize, b: usize) -> (r: String)
    requires
        a <= b <= text@.len(),
    ensures
        r@ == text@.subrange(a as int, b as int),
{
    text.substring_char(a, b).to_owned()
}

/// A syntax error at `pos`, with the rest of the text.
fn syntax_error(text: &str, pos: usize) -> (r: ParseError)
    requires
        pos <= text@.len(),
    ensures
        r matches ParseError::Syntax { position, fragment } && position == pos && fragment@
            == text@.subrange(pos as int, text@.len() as int),
{
    let n = text.unicode_len();
    ParseError::Syntax { position: pos, fragment: take(text, pos, n) }
}

/// A name at `pos`.
fn parse_identifier(text: &str, cs: &Vec<char>, pos: usize) -> (r: Result<(String, usize), ParseError>)
    requires
        cs@ == text@,
        pos <= cs@.len(),
    ensures
        r matches Ok((s, p)) ==> pos < p <= cs@.len() && s@ == cs@.subrange(pos as int, p as int)
            && is_ident(s@),
        r matches Ok((s, p)) ==> p == cs@.len() || !is_ident_char(cs@[p as int]),
        r matches Ok((s, p)) ==> name_at(cs@, pos as int) && p == ident_stop(cs@, pos as int)
            && s@ == name_text(cs@, pos as int),
        r is Err ==> !name_at(cs@, pos as int),
        r matches Err(e) ==> e is Syntax && error_in_text(cs@, e),
{
    if pos < cs.len() && ident_start(cs[pos]) {
        let end = ident_end(cs, pos);
        let s = take(text, pos, end);
        proof {
            assert forall|i: int| 0 <= i < s@.len() implies is_ident_char(#[trigger] s@[i]) by {
                assert(s@[i] == cs@[pos + i]);
            }
        }
        Ok((s, end))
    } else {
        Err(syntax_error(text, pos))
    }
}

/// A run of decimal digits at `pos` and its value, `None` when it does not fit in `usize`.
fn parse_digits(cs: &Vec<char>, pos: usize) -> (r: (Option<usize>, usize))
    requires
        pos <= cs@.len(),
    ensures
        pos <= r.1 <= cs@.len(),
        forall|i: int| pos <= i < r.1 ==> is_digit(#[trigger] cs@[i]),
        r.1 == digit_stop(cs@, pos as int),
        r.1 > pos ==> r.0 == bound_value(cs@, pos as int, r.1 as int),
{
    let mut i = pos;
    let mut value: Option<usize> = Some(0);
    proof {
        assert(cs@.subrange(pos as int, pos as int) =~= Seq::<char>::empty());
    }
    while i < cs.len() && '0' <= cs[i] && cs[i] <= '9'
        invariant
            pos <= i <= cs@.len(),
            digit_stop(cs@, pos as int) == digit_stop(cs@, i as int),
            forall|j: int| pos <= j < i ==> is_digit(#[trigger] cs@[j]),
            value == (if crate::text::digits_value(cs@.subrange(pos as int, i as int)) <= usize::MAX {
                Some(crate::text::digits_value(cs@.subrange(pos as int, i as int)) as usize)
            } else {
                None::<usize>
            }),
        decreases cs.len() - i,
    {
        let d = (cs[i] as u32 - '0' as u32) as usize;
        let ghost pre = cs@.subrange(pos as int, i as int);
        let ghost dv = crate::text::digits_value(pre);
        proof {
            assert(cs@.subrange(pos as int, i + 1).drop_last() == pre);
            assert(cs@.subrange(pos as int, i + 1).last() == cs@[i as int]);
            assert(crate::text::digits_value(cs@.subrange(pos as int, i + 1)) == dv * 10 + d);
            assert(d < 10);
        }
        value = match value {
            Some(v) => if v <= (usize::MAX - d) / 10 {
                proof {
                    assert(v * 10 + d <= usize::MAX) by (nonlinear_arith)
                        requires
                            v <= (usize::MAX - d) / 10,
                            d < 10,
                    ;
                }
                Some(v * 10 + d)
            } else {
                proof {
                    assert(v * 10 + d > usize::MAX) by (nonlinear_arith)
                        requires
                            v > (usize::MAX - d) / 10,
                            d < 10,
                    ;
                }
                None
            },
            None => {
                proof {
                    assert(dv * 10 + d > usize::MAX) by (nonlinear_arith)
                        requires
                            dv > usize::MAX,
                    ;
                }
                None
            },
        };
        i = i + 1;
    }
    (value, i)
}

/// `(var:Label1:Label2)`.
fn parse_node_pattern(text: &str, cs: &Vec<char>, pos: usize) -> (r: Result<(NodePattern, usize), ParseError>)
    requires
        cs@ == text@,
        pos <= cs@.len(),
    ensures
        r matches Ok((np, p)) ==> pos < p <= cs@.len() && node_pattern_wf(np),
        r matches Ok((np, p)) ==> node_reads(cs@, pos as int, np, p as int),
        forall|np2: NodePattern, b2: int|
            #[trigger] node_reads(cs@, pos as int, np2, b2) ==> (r matches Ok((np, p)) && p as int == b2),
        r matches Err(e) ==> e is Syntax && error_in_text(cs@, e),
{
    if !(pos < cs.len() && cs[pos] == '(') {
        return Err(syntax_error(text, pos));
    }
    let mut p = skip_ws(cs, pos + 1);
    let mut variable: Option<String> = None;
    if p < cs.len() && ident_start(cs[p]) {
        let (v, end) = parse_identifier(text, cs, p)?;
        variable = Some(v);
        p = skip_ws(cs, end);
    }
    let ghost start = p as int;
    proof {
        assert(start == node_var_end(cs@, pos as int));
        assert(node_var_reads(cs@, pos as int, variable));
    }
    let mut labels: Vec<String> = Vec::new();
    let ghost mut ends: Seq<int> = Seq::empty();
    while p < cs.len() && cs[p] == ':'
        invariant
            cs@ == text@,
            pos < p <= cs@.len(),
            start == node_var_end(cs@, pos as int),
            opt_ident(variable),
            forall|j: int| 0 <= j < labels@.len() ==> is_ident(#[trigger] labels@[j]@),
            labels_read(cs@, start, labels@, ends),
            p as int == (if ends.len() == 0 {
                start
            } else {
                ends.last()
            }),
            forall|ls2: Seq<String>, ends2: Seq<int>|
                #[trigger] labels_read(cs@, start, ls2, ends2) && char_at(
                    cs@,
                    if ends2.len() == 0 {
                        start
                    } else {
                        ends2.last()
                    },
                    ')',
                ) ==> labels@.len() <= ls2.len() && p as int == (if labels@.len() == 0 {
                    start
                } else {
                    ends2[labels@.len() - 1]
                }),
        decreases cs.len() - p,
    {
        let q = skip_ws(cs, p + 1);
        let (label, end) = match parse_identifier(text, cs, q) {
            Ok(x) => x,
            Err(err) => {
                proof {
                    assert forall|np2: NodePattern, b2: int| node_reads(cs@, pos as int, np2, b2) implies false by {
                        let ends2 = choose|ends2: Seq<int>|
                            #[trigger] labels_read(cs@, node_var_end(cs@, pos as int), np2.labels@, ends2) && {
                                let last = if ends2.len() == 0 {
                                    node_var_end(cs@, pos as int)
                                } else {
                                    ends2.last()
                                };
                                char_at(cs@, last, ')') && b2 == last + 1
                            };
                        if labels@.len() < np2.labels@.len() {
                            assert(label_link(cs@, start, np2.labels@, ends2, labels@.len() as int));
                        }
                    }
                }
                return Err(err);
            },
        };
        let ghost before = labels@;
        let ghost old_ends = ends;
        let ghost old_p = p as int;
        labels.push(label);
        p = skip_ws(cs, end);
        proof {
            ends = old_ends.push(p as int);
            assert forall|k: int| 0 <= k < labels@.len() implies #[trigger] label_link(cs@, start, labels@, ends, k) by {
                if k < before.len() {
                    assert(labels@[k] == before[k]);
                    assert(ends[k] == old_ends[k]);
                    if k > 0 {
                        assert(ends[k - 1] == old_ends[k - 1]);
                    }
                    assert(label_link(cs@, start, before, old_ends, k));
                } else {
                    assert(labels@[k] == label);
                }
            }
            assert forall|ls2: Seq<String>, ends2: Seq<int>|
                #[trigger] labels_read(cs@, start, ls2, ends2) && char_at(
                    cs@,
                    if ends2.len() == 0 {
                        start
                    } else {
                        ends2.last()
                    },
                    ')',
                ) implies labels@.len() <= ls2.len() && p as int == ends2[labels@.len() - 1] by {
                assert(before.len() < ls2.len());
                assert(label_link(cs@, start, ls2, ends2, before.len() as int));
            }
        }
    }
    proof {
        assert forall|ls2: Seq<String>, ends2: Seq<int>|
            #[trigger] labels_read(cs@, start, ls2, ends2) && char_at(
                cs@,
                if ends2.len() == 0 {
                    start
                } else {
                    ends2.last()
                },
                ')',
            ) implies labels@.len() == ls2.len() by {
            if labels@.len() < ls2.len() {
                assert(label_link(cs@, start, ls2, ends2, labels@.len() as int));
            }
        }
    }
    if p < cs.len() && cs[p] == ')' {
        let np = NodePattern { variable, labels };
        proof {
            assert(labels_read(cs@, node_var_end(cs@, pos as int), np.labels@, ends));
            assert forall|np2: NodePattern, b2: int| #[trigger] node_reads(cs@, pos as int, np2, b2) implies p
                + 1 == b2 by {
                let ends2 = choose|ends2: Seq<int>|
                    #[trigger] labels_read(cs@, node_var_end(cs@, pos as int), np2.labels@, ends2) && {
                        let last = if ends2.len() == 0 {
                            node_var_end(cs@, pos as int)
                        } else {
                            ends2.last()
                        };
                        char_at(cs@, last, ')') && b2 == last + 1
                    };
            }
        }
        Ok((np, p + 1))
    } else {
        proof {
            assert forall|np2: NodePattern, b2: int| node_reads(cs@, pos as int, np2, b2) implies false by {
                let ends2 = choose|ends2: Seq<int>|
                    #[trigger] labels_read(cs@, node_var_end(cs@, pos as int), np2.labels@, ends2) && {
                        let last = if ends2.len() == 0 {
                            node_var_end(cs@, pos as int)
                        } else {
                            ends2.last()
                        };
                        char_at(cs@, last, ')') && b2 == last + 1
                    };
            }
        }
        Err(syntax_error(text, p))
    }
}

/// `*`, `*N`, `*N..M`, `*N..`, `*..M` at `pos`.
fn parse_range(cs: &Vec<char>, pos: usize) -> (r: (Range, usize))
    requires
        pos < cs@.len(),
        cs@[pos as int] == '*',
    ensures
        pos < r.1 <= cs@.len(),
        range_reads(cs@, pos as int, r.0, r.1 as int),
        forall|rg2: Range, e2: int| #[trigger] range_reads(cs@, pos as int, rg2, e2) ==> r.1 as int == e2,
{
    let n = cs.len();
    let p = skip_ws(cs, pos + 1);
    let (start, after_start) = parse_digits(cs, p);
    let start = if after_start > p {
        start
    } else {
        None
    };
    let q = skip_ws(cs, after_start);
    if q < n && cs[q] == '.' && q + 1 < n && cs[q + 1] == '.' {
        let e = skip_ws(cs, q + 2);
        let (end, after_end) = parse_digits(cs, e);
        let end = if after_end > e {
            end
        } else {
            None
        };
        (Range { start, end }, after_end)
    } else {
        (Range { start, end: start }, after_start)
    }
}

/// The bracketed detail of a relationship pattern, `[` at `pos`: its
/// variable, type and range, and the position of `]`.
fn parse_rel_detail(text: &str, cs: &Vec<char>, pos: usize) -> (r: Result<
    (Option<String>, Option<String>, Option<Range>, usize),
    ParseError,
>)
    requires
        cs@ == text@,
        pos < cs@.len(),
        cs@[pos as int] == '[',
    ensures
        r matches Ok((v, t, rg, c)) ==> pos < c < cs@.len() && opt_ident(v) && opt_ident(t)
            && detail_reads(cs@, pos as int, v, t, rg, c as int),
        forall|v2: Option<String>, t2: Option<String>, rg2: Option<Range>, c2: int|
            #[trigger] detail_reads(cs@, pos as int, v2, t2, rg2, c2) ==> (r matches Ok((v, t, rg, c))
                && c as int == c2),
        r matches Err(e) ==> e is Syntax && error_in_text(cs@, e),
{
    let ghost sq = cs@;
    let ghost bp = pos as int;
    let n = cs.len();
    let mut p = pos;
    let mut variable: Option<String> = None;
    let mut rel_type: Option<String> = None;
    let mut range: Option<Range> = None;
    p = skip_ws(cs, p + 1);
    let ghost detail_var = p as int;
    if p < cs.len() && ident_start(cs[p]) {
        let (v, end) = parse_identifier(text, cs, p)?;
        variable = Some(v);
        p = skip_ws(cs, end);
    }
    let ghost type_start = p as int;
    proof {
        assert(detail_var == ws_end(sq, bp + 1));
        assert(type_start == detail_type_start(sq, bp));
        assert(if name_at(sq, detail_var) {
            variable matches Some(x) && x@ == name_text(sq, detail_var)
        } else {
            variable is None
        });
    }
    if p < cs.len() && cs[p] == ':' {
        let q = skip_ws(cs, p + 1);
        let (t, end) = parse_identifier(text, cs, q)?;
        rel_type = Some(t);
        p = skip_ws(cs, end);
        let ghost astart = p as int;
        let ghost mut aends: Seq<int> = Seq::empty();
        proof {
            assert(astart == type_end(sq, type_start));
        }
        // Further alternatives (`|OTHER`) are read and not kept.
        while p < cs.len() && cs[p] == '|'
            invariant
                cs@ == text@,
                sq == cs@,
                bp == pos as int,
                type_start == detail_type_start(sq, bp),
                astart == type_end(sq, type_start),
                char_at(sq, type_start, ':'),
                pos < p <= cs@.len(),
                alt_chain(sq, astart, aends),
                p as int == (if aends.len() == 0 {
                    astart
                } else {
                    aends.last()
                }),
                forall|aends2: Seq<int>|
                    #[trigger] alt_chain(sq, astart, aends2) && !char_at(
                        sq,
                        if aends2.len() == 0 {
                            astart
                        } else {
                            aends2.last()
                        },
                        '|',
                    ) ==> aends.len() <= aends2.len() && p as int == (if aends.len() == 0 {
                        astart
                    } else {
                        aends2[aends.len() - 1]
                    }),
            decreases cs.len() - p,
        {
            let mut q = skip_ws(cs, p + 1);
            if q < cs.len() && cs[q] == ':' {
                q = skip_ws(cs, q + 1);
            }
            let (_alt, end) = match parse_identifier(text, cs, q) {
                Ok(x) => x,
                Err(err) => {
                    proof {
                        assert forall|aends2: Seq<int>|
                            #[trigger] alt_chain(sq, astart, aends2) && !char_at(
                                sq,
                                if aends2.len() == 0 {
                                    astart
                                } else {
                                    aends2.last()
                                },
                                '|',
                            ) implies false by {
                            if aends.len() < aends2.len() {
                                assert(alt_link(sq, astart, aends2, aends.len() as int));
                            }
                        }
                        assert forall|v2: Option<String>, t2: Option<String>, rg2: Option<Range>, c2: int|
                            detail_reads(sq, bp, v2, t2, rg2, c2) implies false by {
                            let x = choose|x: int|
                                #[trigger] range_part(sq, x, rg2, c2) && char_at(sq, c2, ']') && (if char_at(
                                    sq,
                                    detail_type_start(sq, bp),
                                    ':',
                                ) {
                                    alts_read(sq, type_end(sq, detail_type_start(sq, bp)), x)
                                } else {
                                    x == detail_type_start(sq, bp)
                                });
                            let ae = choose|ae: Seq<int>|
                                #[trigger] alt_chain(sq, astart, ae) && x == (if ae.len() == 0 {
                                    astart
                                } else {
                                    ae.last()
                                }) && !char_at(sq, x, '|');
                        }
                    }
                    return Err(err);
                },
            };
            let ghost old_aends = aends;
            let ghost old_p = p as int;
            p = skip_ws(cs, end);
            proof {
                aends = old_aends.push(p as int);
                assert forall|k: int| 0 <= k < aends.len() implies #[trigger] alt_link(sq, astart, aends, k) by {
                    if k < old_aends.len() {
                        assert(aends[k] == old_aends[k]);
                        if k > 0 {
                            assert(aends[k - 1] == old_aends[k - 1]);
                        }
                        assert(alt_link(sq, astart, old_aends, k));
                    }
                }
                assert forall|aends2: Seq<int>|
                    #[trigger] alt_chain(sq, astart, aends2) && !char_at(
                        sq,
                        if aends2.len() == 0 {
                            astart
                        } else {
                            aends2.last()
                        },
                        '|',
                    ) implies aends.len() <= aends2.len() && p as int == aends2[aends.len() - 1] by {
                    assert(old_aends.len() < aends2.len());
                    assert(alt_link(sq, astart, aends2, old_aends.len() as int));
                }
            }
        }
        proof {
            assert(!char_at(sq, p as int, '|'));
            assert(alt_chain(sq, astart, aends));
            assert(alts_read(sq, astart, p as int));
            assert forall|e: int| #[trigger] alts_read(sq, astart, e) implies e == p as int by {
                let ae = choose|ae: Seq<int>|
                    #[trigger] alt_chain(sq, astart, ae) && e == (if ae.len() == 0 {
                        astart
                    } else {
                        ae.last()
                    }) && !char_at(sq, e, '|');
                if aends.len() < ae.len() {
                    assert(alt_link(sq, astart, ae, aends.len() as int));
                }
            }
        }
    }
    let ghost range_start = p as int;
    proof {
        assert(if char_at(sq, type_start, ':') {
            let q = ws_end(sq, type_start + 1);
            name_at(sq, q) && (rel_type matches Some(t) && t@ == name_text(sq, q))
        } else {
            rel_type is None
        });
        assert(char_at(sq, type_start, ':') ==> alts_read(sq, type_end(sq, type_start), range_start));
        assert(char_at(sq, type_start, ':') ==> forall|e: int|
            #[trigger] alts_read(sq, type_end(sq, type_start), e) ==> e == range_start);
        assert(!char_at(sq, type_start, ':') ==> range_start == type_start);
    }
    let mut range_end: usize = p;
    if p < cs.len() && cs[p] == '*' {
        let (rg, end) = parse_range(cs, p);
        range = Some(rg);
        range_end = end;
        p = skip_ws(cs, end);
        proof {
            assert(range_reads(sq, range_start, range->Some_0, end as int));
            assert(range_part(sq, range_start, range, p as int));
        }
    }
    proof {
        assert(range_part(sq, range_start, range, p as int));
        assert forall|v2: Option<String>, t2: Option<String>, rg2: Option<Range>, c2: int|
            #[trigger] detail_reads(sq, bp, v2, t2, rg2, c2) implies c2 == p as int by {
            let x = choose|x: int|
                #[trigger] range_part(sq, x, rg2, c2) && char_at(sq, c2, ']') && (if char_at(
                    sq,
                    detail_type_start(sq, bp),
                    ':',
                ) {
                    alts_read(sq, type_end(sq, detail_type_start(sq, bp)), x)
                } else {
                    x == detail_type_start(sq, bp)
                });
            assert(x == range_start);
            if char_at(sq, x, '*') {
                let re = choose|re: int|
                    #[trigger] range_reads(sq, x, rg2->Some_0, re) && rg2 is Some && c2 == ws_end(sq, re);
            }
        }
    }
    if !(p < cs.len() && cs[p] == ']') {
        return Err(syntax_error(text, p));
    }
    proof {
        if !char_at(sq, type_start, ':') {
            assert(range_start == type_start);
        }
        assert(detail_reads(sq, bp, variable, rel_type, range, p as int));
    }
    Ok((variable, rel_type, range, p))
}

/// `-[...]->`, `<-[...]-` or `-[...]-`.
fn parse_relationship_pattern(text: &str, cs: &Vec<char>, pos: usize) -> (r: Result<
    (RelationshipPattern, usize),
    ParseError,
>)
    requires
        cs@ == text@,
        pos <= cs@.len(),
    ensures
        r matches Ok((rp, p)) ==> pos < p <= cs@.len() && rel_pattern_wf(rp),
        r matches Ok((rp, p)) ==> rel_reads(cs@, pos as int, rp, p as int),
        forall|rp2: RelationshipPattern, b2: int|
            #[trigger] rel_reads(cs@, pos as int, rp2, b2) ==> (r matches Ok((rp, p)) && p as int == b2),
        r matches Err(e) ==> e is Syntax && error_in_text(cs@, e),
{
    let ghost sq = cs@;
    let mut p = pos;
    let left = p < cs.len() && cs[p] == '<';
    if left {
        p = p + 1;
    }
    if !(p < cs.len() && cs[p] == '-') {
        return Err(syntax_error(text, p));
    }
    let ghost d = p as int;
    p = skip_ws(cs, p + 1);
    let ghost bp = p as int;
    let mut variable: Option<String> = None;
    let mut rel_type: Option<String> = None;
    let mut range: Option<Range> = None;
    let ghost mut cl: int = 0;
    if p < cs.len() && cs[p] == '[' {
        let (v, t, rg, close) = parse_rel_detail(text, cs, p)?;
        variable = v;
        rel_type = t;
        range = rg;
        proof {
            cl = close as int;
        }
        p = skip_ws(cs, close + 1);
    }
    let ghost next = p as int;
    if !(p < cs.len() && cs[p] == '-') {
        return Err(syntax_error(text, p));
    }
    p = p + 1;
    let right = p < cs.len() && cs[p] == '>';
    if right {
        p = p + 1;
    }
    let direction = if left {
        Direction::Left
    } else if right {
        Direction::Right
    } else {
        Direction::Both
    };
    let rp = RelationshipPattern { variable, rel_type, range, direction };
    proof {
        assert(rel_tail(sq, next, left, rp, p as int));
        assert(char_at(sq, d, '-'));
        assert(bp == ws_end(sq, d + 1));
        assert(bp == rel_detail_start(sq, pos as int));
        assert(d == (if char_at(sq, pos as int, '<') { pos + 1 } else { pos as int }));
        if char_at(sq, bp, '[') {
            assert(next == ws_end(sq, cl + 1));
            assert(detail_reads(sq, bp, rp.variable, rp.rel_type, rp.range, cl));
        } else {
            assert(next == bp);
        }
    }
    Ok((rp, p))
}

/// A node pattern, then relationship and node patterns in turn.
fn parse_pattern_part(text: &str, cs: &Vec<char>, pos: usize) -> (r: Result<(PatternPart, usize), ParseError>)
    requires
        cs@ == text@,
        pos <= cs@.len(),
    ensures
        r matches Ok((part, p)) ==> pos < p <= cs@.len() && chain_wf(part.chains@),
        r matches Ok((part, p)) ==> part_reads(cs@, pos as int, part, p as int),
        forall|part2: PatternPart, b2: int|
            #[trigger] part_reads(cs@, pos as int, part2, b2) ==> (r matches Ok((part, p)) && p as int == b2),
        r matches Err(e) ==> e is Syntax && error_in_text(cs@, e),
{
    let ghost sq = cs@;
    let (first, mut p) = match parse_node_pattern(text, cs, pos) {
        Ok(x) => x,
        Err(err) => {
            proof {
                assert forall|part2: PatternPart, b2: int| part_reads(cs@, pos as int, part2, b2) implies false by {
                    let e2 = choose|e2: Seq<int>|
                        #[trigger] chain_ends(sq, pos as int, part2.chains@, e2) && b2 == e2.last() && {
                            let qq = ws_end(sq, b2);
                            !(char_at(sq, qq, '<') || char_at(sq, qq, '-'))
                        };
                    assert(node_reads(sq, pos as int, part2.chains@[0]->Node_0, e2[0]));
                }
            }
            return Err(err);
        },
    };
    let mut chains: Vec<PatternChain> = Vec::new();
    chains.push(PatternChain::Node(first));
    let ghost mut ends: Seq<int> = seq![p as int];
    proof {
        assert(chain_ends(sq, pos as int, chains@, ends));
        assert forall|c2: Seq<PatternChain>, e2: Seq<int>|
            #[trigger] chain_ends(sq, pos as int, c2, e2) && !(char_at(sq, ws_end(sq, e2.last()), '<')
                || char_at(sq, ws_end(sq, e2.last()), '-')) implies chains@.len() <= c2.len() && e2[chains@.len()
            - 1] == p as int by {
            assert(node_reads(sq, pos as int, c2[0]->Node_0, e2[0]));
        }
    }
    loop
        invariant
            cs@ == text@,
            sq == cs@,
            pos < p <= cs@.len(),
            chain_wf(chains@),
            chain_ends(sq, pos as int, chains@, ends),
            ends.last() == p as int,
            forall|c2: Seq<PatternChain>, e2: Seq<int>|
                #[trigger] chain_ends(sq, pos as int, c2, e2) && !(char_at(sq, ws_end(sq, e2.last()), '<')
                    || char_at(sq, ws_end(sq, e2.last()), '-')) ==> chains@.len() <= c2.len() && e2[chains@.len()
                    - 1] == p as int,
        ensures
            chain_wf(chains@),
            chain_ends(sq, pos as int, chains@, ends),
            ends.last() == p as int,
            !(char_at(sq, ws_end(sq, p as int), '<') || char_at(sq, ws_end(sq, p as int), '-')),
            forall|c2: Seq<PatternChain>, e2: Seq<int>|
                #[trigger] chain_ends(sq, pos as int, c2, e2) && !(char_at(sq, ws_end(sq, e2.last()), '<')
                    || char_at(sq, ws_end(sq, e2.last()), '-')) ==> chains@.len() <= c2.len() && e2[chains@.len()
                    - 1] == p as int,
        decreases cs.len() - p,
    {
        let q = skip_ws(cs, p);
        if !(q < cs.len() && (cs[q] == '<' || cs[q] == '-')) {
            break ;
        }
        proof {
            assert forall|c2: Seq<PatternChain>, e2: Seq<int>|
                #[trigger] chain_ends(sq, pos as int, c2, e2) && !(char_at(sq, ws_end(sq, e2.last()), '<')
                    || char_at(sq, ws_end(sq, e2.last()), '-')) implies chains@.len() < c2.len() && chain_link(
                sq,
                c2,
                e2,
                chains@.len() as int,
            ) by {
                if chains@.len() == c2.len() {
                    assert(e2.last() == p as int);
                }
            }
        }
        let (rel, after_rel) = match parse_relationship_pattern(text, cs, q) {
            Ok(x) => x,
            Err(err) => {
                proof {
                    assert forall|part2: PatternPart, b2: int| part_reads(cs@, pos as int, part2, b2) implies false by {
                        let e2 = choose|e2: Seq<int>|
                            #[trigger] chain_ends(sq, pos as int, part2.chains@, e2) && b2 == e2.last() && {
                                let qq = ws_end(sq, b2);
                                !(char_at(sq, qq, '<') || char_at(sq, qq, '-'))
                            };
                        assert(chain_link(sq, part2.chains@, e2, chains@.len() as int));
                    }
                }
                return Err(err);
            },
        };
        let n = skip_ws(cs, after_rel);
        let (node, after_node) = match parse_node_pattern(text, cs, n) {
            Ok(x) => x,
            Err(err) => {
                proof {
                    assert forall|part2: PatternPart, b2: int| part_reads(cs@, pos as int, part2, b2) implies false by {
                        let e2 = choose|e2: Seq<int>|
                            #[trigger] chain_ends(sq, pos as int, part2.chains@, e2) && b2 == e2.last() && {
                                let qq = ws_end(sq, b2);
                                !(char_at(sq, qq, '<') || char_at(sq, qq, '-'))
                            };
                        let k = chains@.len() as int;
                        assert(chain_link(sq, part2.chains@, e2, k));
                        let re = choose|re: int|
                            #[trigger] rel_reads(sq, q as int, part2.chains@[k]->Relationship_0, re) && part2.chains@[k] is Relationship
                                && node_reads(sq, ws_end(sq, re), part2.chains@[k]->Relationship_1, e2[k]);
                    }
                }
                return Err(err);
            },
        };
        let ghost before = chains@;
        let ghost old_ends = ends;
        let ghost link = PatternChain::Relationship(rel, node);
        proof {
            assert(rel_reads(sq, q as int, rel, after_rel as int));
            assert(node_reads(sq, ws_end(sq, after_rel as int), node, after_node as int));
        }
        chains.push(PatternChain::Relationship(rel, node));
        proof {
            ends = old_ends.push(after_node as int);
            assert(chains@[before.len() as int] == link);
            assert forall|k: int| 0 < k < chains@.len() implies (#[trigger] chains@[k] matches PatternChain::Relationship(
                rp,
                np,
            ) && rel_pattern_wf(rp) && node_pattern_wf(np)) by {
                if k < before.len() {
                    assert(chains@[k] == before[k]);
                }
            }
            assert forall|k: int| 1 <= k < chains@.len() implies #[trigger] chain_link(sq, chains@, ends, k) by {
                if k < before.len() {
                    assert(chains@[k] == before[k]);
                    assert(ends[k] == old_ends[k]);
                    assert(ends[k - 1] == old_ends[k - 1]);
                    assert(chain_link(sq, before, old_ends, k));
                } else {
                    assert(ends[k - 1] == p as int);
                    assert(chains@[k]->Relationship_0 == rel);
                    assert(rel_reads(sq, ws_end(sq, ends[k - 1]), chains@[k]->Relationship_0, after_rel as int));
                }
            }
            assert(chains@[0] == before[0]);
            assert(ends[0] == old_ends[0]);
            assert(chain_ends(sq, pos as int, chains@, ends));
            assert forall|c2: Seq<PatternChain>, e2: Seq<int>|
                #[trigger] chain_ends(sq, pos as int, c2, e2) && !(char_at(sq, ws_end(sq, e2.last()), '<')
                    || char_at(sq, ws_end(sq, e2.last()), '-')) implies chains@.len() <= c2.len() && e2[chains@.len()
                - 1] == after_node as int by {
                let k = before.len() as int;
                assert(chain_link(sq, c2, e2, k));
                let re = choose|re: int|
                    #[trigger] rel_reads(sq, q as int, c2[k]->Relationship_0, re) && c2[k] is Relationship
                        && node_reads(sq, ws_end(sq, re), c2[k]->Relationship_1, e2[k]);
            }
        }
        p = after_node;
    }
    proof {
        assert forall|c2: Seq<PatternChain>, e2: Seq<int>|
            #[trigger] chain_ends(sq, pos as int, c2, e2) && !(char_at(sq, ws_end(sq, e2.last()), '<')
                || char_at(sq, ws_end(sq, e2.last()), '-')) implies e2.last() == p as int by {
            if chains@.len() < c2.len() {
                assert(chain_link(sq, c2, e2, chains@.len() as int));
            }
        }
    }
    let part = PatternPart { chains };
    proof {
        assert(chain_ends(sq, pos as int, part.chains@, ends));
        assert forall|part2: PatternPart, b2: int| #[trigger] part_reads(cs@, pos as int, part2, b2) implies p
            as int == b2 by {
            let e2 = choose|e2: Seq<int>|
                #[trigger] chain_ends(sq, pos as int, part2.chains@, e2) && b2 == e2.last() && {
                    let qq = ws_end(sq, b2);
                    !(char_at(sq, qq, '<') || char_at(sq, qq, '-'))
                };
        }
    }
    Ok((part, p))
}

/// `var` or `var.prop`.
fn parse_property_or_variable(text: &str, cs: &Vec<char>, pos: usize) -> (r: Result<
    (PropertyOrVariable, usize),
    ParseError,
>)
    requires
        cs@ == text@,
        pos <= cs@.len(),
    ensures
        r matches Ok((pv, p)) ==> pos < p <= cs@.len() && is_ident(pv.variable@) && opt_ident(
            pv.property,
        ),
        r matches Ok((pv, p)) ==> ref_reads(cs@, pos as int, pv) && p == ref_end(cs@, pos as int),
        forall|pv2: PropertyOrVariable| #[trigger] ref_reads(cs@, pos as int, pv2) ==> r is Ok,
        r matches Err(e) ==> e is Syntax && error_in_text(cs@, e),
{
    let (variable, end) = parse_identifier(text, cs, pos)?;
    let q = skip_ws(cs, end);
    if q < cs.len() && cs[q] == '.' {
        let s = skip_ws(cs, q + 1);
        let (property, after) = parse_identifier(text, cs, s)?;
        Ok((PropertyOrVariable { variable, property: Some(property) }, after))
    } else {
        Ok((PropertyOrVariable { variable, property: None }, end))
    }
}

/// A quoted string, an integer or a reference.
fn parse_term(text: &str, cs: &Vec<char>, pos: usize) -> (r: Result<(Term, usize), ParseError>)
    requires
        cs@ == text@,
        pos <= cs@.len(),
    ensures
        r matches Ok((t, p)) ==> pos < p <= cs@.len(),
        r matches Ok((t, p)) ==> term_reads(cs@, pos as int, t, p as int),
        forall|t2: Term, b2: int|
            #[trigger] term_reads(cs@, pos as int, t2, b2) ==> (r matches Ok((t, p)) && p as int == b2),
        r matches Err(e) ==> e is Syntax && error_in_text(cs@, e),
{
    if pos < cs.len() && (cs[pos] == '"' || cs[pos] == '\'') {
        let quote = cs[pos];
        let mut i = pos + 1;
        while i < cs.len() && cs[i] != quote
            invariant
                pos < i <= cs@.len(),
                quote == cs@[pos as int],
                char_stop(cs@, quote, pos + 1) == char_stop(cs@, quote, i as int),
            decreases cs.len() - i,
        {
            i = i + 1;
        }
        if i < cs.len() {
            Ok((Term::Literal(Literal::String(take(text, pos + 1, i))), i + 1))
        } else {
            Err(syntax_error(text, pos))
        }
    } else if pos < cs.len() && (('0' <= cs[pos] && cs[pos] <= '9') || (cs[pos] == '-' && pos
        + 1 < cs.len() && '0' <= cs[pos + 1] && cs[pos + 1] <= '9')) {
        let (_value, end) = parse_digits(cs, pos + 1);
        match parse_i64(take(text, pos, end).as_str()) {
            Some(n) => Ok((Term::Literal(Literal::Number(n)), end)),
            None => Err(syntax_error(text, pos)),
        }
    } else {
        let (pv, end) = parse_property_or_variable(text, cs, pos)?;
        Ok((Term::PropertyOrVariable(pv), end))
    }
}

/// A comparison operator at `pos`.
fn parse_operator(cs: &Vec<char>, pos: usize) -> (r: Option<(ComparisonOperator, usize)>)
    requires
        pos <= cs@.len(),
    ensures
        r matches Some((op, p)) ==> pos < p <= cs@.len() && op_at(cs@, pos as int) == Some((op, p as int)),
        r is None ==> op_at(cs@, pos as int) is None,
{
    if pos >= cs.len() {
        return None;
    }
    let c = cs[pos];
    let next = if pos + 1 < cs.len() {
        cs[pos + 1]
    } else {
        ' '
    };
    if c == '<' && next == '>' {
        Some((ComparisonOperator::NotEq, pos + 2))
    } else if c == '<' && next == '=' {
        Some((ComparisonOperator::LtEq, pos + 2))
    } else if c == '>' && next == '=' {
        Some((ComparisonOperator::GtEq, pos + 2))
    } else if c == '=' {
        Some((ComparisonOperator::Eq, pos + 1))
    } else if c == '<' {
        Some((ComparisonOperator::Lt, pos + 1))
    } else if c == '>' {
        Some((ComparisonOperator::Gt, pos + 1))
    } else if at_keyword(cs, pos, "CONTAINS") {
        proof {
            reveal_strlit("CONTAINS");
            assert("CONTAINS"@ =~= seq!['C', 'O', 'N', 'T', 'A', 'I', 'N', 'S']);
        }
        Some((ComparisonOperator::Contains, pos + 8))
    } else {
        proof {
            reveal_strlit("CONTAINS");
            assert("CONTAINS"@ =~= seq!['C', 'O', 'N', 'T', 'A', 'I', 'N', 'S']);
        }
        None
    }
}

/// `FUNC(var[.prop])` at `pos`, where the name runs to `name_end` and `open`
/// is the position of `(`.
fn parse_aggregate_call(text: &str, cs: &Vec<char>, pos: usize, name_end: usize, open: usize) -> (r:
    Result<(Expression, usize), ParseError>)
    requires
        cs@ == text@,
        pos < name_end <= open < cs@.len(),
        cs@[open as int] == '(',
        is_ident(cs@.subrange(pos as int, name_end as int)),
        name_end == ident_stop(cs@, pos as int),
        open == ws_end(cs@, name_end as int),
    ensures
        r matches Ok((e, p)) ==> pos < p <= cs@.len() && e is Aggregate,
        r matches Ok((e, p)) ==> aggregate_reads(cs@, pos as int, name_end as int, open as int, e, p as int),
        forall|e2: Expression, b2: int|
            #[trigger] aggregate_reads(cs@, pos as int, name_end as int, open as int, e2, b2) ==> (r matches Ok((e, p)) && p as int == b2),
        r matches Err(ParseError::UnknownAggregate(name)) ==> name@ == cs@.subrange(
            pos as int,
            name_end as int,
        ) && !same_word(name@, seq!['C', 'O', 'U', 'N', 'T']) && !same_word(
            name@,
            seq!['S', 'U', 'M'],
        ),
        r matches Err(e) ==> (e is Syntax || e is UnknownAggregate) && unknown_name_ok(e) && error_in_text(
            cs@,
            e,
        ),
{
    let n = cs.len();
    proof {
        reveal_strlit("COUNT");
        reveal_strlit("SUM");
        assert("COUNT"@ =~= seq!['C', 'O', 'U', 'N', 'T']);
        assert("SUM"@ =~= seq!['S', 'U', 'M']);
    }
    let func = if word_is(cs, pos, name_end, "COUNT") {
        AggregateFunction::Count
    } else if word_is(cs, pos, name_end, "SUM") {
        AggregateFunction::Sum
    } else {
        let name = take(text, pos, name_end);
        proof {
            assert(name_text(cs@, pos as int) == name@);
            assert(cs@.subrange(pos as int, name_end as int)[0] == cs@[pos as int]);
        }
        return Err(ParseError::UnknownAggregate(name));
    };
    let p = skip_ws(cs, open + 1);
    let (variable, end) = parse_identifier(text, cs, p)?;
    let mut q = skip_ws(cs, end);
    let mut property: Option<String> = None;
    if q < cs.len() && cs[q] == '.' {
        let s = skip_ws(cs, q + 1);
        let (prop, after) = parse_identifier(text, cs, s)?;
        property = Some(prop);
        q = skip_ws(cs, after);
    }
    if q < cs.len() && cs[q] == ')' {
        Ok((Expression::Aggregate(AggregateExpression { func, variable, property }), q + 1))
    } else {
        Err(syntax_error(text, q))
    }
}

/// An aggregate call, or a reference with an optional operator and term.
fn parse_comparison(text: &str, cs: &Vec<char>, pos: usize) -> (r: Result<(Expression, usize), ParseError>)
    requires
        cs@ == text@,
        pos <= cs@.len(),
    ensures
        r matches Ok((e, p)) ==> pos < p <= cs@.len(),
        r matches Ok((e, p)) ==> comparison_reads(cs@, pos as int, e, p as int),
        forall|e2: Expression, b2: int|
            #[trigger] comparison_reads(cs@, pos as int, e2, b2) ==> (r matches Ok((e, p)) && p as int == b2
                && (e is Aggregate <==> e2 is Aggregate)),
        r matches Err(e) ==> (e is Syntax || e is UnknownAggregate) && unknown_name_ok(e) && error_in_text(
            cs@,
            e,
        ),
{
    let n = cs.len();
    if !(pos < cs.len() && ident_start(cs[pos])) {
        return Err(syntax_error(text, pos));
    }
    let name_end = ident_end(cs, pos);
    let open = skip_ws(cs, name_end);
    if open < cs.len() && cs[open] == '(' {
        proof {
            let w = cs@.subrange(pos as int, name_end as int);
            assert forall|i: int| 0 <= i < w.len() implies is_ident_char(#[trigger] w[i]) by {
                assert(w[i] == cs@[pos + i]);
            }
        }
        return parse_aggregate_call(text, cs, pos, name_end, open);
    }
    let (left, end) = parse_property_or_variable(text, cs, pos)?;
    let q = skip_ws(cs, end);
    match parse_operator(cs, q) {
        Some((operator, after_op)) => {
            let t = skip_ws(cs, after_op);
            let (right, after) = parse_term(text, cs, t)?;
            Ok(
                (
                    Expression::Comparison(
                        Comparison { left, operator: Some(operator), right: Some(right) },
                    ),
                    after,
                ),
            )
        },
        None => Ok((Expression::Comparison(Comparison { left, operator: None, right: None }), end)),
    }
}

/// Comparisons joined by AND; a single one stands alone.
fn parse_and_expression(text: &str, cs: &Vec<char>, pos: usize) -> (r: Result<(Expression, usize), ParseError>)
    requires
        cs@ == text@,
        pos <= cs@.len(),
    ensures
        r matches Ok((e, p)) ==> pos < p <= cs@.len(),
        r matches Ok((e, p)) ==> and_reads(cs@, pos as int, e, p as int),
        forall|e2: Expression, b2: int|
            #[trigger] and_reads(cs@, pos as int, e2, b2) ==> (r matches Ok((e, p)) && p as int == b2
                && (e is Aggregate <==> e2 is Aggregate)),
        r matches Err(e) ==> (e is Syntax || e is UnknownAggregate) && unknown_name_ok(e) && error_in_text(
            cs@,
            e,
        ),
{
    let n = cs.len();
    let mut parts: Vec<Expression> = Vec::new();
    let (first, mut p) = match parse_comparison(text, cs, pos) {
        Ok(x) => x,
        Err(err) => {
            proof {
                assert forall|e2: Expression, b2: int| and_reads(cs@, pos as int, e2, b2) implies false by {
                    let (ps2, ends2) = choose|ps2: Seq<Expression>, ends2: Seq<int>|
                        #[trigger] and_list(cs@, pos as int, ps2, ends2) && ends2.last() == b2 && !keyword_at(
                            cs@,
                            ws_end(cs@, b2),
                            seq!['A', 'N', 'D'],
                        ) && joined(ps2, e2, true);
                    assert(comparison_reads(cs@, pos as int, ps2[0], ends2[0]));
                }
            }
            return Err(err);
        },
    };
    parts.push(first);
    let ghost mut ends: Seq<int> = seq![p as int];
    proof {
        assert(and_list(cs@, pos as int, parts@, ends));
        assert forall|ps2: Seq<Expression>, ends2: Seq<int>|
            #[trigger] and_list(cs@, pos as int, ps2, ends2) && !keyword_at(cs@, ws_end(cs@, ends2.last()), seq!['A', 'N', 'D'])
            implies parts@.len() <= ps2.len() && ends2[parts@.len() - 1] == p as int && (
            parts@[0] is Aggregate <==> ps2[0] is Aggregate) by {
            assert(comparison_reads(cs@, pos as int, ps2[0], ends2[0]));
        }
    }
    loop
        invariant
            cs@ == text@,
            pos < p <= cs@.len(),
            parts@.len() > 0,
            and_list(cs@, pos as int, parts@, ends),
            ends.last() == p as int,
            forall|ps2: Seq<Expression>, ends2: Seq<int>|
                #[trigger] and_list(cs@, pos as int, ps2, ends2) && !keyword_at(cs@, ws_end(cs@, ends2.last()), seq!['A', 'N', 'D'])
                    ==> parts@.len() <= ps2.len() && ends2[parts@.len() - 1] == p as int && (
                parts@[0] is Aggregate <==> ps2[0] is Aggregate),
        ensures
            parts@.len() > 0,
            and_list(cs@, pos as int, parts@, ends),
            ends.last() == p as int,
            !keyword_at(cs@, ws_end(cs@, p as int), seq!['A', 'N', 'D']),
            forall|ps2: Seq<Expression>, ends2: Seq<int>|
                #[trigger] and_list(cs@, pos as int, ps2, ends2) && !keyword_at(cs@, ws_end(cs@, ends2.last()), seq!['A', 'N', 'D'])
                    ==> parts@.len() <= ps2.len() && ends2[parts@.len() - 1] == p as int && (
                parts@[0] is Aggregate <==> ps2[0] is Aggregate),
        decreases cs.len() - p,
    {
        let q = skip_ws(cs, p);
        proof {
            reveal_strlit("AND");
            assert("AND"@ =~= seq!['A', 'N', 'D']);
        }
        if !at_keyword(cs, q, "AND") {
            break ;
        }
        let s = skip_ws(cs, q + 3);
        let (next, after) = match parse_comparison(text, cs, s) {
            Ok(x) => x,
            Err(err) => {
                proof {
                    assert forall|e2: Expression, b2: int| and_reads(cs@, pos as int, e2, b2) implies false by {
                        let (ps2, ends2) = choose|ps2: Seq<Expression>, ends2: Seq<int>|
                            #[trigger] and_list(cs@, pos as int, ps2, ends2) && ends2.last() == b2
                                && !keyword_at(cs@, ws_end(cs@, b2), seq!['A', 'N', 'D']) && joined(ps2, e2, true);
                        if parts@.len() < ps2.len() {
                            assert(and_link(cs@, ps2, ends2, parts@.len() as int));
                        }
                    }
                }
                return Err(err);
            },
        };
        let ghost before = parts@;
        let ghost old_ends = ends;
        let ghost old_p = p as int;
        parts.push(next);
        proof {
            ends = old_ends.push(after as int);
            assert(parts@[0] == before[0]);
            assert(ends[0] == old_ends[0]);
            assert(comparison_reads(cs@, pos as int, parts@[0], ends[0]));
            assert(ends.len() == parts@.len());
            assert forall|k: int| 1 <= k < parts@.len() implies #[trigger] and_link(cs@, parts@, ends, k) by {
                if k < before.len() {
                    assert(parts@[k] == before[k]);
                    assert(ends[k] == old_ends[k]);
                    assert(ends[k - 1] == old_ends[k - 1]);
                    assert(and_link(cs@, before, old_ends, k));
                }
            }
            assert(and_list(cs@, pos as int, parts@, ends));
            assert forall|ps2: Seq<Expression>, ends2: Seq<int>|
                #[trigger] and_list(cs@, pos as int, ps2, ends2) && !keyword_at(cs@, ws_end(cs@, ends2.last()), seq!['A', 'N', 'D'])
                implies parts@.len() <= ps2.len() && ends2[parts@.len() - 1] == after as int && (
                parts@[0] is Aggregate <==> ps2[0] is Aggregate) by {
                assert(before.len() <= ps2.len() && ends2[before.len() - 1] == old_p);
                if before.len() == ps2.len() {
                    assert(ends2.last() == old_p);
                }
                assert(before.len() < ps2.len());
                assert(and_link(cs@, ps2, ends2, before.len() as int));
            }
        }
        p = after;
    }
    proof {
        assert forall|ps2: Seq<Expression>, ends2: Seq<int>|
            #[trigger] and_list(cs@, pos as int, ps2, ends2) && !keyword_at(cs@, ws_end(cs@, ends2.last()), seq!['A', 'N', 'D'])
            implies ps2.len() == parts@.len() && ends2.last() == p as int by {
            if parts@.len() < ps2.len() {
                assert(and_link(cs@, ps2, ends2, parts@.len() as int));
            }
        }
    }
    let ghost ps = parts@;
    if parts.len() == 1 {
        match parts.pop() {
            Some(e) => {
                proof {
                    assert(e == ps[0]);
                    assert(joined(ps, e, true));
                    assert forall|e2: Expression, b2: int| #[trigger] and_reads(cs@, pos as int, e2, b2) implies p as int
                        == b2 && (e is Aggregate <==> e2 is Aggregate) by {
                        let (ps2, ends2) = choose|ps2: Seq<Expression>, ends2: Seq<int>|
                            #[trigger] and_list(cs@, pos as int, ps2, ends2) && ends2.last() == b2
                                && !keyword_at(cs@, ws_end(cs@, b2), seq!['A', 'N', 'D']) && joined(ps2, e2, true);
                        assert(ps2.len() == 1);
                    }
                }
                Ok((e, p))
            },
            None => Err(syntax_error(text, pos)),
        }
    } else {
        let e = Expression::And(parts);
        proof {
            assert(joined(ps, e, true));
            assert forall|e2: Expression, b2: int| #[trigger] and_reads(cs@, pos as int, e2, b2) implies p as int
                == b2 && (e is Aggregate <==> e2 is Aggregate) by {
                let (ps2, ends2) = choose|ps2: Seq<Expression>, ends2: Seq<int>|
                    #[trigger] and_list(cs@, pos as int, ps2, ends2) && ends2.last() == b2 && !keyword_at(
                        cs@,
                        ws_end(cs@, b2),
                        seq!['A', 'N', 'D'],
                    ) && joined(ps2, e2, true);
                assert(ps2.len() == ps.len());
            }
        }
        Ok((e, p))
    }
}

/// AND-expressions joined by OR; a single one stands alone.
fn parse_expression(text: &str, cs: &Vec<char>, pos: usize) -> (r: Result<(Expression, usize), ParseError>)
    requires
        cs@ == text@,
        pos <= cs@.len(),
    ensures
        r matches Ok((e, p)) ==> pos < p <= cs@.len(),
        r matches Ok((e, p)) ==> expr_reads(cs@, pos as int, e, p as int),
        forall|e2: Expression, b2: int|
            #[trigger] expr_reads(cs@, pos as int, e2, b2) ==> (r matches Ok((e, p)) && p as int == b2
                && (e is Aggregate <==> e2 is Aggregate)),
        r matches Err(e) ==> (e is Syntax || e is UnknownAggregate) && unknown_name_ok(e) && error_in_text(
            cs@,
            e,
        ),
{
    let n = cs.len();
    let mut parts: Vec<Expression> = Vec::new();
    let (first, mut p) = match parse_and_expression(text, cs, pos) {
        Ok(x) => x,
        Err(err) => {
            proof {
                assert forall|e2: Expression, b2: int| expr_reads(cs@, pos as int, e2, b2) implies false by {
                    let (ps2, ends2) = choose|ps2: Seq<Expression>, ends2: Seq<int>|
                        #[trigger] or_list(cs@, pos as int, ps2, ends2) && ends2.last() == b2 && !keyword_at(
                            cs@,
                            ws_end(cs@, b2),
                            seq!['O', 'R'],
                        ) && joined(ps2, e2, false);
                    assert(and_reads(cs@, pos as int, ps2[0], ends2[0]));
                }
            }
            return Err(err);
        },
    };
    parts.push(first);
    let ghost mut ends: Seq<int> = seq![p as int];
    proof {
        assert(or_list(cs@, pos as int, parts@, ends));
        assert forall|ps2: Seq<Expression>, ends2: Seq<int>|
            #[trigger] or_list(cs@, pos as int, ps2, ends2) && !keyword_at(cs@, ws_end(cs@, ends2.last()), seq!['O', 'R'])
            implies parts@.len() <= ps2.len() && ends2[parts@.len() - 1] == p as int && (
            parts@[0] is Aggregate <==> ps2[0] is Aggregate) by {
            assert(and_reads(cs@, pos as int, ps2[0], ends2[0]));
        }
    }
    loop
        invariant
            cs@ == text@,
            pos < p <= cs@.len(),
            parts@.len() > 0,
            or_list(cs@, pos as int, parts@, ends),
            ends.last() == p as int,
            forall|ps2: Seq<Expression>, ends2: Seq<int>|
                #[trigger] or_list(cs@, pos as int, ps2, ends2) && !keyword_at(cs@, ws_end(cs@, ends2.last()), seq!['O', 'R'])
                    ==> parts@.len() <= ps2.len() && ends2[parts@.len() - 1] == p as int && (
                parts@[0] is Aggregate <==> ps2[0] is Aggregate),
        ensures
            parts@.len() > 0,
            or_list(cs@, pos as int, parts@, ends),
            ends.last() == p as int,
            !keyword_at(cs@, ws_end(cs@, p as int), seq!['O', 'R']),
            forall|ps2: Seq<Expression>, ends2: Seq<int>|
                #[trigger] or_list(cs@, pos as int, ps2, ends2) && !keyword_at(cs@, ws_end(cs@, ends2.last()), seq!['O', 'R'])
                    ==> parts@.len() <= ps2.len() && ends2[parts@.len() - 1] == p as int && (
                parts@[0] is Aggregate <==> ps2[0] is Aggregate),
        decreases cs.len() - p,
    {
        let q = skip_ws(cs, p);
        proof {
            reveal_strlit("OR");
            assert("OR"@ =~= seq!['O', 'R']);
        }
        if !at_keyword(cs, q, "OR") {
            break ;
        }
        let s = skip_ws(cs, q + 2);
        let (next, after) = match parse_and_expression(text, cs, s) {
            Ok(x) => x,
            Err(err) => {
                proof {
                    assert forall|e2: Expression, b2: int| expr_reads(cs@, pos as int, e2, b2) implies false by {
                        let (ps2, ends2) = choose|ps2: Seq<Expression>, ends2: Seq<int>|
                            #[trigger] or_list(cs@, pos as int, ps2, ends2) && ends2.last() == b2
                                && !keyword_at(cs@, ws_end(cs@, b2), seq!['O', 'R']) && joined(ps2, e2, false);
                        if parts@.len() < ps2.len() {
                            assert(or_link(cs@, ps2, ends2, parts@.len() as int));
                        }
                    }
                }
                return Err(err);
            },
        };
        let ghost before = parts@;
        let ghost old_ends = ends;
        let ghost old_p = p as int;
        parts.push(next);
        proof {
            ends = old_ends.push(after as int);
            assert(parts@[0] == before[0]);
            assert(ends[0] == old_ends[0]);
            assert(and_reads(cs@, pos as int, parts@[0], ends[0]));
            assert(ends.len() == parts@.len());
            assert forall|k: int| 1 <= k < parts@.len() implies #[trigger] or_link(cs@, parts@, ends, k) by {
                if k < before.len() {
                    assert(parts@[k] == before[k]);
                    assert(ends[k] == old_ends[k]);
                    assert(ends[k - 1] == old_ends[k - 1]);
                    assert(or_link(cs@, before, old_ends, k));
                }
            }
            assert(or_list(cs@, pos as int, parts@, ends));
            assert forall|ps2: Seq<Expression>, ends2: Seq<int>|
                #[trigger] or_list(cs@, pos as int, ps2, ends2) && !keyword_at(cs@, ws_end(cs@, ends2.last()), seq!['O', 'R'])
                implies parts@.len() <= ps2.len() && ends2[parts@.len() - 1] == after as int && (
                parts@[0] is Aggregate <==> ps2[0] is Aggregate) by {
                assert(before.len() <= ps2.len() && ends2[before.len() - 1] == old_p);
                if before.len() == ps2.len() {
                    assert(ends2.last() == old_p);
                }
                assert(before.len() < ps2.len());
                assert(or_link(cs@, ps2, ends2, before.len() as int));
            }
        }
        p = after;
    }
    proof {
        assert forall|ps2: Seq<Expression>, ends2: Seq<int>|
            #[trigger] or_list(cs@, pos as int, ps2, ends2) && !keyword_at(cs@, ws_end(cs@, ends2.last()), seq!['O', 'R'])
            implies ps2.len() == parts@.len() && ends2.last() == p as int by {
            if parts@.len() < ps2.len() {
                assert(or_link(cs@, ps2, ends2, parts@.len() as int));
            }
        }
    }
    let ghost ps = parts@;
    if parts.len() == 1 {
        match parts.pop() {
            Some(e) => {
                proof {
                    assert(e == ps[0]);
                    assert(joined(ps, e, false));
                    assert forall|e2: Expression, b2: int| #[trigger] expr_reads(cs@, pos as int, e2, b2) implies p as int
                        == b2 && (e is Aggregate <==> e2 is Aggregate) by {
                        let (ps2, ends2) = choose|ps2: Seq<Expression>, ends2: Seq<int>|
                            #[trigger] or_list(cs@, pos as int, ps2, ends2) && ends2.last() == b2
                                && !keyword_at(cs@, ws_end(cs@, b2), seq!['O', 'R']) && joined(ps2, e2, false);
                        assert(ps2.len() == 1);
                    }
                }
                Ok((e, p))
            },
            None => Err(syntax_error(text, pos)),
        }
    } else {
        let e = Expression::Or(parts);
        proof {
            assert(joined(ps, e, false));
            assert forall|e2: Expression, b2: int| #[trigger] expr_reads(cs@, pos as int, e2, b2) implies p as int
                == b2 && (e is Aggregate <==> e2 is Aggregate) by {
                let (ps2, ends2) = choose|ps2: Seq<Expression>, ends2: Seq<int>|
                    #[trigger] or_list(cs@, pos as int, ps2, ends2) && ends2.last() == b2 && !keyword_at(
                        cs@,
                        ws_end(cs@, b2),
                        seq!['O', 'R'],
                    ) && joined(ps2, e2, false);
                assert(ps2.len() == ps.len());
            }
        }
        Ok((e, p))
    }
}

/// `expression [AS alias]`.
fn parse_return_item(text: &str, cs: &Vec<char>, pos: usize) -> (r: Result<(ReturnItem, usize), ParseError>)
    requires
        cs@ == text@,
        pos <= cs@.len(),
    ensures
        r matches Ok((item, p)) ==> pos < p <= cs@.len() && opt_ident(item.alias),
        r matches Ok((item, p)) ==> item_reads(cs@, pos as int, item, p as int),
        forall|it2: ReturnItem, b2: int|
            #[trigger] item_reads(cs@, pos as int, it2, b2) ==> (r matches Ok((item, p)) && p as int
                == b2 && (item.expression is Aggregate <==> it2.expression is Aggregate)),
        r matches Err(e) ==> (e is Syntax || e is UnknownAggregate) && unknown_name_ok(e) && error_in_text(
            cs@,
            e,
        ),
{
    let n = cs.len();
    let (expression, end) = match parse_expression(text, cs, pos) {
        Ok(x) => x,
        Err(err) => {
            proof {
                assert forall|it2: ReturnItem, b2: int| item_reads(cs@, pos as int, it2, b2) implies false by {
                    let m = choose|m: int| #[trigger] expr_reads(cs@, pos as int, it2.expression, m) && {
                        let qq = ws_end(cs@, m);
                        if keyword_at(cs@, qq, seq!['A', 'S']) {
                            let t = ws_end(cs@, qq + 2);
                            name_at(cs@, t) && b2 == ident_stop(cs@, t) && (it2.alias matches Some(x)
                                && x@ == name_text(cs@, t))
                        } else {
                            it2.alias is None && b2 == m
                        }
                    };
                }
            }
            return Err(err);
        },
    };
    let q = skip_ws(cs, end);
    proof {
        reveal_strlit("AS");
        assert("AS"@ =~= seq!['A', 'S']);
        assert forall|it2: ReturnItem, b2: int| #[trigger] item_reads(cs@, pos as int, it2, b2) implies (
            exists|m: int| #[trigger] expr_reads(cs@, pos as int, it2.expression, m) && m == end as int && {
                let qq = ws_end(cs@, m);
                if keyword_at(cs@, qq, seq!['A', 'S']) {
                    let t = ws_end(cs@, qq + 2);
                    name_at(cs@, t) && b2 == ident_stop(cs@, t)
                } else {
                    it2.alias is None && b2 == m
                }
            }) && (expression is Aggregate <==> it2.expression is Aggregate) by {
            let m = choose|m: int| #[trigger] expr_reads(cs@, pos as int, it2.expression, m) && {
                let qq = ws_end(cs@, m);
                if keyword_at(cs@, qq, seq!['A', 'S']) {
                    let t = ws_end(cs@, qq + 2);
                    name_at(cs@, t) && b2 == ident_stop(cs@, t) && (it2.alias matches Some(x) && x@
                        == name_text(cs@, t))
                } else {
                    it2.alias is None && b2 == m
                }
            };
        }
    }
    if at_keyword(cs, q, "AS") {
        let s = skip_ws(cs, q + 2);
        let (alias, after) = parse_identifier(text, cs, s)?;
        Ok((ReturnItem { expression, alias: Some(alias) }, after))
    } else {
        Ok((ReturnItem { expression, alias: None }, end))
    }
}

/// The pieces of a reading of the whole text: where the pattern parts end,
/// where RETURN stands, and where the items end.
pub proof fn lemma_query_parts(s: Seq<char>, q: Query) -> (r: (Seq<int>, int, Seq<int>))
    requires
        query_reads(s, q),
    ensures
        patterns_read(s, ws_end(s, ws_end(s, 0) + 5), q.match_clause.patterns@, r.0),
        where_reads(s, ws_end(s, r.0.last()), q.where_clause, r.1),
        keyword_at(s, r.1, seq!['R', 'E', 'T', 'U', 'R', 'N']),
        items_read(s, ws_end(s, r.1 + 6), q.return_clause.items@, r.2),
        ends_query(s, r.2.last()),
{
    let st = ws_end(s, 0);
    let pe = choose|pe: Seq<int>|
        #[trigger] patterns_read(s, ws_end(s, st + 5), q.match_clause.patterns@, pe) && exists|
            rr: int,
        |
            #[trigger] where_reads(s, ws_end(s, pe.last()), q.where_clause, rr) && keyword_at(
                s,
                rr,
                seq!['R', 'E', 'T', 'U', 'R', 'N'],
            ) && exists|ie: Seq<int>|
                #[trigger] items_read(s, ws_end(s, rr + 6), q.return_clause.items@, ie) && ends_query(
                    s,
                    ie.last(),
                );
    let rr = choose|rr: int|
        #[trigger] where_reads(s, ws_end(s, pe.last()), q.where_clause, rr) && keyword_at(
            s,
            rr,
            seq!['R', 'E', 'T', 'U', 'R', 'N'],
        ) && exists|ie: Seq<int>|
            #[trigger] items_read(s, ws_end(s, rr + 6), q.return_clause.items@, ie) && ends_query(
                s,
                ie.last(),
            );
    let ie = choose|ie: Seq<int>|
        #[trigger] items_read(s, ws_end(s, rr + 6), q.return_clause.items@, ie) && ends_query(
            s,
            ie.last(),
        );
    (pe, rr, ie)
}

/// The items `items` are written from `a` to the end of the text.
pub open spec fn items_from(s: Seq<char>, a: int, items: Seq<ReturnItem>) -> bool {
    exists|ie: Seq<int>| #[trigger] items_read(s, a, items, ie) && ends_query(s, ie.last())
}

/// The text begins with MATCH, its pattern parts (and an optional WHERE)
/// read, and then it ends.
pub open spec fn ends_before_return(s: Seq<char>) -> bool {
    exists|pats: Seq<PatternPart>, pe: Seq<int>, wc: Option<WhereClause>|
        #![trigger patterns_read(s, ws_end(s, ws_end(s, 0) + 5), pats, pe), where_reads(s, ws_end(s, pe.last()), wc, s.len() as int)]
        patterns_read(s, ws_end(s, ws_end(s, 0) + 5), pats, pe) && where_reads(
            s,
            ws_end(s, pe.last()),
            wc,
            s.len() as int,
        )
}

/// What a parse error says of the text: it reads as no query; a syntax
/// error carries the rest of the text from where it departs from the
/// grammar; an unknown function is named as written; the missing MATCH comes
/// exactly when the text does not begin with MATCH; the missing RETURN only
/// when the text ends after the patterns.
pub open spec fn parse_failure(s: Seq<char>, e: ParseError) -> bool {
    &&& !exists|q: Query| #[trigger] query_reads(s, q)
    &&& error_in_text(s, e)
    &&& unknown_name_ok(e)
    &&& (e is MissingMatch <==> !keyword_at(s, ws_end(s, 0), match_keyword()))
    &&& (e is MissingReturn ==> ends_before_return(s))
}

/// The items of two queries agree on which are aggregates, up to `n`.
pub open spec fn aggregates_agree(a: Seq<ReturnItem>, b: Seq<ReturnItem>, n: int) -> bool {
    forall|i: int|
        0 <= i < n ==> (#[trigger] a[i].expression is Aggregate <==> b[i].expression is Aggregate)
}

/// Parses query text. The query returned is the reading of the text by the
/// grammar (`query_reads`), and whenever the text has such a reading the
/// parse succeeds. Fails with `MissingMatch` exactly when the text does not
/// begin with the keyword MATCH, with `MissingReturn` when the patterns (and
/// an optional WHERE) read and the text then ends, with `UnknownAggregate`
/// for a function other than COUNT or SUM, and with `Syntax` at the first
/// departure from the grammar otherwise.
pub fn parse_query(query_str: &str) -> (r: Result<Query, ParseError>)
    ensures
        r matches Ok(q) ==> query_wf(q) && query_reads(query_str@, q),
        forall|q2: Query|
            #[trigger] query_reads(query_str@, q2) ==> (r matches Ok(q)
                && q.return_clause.items@.len() == q2.return_clause.items@.len() && aggregates_agree(
                q.return_clause.items@,
                q2.return_clause.items@,
                q.return_clause.items@.len() as int,
            )),
        (r matches Err(ParseError::MissingMatch)) <==> !keyword_at(
            query_str@,
            ws_end(query_str@, 0),
            match_keyword(),
        ),
        r matches Err(ParseError::MissingReturn) ==> exists|
            pats: Seq<PatternPart>,
            pe: Seq<int>,
            wc: Option<WhereClause>,
        |
            #![trigger patterns_read(query_str@, ws_end(query_str@, ws_end(query_str@, 0) + 5), pats, pe), where_reads(query_str@, ws_end(query_str@, pe.last()), wc, query_str@.len() as int)]
            patterns_read(query_str@, ws_end(query_str@, ws_end(query_str@, 0) + 5), pats, pe)
                && where_reads(query_str@, ws_end(query_str@, pe.last()), wc, query_str@.len() as int),
        r matches Err(e) ==> unknown_name_ok(e) && error_in_text(query_str@, e),
        r matches Err(e) ==> parse_failure(query_str@, e),
{
    let text = query_str;
    let cs = chars_of(text);
    let ghost sq = cs@;
    let n = cs.len();
    let start = skip_ws(&cs, 0);
    proof {
        reveal_strlit("MATCH");
        reveal_strlit("WHERE");
        reveal_strlit("RETURN");
        assert("MATCH"@ =~= match_keyword());
        assert("WHERE"@ =~= seq!['W', 'H', 'E', 'R', 'E']);
        assert("RETURN"@ =~= seq!['R', 'E', 'T', 'U', 'R', 'N']);
    }
    if !at_keyword(&cs, start, "MATCH") {
        return Err(ParseError::MissingMatch);
    }
    let mut p = skip_ws(&cs, start + 5);
    let ghost pstart = p as int;
    proof {
        assert(pstart == ws_end(sq, ws_end(sq, 0) + 5));
    }
    let mut patterns: Vec<PatternPart> = Vec::new();
    let (first, mut end) = match parse_pattern_part(text, &cs, p) {
        Ok(x) => x,
        Err(e) => {
            proof {
                assert forall|q2: Query| query_reads(query_str@, q2) implies false by {
                    let (pe2, r2, ie2) = lemma_query_parts(sq, q2);
                    assert(part_reads(sq, pstart, q2.match_clause.patterns@[0], pe2[0]));
                }
            }
            return Err(e);
        },
    };
    patterns.push(first);
    let ghost mut pends: Seq<int> = seq![end as int];
    proof {
        assert forall|pats2: Seq<PatternPart>, pe2: Seq<int>|
            #[trigger] patterns_read(sq, pstart, pats2, pe2) implies patterns@.len() <= pats2.len()
            && pe2[patterns@.len() - 1] == end as int by {
            assert(part_reads(sq, pstart, pats2[0], pe2[0]));
        }
    }
    loop
        invariant
            cs@ == text@,
            sq == cs@,
            keyword_at(query_str@, ws_end(query_str@, 0), match_keyword()),
            text@ == query_str@,
            pstart == ws_end(sq, ws_end(sq, 0) + 5),
            end <= cs@.len(),
            n == cs@.len(),
            patterns@.len() > 0,
            forall|k: int| 0 <= k < patterns@.len() ==> chain_wf(#[trigger] patterns@[k].chains@),
            pends.len() == patterns@.len(),
            part_reads(sq, pstart, patterns@[0], pends[0]),
            forall|k: int| 1 <= k < patterns@.len() ==> #[trigger] pattern_link(sq, patterns@, pends, k),
            pends.last() == end as int,
            forall|pats2: Seq<PatternPart>, pe2: Seq<int>|
                #[trigger] patterns_read(sq, pstart, pats2, pe2) ==> patterns@.len() <= pats2.len()
                    && pe2[patterns@.len() - 1] == end as int,
        ensures
            patterns@.len() > 0,
            forall|k: int| 0 <= k < patterns@.len() ==> chain_wf(#[trigger] patterns@[k].chains@),
            patterns_read(sq, pstart, patterns@, pends),
            pends.last() == end as int,
            end <= cs@.len(),
            forall|pats2: Seq<PatternPart>, pe2: Seq<int>|
                #[trigger] patterns_read(sq, pstart, pats2, pe2) ==> patterns@.len() == pats2.len()
                    && pe2.last() == end as int,
        decreases cs.len() - end,
    {
        let q = skip_ws(&cs, end);
        if !(q < cs.len() && cs[q] == ',') {
            proof {
                assert forall|pats2: Seq<PatternPart>, pe2: Seq<int>|
                    #[trigger] patterns_read(sq, pstart, pats2, pe2) implies patterns@.len() == pats2.len()
                    && pe2.last() == end as int by {
                    if patterns@.len() < pats2.len() {
                        assert(pattern_link(sq, pats2, pe2, patterns@.len() as int));
                    }
                }
            }
            break ;
        }
        proof {
            assert forall|pats2: Seq<PatternPart>, pe2: Seq<int>|
                #[trigger] patterns_read(sq, pstart, pats2, pe2) implies patterns@.len() < pats2.len()
                && pattern_link(sq, pats2, pe2, patterns@.len() as int) by {
                if patterns@.len() == pats2.len() {
                    assert(pe2.last() == end as int);
                }
            }
        }
        let s = skip_ws(&cs, q + 1);
        let (part, after) = match parse_pattern_part(text, &cs, s) {
            Ok(x) => x,
            Err(e) => {
                proof {
                    assert forall|q2: Query| query_reads(query_str@, q2) implies false by {
                        let (pe2, r2, ie2) = lemma_query_parts(sq, q2);
                        assert(pattern_link(sq, q2.match_clause.patterns@, pe2, patterns@.len() as int));
                    }
                }
                return Err(e);
            },
        };
        let ghost before = patterns@;
        let ghost old_ends = pends;
        proof {
            assert(chain_wf(part.chains@));
            assert(part_reads(sq, s as int, part, after as int));
        }
        patterns.push(part);
        proof {
            pends = old_ends.push(after as int);
            assert(patterns@[before.len() as int] == part);
            assert forall|k: int| 0 <= k < patterns@.len() implies chain_wf(#[trigger] patterns@[k].chains@) by {
                if k < before.len() {
                    assert(patterns@[k] == before[k]);
                    assert(chain_wf(before[k].chains@));
                }
            }
            assert forall|k: int| 1 <= k < patterns@.len() implies #[trigger] pattern_link(sq, patterns@, pends, k) by {
                if k < before.len() {
                    assert(patterns@[k] == before[k]);
                    assert(pends[k] == old_ends[k]);
                    assert(pends[k - 1] == old_ends[k - 1]);
                    assert(pattern_link(sq, before, old_ends, k));
                } else {
                    assert(pends[k - 1] == end as int);
                }
            }
            assert(patterns@[0] == before[0]);
            assert(pends[0] == old_ends[0]);
            assert forall|pats2: Seq<PatternPart>, pe2: Seq<int>|
                #[trigger] patterns_read(sq, pstart, pats2, pe2) implies patterns@.len() <= pats2.len()
                && pe2[patterns@.len() - 1] == after as int by {
                assert(pattern_link(sq, pats2, pe2, before.len() as int));
            }
        }
        end = after;
    }
    p = skip_ws(&cs, end);
    let ghost w = p as int;
    let mut where_clause: Option<WhereClause> = None;
    if at_keyword(&cs, p, "WHERE") {
        let s = skip_ws(&cs, p + 5);
        let (expression, e_end) = match parse_expression(text, &cs, s) {
            Ok(x) => x,
            Err(e) => {
                proof {
                    assert forall|q2: Query| query_reads(query_str@, q2) implies false by {
                        let (pe2, r2, ie2) = lemma_query_parts(sq, q2);
                        let c = q2.where_clause->Some_0;
                        let m = choose|m: int|
                            #[trigger] expr_reads(sq, ws_end(sq, w + 5), c.expression, m) && r2 == ws_end(
                                sq,
                                m,
                            );
                    }
                }
                return Err(e);
            },
        };
        proof {
            assert(expr_reads(sq, ws_end(sq, w + 5), expression, e_end as int));
        }
        where_clause = Some(WhereClause { expression });
        p = skip_ws(&cs, e_end);
    }
    let ghost rpos = p as int;
    proof {
        assert(where_reads(sq, w, where_clause, rpos));
        assert forall|wc2: Option<WhereClause>, r2: int| #[trigger] where_reads(sq, w, wc2, r2) implies r2
            == rpos by {
            if keyword_at(sq, w, seq!['W', 'H', 'E', 'R', 'E']) {
                let c = wc2->Some_0;
                let m = choose|m: int|
                    #[trigger] expr_reads(sq, ws_end(sq, w + 5), c.expression, m) && r2 == ws_end(sq, m);
            }
        }
    }
    if !at_keyword(&cs, p, "RETURN") {
        proof {
            assert forall|q2: Query| query_reads(query_str@, q2) implies false by {
                let (pe2, r2, ie2) = lemma_query_parts(sq, q2);
            }
        }
        if p == cs.len() {
            proof {
                assert(patterns_read(sq, pstart, patterns@, pends));
            }
            return Err(ParseError::MissingReturn);
        }
        return Err(syntax_error(text, p));
    }
    p = skip_ws(&cs, p + 6);
    let ghost istart = p as int;
    proof {
        assert forall|q2: Query| #[trigger] query_reads(query_str@, q2) implies items_from(
            sq,
            istart,
            q2.return_clause.items@,
        ) by {
            let (pe2, r2, ie2) = lemma_query_parts(sq, q2);
            assert(items_read(sq, istart, q2.return_clause.items@, ie2));
        }
    }
    let mut items: Vec<ReturnItem> = Vec::new();
    let (first_item, mut end) = match parse_return_item(text, &cs, p) {
        Ok(x) => x,
        Err(e) => {
            proof {
                assert forall|q2: Query| query_reads(query_str@, q2) implies false by {
                    assert(items_from(sq, istart, q2.return_clause.items@));
                    let ie2 = choose|ie2: Seq<int>|
                        #[trigger] items_read(sq, istart, q2.return_clause.items@, ie2) && ends_query(sq, ie2.last());
                    assert(item_reads(sq, istart, q2.return_clause.items@[0], ie2[0]));
                }
            }
            return Err(e);
        },
    };
    items.push(first_item);
    let ghost mut iends: Seq<int> = seq![end as int];
    proof {
        assert forall|its2: Seq<ReturnItem>, ie2: Seq<int>|
            #[trigger] items_read(sq, istart, its2, ie2) implies items@.len() <= its2.len() && ie2[items@.len()
            - 1] == end as int && aggregates_agree(items@, its2, items@.len() as int) by {
            assert(item_reads(sq, istart, its2[0], ie2[0]));
        }
    }
    loop
        invariant
            cs@ == text@,
            sq == cs@,
            keyword_at(query_str@, ws_end(query_str@, 0), match_keyword()),
            text@ == query_str@,
            end <= cs@.len(),
            n == cs@.len(),
            items@.len() > 0,
            iends.len() == items@.len(),
            item_reads(sq, istart, items@[0], iends[0]),
            forall|k: int| 1 <= k < items@.len() ==> #[trigger] item_link(sq, items@, iends, k),
            iends.last() == end as int,
            forall|its2: Seq<ReturnItem>, ie2: Seq<int>|
                #[trigger] items_read(sq, istart, its2, ie2) ==> items@.len() <= its2.len() && ie2[items@.len()
                    - 1] == end as int && aggregates_agree(items@, its2, items@.len() as int),
            forall|q2: Query| #[trigger] query_reads(query_str@, q2) ==> items_from(
                sq,
                istart,
                q2.return_clause.items@,
            ),
        ensures
            items@.len() > 0,
            items_read(sq, istart, items@, iends),
            iends.last() == end as int,
            end <= cs@.len(),
            forall|its2: Seq<ReturnItem>, ie2: Seq<int>|
                #[trigger] items_read(sq, istart, its2, ie2) ==> items@.len() == its2.len() && ie2.last()
                    == end as int && aggregates_agree(items@, its2, items@.len() as int),
        decreases cs.len() - end,
    {
        let q = skip_ws(&cs, end);
        if !(q < cs.len() && cs[q] == ',') {
            proof {
                assert forall|its2: Seq<ReturnItem>, ie2: Seq<int>|
                    #[trigger] items_read(sq, istart, its2, ie2) implies items@.len() == its2.len() && ie2.last()
                    == end as int by {
                    if items@.len() < its2.len() {
                        assert(item_link(sq, its2, ie2, items@.len() as int));
                    }
                }
            }
            break ;
        }
        proof {
            assert forall|its2: Seq<ReturnItem>, ie2: Seq<int>|
                #[trigger] items_read(sq, istart, its2, ie2) implies items@.len() < its2.len() && item_link(
                sq,
                its2,
                ie2,
                items@.len() as int,
            ) by {
                if items@.len() == its2.len() {
                    assert(ie2.last() == end as int);
                }
            }
        }
        let s = skip_ws(&cs, q + 1);
        let (item, after) = match parse_return_item(text, &cs, s) {
            Ok(x) => x,
            Err(e) => {
                proof {
                    assert forall|q2: Query| query_reads(query_str@, q2) implies false by {
                        assert(items_from(sq, istart, q2.return_clause.items@));
                        let ie2 = choose|ie2: Seq<int>|
                            #[trigger] items_read(sq, istart, q2.return_clause.items@, ie2) && ends_query(sq, ie2.last());
                        assert(item_link(sq, q2.return_clause.items@, ie2, items@.len() as int));
                    }
                }
                return Err(e);
            },
        };
        let ghost before = items@;
        let ghost old_ends = iends;
        proof {
            assert(item_reads(sq, s as int, item, after as int));
        }
        items.push(item);
        proof {
            iends = old_ends.push(after as int);
            assert forall|k: int| 1 <= k < items@.len() implies #[trigger] item_link(sq, items@, iends, k) by {
                if k < before.len() {
                    assert(items@[k] == before[k]);
                    assert(iends[k] == old_ends[k]);
                    assert(iends[k - 1] == old_ends[k - 1]);
                    assert(item_link(sq, before, old_ends, k));
                } else {
                    assert(iends[k - 1] == end as int);
                }
            }
            assert(items@[0] == before[0]);
            assert(iends[0] == old_ends[0]);
            assert forall|its2: Seq<ReturnItem>, ie2: Seq<int>|
                #[trigger] items_read(sq, istart, its2, ie2) implies items@.len() <= its2.len() && ie2[items@.len()
                - 1] == after as int && aggregates_agree(items@, its2, items@.len() as int) by {
                let k = before.len() as int;
                assert(item_link(sq, its2, ie2, k));
                assert(item_reads(sq, s as int, its2[k], ie2[k]));
                assert forall|i: int| 0 <= i < items@.len() implies (#[trigger] items@[i].expression is Aggregate
                    <==> its2[i].expression is Aggregate) by {
                    if i < k {
                        assert(items@[i] == before[i]);
                        assert(aggregates_agree(before, its2, k));
                    }
                }
            }
        }
        end = after;
    }
    let ghost iend = end as int;
    p = skip_ws(&cs, end);
    if p < cs.len() && cs[p] == ';' {
        p = skip_ws(&cs, p + 1);
    }
    if p != cs.len() {
        proof {
            assert forall|q2: Query| query_reads(query_str@, q2) implies false by {
                assert(items_from(sq, istart, q2.return_clause.items@));
                let ie2 = choose|ie2: Seq<int>|
                    #[trigger] items_read(sq, istart, q2.return_clause.items@, ie2) && ends_query(sq, ie2.last());
            }
        }
        return Err(syntax_error(text, p));
    }
    let q = Query {
        match_clause: MatchClause { patterns },
        where_clause,
        return_clause: ReturnClause { items },
    };
    proof {
        assert(ends_query(sq, iend));
        assert(items_read(sq, istart, q.return_clause.items@, iends));
        assert(where_reads(sq, ws_end(sq, pends.last()), q.where_clause, rpos));
        assert(patterns_read(sq, pstart, q.match_clause.patterns@, pends));
        assert(query_reads(sq, q));
        assert forall|q2: Query| #[trigger] query_reads(query_str@, q2) implies q.return_clause.items@.len()
            == q2.return_clause.items@.len() && aggregates_agree(
            q.return_clause.items@,
            q2.return_clause.items@,
            q.return_clause.items@.len() as int,
        ) by {
            assert(items_from(sq, istart, q2.return_clause.items@));
            let ie2 = choose|ie2: Seq<int>|
                #[trigger] items_read(sq, istart, q2.return_clause.items@, ie2) && ends_query(sq, ie2.last());
        }
    }
    Ok(q)
}

} // verus!
