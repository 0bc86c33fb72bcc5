//! The grammar of the pattern language, as spec functions over the input's
//! characters, and the parser that follows it.
//!
//! ```text
//! input     := (statement ((',' | ';') statement)*)? (',' | ';')?
//! statement := node rel node
//! node      := '(' body ')'
//! rel       := '-' '[' body ']' '->'  |  '<-' '[' body ']' '-'
//! body      := ':'? label props?
//! props     := '{' (label ':' literal (',' label ':' literal)*)? '}'
//! literal   := integer | double | string | 'true' | 'false' | 'null'
//! ```
//!
//! Spaces, tabs and line breaks may stand between any two tokens.
use vstd::prelude::*;

use crate::cypher::{
    insert_entry, keys_sorted, node_of, opt_view, CypherError, Edge, EdgeV, EntryV, ErrorV, Node,
    NodeV, Properties, Triple, TripleV, Value, ValueV,
};
use crate::text::{chars_of, digit_value, is_digit, string_of};

verus! {

/// A parse step: what was read and the position after it, or an error.
pub type Step<T> = Result<(T, int), ErrorV>;

pub open spec fn is_space(c: char) -> bool {
    c == ' ' || c == '\t' || c == '\n' || c == '\r'
}

pub open spec fn is_label_start(c: char) -> bool {
    ('a' <= c && c <= 'z') || ('A' <= c && c <= 'Z') || c == '_'
}

pub open spec fn is_label_char(c: char) -> bool {
    is_label_start(c) || is_digit(c)
}

/// Whether `s[i]` is `c`.
pub open spec fn at(s: Seq<char>, i: int, c: char) -> bool {
    0 <= i < s.len() && s[i] == c
}

/// The first position at or after `i` that holds no space.
pub open spec fn space_end(s: Seq<char>, i: int) -> int
    decreases s.len() - i,
{
    if 0 <= i < s.len() && is_space(s[i]) {
        space_end(s, i + 1)
    } else {
        i
    }
}

/// The first position at or after `i` that holds no label character.
pub open spec fn label_end(s: Seq<char>, i: int) -> int
    decreases s.len() - i,
{
    if 0 <= i < s.len() && is_label_char(s[i]) {
        label_end(s, i + 1)
    } else {
        i
    }
}

/// The first position at or after `i` that holds no decimal digit.
pub open spec fn digits_end(s: Seq<char>, i: int) -> int
    decreases s.len() - i,
{
    if 0 <= i < s.len() && is_digit(s[i]) {
        digits_end(s, i + 1)
    } else {
        i
    }
}

/// The first position at or after `i` that holds `q`, or the end.
pub open spec fn quote_end(s: Seq<char>, i: int, q: char) -> int
    decreases s.len() - i,
{
    if 0 <= i < s.len() && s[i] != q {
        quote_end(s, i + 1, q)
    } else {
        i
    }
}

/// The number that a run of decimal digits denotes.
pub open spec fn digits_value(t: Seq<char>) -> int
    decreases t.len(),
{
    if t.len() == 0 {
        0
    } else {
        digits_value(t.drop_last()) * 10 + digit_value(t.last())
    }
}

/// A number at `i`: an optional `-`, digits, and for a double a `.` and
/// more digits. A double keeps its text; an integer must fit in 64 bits.
pub open spec fn number_at(s: Seq<char>, i: int) -> Step<Option<ValueV>> {
    let d0 = if at(s, i, '-') { i + 1 } else { i };
    let d1 = digits_end(s, d0);
    if d1 == d0 {
        Err(ErrorV::Grammar(i))
    } else if at(s, d1, '.') {
        let d2 = digits_end(s, d1 + 1);
        if d2 == d1 + 1 {
            Err(ErrorV::Grammar(i))
        } else {
            Ok((Some(ValueV::Double(s.subrange(i, d2))), d2))
        }
    } else {
        let n = digits_value(s.subrange(d0, d1));
        let v = if at(s, i, '-') { -n } else { n };
        if i64::MIN <= v && v <= i64::MAX {
            Ok((Some(ValueV::Integer(v)), d1))
        } else {
            Err(ErrorV::Grammar(i))
        }
    }
}

/// A literal at `i`; `None` for `null`. A map literal is refused.
pub open spec fn literal_at(s: Seq<char>, i: int) -> Step<Option<ValueV>> {
    if !(0 <= i < s.len()) {
        Err(ErrorV::Grammar(i))
    } else if s[i] == '{' {
        Err(ErrorV::UnsupportedLiteral(i))
    } else if s[i] == '"' || s[i] == '\'' {
        let e = quote_end(s, i + 1, s[i]);
        if e < s.len() {
            Ok((Some(ValueV::Str(s.subrange(i + 1, e))), e + 1))
        } else {
            Err(ErrorV::Grammar(i))
        }
    } else if s[i] == '-' || is_digit(s[i]) {
        number_at(s, i)
    } else if is_label_start(s[i]) {
        let e = label_end(s, i + 1);
        let w = s.subrange(i, e);
        if w == seq!['t', 'r', 'u', 'e'] {
            Ok((Some(ValueV::Bool(true)), e))
        } else if w == seq!['f', 'a', 'l', 's', 'e'] {
            Ok((Some(ValueV::Bool(false)), e))
        } else if w == seq!['n', 'u', 'l', 'l'] {
            Ok((None, e))
        } else {
            Err(ErrorV::Grammar(i))
        }
    } else {
        Err(ErrorV::Grammar(i))
    }
}

/// `key: literal` pairs from `i` up to the closing `}`, added in order to
/// `acc`; a key written twice keeps its last value.
pub open spec fn pairs_at(s: Seq<char>, i: int, acc: Seq<EntryV>) -> Step<Seq<EntryV>>
    decreases s.len() - i,
    via pairs_at_decreases
{
    if !(0 <= i < s.len() && is_label_start(s[i])) {
        Err(ErrorV::Grammar(i))
    } else {
        let k = label_end(s, i + 1);
        let c = space_end(s, k);
        if !at(s, c, ':') {
            Err(ErrorV::Grammar(c))
        } else {
            match literal_at(s, space_end(s, c + 1)) {
                Err(e) => Err(e),
                Ok((v, e)) => {
                    let acc2 = insert_entry(acc, s.subrange(i, k), v);
                    let n = space_end(s, e);
                    if at(s, n, ',') {
                        pairs_at(s, space_end(s, n + 1), acc2)
                    } else if at(s, n, '}') {
                        Ok((acc2, n + 1))
                    } else {
                        Err(ErrorV::Grammar(n))
                    }
                },
            }
        }
    }
}

#[via_fn]
proof fn pairs_at_decreases(s: Seq<char>, i: int, acc: Seq<EntryV>) {
    if 0 <= i < s.len() && is_label_start(s[i]) {
        let k = label_end(s, i + 1);
        lemma_label_end(s, i + 1);
        let c = space_end(s, k);
        lemma_space_end(s, k);
        if at(s, c, ':') {
            lemma_space_end(s, c + 1);
            lemma_literal_at(s, space_end(s, c + 1));
            match literal_at(s, space_end(s, c + 1)) {
                Err(e) => {},
                Ok((v, e)) => {
                    lemma_space_end(s, e);
                    let n = space_end(s, e);
                    if at(s, n, ',') {
                        lemma_space_end(s, n + 1);
                    }
                },
            }
        }
    }
}

/// A property map at `i`, which holds `{`.
pub open spec fn props_at(s: Seq<char>, i: int) -> Step<Seq<EntryV>> {
    let j = space_end(s, i + 1);
    if at(s, j, '}') {
        Ok((Seq::empty(), j + 1))
    } else {
        pairs_at(s, j, Seq::empty())
    }
}

/// What stands inside the brackets of a node or an edge, from `i`: an
/// optional `:`, a label, optional properties and the spaces after them.
pub open spec fn body_at(s: Seq<char>, i: int) -> Step<(Seq<char>, Seq<EntryV>)> {
    let a = space_end(s, i);
    let b = if at(s, a, ':') { space_end(s, a + 1) } else { a };
    if !(0 <= b < s.len() && is_label_start(s[b])) {
        Err(ErrorV::Grammar(b))
    } else {
        let c = label_end(s, b + 1);
        let d = space_end(s, c);
        if at(s, d, '{') {
            match props_at(s, d) {
                Err(e) => Err(e),
                Ok((p, e)) => Ok(((s.subrange(b, c), p), space_end(s, e))),
            }
        } else {
            Ok(((s.subrange(b, c), Seq::empty()), d))
        }
    }
}

/// A node pattern at `i`; it must carry a non-null `id`.
pub open spec fn node_at(s: Seq<char>, i: int) -> Step<NodeV> {
    if !at(s, i, '(') {
        Err(ErrorV::Grammar(i))
    } else {
        match body_at(s, i + 1) {
            Err(e) => Err(e),
            Ok(((name, props), f)) => if !at(s, f, ')') {
                Err(ErrorV::Grammar(f))
            } else {
                match node_of(name, props) {
                    Some(n) => Ok((n, f + 1)),
                    None => Err(ErrorV::MissingPrimaryKey(i)),
                }
            },
        }
    }
}

/// A relationship at `i`: whether its arrow points right, its label and its
/// properties.
pub open spec fn rel_at(s: Seq<char>, i: int) -> Step<(bool, Seq<char>, Seq<EntryV>)> {
    if !(at(s, i, '-') || (at(s, i, '<') && at(s, i + 1, '-'))) {
        Err(ErrorV::Grammar(i))
    } else {
        let right = at(s, i, '-');
        let a = if right { i + 1 } else { i + 2 };
        let b = space_end(s, a);
        if !at(s, b, '[') {
            Err(ErrorV::Grammar(b))
        } else {
            match body_at(s, b + 1) {
                Err(e) => Err(e),
                Ok(((name, props), c)) => if !at(s, c, ']') {
                    Err(ErrorV::Grammar(c))
                } else {
                    let d = space_end(s, c + 1);
                    if right && at(s, d, '-') && at(s, d + 1, '>') {
                        Ok(((true, name, props), d + 2))
                    } else if !right && at(s, d, '-') && !at(s, d + 1, '>') {
                        Ok(((false, name, props), d + 1))
                    } else {
                        Err(ErrorV::Grammar(d))
                    }
                },
            }
        }
    }
}

/// The triple of a statement whose arrow runs from `from` to `to`; the
/// edge has properties only where some were written.
pub open spec fn triple_of(from: NodeV, name: Seq<char>, props: Seq<EntryV>, to: NodeV) -> TripleV {
    TripleV {
        left: from,
        edge: EdgeV {
            name,
            props: if props.len() == 0 { None } else { Some(props) },
            from: (from.name, from.primary),
            to: (to.name, to.primary),
        },
        right: to,
    }
}

/// A statement at `i`: a node, a relationship and a node. The triple runs
/// in the arrow's direction, whichever side the arrow is written on.
pub open spec fn statement_at(s: Seq<char>, i: int) -> Step<TripleV> {
    match node_at(s, i) {
        Err(e) => Err(e),
        Ok((n1, a)) => match rel_at(s, space_end(s, a)) {
            Err(e) => Err(e),
            Ok(((right, name, props), b)) => match node_at(s, space_end(s, b)) {
                Err(e) => Err(e),
                Ok((n2, c)) => if right {
                    Ok((triple_of(n1, name, props, n2), c))
                } else {
                    Ok((triple_of(n2, name, props, n1), c))
                },
            },
        },
    }
}

/// The statements from `i` to the end, after those in `acc`.
pub open spec fn statements_at(s: Seq<char>, i: int, acc: Seq<TripleV>) -> Result<Seq<TripleV>, ErrorV>
    decreases s.len() - i,
    via statements_at_decreases
{
    let a = space_end(s, i);
    if !(a < s.len()) {
        Ok(acc)
    } else {
        match statement_at(s, a) {
            Err(e) => Err(e),
            Ok((t, b)) => {
                let c = space_end(s, b);
                if !(c < s.len()) {
                    Ok(acc.push(t))
                } else if s[c] == ',' || s[c] == ';' {
                    statements_at(s, c + 1, acc.push(t))
                } else {
                    Err(ErrorV::Grammar(c))
                }
            },
        }
    }
}

#[via_fn]
proof fn statements_at_decreases(s: Seq<char>, i: int, acc: Seq<TripleV>) {
    if 0 <= i {
        lemma_space_end(s, i);
        let a = space_end(s, i);
        if a < s.len() {
            lemma_statement_at(s, a);
            match statement_at(s, a) {
                Err(e) => {},
                Ok((t, b)) => {
                    lemma_space_end(s, b);
                },
            }
        }
    }
}

/// The statements of a whole input, in order.
pub open spec fn parse_spec(s: Seq<char>) -> Result<Seq<TripleV>, ErrorV> {
    statements_at(s, 0, Seq::empty())
}

pub proof fn lemma_space_end(s: Seq<char>, i: int)
    requires
        0 <= i,
    ensures
        i <= space_end(s, i),
        i <= s.len() ==> space_end(s, i) <= s.len(),
    decreases s.len() - i,
{
    if 0 <= i < s.len() && is_space(s[i]) {
        lemma_space_end(s, i + 1);
    }
}

pub proof fn lemma_label_end(s: Seq<char>, i: int)
    requires
        0 <= i,
    ensures
        i <= label_end(s, i),
        i <= s.len() ==> label_end(s, i) <= s.len(),
    decreases s.len() - i,
{
    if 0 <= i < s.len() && is_label_char(s[i]) {
        lemma_label_end(s, i + 1);
    }
}

pub proof fn lemma_digits_end(s: Seq<char>, i: int)
    requires
        0 <= i,
    ensures
        i <= digits_end(s, i),
        i <= s.len() ==> digits_end(s, i) <= s.len(),
    decreases s.len() - i,
{
    if 0 <= i < s.len() && is_digit(s[i]) {
        lemma_digits_end(s, i + 1);
    }
}

pub proof fn lemma_quote_end(s: Seq<char>, i: int, q: char)
    requires
        0 <= i,
    ensures
        i <= quote_end(s, i, q),
        i <= s.len() ==> quote_end(s, i, q) <= s.len(),
    decreases s.len() - i,
{
    if 0 <= i < s.len() && s[i] != q {
        lemma_quote_end(s, i + 1, q);
    }
}

pub proof fn lemma_literal_at(s: Seq<char>, i: int)
    requires
        0 <= i,
    ensures
        literal_at(s, i) is Ok ==> i < literal_at(s, i)->Ok_0.1 <= s.len(),
{
    if 0 <= i < s.len() {
        lemma_quote_end(s, i + 1, s[i]);
        lemma_label_end(s, i + 1);
        lemma_digits_end(s, i);
        lemma_digits_end(s, i + 1);
        let d0 = if at(s, i, '-') { i + 1 } else { i };
        let d1 = digits_end(s, d0);
        lemma_digits_end(s, d1 + 1);
    }
}

pub proof fn lemma_pairs_at(s: Seq<char>, i: int, acc: Seq<EntryV>)
    requires
        0 <= i,
    ensures
        pairs_at(s, i, acc) is Ok ==> i < pairs_at(s, i, acc)->Ok_0.1 <= s.len(),
    decreases s.len() - i,
{
    if 0 <= i < s.len() && is_label_start(s[i]) {
        let k = label_end(s, i + 1);
        lemma_label_end(s, i + 1);
        let c = space_end(s, k);
        lemma_space_end(s, k);
        if at(s, c, ':') {
            lemma_space_end(s, c + 1);
            lemma_literal_at(s, space_end(s, c + 1));
            match literal_at(s, space_end(s, c + 1)) {
                Err(e) => {},
                Ok((v, e)) => {
                    lemma_space_end(s, e);
                    let n = space_end(s, e);
                    if at(s, n, ',') {
                        lemma_space_end(s, n + 1);
                        lemma_pairs_at(s, space_end(s, n + 1), insert_entry(acc, s.subrange(i, k), v));
                    }
                },
            }
        }
    }
}

pub proof fn lemma_body_at(s: Seq<char>, i: int)
    requires
        0 <= i,
    ensures
        body_at(s, i) is Ok ==> i < body_at(s, i)->Ok_0.1 <= s.len(),
{
    lemma_space_end(s, i);
    let a = space_end(s, i);
    lemma_space_end(s, a + 1);
    let b = if at(s, a, ':') { space_end(s, a + 1) } else { a };
    if 0 <= b < s.len() && is_label_start(s[b]) {
        lemma_label_end(s, b + 1);
        let c = label_end(s, b + 1);
        lemma_space_end(s, c);
        let d = space_end(s, c);
        if at(s, d, '{') {
            lemma_space_end(s, d + 1);
            lemma_pairs_at(s, space_end(s, d + 1), Seq::empty());
            match props_at(s, d) {
                Err(e) => {},
                Ok((p, e)) => {
                    lemma_space_end(s, e);
                },
            }
        }
    }
}

pub proof fn lemma_node_at(s: Seq<char>, i: int)
    requires
        0 <= i,
    ensures
        node_at(s, i) is Ok ==> i < node_at(s, i)->Ok_0.1 <= s.len(),
{
    lemma_body_at(s, i + 1);
}

pub proof fn lemma_rel_at(s: Seq<char>, i: int)
    requires
        0 <= i,
    ensures
        rel_at(s, i) is Ok ==> i < rel_at(s, i)->Ok_0.1 <= s.len(),
{
    let right = at(s, i, '-');
    let a = if right { i + 1 } else { i + 2 };
    lemma_space_end(s, a);
    let b = space_end(s, a);
    lemma_body_at(s, b + 1);
    match body_at(s, b + 1) {
        Err(e) => {},
        Ok(((name, props), c)) => {
            lemma_space_end(s, c + 1);
        },
    }
}

pub proof fn lemma_statement_at(s: Seq<char>, i: int)
    requires
        0 <= i,
    ensures
        statement_at(s, i) is Ok ==> i < statement_at(s, i)->Ok_0.1 <= s.len(),
{
    lemma_node_at(s, i);
    match node_at(s, i) {
        Err(e) => {},
        Ok((n1, a)) => {
            lemma_space_end(s, a);
            lemma_rel_at(s, space_end(s, a));
            match rel_at(s, space_end(s, a)) {
                Err(e) => {},
                Ok((r, b)) => {
                    lemma_space_end(s, b);
                    lemma_node_at(s, space_end(s, b));
                },
            }
        },
    }
}


fn space_char(c: char) -> (r: bool)
    ensures
        r == is_space(c),
{
    c == ' ' || c == '\t' || c == '\n' || c == '\r'
}

fn label_start_char(c: char) -> (r: bool)
    ensures
        r == is_label_start(c),
{
    ('a' <= c && c <= 'z') || ('A' <= c && c <= 'Z') || c == '_'
}

fn label_char(c: char) -> (r: bool)
    ensures
        r == is_label_char(c),
{
    label_start_char(c) || ('0' <= c && c <= '9')
}

fn skip_spaces(v: &Vec<char>, i: usize) -> (r: usize)
    requires
        i <= v@.len(),
    ensures
        r as int == space_end(v@, i as int),
        i <= r <= v@.len(),
{
    let mut j = i;
    while j < v.len() && space_char(v[j])
        invariant
            i <= j <= v@.len(),
            space_end(v@, i as int) == space_end(v@, j as int),
        decreases v@.len() - j,
    {
        j = j + 1;
    }
    j
}

fn scan_label(v: &Vec<char>, i: usize) -> (r: usize)
    requires
        i <= v@.len(),
    ensures
        r as int == label_end(v@, i as int),
        i <= r <= v@.len(),
{
    let mut j = i;
    while j < v.len() && label_char(v[j])
        invariant
            i <= j <= v@.len(),
            label_end(v@, i as int) == label_end(v@, j as int),
        decreases v@.len() - j,
    {
        j = j + 1;
    }
    j
}

fn scan_digits(v: &Vec<char>, i: usize) -> (r: usize)
    requires
        i <= v@.len(),
    ensures
        r as int == digits_end(v@, i as int),
        i <= r <= v@.len(),
        forall|k: int| i <= k < r ==> is_digit(#[trigger] v@[k]),
{
    let mut j = i;
    while j < v.len() && '0' <= v[j] && v[j] <= '9'
        invariant
            i <= j <= v@.len(),
            digits_end(v@, i as int) == digits_end(v@, j as int),
            forall|k: int| i <= k < j ==> is_digit(#[trigger] v@[k]),
        decreases v@.len() - j,
    {
        j = j + 1;
    }
    j
}

fn scan_quote(v: &Vec<char>, i: usize, q: char) -> (r: usize)
    requires
        i <= v@.len(),
    ensures
        r as int == quote_end(v@, i as int, q),
        i <= r <= v@.len(),
{
    let mut j = i;
    while j < v.len() && v[j] != q
        invariant
            i <= j <= v@.len(),
            quote_end(v@, i as int, q) == quote_end(v@, j as int, q),
        decreases v@.len() - j,
    {
        j = j + 1;
    }
    j
}

/// Whether `v[a..b]` holds the characters of `w`.
fn span_is(v: &Vec<char>, a: usize, b: usize, w: &str) -> (r: bool)
    requires
        a <= b <= v@.len(),
    ensures
        r == (v@.subrange(a as int, b as int) == w@),
{
    let x = chars_of(w);
    if b - a != x.len() {
        return false;
    }
    let mut k: usize = 0;
    while k < x.len()
        invariant
            x@ == w@,
            b - a == x@.len(),
            a <= b <= v@.len(),
            k <= x@.len(),
            forall|m: int| 0 <= m < k ==> v@[a + m] == x@[m],
        decreases x@.len() - k,
    {
        if v[a + k] != x[k] {
            assert(v@.subrange(a as int, b as int)[k as int] != w@[k as int]);
            return false;
        }
        k = k + 1;
    }
    assert(v@.subrange(a as int, b as int) =~= w@);
    true
}

proof fn lemma_digits_value_step(t: Seq<char>, c: char)
    requires
        is_digit(c),
    ensures
        digits_value(t.push(c)) == digits_value(t) * 10 + digit_value(c),
        0 <= digit_value(c) <= 9,
        digits_value(t) >= 0 ==> digits_value(t.push(c)) >= digits_value(t),
{
    assert(t.push(c).drop_last() =~= t);
}

fn parse_number(v: &Vec<char>, i: usize) -> (r: Result<(Option<Value>, usize), CypherError>)
    requires
        i < v@.len(),
    ensures
        match r {
            Ok((x, j)) => number_at(v@, i as int) == Ok::<_, ErrorV>((opt_view(x), j as int)) && i < j <= v@.len(),
            Err(e) => number_at(v@, i as int) is Err && number_at(v@, i as int)->Err_0 == e@,
        },
{
    let len = v.len();
    let neg = v[i] == '-';
    let d0 = if neg { i + 1 } else { i };
    let d1 = scan_digits(v, d0);
    if d1 == d0 {
        return Err(CypherError::Grammar { pos: i });
    }
    if d1 < v.len() && v[d1] == '.' {
        let d2 = scan_digits(v, d1 + 1);
        if d2 == d1 + 1 {
            return Err(CypherError::Grammar { pos: i });
        }
        return Ok((Some(Value::Double(string_of(v, i, d2))), d2));
    }
    let mut acc: u64 = 0;
    let mut big = false;
    let mut k = d0;
    assert(v@.subrange(d0 as int, d0 as int) =~= Seq::<char>::empty());
    while k < d1
        invariant
            d0 <= k <= d1 <= v@.len(),
            forall|m: int| d0 <= m < d1 ==> is_digit(#[trigger] v@[m]),
            digits_value(v@.subrange(d0 as int, k as int)) >= 0,
            !big ==> acc as int == digits_value(v@.subrange(d0 as int, k as int)),
            !big ==> acc <= 9223372036854775808u64,
            big ==> digits_value(v@.subrange(d0 as int, k as int)) > 9223372036854775808u64,
        decreases d1 - k,
    {
        let c = v[k];
        assert(is_digit(v@[k as int]));
        let d = ((c as u32) - 48) as u64;
        let ghost t = v@.subrange(d0 as int, k as int);
        proof {
            assert(v@.subrange(d0 as int, k + 1) =~= t.push(c));
            lemma_digits_value_step(t, c);
        }
        if !big {
            if acc > 922337203685477580u64 {
                big = true;
                assert(digits_value(t) * 10 + digit_value(c) > 9223372036854775808u64) by (nonlinear_arith)
                    requires
                        digits_value(t) > 922337203685477580u64,
                        digit_value(c) >= 0,
                ;
            } else {
                acc = acc * 10 + d;
                if acc > 9223372036854775808u64 {
                    big = true;
                }
            }
        }
        k = k + 1;
    }
    if big {
        return Err(CypherError::Grammar { pos: i });
    }
    if neg {
        if acc == 9223372036854775808u64 {
            Ok((Some(Value::Integer(i64::MIN)), d1))
        } else {
            Ok((Some(Value::Integer(-(acc as i64))), d1))
        }
    } else if acc > 9223372036854775807u64 {
        Err(CypherError::Grammar { pos: i })
    } else {
        Ok((Some(Value::Integer(acc as i64)), d1))
    }
}

fn parse_literal(v: &Vec<char>, i: usize) -> (r: Result<(Option<Value>, usize), CypherError>)
    requires
        i <= v@.len(),
    ensures
        match r {
            Ok((x, j)) => literal_at(v@, i as int) == Ok::<_, ErrorV>((opt_view(x), j as int)) && i < j <= v@.len(),
            Err(e) => literal_at(v@, i as int) is Err && literal_at(v@, i as int)->Err_0 == e@,
        },
{
    if i >= v.len() {
        return Err(CypherError::Grammar { pos: i });
    }
    let c = v[i];
    if c == '{' {
        Err(CypherError::UnsupportedLiteral { pos: i })
    } else if c == '"' || c == '\'' {
        let e = scan_quote(v, i + 1, c);
        if e < v.len() {
            Ok((Some(Value::String(string_of(v, i + 1, e))), e + 1))
        } else {
            Err(CypherError::Grammar { pos: i })
        }
    } else if c == '-' || ('0' <= c && c <= '9') {
        parse_number(v, i)
    } else if label_start_char(c) {
        let e = scan_label(v, i + 1);
        proof {
            reveal_strlit("true");
            reveal_strlit("false");
            reveal_strlit("null");
            assert("true"@ =~= seq!['t', 'r', 'u', 'e']);
            assert("false"@ =~= seq!['f', 'a', 'l', 's', 'e']);
            assert("null"@ =~= seq!['n', 'u', 'l', 'l']);
        }
        if span_is(v, i, e, "true") {
            Ok((Some(Value::Bool(true)), e))
        } else if span_is(v, i, e, "false") {
            Ok((Some(Value::Bool(false)), e))
        } else if span_is(v, i, e, "null") {
            Ok((None, e))
        } else {
            Err(CypherError::Grammar { pos: i })
        }
    } else {
        Err(CypherError::Grammar { pos: i })
    }
}

fn parse_props(v: &Vec<char>, i: usize) -> (r: Result<(Properties, usize), CypherError>)
    requires
        i < v@.len(),
        v@[i as int] == '{',
    ensures
        match r {
            Ok((p, j)) => props_at(v@, i as int) == Ok::<_, ErrorV>((p@, j as int)) && keys_sorted(p@) && i < j
                <= v@.len(),
            Err(e) => props_at(v@, i as int) is Err && props_at(v@, i as int)->Err_0 == e@,
        },
{
    let len = v.len();
    let j = skip_spaces(v, i + 1);
    if j < len && v[j] == '}' {
        return Ok((Properties::new(), j + 1));
    }
    let mut props = Properties::new();
    let mut k = j;
    loop
        invariant
            i < j <= k <= v@.len(),
            keys_sorted(props@),
            props_at(v@, i as int) == pairs_at(v@, k as int, props@),
        decreases v@.len() - k,
    {
        if !(k < v.len() && label_start_char(v[k])) {
            return Err(CypherError::Grammar { pos: k });
        }
        let ke = scan_label(v, k + 1);
        let c = skip_spaces(v, ke);
        if !(c < v.len() && v[c] == ':') {
            return Err(CypherError::Grammar { pos: c });
        }
        let ls = skip_spaces(v, c + 1);
        match parse_literal(v, ls) {
            Err(e) => {
                return Err(e);
            },
            Ok((val, e)) => {
                let key = string_of(v, k, ke);
                props.insert(key, val);
                let n = skip_spaces(v, e);
                if n < v.len() && v[n] == ',' {
                    k = skip_spaces(v, n + 1);
                } else if n < v.len() && v[n] == '}' {
                    return Ok((props, n + 1));
                } else {
                    return Err(CypherError::Grammar { pos: n });
                }
            },
        }
    }
}

fn parse_body(v: &Vec<char>, i: usize) -> (r: Result<((String, Properties), usize), CypherError>)
    requires
        i <= v@.len(),
    ensures
        match r {
            Ok(((n, p), j)) => body_at(v@, i as int) == Ok::<_, ErrorV>(((n@, p@), j as int)) && keys_sorted(p@)
                && i < j <= v@.len(),
            Err(e) => body_at(v@, i as int) is Err && body_at(v@, i as int)->Err_0 == e@,
        },
{
    let a = skip_spaces(v, i);
    let b = if a < v.len() && v[a] == ':' {
        skip_spaces(v, a + 1)
    } else {
        a
    };
    if !(b < v.len() && label_start_char(v[b])) {
        return Err(CypherError::Grammar { pos: b });
    }
    let c = scan_label(v, b + 1);
    let name = string_of(v, b, c);
    let d = skip_spaces(v, c);
    if d < v.len() && v[d] == '{' {
        match parse_props(v, d) {
            Err(e) => Err(e),
            Ok((p, e)) => Ok(((name, p), skip_spaces(v, e))),
        }
    } else {
        let p = Properties::new();
        Ok(((name, p), d))
    }
}

fn parse_node(v: &Vec<char>, i: usize) -> (r: Result<(Node, usize), CypherError>)
    requires
        i <= v@.len(),
    ensures
        match r {
            Ok((n, j)) => node_at(v@, i as int) == Ok::<_, ErrorV>((n@, j as int)) && n.wf() && i < j <= v@.len(),
            Err(e) => node_at(v@, i as int) is Err && node_at(v@, i as int)->Err_0 == e@,
        },
{
    if !(i < v.len() && v[i] == '(') {
        return Err(CypherError::Grammar { pos: i });
    }
    match parse_body(v, i + 1) {
        Err(e) => Err(e),
        Ok(((name, props), f)) => {
            if !(f < v.len() && v[f] == ')') {
                return Err(CypherError::Grammar { pos: f });
            }
            match Node::new(name, props) {
                Some(n) => Ok((n, f + 1)),
                None => Err(CypherError::MissingPrimaryKey { pos: i }),
            }
        },
    }
}

fn parse_rel(v: &Vec<char>, i: usize) -> (r: Result<((bool, String, Properties), usize), CypherError>)
    requires
        i <= v@.len(),
    ensures
        match r {
            Ok(((right, n, p), j)) => rel_at(v@, i as int) == Ok::<_, ErrorV>(((right, n@, p@), j as int))
                && keys_sorted(p@) && i < j <= v@.len(),
            Err(e) => rel_at(v@, i as int) is Err && rel_at(v@, i as int)->Err_0 == e@,
        },
{
    let right = i < v.len() && v[i] == '-';
    let left = i < v.len() && i + 1 < v.len() && v[i] == '<' && v[i + 1] == '-';
    if !(right || left) {
        return Err(CypherError::Grammar { pos: i });
    }
    let a = if right { i + 1 } else { i + 2 };
    let b = skip_spaces(v, a);
    if !(b < v.len() && v[b] == '[') {
        return Err(CypherError::Grammar { pos: b });
    }
    match parse_body(v, b + 1) {
        Err(e) => Err(e),
        Ok(((name, props), c)) => {
            if !(c < v.len() && v[c] == ']') {
                return Err(CypherError::Grammar { pos: c });
            }
            let d = skip_spaces(v, c + 1);
            let dash = d < v.len() && v[d] == '-';
            let head = d < v.len() && d + 1 < v.len() && v[d + 1] == '>';
            if right && dash && head {
                Ok(((true, name, props), d + 2))
            } else if !right && dash && !head {
                Ok(((false, name, props), d + 1))
            } else {
                Err(CypherError::Grammar { pos: d })
            }
        },
    }
}

/// The triple whose edge runs from `from` to `to`.
fn make_triple(from: Node, name: String, props: Properties, to: Node) -> (r: Triple)
    requires
        from.wf(),
        to.wf(),
        keys_sorted(props@),
    ensures
        r@ == triple_of(from@, name@, props@, to@),
        r.wf(),
{
    let from_end = (from.name.clone(), from.get_primary_value().copy());
    let to_end = (to.name.clone(), to.get_primary_value().copy());
    let mut edge = Edge::new(name, from_end, to_end);
    if props.len() > 0 {
        edge.set_properties(props);
    }
    Triple::new(from, edge, to)
}

fn parse_statement(v: &Vec<char>, i: usize) -> (r: Result<(Triple, usize), CypherError>)
    requires
        i <= v@.len(),
    ensures
        match r {
            Ok((t, j)) => statement_at(v@, i as int) == Ok::<_, ErrorV>((t@, j as int)) && t.wf() && i < j <= v@.len(),
            Err(e) => statement_at(v@, i as int) is Err && statement_at(v@, i as int)->Err_0 == e@,
        },
{
    let (n1, a) = match parse_node(v, i) {
        Err(e) => {
            return Err(e);
        },
        Ok(x) => x,
    };
    let ((right, name, props), b) = match parse_rel(v, skip_spaces(v, a)) {
        Err(e) => {
            return Err(e);
        },
        Ok(x) => x,
    };
    let (n2, c) = match parse_node(v, skip_spaces(v, b)) {
        Err(e) => {
            return Err(e);
        },
        Ok(x) => x,
    };
    if right {
        Ok((make_triple(n1, name, props, n2), c))
    } else {
        Ok((make_triple(n2, name, props, n1), c))
    }
}

/// Parses a whole input into its statements, in order. Each statement
/// becomes a triple that runs in its arrow's direction; every node carries a
/// non-null `id`.
pub fn parse(input: &str) -> (r: Result<Vec<Triple>, CypherError>)
    ensures
        match r {
            Ok(ts) => parse_spec(input@) == Ok::<_, ErrorV>(ts@.map_values(|t: Triple| t@))
                && forall|k: int| 0 <= k < ts@.len() ==> (#[trigger] ts@[k]).wf(),
            Err(e) => parse_spec(input@) is Err && parse_spec(input@)->Err_0 == e@,
        },
{
    let v = chars_of(input);
    let mut triples: Vec<Triple> = Vec::new();
    let mut i: usize = 0;
    assert(triples@.map_values(|t: Triple| t@) =~= Seq::<TripleV>::empty());
    loop
        invariant
            i <= v@.len(),
            v@ == input@,
            parse_spec(input@) == statements_at(v@, i as int, triples@.map_values(|t: Triple| t@)),
            forall|k: int| 0 <= k < triples@.len() ==> (#[trigger] triples@[k]).wf(),
        decreases v@.len() - i,
    {
        let a = skip_spaces(&v, i);
        if a >= v.len() {
            return Ok(triples);
        }
        let (t, b) = match parse_statement(&v, a) {
            Err(e) => {
                return Err(e);
            },
            Ok(x) => x,
        };
        let ghost before = triples@.map_values(|t: Triple| t@);
        triples.push(t);
        assert(triples@.map_values(|t: Triple| t@) =~= before.push(t@));
        let c = skip_spaces(&v, b);
        if c >= v.len() {
            return Ok(triples);
        }
        if v[c] == ',' || v[c] == ';' {
            i = c + 1;
        } else {
            return Err(CypherError::Grammar { pos: c });
        }
    }
}
/// The number of line breaks in `s`.
pub open spec fn line_breaks(s: Seq<char>) -> nat
    decreases s.len(),
{
    if s.len() == 0 {
        0
    } else {
        line_breaks(s.drop_last()) + if s.last() == '\n' { 1nat } else { 0nat }
    }
}

proof fn lemma_line_breaks_bound(s: Seq<char>)
    ensures
        line_breaks(s) <= s.len(),
    decreases s.len(),
{
    if s.len() > 0 {
        lemma_line_breaks_bound(s.drop_last());
    }
}

/// The line, counted from 0, on which character `pos` of `input` stands:
/// the number of line breaks before it.
pub fn line_index(input: &str, pos: usize) -> (r: usize)
    ensures
        r == line_breaks(input@.subrange(0, if pos <= input@.len() { pos as int } else { input@.len() as int })),
{
    let v = chars_of(input);
    let end = if pos <= v.len() { pos } else { v.len() };
    let mut count: usize = 0;
    let mut i: usize = 0;
    assert(v@.subrange(0, 0) =~= Seq::<char>::empty());
    while i < end
        invariant
            i <= end <= v@.len(),
            v@ == input@,
            count == line_breaks(v@.subrange(0, i as int)),
        decreases end - i,
    {
        proof {
            let t = v@.subrange(0, i + 1);
            assert(t.drop_last() =~= v@.subrange(0, i as int));
            lemma_line_breaks_bound(v@.subrange(0, i as int));
        }
        if v[i] == '\n' {
            count = count + 1;
        }
        i = i + 1;
    }
    count
}

} // verus!
