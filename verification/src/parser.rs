//! Reading `.opb` text: a header `#variable= n #constraint= m`, then equations such as
//! `x + 2 a - 3 * b >= 1;`. Errors point at the line and column where reading stopped, listing
//! what was expected there.

use vstd::prelude::*;
use crate::opb::{OPBFile, Equation, EquationKind, Summand};
use crate::name_map::{name_pairs, name_map_new, name_map_get_by_left, name_map_insert, pairs_after_insert};
use vstd::string::{StringExecFns, StrSliceExecFns};
use crate::text::{decimal, push_char, push_chars, push_decimal, chars_of};

verus! {

// ---------------------------------------------------------------------------------------------
// Characters and the tokens built from them.

/// Spaces, tabs and line breaks separate tokens.
pub open spec fn is_ws(c: char) -> bool {
    c == ' ' || c == '\t' || c == '\r' || c == '\n'
}

pub open spec fn is_digit(c: char) -> bool {
    '0' <= c && c <= '9'
}

pub open spec fn is_sign(c: char) -> bool {
    c == '+' || c == '-'
}

/// Characters that end an unquoted variable name.
pub open spec fn is_special(c: char) -> bool {
    c == '+' || c == '-' || c == '*' || c == ';' || c == '=' || c == '<' || c == '>' || c == '!' || c == '#' || c == '"'
}

/// Characters an unquoted variable name consists of.
pub open spec fn is_name_char(c: char) -> bool {
    !is_ws(c) && !is_special(c)
}

/// The first position at or after `i` that is not whitespace.
pub open spec fn ws_end(s: Seq<char>, i: int) -> int
    decreases s.len() - i,
{
    if 0 <= i < s.len() && is_ws(s[i]) {
        ws_end(s, i + 1)
    } else {
        i
    }
}

/// The first position at or after `i` that is not a digit.
pub open spec fn digits_end(s: Seq<char>, i: int) -> int
    decreases s.len() - i,
{
    if 0 <= i < s.len() && is_digit(s[i]) {
        digits_end(s, i + 1)
    } else {
        i
    }
}

/// The first position at or after `i` that is not a name character.
pub open spec fn plain_name_end(s: Seq<char>, i: int) -> int
    decreases s.len() - i,
{
    if 0 <= i < s.len() && is_name_char(s[i]) {
        plain_name_end(s, i + 1)
    } else {
        i
    }
}

/// The first quote at or after `i`, or the end.
pub open spec fn quote_end(s: Seq<char>, i: int) -> int
    decreases s.len() - i,
{
    if 0 <= i < s.len() && s[i] != '"' {
        quote_end(s, i + 1)
    } else {
        i
    }
}

/// The end of the variable name that starts at `i`: a quoted name (quotes included), or a run of
/// name characters that does not start with a digit.
pub open spec fn name_end(s: Seq<char>, i: int) -> Option<int> {
    if 0 <= i < s.len() && s[i] == '"' {
        let q = quote_end(s, i + 1);
        if q < s.len() {
            Some(q + 1)
        } else {
            None
        }
    } else if 0 <= i < s.len() && is_name_char(s[i]) && !is_digit(s[i]) {
        Some(plain_name_end(s, i + 1))
    } else {
        None
    }
}

/// The value of the digits from `i` up to `j`.
pub open spec fn digits_value(s: Seq<char>, i: int, j: int) -> nat
    decreases j - i,
{
    if j <= i {
        0
    } else {
        digits_value(s, i, j - 1) * 10 + ((s[j - 1] as int) - ('0' as int)) as nat
    }
}

/// The text from `a` up to `b` consists of digits.
pub open spec fn digits_span(s: Seq<char>, a: int, b: int) -> bool {
    &&& 0 <= a <= b <= s.len()
    &&& forall|t: int| a <= t < b ==> is_digit(#[trigger] s[t])
}

// ---------------------------------------------------------------------------------------------
// The syntax tree: where the parts of each equation stand.

/// A summand: its sign, the span of its factor digits (if it has one) and the span of its name.
#[derive(Clone, Copy)]
pub struct SummandSyntax {
    pub negative: bool,
    pub has_factor: bool,
    pub factor_start: usize,
    pub factor_end: usize,
    pub name_start: usize,
    pub name_end: usize,
}

/// An equation: its summands, its relation, and where its right-hand side starts, whether it is
/// negative and the span of its digits.
pub struct EquationSyntax {
    pub summands: Vec<SummandSyntax>,
    pub kind: EquationKind,
    pub rhs_start: usize,
    pub rhs_negative: bool,
    pub digits_start: usize,
    pub digits_end: usize,
}

/// An equation of the syntax tree, as plain values.
pub type EquationTree = (Seq<SummandSyntax>, EquationKind, int, bool, int, int);

impl View for EquationSyntax {
    type V = (Seq<SummandSyntax>, EquationKind, int, bool, int, int);

    open spec fn view(&self) -> (Seq<SummandSyntax>, EquationKind, int, bool, int, int) {
        (self.summands@, self.kind, self.rhs_start as int, self.rhs_negative, self.digits_start as int, self.digits_end as int)
    }
}

/// The spans of a summand lie in the text, and its factor span holds digits.
pub open spec fn summand_ok(s: Seq<char>, sm: SummandSyntax) -> bool {
    &&& sm.has_factor ==> digits_span(s, sm.factor_start as int, sm.factor_end as int)
    &&& sm.name_start <= sm.name_end <= s.len()
}

/// The spans of an equation lie in the text, and its right-hand side's digit span holds digits.
pub open spec fn tree_ok(s: Seq<char>, e: EquationTree) -> bool {
    &&& forall|k: int| 0 <= k < e.0.len() ==> summand_ok(s, #[trigger] e.0[k])
    &&& digits_span(s, e.4, e.5)
    &&& 0 <= e.2 <= e.5
}

/// A failure: the position where reading stopped and the names of what was expected there.
pub type Failure = (int, Seq<Seq<char>>);

/// The summand after its sign (and the whitespace after it), starting at `i`: optional factor
/// digits, optionally followed by `*`, then a name.
pub open spec fn summand_body(s: Seq<char>, i: int, negative: bool) -> Result<(SummandSyntax, int), Failure> {
    let d = digits_end(s, i);
    if d > i {
        let j = ws_end(s, d);
        let k = if 0 <= j < s.len() && s[j] == '*' { ws_end(s, j + 1) } else { j };
        match name_end(s, k) {
            Some(e) => Ok((SummandSyntax {
                negative: negative,
                has_factor: true,
                factor_start: i as usize,
                factor_end: d as usize,
                name_start: k as usize,
                name_end: e as usize,
            }, e)),
            None => Err((k, seq!["var_name"@])),
        }
    } else {
        match name_end(s, i) {
            Some(e) => Ok((SummandSyntax {
                negative: negative,
                has_factor: false,
                factor_start: i as usize,
                factor_end: i as usize,
                name_start: i as usize,
                name_end: e as usize,
            }, e)),
            None => Err((i, seq!["factor_value"@, "var_name"@])),
        }
    }
}

/// The first summand of an equation, at `i`: its sign is optional, and a failure anywhere in it is
/// reported at its start.
pub open spec fn first_literal(s: Seq<char>, i: int) -> Result<(SummandSyntax, int), Failure> {
    let (negative, j) = if 0 <= i < s.len() && is_sign(s[i]) { (s[i] == '-', ws_end(s, i + 1)) } else { (false, i) };
    match summand_body(s, j, negative) {
        Ok(r) => Ok(r),
        Err(_) => Err((i, seq!["first_literal"@])),
    }
}

/// A further summand, at the sign `s[i]`.
pub open spec fn literal(s: Seq<char>, i: int) -> Result<(SummandSyntax, int), Failure> {
    summand_body(s, ws_end(s, i + 1), s[i] == '-')
}

/// The relation at `i` and the position after it.
pub open spec fn equation_kind(s: Seq<char>, i: int) -> Option<(EquationKind, int)> {
    if 0 <= i && i + 1 < s.len() && s[i] == '>' && s[i + 1] == '=' {
        Some((EquationKind::Ge, i + 2))
    } else if 0 <= i && i + 1 < s.len() && s[i] == '<' && s[i + 1] == '=' {
        Some((EquationKind::Le, i + 2))
    } else if 0 <= i && i + 1 < s.len() && s[i] == '!' && s[i + 1] == '=' {
        Some((EquationKind::NotEq, i + 2))
    } else if 0 <= i < s.len() && s[i] == '=' {
        Some((EquationKind::Eq, i + 1))
    } else if 0 <= i < s.len() && s[i] == '>' {
        Some((EquationKind::G, i + 1))
    } else if 0 <= i < s.len() && s[i] == '<' {
        Some((EquationKind::L, i + 1))
    } else {
        None
    }
}

/// The right-hand side at `i`: an optional sign, then digits. Gives whether it is negative and
/// the span of its digits.
pub open spec fn right_hand_side(s: Seq<char>, i: int) -> Result<(bool, int, int), Failure> {
    if 0 <= i < s.len() && is_sign(s[i]) {
        let j = ws_end(s, i + 1);
        let d = digits_end(s, j);
        if d > j {
            Ok((s[i] == '-', j, d))
        } else {
            Err((j, seq!["factor_value"@]))
        }
    } else {
        let d = digits_end(s, i);
        if d > i {
            Ok((false, i, d))
        } else {
            Err((i, seq!["factor_sign"@, "factor_value"@]))
        }
    }
}

/// The rest of an equation from `i`, after the summands `acc`: further summands, the relation,
/// the right-hand side and the closing `;`. Gives the equation and the position after it.
pub open spec fn equation_rest(s: Seq<char>, i: int, acc: Seq<SummandSyntax>) -> Result<(EquationTree, int), Failure>
    decreases s.len() - i,
{
    let q = ws_end(s, i);
    if 0 <= q < s.len() && is_sign(s[q]) {
        match literal(s, q) {
            Ok((sm, e)) => if i < e <= s.len() { equation_rest(s, e, acc.push(sm)) } else { Err((q, Seq::empty())) },
            Err(f) => Err(f),
        }
    } else {
        match equation_kind(s, q) {
            None => Err((q, seq!["factor_sign"@, "equation_kind"@])),
            Some((kind, k)) => {
                let t = ws_end(s, k);
                match right_hand_side(s, t) {
                    Err(f) => Err(f),
                    Ok((negative, ds, de)) => {
                        let u = ws_end(s, de);
                        if 0 <= u < s.len() && s[u] == ';' {
                            Ok(((acc, kind, t, negative, ds, de), u + 1))
                        } else {
                            Err((u, seq![";"@]))
                        }
                    },
                }
            },
        }
    }
}

/// The equation at `i` and the position after it.
pub open spec fn equation(s: Seq<char>, i: int) -> Result<(EquationTree, int), Failure> {
    match first_literal(s, i) {
        Ok((sm, e)) => equation_rest(s, e, seq![sm]),
        Err(f) => Err(f),
    }
}

/// The equations from `i` on, after those of `acc`, up to the end of the text (at least one
/// equation when `acc` is empty).
pub open spec fn equations_from(s: Seq<char>, i: int, acc: Seq<EquationTree>) -> Result<Seq<EquationTree>, Failure>
    decreases s.len() - i,
{
    let p = ws_end(s, i);
    if acc.len() > 0 && p >= s.len() {
        Ok(acc)
    } else {
        match equation(s, p) {
            Ok((e, end)) => if i < end <= s.len() { equations_from(s, end, acc.push(e)) } else { Err((p, Seq::empty())) },
            Err((q, names)) => if acc.len() > 0 && q == p { Err((p, names.push("EOI"@))) } else { Err((q, names)) },
        }
    }
}

/// Matches the word `w` at `i`.
pub open spec fn word_at(s: Seq<char>, i: int, w: Seq<char>) -> bool {
    0 <= i && i + w.len() <= s.len() && s.subrange(i, i + w.len()) == w
}

/// The header at `i`: `#variable=` and a number, then `#constraint=` and a number, with
/// whitespace allowed between the parts. Gives the spans of the two numbers and the position
/// after the header.
pub open spec fn header(s: Seq<char>, i: int) -> Result<(int, int, int, int, int), Failure> {
    let a0 = i;
    if !word_at(s, a0, seq!['#']) {
        Err((i, seq!["header"@]))
    } else {
        let a1 = ws_end(s, a0 + 1);
        if !word_at(s, a1, seq!['v', 'a', 'r', 'i', 'a', 'b', 'l', 'e']) {
            Err((i, seq!["header"@]))
        } else {
            let a2 = ws_end(s, a1 + 8);
            if !word_at(s, a2, seq!['=']) {
                Err((i, seq!["header"@]))
            } else {
                let v0 = ws_end(s, a2 + 1);
                let v1 = digits_end(s, v0);
                if v1 == v0 {
                    Err((v0, seq!["number_variables"@]))
                } else {
                    let b0 = ws_end(s, v1);
                    if !word_at(s, b0, seq!['#']) {
                        Err((i, seq!["header"@]))
                    } else {
                        let b1 = ws_end(s, b0 + 1);
                        if !word_at(s, b1, seq!['c', 'o', 'n', 's', 't', 'r', 'a', 'i', 'n', 't']) {
                            Err((i, seq!["header"@]))
                        } else {
                            let b2 = ws_end(s, b1 + 10);
                            if !word_at(s, b2, seq!['=']) {
                                Err((i, seq!["header"@]))
                            } else {
                                let c0 = ws_end(s, b2 + 1);
                                let c1 = digits_end(s, c0);
                                if c1 == c0 {
                                    Err((c0, seq!["number_constraints"@]))
                                } else {
                                    Ok((v0, v1, c0, c1, c1))
                                }
                            }
                        }
                    }
                }
            }
        }
    }
}

/// The syntax of a whole file: the spans of the header's two numbers and the equations.
pub open spec fn syntax(s: Seq<char>) -> Result<((int, int, int, int), Seq<EquationTree>), Failure> {
    match header(s, ws_end(s, 0)) {
        Err(f) => Err(f),
        Ok((v0, v1, c0, c1, end)) => match equations_from(s, end, Seq::empty()) {
            Err(f) => Err(f),
            Ok(eqs) => Ok(((v0, v1, c0, c1), eqs)),
        },
    }
}

// ---------------------------------------------------------------------------------------------
// From the syntax tree to the file's contents.

/// The name of a summand.
pub open spec fn name_of(s: Seq<char>, sm: SummandSyntax) -> Seq<char> {
    s.subrange(sm.name_start as int, sm.name_end as int)
}

/// The factor a summand's text gives: its digits (1 when it has none), negated after a `-`.
pub open spec fn factor_of(s: Seq<char>, sm: SummandSyntax) -> int {
    let v: int = if sm.has_factor { digits_value(s, sm.factor_start as int, sm.factor_end as int) as int } else { 1 };
    if sm.negative { -v } else { v }
}

/// A summand's factor digits do not fit in `i128`.
pub open spec fn factor_too_large(s: Seq<char>, sm: SummandSyntax) -> bool {
    sm.has_factor && digits_value(s, sm.factor_start as int, sm.factor_end as int) > i128::MAX
}

/// The summands from position `k` on, with the names seen so far (each with its index) and the
/// next free index. A new name takes the next index. Nothing comes out when a factor does not fit
/// in `i128` or the indices run out.
pub open spec fn walk_summands(
    s: Seq<char>,
    sms: Seq<SummandSyntax>,
    k: int,
    names: Map<Seq<char>, u32>,
    next: nat,
    out: Seq<Summand>,
) -> Option<(Map<Seq<char>, u32>, nat, Seq<Summand>)>
    decreases sms.len() - k,
{
    if k < 0 || k >= sms.len() {
        Some((names, next, out))
    } else {
        let sm = sms[k];
        let name = name_of(s, sm);
        let f = factor_of(s, sm) as i128;
        if factor_too_large(s, sm) {
            None
        } else if names.contains_key(name) {
            walk_summands(s, sms, k + 1, names, next, out.push(Summand { variable_index: names[name], factor: f, positive: true }))
        } else if next >= u32::MAX {
            None
        } else {
            walk_summands(s, sms, k + 1, names.insert(name, next as u32), next + 1,
                out.push(Summand { variable_index: next as u32, factor: f, positive: true }))
        }
    }
}

/// The equations from position `k` on. Gives the names, the next free index and the equations,
/// or the position of the first equation whose right-hand side does not fit in `i128`; nothing
/// comes out when `walk_summands` gives nothing.
pub open spec fn walk_equations(
    s: Seq<char>,
    eqs: Seq<EquationTree>,
    k: int,
    names: Map<Seq<char>, u32>,
    next: nat,
    out: Seq<(Seq<Summand>, i128, EquationKind)>,
) -> Option<Result<(Map<Seq<char>, u32>, nat, Seq<(Seq<Summand>, i128, EquationKind)>), int>>
    decreases eqs.len() - k,
{
    if k < 0 || k >= eqs.len() {
        Some(Ok((names, next, out)))
    } else {
        let e = eqs[k];
        match walk_summands(s, e.0, 0, names, next, Seq::empty()) {
            None => None,
            Some((names2, next2, summands)) => {
                let v = digits_value(s, e.4, e.5);
                if v > i128::MAX {
                    Some(Err(k))
                } else {
                    walk_equations(s, eqs, k + 1, names2, next2,
                        out.push((summands, (if e.3 { -v } else { v as int }) as i128, e.1)))
                }
            },
        }
    }
}

// ---------------------------------------------------------------------------------------------
// Error messages.

/// The number of line breaks before position `i`.
pub open spec fn newlines_before(s: Seq<char>, i: int) -> nat
    decreases i,
{
    if i <= 0 {
        0
    } else {
        newlines_before(s, i - 1) + if s[i - 1] == '\n' { 1nat } else { 0nat }
    }
}

/// The start of the line of position `i`.
pub open spec fn line_start(s: Seq<char>, i: int) -> int
    decreases i,
{
    if i <= 0 {
        0
    } else if s[i - 1] == '\n' {
        i
    } else {
        line_start(s, i - 1)
    }
}

/// The end of the line of position `i` (the position of its line break, or the end of the text).
pub open spec fn line_end(s: Seq<char>, i: int) -> int
    decreases s.len() - i,
{
    if i < 0 || i >= s.len() || s[i] == '\n' {
        i
    } else {
        line_end(s, i + 1)
    }
}

/// `n` spaces.
pub open spec fn spaces(n: nat) -> Seq<char> {
    Seq::new(n, |k: int| ' ')
}

/// The names of what was expected, joined: `a`, `a or b`, `a, b or c`, ...
pub open spec fn expected_list(names: Seq<Seq<char>>) -> Seq<char>
    decreases names.len(),
{
    if names.len() == 0 {
        Seq::empty()
    } else if names.len() == 1 {
        names[0]
    } else if names.len() == 2 {
        names[0] + " or "@ + names[1]
    } else {
        names[0] + ", "@ + expected_list(names.drop_first())
    }
}

/// The message for a failure at `pos`: the line and column, the line's text with a mark under the
/// column, and what was expected.
pub open spec fn error_message(s: Seq<char>, pos: int, names: Seq<Seq<char>>) -> Seq<char> {
    let ls = decimal(newlines_before(s, pos) + 1);
    let pad = spaces(ls.len());
    let start = line_start(s, pos);
    let col = pos - start + 1;
    "Parsing error! "@ + pad + "--> "@ + ls + ":"@ + decimal(col as nat) + "\n"@ + pad + " |\n"@ + ls + " | "@
        + s.subrange(start, line_end(s, pos)) + "\n"@ + pad + " | "@ + spaces((col - 1) as nat) + "^---\n"@ + pad
        + " |\n"@ + pad + " = expected "@ + expected_list(names)
}

/// A file's contents as plain values: the name pairs, the number of names, the equations, the
/// numbers of constraints and variables the header gives.
pub type FileContents = (Map<Seq<char>, u32>, u32, Seq<(Seq<Summand>, i128, EquationKind)>, usize, usize);

/// What reading the text `s` gives: the contents of the file or an error message; nothing when a
/// number of the header does not fit in `usize`, a factor does not fit in `i128`, or the names
/// outnumber the indices.
pub open spec fn parse_outcome(s: Seq<char>) -> Option<Result<FileContents, Seq<char>>> {
    match syntax(s) {
        Err((pos, names)) => Some(Err(error_message(s, pos, names))),
        Ok(((v0, v1, c0, c1), eqs)) => {
            let nv = digits_value(s, v0, v1);
            let nc = digits_value(s, c0, c1);
            if nv > usize::MAX || nc > usize::MAX {
                None
            } else {
                match walk_equations(s, eqs, 0, Map::empty(), 0, Seq::empty()) {
                    None => None,
                    Some(Err(k)) => Some(Err("Parsing error! "@ + s.subrange(eqs[k].2, eqs[k].5) + " is not a valid right hand side"@)),
                    Some(Ok((names, next, out))) => Some(Ok((names, next as u32, out, nc as usize, nv as usize))),
                }
            }
        },
    }
}

// ---------------------------------------------------------------------------------------------
// Reading, step by step as the specification above.

/// A failure as plain values.
pub open spec fn failure_view(f: (usize, Vec<&'static str>)) -> Failure {
    (f.0 as int, f.1@.map_values(|x: &'static str| x@))
}

/// A summand result as plain values.
pub open spec fn summand_result_view(r: Result<(SummandSyntax, usize), (usize, Vec<&'static str>)>) -> Result<(SummandSyntax, int), Failure> {
    match r {
        Ok((sm, e)) => Ok((sm, e as int)),
        Err(f) => Err(failure_view(f)),
    }
}

fn is_ws_exec(c: char) -> (r: bool)
    ensures
        r == is_ws(c),
{
    c == ' ' || c == '\t' || c == '\r' || c == '\n'
}

fn is_digit_exec(c: char) -> (r: bool)
    ensures
        r == is_digit(c),
{
    '0' <= c && c <= '9'
}

fn is_sign_exec(c: char) -> (r: bool)
    ensures
        r == is_sign(c),
{
    c == '+' || c == '-'
}

fn is_name_char_exec(c: char) -> (r: bool)
    ensures
        r == is_name_char(c),
{
    !is_ws_exec(c) && !(c == '+' || c == '-' || c == '*' || c == ';' || c == '=' || c == '<' || c == '>' || c == '!'
        || c == '#' || c == '"')
}

fn ws_end_exec(s: &Vec<char>, i: usize) -> (r: usize)
    requires
        i <= s@.len(),
    ensures
        r as int == ws_end(s@, i as int),
        i <= r <= s@.len(),
{
    let mut j = i;
    while j < s.len() && is_ws_exec(s[j])
        invariant
            i <= j <= s@.len(),
            ws_end(s@, j as int) == ws_end(s@, i as int),
        decreases s@.len() - j,
    {
        j = j + 1;
    }
    j
}

fn digits_end_exec(s: &Vec<char>, i: usize) -> (r: usize)
    requires
        i <= s@.len(),
    ensures
        r as int == digits_end(s@, i as int),
        i <= r <= s@.len(),
        digits_span(s@, i as int, r as int),
{
    let mut j = i;
    while j < s.len() && is_digit_exec(s[j])
        invariant
            i <= j <= s@.len(),
            digits_end(s@, j as int) == digits_end(s@, i as int),
            digits_span(s@, i as int, j as int),
        decreases s@.len() - j,
    {
        j = j + 1;
    }
    j
}

fn plain_name_end_exec(s: &Vec<char>, i: usize) -> (r: usize)
    requires
        i <= s@.len(),
    ensures
        r as int == plain_name_end(s@, i as int),
        i <= r <= s@.len(),
{
    let mut j = i;
    while j < s.len() && is_name_char_exec(s[j])
        invariant
            i <= j <= s@.len(),
            plain_name_end(s@, j as int) == plain_name_end(s@, i as int),
        decreases s@.len() - j,
    {
        j = j + 1;
    }
    j
}

fn quote_end_exec(s: &Vec<char>, i: usize) -> (r: usize)
    requires
        i <= s@.len(),
    ensures
        r as int == quote_end(s@, i as int),
        i <= r <= s@.len(),
{
    let mut j = i;
    while j < s.len() && s[j] != '"'
        invariant
            i <= j <= s@.len(),
            quote_end(s@, j as int) == quote_end(s@, i as int),
        decreases s@.len() - j,
    {
        j = j + 1;
    }
    j
}

fn name_end_exec(s: &Vec<char>, i: usize) -> (r: Option<usize>)
    requires
        i <= s@.len(),
    ensures
        match r {
            Some(e) => name_end(s@, i as int) == Some(e as int) && i < e <= s@.len(),
            None => name_end(s@, i as int) is None,
        },
{
    if i < s.len() && s[i] == '"' {
        let q = quote_end_exec(s, i + 1);
        if q < s.len() {
            Some(q + 1)
        } else {
            None
        }
    } else if i < s.len() && is_name_char_exec(s[i]) && !is_digit_exec(s[i]) {
        Some(plain_name_end_exec(s, i + 1))
    } else {
        None
    }
}

fn summand_body_exec(s: &Vec<char>, i: usize, negative: bool) -> (r: Result<(SummandSyntax, usize), (usize, Vec<&'static str>)>)
    requires
        i <= s@.len(),
    ensures
        summand_result_view(r) == summand_body(s@, i as int, negative),
        r matches Ok((sm, e)) ==> i < e <= s@.len() && summand_ok(s@, sm),
        r matches Err((q, _)) ==> q <= s@.len(),
{
    let d = digits_end_exec(s, i);
    if d > i {
        let j = ws_end_exec(s, d);
        let k = if j < s.len() && s[j] == '*' { ws_end_exec(s, j + 1) } else { j };
        match name_end_exec(s, k) {
            Some(e) => Ok((SummandSyntax {
                negative: negative,
                has_factor: true,
                factor_start: i,
                factor_end: d,
                name_start: k,
                name_end: e,
            }, e)),
            None => {
                let names = vec!["var_name"];
                proof {
                    assert(names@.map_values(|x: &'static str| x@) =~= seq!["var_name"@]);
                }
                Err((k, names))
            },
        }
    } else {
        match name_end_exec(s, i) {
            Some(e) => Ok((SummandSyntax {
                negative: negative,
                has_factor: false,
                factor_start: i,
                factor_end: i,
                name_start: i,
                name_end: e,
            }, e)),
            None => {
                let names = vec!["factor_value", "var_name"];
                proof {
                    assert(names@.map_values(|x: &'static str| x@) =~= seq!["factor_value"@, "var_name"@]);
                }
                Err((i, names))
            },
        }
    }
}

fn first_literal_exec(s: &Vec<char>, i: usize) -> (r: Result<(SummandSyntax, usize), (usize, Vec<&'static str>)>)
    requires
        i <= s@.len(),
    ensures
        summand_result_view(r) == first_literal(s@, i as int),
        r matches Ok((sm, e)) ==> i < e <= s@.len() && summand_ok(s@, sm),
        r matches Err((q, _)) ==> q <= s@.len(),
{
    let (negative, j) = if i < s.len() && is_sign_exec(s[i]) { (s[i] == '-', ws_end_exec(s, i + 1)) } else { (false, i) };
    match summand_body_exec(s, j, negative) {
        Ok(r) => Ok(r),
        Err(_) => {
            let names = vec!["first_literal"];
            proof {
                assert(names@.map_values(|x: &'static str| x@) =~= seq!["first_literal"@]);
            }
            Err((i, names))
        },
    }
}

fn literal_exec(s: &Vec<char>, i: usize) -> (r: Result<(SummandSyntax, usize), (usize, Vec<&'static str>)>)
    requires
        i < s@.len(),
    ensures
        summand_result_view(r) == literal(s@, i as int),
        r matches Ok((sm, e)) ==> i < e <= s@.len() && summand_ok(s@, sm),
        r matches Err((q, _)) ==> q <= s@.len(),
{
    let n = s.len();
    let j = ws_end_exec(s, i + 1);
    summand_body_exec(s, j, s[i] == '-')
}

fn equation_kind_exec(s: &Vec<char>, i: usize) -> (r: Option<(EquationKind, usize)>)
    requires
        i <= s@.len(),
    ensures
        match r {
            Some((kind, e)) => equation_kind(s@, i as int) == Some((kind, e as int)) && i < e <= s@.len(),
            None => equation_kind(s@, i as int) is None,
        },
{
    let n = s.len();
    if i < n && i + 1 < n && s[i] == '>' && s[i + 1] == '=' {
        Some((EquationKind::Ge, i + 2))
    } else if i < n && i + 1 < n && s[i] == '<' && s[i + 1] == '=' {
        Some((EquationKind::Le, i + 2))
    } else if i < n && i + 1 < n && s[i] == '!' && s[i + 1] == '=' {
        Some((EquationKind::NotEq, i + 2))
    } else if i < n && s[i] == '=' {
        Some((EquationKind::Eq, i + 1))
    } else if i < n && s[i] == '>' {
        Some((EquationKind::G, i + 1))
    } else if i < n && s[i] == '<' {
        Some((EquationKind::L, i + 1))
    } else {
        None
    }
}

fn right_hand_side_exec(s: &Vec<char>, i: usize) -> (r: Result<(bool, usize, usize), (usize, Vec<&'static str>)>)
    requires
        i <= s@.len(),
    ensures
        match r {
            Ok((negative, ds, de)) => right_hand_side(s@, i as int) == Ok::<(bool, int, int), Failure>((negative, ds as int, de as int))
                && i <= ds < de <= s@.len() && digits_span(s@, ds as int, de as int),
            Err(f) => right_hand_side(s@, i as int) == Err::<(bool, int, int), Failure>(failure_view(f)) && f.0 <= s@.len(),
        },
{
    if i < s.len() && is_sign_exec(s[i]) {
        let j = ws_end_exec(s, i + 1);
        let d = digits_end_exec(s, j);
        if d > j {
            Ok((s[i] == '-', j, d))
        } else {
            let names = vec!["factor_value"];
            proof {
                assert(names@.map_values(|x: &'static str| x@) =~= seq!["factor_value"@]);
            }
            Err((j, names))
        }
    } else {
        let d = digits_end_exec(s, i);
        if d > i {
            Ok((false, i, d))
        } else {
            let names = vec!["factor_sign", "factor_value"];
            proof {
                assert(names@.map_values(|x: &'static str| x@) =~= seq!["factor_sign"@, "factor_value"@]);
            }
            Err((i, names))
        }
    }
}

/// An equation result as plain values.
pub open spec fn equation_result_view(r: Result<(EquationSyntax, usize), (usize, Vec<&'static str>)>) -> Result<(EquationTree, int), Failure> {
    match r {
        Ok((e, end)) => Ok((e@, end as int)),
        Err(f) => Err(failure_view(f)),
    }
}

fn equation_exec(s: &Vec<char>, i: usize) -> (r: Result<(EquationSyntax, usize), (usize, Vec<&'static str>)>)
    requires
        i <= s@.len(),
    ensures
        equation_result_view(r) == equation(s@, i as int),
        r matches Ok((eq, e)) ==> i < e <= s@.len() && tree_ok(s@, eq@),
        r matches Err((q, _)) ==> q <= s@.len(),
{
    match first_literal_exec(s, i) {
        Err(f) => Err(f),
        Ok((first, e)) => {
            let mut summands: Vec<SummandSyntax> = Vec::new();
            summands.push(first);
            let mut pos = e;
            proof {
                assert(summands@ =~= seq![first]);
            }
            loop
                invariant
                    i < pos <= s@.len(),
                    equation(s@, i as int) == equation_rest(s@, pos as int, summands@),
                    forall|k: int| 0 <= k < summands@.len() ==> summand_ok(s@, #[trigger] summands@[k]),
                decreases s@.len() - pos,
            {
                let q = ws_end_exec(s, pos);
                if q < s.len() && is_sign_exec(s[q]) {
                    match literal_exec(s, q) {
                        Ok((sm, e2)) => {
                            let ghost before = summands@;
                            summands.push(sm);
                            pos = e2;
                            proof {
                                assert forall|k: int| 0 <= k < summands@.len() implies summand_ok(s@, #[trigger] summands@[k]) by {
                                    if k < before.len() {
                                        assert(summands@[k] == before[k]);
                                    }
                                }
                            }
                        },
                        Err(f) => {
                            return Err(f);
                        },
                    }
                } else {
                    match equation_kind_exec(s, q) {
                        None => {
                            let names = vec!["factor_sign", "equation_kind"];
                            proof {
                                assert(names@.map_values(|x: &'static str| x@) =~= seq!["factor_sign"@, "equation_kind"@]);
                            }
                            return Err((q, names));
                        },
                        Some((kind, k)) => {
                            let t = ws_end_exec(s, k);
                            match right_hand_side_exec(s, t) {
                                Err(f) => {
                                    return Err(f);
                                },
                                Ok((negative, ds, de)) => {
                                    let u = ws_end_exec(s, de);
                                    if u < s.len() && s[u] == ';' {
                                        let eq = EquationSyntax {
                                            summands: summands,
                                            kind: kind,
                                            rhs_start: t,
                                            rhs_negative: negative,
                                            digits_start: ds,
                                            digits_end: de,
                                        };
                                        return Ok((eq, u + 1));
                                    } else {
                                        let names = vec![";"];
                                        proof {
                                            assert(names@.map_values(|x: &'static str| x@) =~= seq![";"@]);
                                        }
                                        return Err((u, names));
                                    }
                                },
                            }
                        },
                    }
                }
            }
        },
    }
}

/// The equations of a tree as plain values.
pub open spec fn trees_view(eqs: Seq<EquationSyntax>) -> Seq<EquationTree> {
    eqs.map_values(|e: EquationSyntax| e@)
}

fn equations_exec(s: &Vec<char>, start: usize) -> (r: Result<Vec<EquationSyntax>, (usize, Vec<&'static str>)>)
    requires
        start <= s@.len(),
    ensures
        match r {
            Ok(eqs) => equations_from(s@, start as int, Seq::empty()) == Ok::<Seq<EquationTree>, Failure>(trees_view(eqs@))
                && forall|k: int| 0 <= k < eqs@.len() ==> tree_ok(s@, (#[trigger] eqs@[k])@),
            Err(f) => equations_from(s@, start as int, Seq::empty()) == Err::<Seq<EquationTree>, Failure>(failure_view(f))
                && f.0 <= s@.len(),
        },
{
    let mut eqs: Vec<EquationSyntax> = Vec::new();
    let mut pos = start;
    proof {
        assert(trees_view(eqs@) =~= Seq::<EquationTree>::empty());
    }
    loop
        invariant
            pos <= s@.len(),
            equations_from(s@, start as int, Seq::empty()) == equations_from(s@, pos as int, trees_view(eqs@)),
            forall|k: int| 0 <= k < eqs@.len() ==> tree_ok(s@, (#[trigger] eqs@[k])@),
        decreases s@.len() - pos,
    {
        let p = ws_end_exec(s, pos);
        if eqs.len() > 0 && p >= s.len() {
            return Ok(eqs);
        }
        match equation_exec(s, p) {
            Ok((e, end)) => {
                let ghost before = eqs@;
                eqs.push(e);
                proof {
                    assert(trees_view(eqs@) =~= trees_view(before).push(e@));
                    assert forall|k: int| 0 <= k < eqs@.len() implies tree_ok(s@, (#[trigger] eqs@[k])@) by {
                        if k < before.len() {
                            assert(eqs@[k] == before[k]);
                        }
                    }
                }
                pos = end;
            },
            Err((q, names)) => {
                if eqs.len() > 0 && q == p {
                    let mut names = names;
                    let ghost before = names@;
                    names.push("EOI");
                    proof {
                        assert(names@.map_values(|x: &'static str| x@) =~= before.map_values(|x: &'static str| x@).push("EOI"@));
                    }
                    return Err((p, names));
                }
                return Err((q, names));
            },
        }
    }
}

/// Whether the characters of `w` stand at `i`.
fn word_at_exec(s: &Vec<char>, i: usize, w: &Vec<char>) -> (r: bool)
    ensures
        r == word_at(s@, i as int, w@),
{
    if i > s.len() || w.len() > s.len() - i {
        return false;
    }
    let mut k: usize = 0;
    while k < w.len()
        invariant
            i + w@.len() <= s@.len(),
            s@.len() <= usize::MAX,
            0 <= k <= w@.len(),
            forall|t: int| 0 <= t < k ==> s@[i + t] == w@[t],
        decreases w@.len() - k,
    {
        if s[i + k] != w[k] {
            proof {
                assert(s@.subrange(i as int, i + w@.len())[k as int] != w@[k as int]);
            }
            return false;
        }
        k = k + 1;
    }
    proof {
        assert(s@.subrange(i as int, i + w@.len()) =~= w@);
    }
    true
}

/// A header result as plain values.
pub open spec fn header_result_view(r: Result<(usize, usize, usize, usize, usize), (usize, Vec<&'static str>)>) -> Result<(int, int, int, int, int), Failure> {
    match r {
        Ok((a, b, c, d, e)) => Ok((a as int, b as int, c as int, d as int, e as int)),
        Err(f) => Err(failure_view(f)),
    }
}

fn header_failure(i: usize) -> (r: (usize, Vec<&'static str>))
    ensures
        failure_view(r) == (i as int, seq!["header"@]),
{
    let names = vec!["header"];
    proof {
        assert(names@.map_values(|x: &'static str| x@) =~= seq!["header"@]);
    }
    (i, names)
}

fn header_exec(s: &Vec<char>, i: usize) -> (r: Result<(usize, usize, usize, usize, usize), (usize, Vec<&'static str>)>)
    requires
        i <= s@.len(),
    ensures
        header_result_view(r) == header(s@, i as int),
        r matches Ok((v0, v1, c0, c1, e)) ==> e <= s@.len() && digits_span(s@, v0 as int, v1 as int)
            && digits_span(s@, c0 as int, c1 as int),
        r matches Err((q, _)) ==> q <= s@.len(),
{
    let n = s.len();
    let hash = vec!['#'];
    let equals = vec!['='];
    let variable = vec!['v', 'a', 'r', 'i', 'a', 'b', 'l', 'e'];
    let constraint = vec!['c', 'o', 'n', 's', 't', 'r', 'a', 'i', 'n', 't'];
    proof {
        assert(hash@ =~= seq!['#']);
        assert(equals@ =~= seq!['=']);
        assert(variable@ =~= seq!['v', 'a', 'r', 'i', 'a', 'b', 'l', 'e']);
        assert(constraint@ =~= seq!['c', 'o', 'n', 's', 't', 'r', 'a', 'i', 'n', 't']);
    }
    if !word_at_exec(s, i, &hash) {
        return Err(header_failure(i));
    }
    let a1 = ws_end_exec(s, i + 1);
    if !word_at_exec(s, a1, &variable) {
        return Err(header_failure(i));
    }
    let a2 = ws_end_exec(s, a1 + 8);
    if !word_at_exec(s, a2, &equals) {
        return Err(header_failure(i));
    }
    let v0 = ws_end_exec(s, a2 + 1);
    let v1 = digits_end_exec(s, v0);
    if v1 == v0 {
        let names = vec!["number_variables"];
        proof {
            assert(names@.map_values(|x: &'static str| x@) =~= seq!["number_variables"@]);
        }
        return Err((v0, names));
    }
    let b0 = ws_end_exec(s, v1);
    if !word_at_exec(s, b0, &hash) {
        return Err(header_failure(i));
    }
    let b1 = ws_end_exec(s, b0 + 1);
    if !word_at_exec(s, b1, &constraint) {
        return Err(header_failure(i));
    }
    let b2 = ws_end_exec(s, b1 + 10);
    if !word_at_exec(s, b2, &equals) {
        return Err(header_failure(i));
    }
    let c0 = ws_end_exec(s, b2 + 1);
    let c1 = digits_end_exec(s, c0);
    if c1 == c0 {
        let names = vec!["number_constraints"];
        proof {
            assert(names@.map_values(|x: &'static str| x@) =~= seq!["number_constraints"@]);
        }
        return Err((c0, names));
    }
    Ok((v0, v1, c0, c1, c1))
}

fn syntax_exec(s: &Vec<char>) -> (r: Result<((usize, usize, usize, usize), Vec<EquationSyntax>), (usize, Vec<&'static str>)>)
    ensures
        match r {
            Ok((h, eqs)) => {
                &&& syntax(s@) == Ok::<((int, int, int, int), Seq<EquationTree>), Failure>(
                    ((h.0 as int, h.1 as int, h.2 as int, h.3 as int), trees_view(eqs@)))
                &&& digits_span(s@, h.0 as int, h.1 as int)
                &&& digits_span(s@, h.2 as int, h.3 as int)
                &&& forall|k: int| 0 <= k < eqs@.len() ==> tree_ok(s@, (#[trigger] eqs@[k])@)
            },
            Err(f) => syntax(s@) == Err::<((int, int, int, int), Seq<EquationTree>), Failure>(failure_view(f))
                && f.0 <= s@.len(),
        },
{
    let start = ws_end_exec(s, 0);
    match header_exec(s, start) {
        Err(f) => Err(f),
        Ok((v0, v1, c0, c1, end)) => match equations_exec(s, end) {
            Err(f) => Err(f),
            Ok(eqs) => Ok(((v0, v1, c0, c1), eqs)),
        },
    }
}

/// A longer run of digits is worth at least as much.
proof fn lemma_digits_value_mono(s: Seq<char>, a: int, j: int, b: int)
    requires
        a <= j <= b,
    ensures
        digits_value(s, a, j) <= digits_value(s, a, b),
    decreases b - j,
{
    if j < b {
        lemma_digits_value_mono(s, a, j, b - 1);
    }
}

/// The value of the digits from `a` up to `b`, when it fits in `u128`.
fn digits_to_u128(s: &Vec<char>, a: usize, b: usize) -> (r: Option<u128>)
    requires
        digits_span(s@, a as int, b as int),
    ensures
        match r {
            Some(v) => v == digits_value(s@, a as int, b as int),
            None => digits_value(s@, a as int, b as int) > u128::MAX,
        },
{
    let mut value: u128 = 0;
    let mut j = a;
    while j < b
        invariant
            a <= j <= b,
            digits_span(s@, a as int, b as int),
            value == digits_value(s@, a as int, j as int),
        decreases b - j,
    {
        let c = s[j];
        proof {
            assert(is_digit(s@[j as int]));
        }
        let d = (c as u32 - '0' as u32) as u128;
        match value.checked_mul(10) {
            None => {
                proof {
                    lemma_digits_value_mono(s@, a as int, j + 1, b as int);
                }
                return None;
            },
            Some(m) => match m.checked_add(d) {
                None => {
                    proof {
                        lemma_digits_value_mono(s@, a as int, j + 1, b as int);
                    }
                    return None;
                },
                Some(v) => {
                    value = v;
                },
            },
        }
        j = j + 1;
    }
    Some(value)
}

/// The characters from `a` up to `b` as a string.
fn string_of(s: &Vec<char>, a: usize, b: usize) -> (r: String)
    requires
        a <= b <= s@.len(),
    ensures
        r@ == s@.subrange(a as int, b as int),
{
    let mut r = String::new();
    let mut j = a;
    while j < b
        invariant
            a <= j <= b <= s@.len(),
            r@ == s@.subrange(a as int, j as int),
        decreases b - j,
    {
        push_char(&mut r, s[j]);
        j = j + 1;
        proof {
            assert(r@ =~= s@.subrange(a as int, j as int));
        }
    }
    r
}

/// Appends `n` spaces.
fn push_spaces(m: &mut String, n: usize)
    ensures
        final(m)@ == old(m)@ + spaces(n as nat),
{
    let mut k: usize = 0;
    while k < n
        invariant
            0 <= k <= n,
            m@ == old(m)@ + spaces(k as nat),
        decreases n - k,
    {
        push_char(m, ' ');
        k = k + 1;
        proof {
            assert(m@ =~= old(m)@ + spaces(k as nat));
        }
    }
}

/// Appends the names from position `from` on, joined as `expected_list` joins them.
fn push_expected(m: &mut String, names: &Vec<&'static str>, from: usize)
    requires
        from <= names@.len(),
    ensures
        final(m)@ == old(m)@ + expected_list(names@.map_values(|x: &'static str| x@).skip(from as int)),
    decreases names@.len() - from,
{
    let ghost v = names@.map_values(|x: &'static str| x@).skip(from as int);
    let len = names.len();
    if from == len {
        assert(v.len() == 0);
    } else if len - from == 1 {
        m.append(names[from]);
    } else if len - from == 2 {
        m.append(names[from]);
        m.append(" or ");
        m.append(names[from + 1]);
        proof {
            assert(old(m)@ + names[from as int]@ + " or "@ + names[from + 1]@ =~= old(m)@ + (v[0] + " or "@ + v[1]));
        }
    } else {
        m.append(names[from]);
        m.append(", ");
        let ghost mid = m@;
        push_expected(m, names, from + 1);
        proof {
            assert(v.drop_first() =~= names@.map_values(|x: &'static str| x@).skip(from + 1));
            assert(m@ =~= old(m)@ + (v[0] + ", "@ + expected_list(v.drop_first())));
        }
    }
}

/// The message for a failure at `pos`.
fn error_message_exec(s: &Vec<char>, pos: usize, names: &Vec<&'static str>) -> (r: String)
    requires
        pos <= s@.len(),
    ensures
        r@ == error_message(s@, pos as int, names@.map_values(|x: &'static str| x@)),
{
    let mut newlines: usize = 0;
    let mut start: usize = 0;
    let mut k: usize = 0;
    while k < pos
        invariant
            0 <= k <= pos <= s@.len(),
            newlines == newlines_before(s@, k as int),
            start == line_start(s@, k as int),
            newlines <= k,
            start <= k,
        decreases pos - k,
    {
        if s[k] == '\n' {
            newlines = newlines + 1;
            start = k + 1;
        }
        k = k + 1;
    }
    let mut end = pos;
    while end < s.len() && s[end] != '\n'
        invariant
            pos <= end <= s@.len(),
            line_end(s@, end as int) == line_end(s@, pos as int),
        decreases s@.len() - end,
    {
        end = end + 1;
    }
    let mut line_number = String::new();
    push_decimal(&mut line_number, (newlines as u128) + 1);
    let pad = line_number.as_str().unicode_len();
    let before_col = pos - start;
    let line_text = string_of(s, start, end);
    let mut m = String::new();
    m.append("Parsing error! ");
    push_spaces(&mut m, pad);
    m.append("--> ");
    m.append(line_number.as_str());
    m.append(":");
    push_decimal(&mut m, (before_col as u128) + 1);
    m.append("\n");
    push_spaces(&mut m, pad);
    m.append(" |\n");
    m.append(line_number.as_str());
    m.append(" | ");
    m.append(line_text.as_str());
    m.append("\n");
    push_spaces(&mut m, pad);
    m.append(" | ");
    push_spaces(&mut m, before_col);
    m.append("^---\n");
    push_spaces(&mut m, pad);
    m.append(" |\n");
    push_spaces(&mut m, pad);
    m.append(" = expected ");
    push_expected(&mut m, names, 0);
    proof {
        assert(names@.map_values(|x: &'static str| x@).skip(0) =~= names@.map_values(|x: &'static str| x@));
    }
    m
}

/// The contents of a file as plain values.
pub open spec fn file_contents(f: OPBFile) -> FileContents {
    (name_pairs(f.name_map), f.max_name_index, f.equations@.map_values(|e: Equation| e@), f.number_constraints, f.number_variables)
}


/// Every name is paired with an index below `next`.
pub open spec fn indices_below(names: Map<Seq<char>, u32>, next: nat) -> bool {
    forall|l: Seq<char>| #[trigger] names.contains_key(l) ==> (names[l] as nat) < next
}

/// No two names share an index.
pub open spec fn one_to_one(names: Map<Seq<char>, u32>) -> bool {
    forall|l1: Seq<char>, l2: Seq<char>| names.contains_key(l1) && names.contains_key(l2)
        && #[trigger] names[l1] == #[trigger] names[l2] ==> l1 == l2
}

/// Every index below `next` is paired with a name.
pub open spec fn indices_named(names: Map<Seq<char>, u32>, next: nat) -> bool {
    forall|i: u32| (i as nat) < next ==> #[trigger] index_named(names, i)
}

/// The index `i` is paired with a name.
pub open spec fn index_named(names: Map<Seq<char>, u32>, i: u32) -> bool {
    exists|l: Seq<char>| names.contains_key(l) && names[l] == i
}

/// Inserting a new name with the next free index drops no pair.
proof fn lemma_insert_fresh(names: Map<Seq<char>, u32>, name: Seq<char>, next: u32)
    requires
        indices_below(names, next as nat),
        indices_named(names, next as nat),
        !names.contains_key(name),
    ensures
        pairs_after_insert(names, name, next) == names.insert(name, next),
        indices_below(names.insert(name, next), next as nat + 1),
        indices_named(names.insert(name, next), next as nat + 1),
        one_to_one(names) ==> one_to_one(names.insert(name, next)),
{
    assert(pairs_after_insert(names, name, next) =~= names.insert(name, next));
    let m = names.insert(name, next);
    assert forall|i: u32| (i as nat) < next as nat + 1 implies #[trigger] index_named(m, i) by {
        if i == next {
            assert(m.contains_key(name) && m[name] == i);
        } else {
            assert(index_named(names, i));
            let l = choose|l: Seq<char>| names.contains_key(l) && names[l] == i;
            assert(l != name);
            assert(m.contains_key(l) && m[l] == i);
        }
    }
}

/// Reads the summands `sms` of one equation: each name is looked up in `file`'s names, and a new
/// name takes the next free index.
fn walk_summands_exec(s: &Vec<char>, sms: &Vec<SummandSyntax>, file: &mut OPBFile) -> (r: Option<Vec<Summand>>)
    requires
        forall|k: int| 0 <= k < sms@.len() ==> summand_ok(s@, #[trigger] sms@[k]),
        indices_below(name_pairs(old(file).name_map), old(file).max_name_index as nat),
        indices_named(name_pairs(old(file).name_map), old(file).max_name_index as nat),
        one_to_one(name_pairs(old(file).name_map)),
    ensures
        final(file).equations@ == old(file).equations@,
        one_to_one(name_pairs(final(file).name_map)),
        indices_named(name_pairs(final(file).name_map), final(file).max_name_index as nat),
        final(file).number_constraints == old(file).number_constraints,
        final(file).number_variables == old(file).number_variables,
        old(file).max_name_index <= final(file).max_name_index,
        indices_below(name_pairs(final(file).name_map), final(file).max_name_index as nat),
        match r {
            Some(out) => {
                &&& walk_summands(s@, sms@, 0, name_pairs(old(file).name_map), old(file).max_name_index as nat, Seq::empty())
                    == Some((name_pairs(final(file).name_map), final(file).max_name_index as nat, out@))
                &&& forall|j: int| 0 <= j < out@.len()
                    ==> (#[trigger] out@[j]).variable_index < final(file).max_name_index && out@[j].positive
            },
            None => walk_summands(s@, sms@, 0, name_pairs(old(file).name_map), old(file).max_name_index as nat, Seq::empty())
                is None,
        },
{
    let ghost names0 = name_pairs(file.name_map);
    let ghost next0 = file.max_name_index as nat;
    let mut out: Vec<Summand> = Vec::new();
    let mut k: usize = 0;
    while k < sms.len()
        invariant
            0 <= k <= sms@.len(),
            forall|k2: int| 0 <= k2 < sms@.len() ==> summand_ok(s@, #[trigger] sms@[k2]),
            file.equations@ == old(file).equations@,
            file.number_constraints == old(file).number_constraints,
            file.number_variables == old(file).number_variables,
            old(file).max_name_index <= file.max_name_index,
            names0 == name_pairs(old(file).name_map),
            next0 == old(file).max_name_index as nat,
            indices_below(name_pairs(file.name_map), file.max_name_index as nat),
            indices_named(name_pairs(file.name_map), file.max_name_index as nat),
            one_to_one(name_pairs(file.name_map)),
            walk_summands(s@, sms@, 0, names0, next0, Seq::empty())
                == walk_summands(s@, sms@, k as int, name_pairs(file.name_map), file.max_name_index as nat, out@),
            forall|j: int| 0 <= j < out@.len() ==> (#[trigger] out@[j]).variable_index < file.max_name_index && out@[j].positive,
        decreases sms@.len() - k,
    {
        let sm = sms[k];
        proof {
            assert(summand_ok(s@, sms@[k as int]));
        }
        let mut magnitude: i128 = 1;
        if sm.has_factor {
            match digits_to_u128(s, sm.factor_start, sm.factor_end) {
                None => {
                    return None;
                },
                Some(v) => {
                    if v > 170141183460469231731687303715884105727u128 {
                        return None;
                    }
                    magnitude = v as i128;
                },
            }
        }
        let factor: i128 = if sm.negative { -magnitude } else { magnitude };
        assert(factor as int == factor_of(s@, sm));
        let name = string_of(s, sm.name_start, sm.name_end);
        let ghost names = name_pairs(file.name_map);
        let index: u32;
        match name_map_get_by_left(&file.name_map, name.as_str()) {
            Some(i) => {
                index = i;
            },
            None => {
                if file.max_name_index == 4294967295u32 {
                    return None;
                }
                index = file.max_name_index;
                proof {
                    lemma_insert_fresh(names, name@, index);
                }
                name_map_insert(&mut file.name_map, name, index);
                file.max_name_index = file.max_name_index + 1;
            },
        }
        let ghost before = out@;
        out.push(Summand { variable_index: index, factor: factor, positive: true });
        k = k + 1;
        proof {
            assert forall|j: int| 0 <= j < out@.len() implies (#[trigger] out@[j]).variable_index < file.max_name_index
                && out@[j].positive by {
                if j < before.len() {
                    assert(out@[j] == before[j]);
                }
            }
        }
    }
    Some(out)
}

/// Reads the equations `eqs` into `file`, which holds no equation yet. Gives the position of the
/// first equation whose right-hand side does not fit in `i128`, if any.
fn walk_equations_exec(s: &Vec<char>, eqs: &Vec<EquationSyntax>, file: &mut OPBFile) -> (r: Option<Result<(), usize>>)
    requires
        forall|k: int| 0 <= k < eqs@.len() ==> tree_ok(s@, (#[trigger] eqs@[k])@),
        indices_below(name_pairs(old(file).name_map), old(file).max_name_index as nat),
        indices_named(name_pairs(old(file).name_map), old(file).max_name_index as nat),
        one_to_one(name_pairs(old(file).name_map)),
        old(file).equations@.len() == 0,
    ensures
        final(file).number_constraints == old(file).number_constraints,
        one_to_one(name_pairs(final(file).name_map)),
        final(file).number_variables == old(file).number_variables,
        match r {
            None => walk_equations(s@, trees_view(eqs@), 0, name_pairs(old(file).name_map),
                old(file).max_name_index as nat, Seq::empty()) is None,
            Some(Err(k)) => k < eqs@.len() && walk_equations(s@, trees_view(eqs@), 0, name_pairs(old(file).name_map),
                old(file).max_name_index as nat, Seq::empty()) == Some(
                Err::<(Map<Seq<char>, u32>, nat, Seq<(Seq<Summand>, i128, EquationKind)>), int>(k as int)),
            Some(Ok(())) => {
                &&& walk_equations(s@, trees_view(eqs@), 0, name_pairs(old(file).name_map),
                    old(file).max_name_index as nat, Seq::empty()) == Some(
                    Ok::<(Map<Seq<char>, u32>, nat, Seq<(Seq<Summand>, i128, EquationKind)>), int>((
                        name_pairs(final(file).name_map),
                        final(file).max_name_index as nat,
                        final(file).equations@.map_values(|e: Equation| e@),
                    )))
                &&& indices_in_range(*final(file))
                &&& indices_named(name_pairs(final(file).name_map), final(file).max_name_index as nat)
            },
        },
{
    let ghost names0 = name_pairs(file.name_map);
    let ghost next0 = file.max_name_index as nat;
    let ghost trees = trees_view(eqs@);
    proof {
        assert(file.equations@.map_values(|e: Equation| e@) =~= Seq::<(Seq<Summand>, i128, EquationKind)>::empty());
    }
    let mut k: usize = 0;
    while k < eqs.len()
        invariant
            0 <= k <= eqs@.len(),
            trees == trees_view(eqs@),
            forall|k2: int| 0 <= k2 < eqs@.len() ==> tree_ok(s@, (#[trigger] eqs@[k2])@),
            file.number_constraints == old(file).number_constraints,
            file.number_variables == old(file).number_variables,
            names0 == name_pairs(old(file).name_map),
            next0 == old(file).max_name_index as nat,
            indices_below(name_pairs(file.name_map), file.max_name_index as nat),
            indices_named(name_pairs(file.name_map), file.max_name_index as nat),
            one_to_one(name_pairs(file.name_map)),
            walk_equations(s@, trees, 0, names0, next0, Seq::empty())
                == walk_equations(s@, trees, k as int, name_pairs(file.name_map), file.max_name_index as nat,
                    file.equations@.map_values(|e: Equation| e@)),
            indices_in_range(*file),
        decreases eqs@.len() - k,
    {
        let e = &eqs[k];
        proof {
            assert(tree_ok(s@, eqs@[k as int]@));
            assert(trees[k as int] == e@);
        }
        let ghost before = *file;
        let lhs = match walk_summands_exec(s, &e.summands, file) {
            None => {
                return None;
            },
            Some(out) => out,
        };
        let value = match digits_to_u128(s, e.digits_start, e.digits_end) {
            None => {
                return Some(Err(k));
            },
            Some(v) => v,
        };
        if value > 170141183460469231731687303715884105727u128 {
            return Some(Err(k));
        }
        let rhs: i128 = if e.rhs_negative { -(value as i128) } else { value as i128 };
        let ghost views = file.equations@.map_values(|x: Equation| x@);
        file.equations.push(Equation { lhs: lhs, rhs: rhs, kind: e.kind });
        k = k + 1;
        proof {
            assert(file.equations@.map_values(|x: Equation| x@) =~= views.push((lhs@, rhs, e.kind)));
            assert forall|i: int, j: int| 0 <= i < file.equations@.len() && 0 <= j < file.equations@[i].lhs@.len()
                implies (#[trigger] file.equations@[i].lhs@[j]).variable_index < file.max_name_index
                && file.equations@[i].lhs@[j].positive by {
                if i < before.equations@.len() {
                    assert(file.equations@[i] == before.equations@[i]);
                }
            }
        }
    }
    Some(Ok(()))
}

/// Every summand of the file is a positive literal of a variable below `max_name_index`.
pub open spec fn indices_in_range(f: OPBFile) -> bool {
    forall|i: int, j: int| 0 <= i < f.equations@.len() && 0 <= j < f.equations@[i].lhs@.len()
        ==> (#[trigger] f.equations@[i].lhs@[j]).variable_index < f.max_name_index && f.equations@[i].lhs@[j].positive
}

/// Reads the text `content`: the file, or the message of the first error; nothing on the inputs
/// `parse_outcome` gives nothing for.
pub fn try_parse(content: &str) -> (r: Option<Result<OPBFile, String>>)
    ensures
        match r {
            None => parse_outcome(content@) is None,
            Some(Ok(f)) => parse_outcome(content@) == Some(Ok::<FileContents, Seq<char>>(file_contents(f)))
                && indices_in_range(f) && indices_named(name_pairs(f.name_map), f.max_name_index as nat)
                && one_to_one(name_pairs(f.name_map)),
            Some(Err(m)) => parse_outcome(content@) == Some(Err::<FileContents, Seq<char>>(m@)),
        },
{
    let s = chars_of(content);
    match syntax_exec(&s) {
        Err((pos, names)) => Some(Err(error_message_exec(&s, pos, &names))),
        Ok(((v0, v1, c0, c1), eqs)) => {
            proof {
                assert(syntax(content@) == Ok::<((int, int, int, int), Seq<EquationTree>), Failure>(
                    ((v0 as int, v1 as int, c0 as int, c1 as int), trees_view(eqs@))));
            }
            let nv = match digits_to_u128(&s, v0, v1) {
                None => {
                    assert(parse_outcome(content@) is None);
                    return None;
                },
                Some(v) => v,
            };
            let nc = match digits_to_u128(&s, c0, c1) {
                None => {
                    assert(parse_outcome(content@) is None);
                    return None;
                },
                Some(v) => v,
            };
            if nv > usize::MAX as u128 || nc > usize::MAX as u128 {
                assert(parse_outcome(content@) is None);
                return None;
            }
            let mut file = OPBFile::new();
            file.number_variables = nv as usize;
            file.number_constraints = nc as usize;
            proof {
                assert(indices_below(name_pairs(file.name_map), 0));
                assert(indices_named(name_pairs(file.name_map), 0));
                assert(name_pairs(file.name_map) =~= Map::<Seq<char>, u32>::empty());
            }
            match walk_equations_exec(&s, &eqs, &mut file) {
                None => {
                    assert(parse_outcome(content@) is None);
                    None
                },
                Some(Err(k)) => {
                    let e = &eqs[k];
                    proof {
                        assert(tree_ok(s@, eqs@[k as int]@));
                    }
                    let mut m = String::new();
                    m.append("Parsing error! ");
                    let text = string_of(&s, e.rhs_start, e.digits_end);
                    m.append(text.as_str());
                    m.append(" is not a valid right hand side");
                    proof {
                        assert(trees_view(eqs@)[k as int] == e@);
                    }
                    Some(Err(m))
                },
                Some(Ok(())) => Some(Ok(file)),
            }
        },
    }
}

/// Reads an `.opb` text: the header, then the equations, giving each new variable name the next
/// free index. On malformed text, the message names the line and column where reading stopped
/// and what was expected there.
pub fn parse(content: &str) -> (r: Result<OPBFile, String>)
    requires
        parse_outcome(content@) is Some,
    ensures
        match r {
            Ok(f) => parse_outcome(content@) == Some(Ok::<FileContents, Seq<char>>(file_contents(f)))
                && indices_in_range(f) && indices_named(name_pairs(f.name_map), f.max_name_index as nat)
                && one_to_one(name_pairs(f.name_map)),
            Err(m) => parse_outcome(content@) == Some(Err::<FileContents, Seq<char>>(m@)),
        },
{
    match try_parse(content) {
        Some(r) => r,
        None => {
            assert(false);
            Err(String::new())
        },
    }
}

} // verus!
