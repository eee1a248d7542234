//! The formula language: a prefix-notation arithmetic grammar over integer
//! literals and cell references,
//!
//! ```text
//! formula   := "=" expr
//! expr      := op WS term (WS term)+
//!             | "(" op WS term (WS term)+ ")"
//! op        := "add" | "sub" | "mul" | "div"
//! term      := "(" expr ")" | cell | int
//! cell      := alpha+ digit+
//! int       := "-"? digit+
//! ```
//!
//! Nested expressions are parenthesized; whitespace separates tokens. An
//! unknown operator word still parses (it fails later, during evaluation,
//! with an operator error). The meaning of the grammar is given by the
//! `spec_*` functions below, and the executable parser returns exactly what
//! they describe.

use vstd::prelude::*;

use crate::position::CellPos;
use crate::text::{
    alpha_of, digits_val, is_alpha, is_digit, is_ws, spec_alpha_end, spec_digit_end, spec_skip_ws,
};

verus! {

/// An evaluation or parse failure; each kind has a display sentinel.
#[derive(Debug, PartialEq, Eq, Structural, Clone, Copy)]
pub enum LangError {
    ParseError,
    OpError,
    CellError,
    RefError,
    CycleError,
}

/// The display sentinel stored in place of a computed value.
pub open spec fn sentinel(e: LangError) -> Seq<char> {
    match e {
        LangError::ParseError => "#PARSE_ERR"@,
        LangError::OpError => "#OP_ERR"@,
        LangError::CellError => "#CELL_ERR"@,
        LangError::RefError => "#REF_ERR"@,
        LangError::CycleError => "#CYCLE_ERR"@,
    }
}

impl LangError {
    /// The sentinel text for this error.
    pub fn text(&self) -> (r: &'static str)
        ensures
            r@ == sentinel(*self),
    {
        match self {
            LangError::ParseError => "#PARSE_ERR",
            LangError::OpError => "#OP_ERR",
            LangError::CellError => "#CELL_ERR",
            LangError::RefError => "#REF_ERR",
            LangError::CycleError => "#CYCLE_ERR",
        }
    }
}

/// An operator keyword. A word in operator position that is none of the four
/// known keywords parses as `Unknown` and is rejected at evaluation time.
#[derive(Debug, PartialEq, Eq, Structural, Clone, Copy)]
pub enum Operation {
    Add,
    Sub,
    Mul,
    Div,
    Unknown,
}

/// The terms of an application, in source order.
pub enum ExprList {
    Empty,
    More(Box<Expr>, Box<ExprList>),
}

/// A parsed formula body.
///
/// A `Lit` holds `None` when the literal's digits overflow the signed 32-bit
/// range (evaluating it gives a cell error). A `Cell` holds `None` when a
/// coordinate overflows the machine's index range: such a cell can never be
/// in the store, so evaluating it gives a reference error, as for any other
/// absent cell.
pub enum Expr {
    Lit(Option<i32>),
    Cell(Option<CellPos>),
    Call(Operation, Box<ExprList>),
}

/// The number of terms in a list.
pub open spec fn list_len(l: ExprList) -> nat
    decreases l,
{
    match l {
        ExprList::Empty => 0,
        ExprList::More(_, t) => 1 + list_len(*t),
    }
}

/// The column index of an alphabetic cell prefix: the sum over positions `i`
/// (from the left) of `(digit - 10) + 26 * i`, where `A`..`Z` are the base-36
/// digits 10..35.
pub open spec fn alpha_val(s: Seq<char>) -> int
    decreases s.len(),
{
    if s.len() == 0 {
        0
    } else {
        alpha_val(s.drop_last()) + (alpha_of(s.last()) - 10) + 26 * (s.len() - 1)
    }
}

/// The operator for a keyword; anything but the four known words is `Unknown`.
pub open spec fn op_of(w: Seq<char>) -> Operation {
    if w =~= seq!['a', 'd', 'd'] {
        Operation::Add
    } else if w =~= seq!['s', 'u', 'b'] {
        Operation::Sub
    } else if w =~= seq!['m', 'u', 'l'] {
        Operation::Mul
    } else if w =~= seq!['d', 'i', 'v'] {
        Operation::Div
    } else {
        Operation::Unknown
    }
}

/// The literal for a sign and digit run: `None` when out of the 32-bit range.
pub open spec fn mk_lit(neg: bool, digits: Seq<char>) -> Option<i32> {
    let v = if neg { -digits_val(digits) } else { digits_val(digits) };
    if i32::MIN <= v <= i32::MAX {
        Some(v as i32)
    } else {
        None
    }
}

/// The cell for an alphabetic prefix and digit suffix: `None` when either
/// coordinate overflows the index range.
pub open spec fn mk_cell(alpha: Seq<char>, digits: Seq<char>) -> Option<CellPos> {
    let col = alpha_val(alpha);
    let row = digits_val(digits);
    if col <= usize::MAX && row <= usize::MAX {
        Some(CellPos { x: col as usize, y: row as usize })
    } else {
        None
    }
}

broadcast use crate::text::lemma_skip_ws_bounds, crate::text::lemma_alpha_end_bounds, crate::text::lemma_digit_end_bounds;


/// An expression at `i`: a bare application body, or a parenthesized one.
pub open spec fn spec_expr(s: Seq<char>, i: int) -> Option<(Expr, int)>
    decreases s.len() - i, 3int,
    when 0 <= i <= s.len()
{
    if i < s.len() && s[i] == '(' {
        spec_paren(s, i)
    } else {
        spec_body(s, i)
    }
}

/// A parenthesized application: `"(" op WS term (WS term)+ ")"`.
pub open spec fn spec_paren(s: Seq<char>, i: int) -> Option<(Expr, int)>
    decreases s.len() - i, 1int,
    when 0 <= i <= s.len()
{
    if i < s.len() && s[i] == '(' {
        match spec_body(s, spec_skip_ws(s, i + 1)) {
            None => None,
            Some((e, k)) => {
                let m = spec_skip_ws(s, k);
                if m < s.len() && s[m] == ')' {
                    Some((e, m + 1))
                } else {
                    None
                }
            },
        }
    } else {
        None
    }
}

/// An application body: an operator word, then at least two terms.
pub open spec fn spec_body(s: Seq<char>, i: int) -> Option<(Expr, int)>
    decreases s.len() - i, 1int,
    when 0 <= i <= s.len()
{
    let w = spec_alpha_end(s, i);
    if w == i {
        None
    } else {
        match spec_terms(s, w) {
            None => None,
            Some((list, k)) => {
                if list_len(list) >= 2 {
                    Some((Expr::Call(op_of(s.subrange(i, w)), Box::new(list)), k))
                } else {
                    None
                }
            },
        }
    }
}

/// The terms that follow position `i`, each preceded by whitespace. The list
/// ends where no further term can start; the returned position is the end of
/// the last term. A term always moves the position forward; the bound in the
/// recursion makes that evident to the termination check.
pub open spec fn spec_terms(s: Seq<char>, i: int) -> Option<(ExprList, int)>
    decreases s.len() - i, 0int,
    when 0 <= i <= s.len()
{
    let j = spec_skip_ws(s, i);
    if j > i && j < s.len() && s[j] != ')' {
        match spec_term(s, j) {
            None => None,
            Some((t, k0)) => {
                let k = if k0 > j { k0 } else { j + 1 };
                if k <= s.len() {
                    match spec_terms(s, k) {
                        None => None,
                        Some((rest, m)) => Some((ExprList::More(Box::new(t), Box::new(rest)), m)),
                    }
                } else {
                    None
                }
            },
        }
    } else {
        Some((ExprList::Empty, i))
    }
}

/// A single term: a parenthesized expression, a cell reference, or an
/// integer literal.
pub open spec fn spec_term(s: Seq<char>, j: int) -> Option<(Expr, int)>
    decreases s.len() - j, 2int,
    when 0 <= j <= s.len()
{
    if j >= s.len() {
        None
    } else if s[j] == '(' {
        spec_paren(s, j)
    } else if is_alpha(s[j]) {
        let a = spec_alpha_end(s, j);
        let d = spec_digit_end(s, a);
        if d == a {
            None
        } else {
            Some((Expr::Cell(mk_cell(s.subrange(j, a), s.subrange(a, d))), d))
        }
    } else if s[j] == '-' {
        let d = spec_digit_end(s, j + 1);
        if d == j + 1 {
            None
        } else {
            Some((Expr::Lit(mk_lit(true, s.subrange(j + 1, d))), d))
        }
    } else if is_digit(s[j]) {
        let d = spec_digit_end(s, j);
        Some((Expr::Lit(mk_lit(false, s.subrange(j, d))), d))
    } else {
        None
    }
}

/// The meaning of a whole formula: `=` followed by one expression and
/// nothing else but whitespace.
pub open spec fn spec_parse(s: Seq<char>) -> Option<Expr> {
    if s.len() == 0 || s[0] != '=' {
        None
    } else {
        match spec_expr(s, spec_skip_ws(s, 1)) {
            None => None,
            Some((e, k)) => {
                if spec_skip_ws(s, k) == s.len() {
                    Some(e)
                } else {
                    None
                }
            },
        }
    }
}

/// The cells an expression references, in source order, duplicates kept.
pub open spec fn expr_refs(e: Expr) -> Seq<CellPos>
    decreases e,
{
    match e {
        Expr::Lit(_) => Seq::empty(),
        Expr::Cell(c) => match c {
            None => Seq::empty(),
            Some(p) => seq![p],
        },
        Expr::Call(_, list) => list_refs(*list),
    }
}

/// The cells referenced anywhere in a term list, in source order.
pub open spec fn list_refs(l: ExprList) -> Seq<CellPos>
    decreases l,
{
    match l {
        ExprList::Empty => Seq::empty(),
        ExprList::More(h, t) => expr_refs(*h) + list_refs(*t),
    }
}

/// How an executable parse result must relate to a specified one: same
/// success, same tree, same end position, and the position moved forward.
pub open spec fn parses_to(r: Option<(Expr, usize)>, m: Option<(Expr, int)>, i: int, len: int) -> bool {
    match r {
        None => m is None,
        Some((e, j)) => m == Some((e, j as int)) && i < j <= len,
    }
}

/// As `parses_to`, for a term list (which may be empty and stand still).
pub open spec fn list_parses_to(r: Option<(ExprList, usize)>, m: Option<(ExprList, int)>, i: int, len: int) -> bool {
    match r {
        None => m is None,
        Some((l, j)) => m == Some((l, j as int)) && i <= j <= len,
    }
}

/// First non-whitespace position at or after `i`.
fn skip_ws(s: &Vec<char>, i: usize) -> (r: usize)
    requires
        i <= s@.len(),
    ensures
        r == spec_skip_ws(s@, i as int),
        i <= r <= s@.len(),
    decreases s@.len() - i,
{
    if i < s.len() && (s[i] == ' ' || s[i] == '\t') {
        skip_ws(s, i + 1)
    } else {
        i
    }
}

/// End of the letter run starting at `i`.
fn alpha_end(s: &Vec<char>, i: usize) -> (r: usize)
    requires
        i <= s@.len(),
    ensures
        r == spec_alpha_end(s@, i as int),
        i <= r <= s@.len(),
    decreases s@.len() - i,
{
    if i < s.len() && ((s[i] >= 'a' && s[i] <= 'z') || (s[i] >= 'A' && s[i] <= 'Z')) {
        alpha_end(s, i + 1)
    } else {
        i
    }
}

/// End of the digit run starting at `i`.
fn digit_end(s: &Vec<char>, i: usize) -> (r: usize)
    requires
        i <= s@.len(),
    ensures
        r == spec_digit_end(s@, i as int),
        i <= r <= s@.len(),
    decreases s@.len() - i,
{
    if i < s.len() && s[i] >= '0' && s[i] <= '9' {
        digit_end(s, i + 1)
    } else {
        i
    }
}

/// The column index for the letter run `s[from..to]`, or `None` when it
/// overflows the index range.
fn alpha_value(s: &Vec<char>, from: usize, to: usize) -> (r: Option<usize>)
    requires
        from <= to <= s@.len(),
        forall|q: int| from <= q < to ==> is_alpha(#[trigger] s@[q]),
    ensures
        ({
            let v = alpha_val(s@.subrange(from as int, to as int));
            match r {
                Some(c) => c == v,
                None => v > usize::MAX,
            }
        }),
{
    let ghost whole = s@.subrange(from as int, to as int);
    let mut acc: usize = 0;
    let mut i: usize = from;
    proof {
        assert(whole.subrange(0, 0) =~= Seq::<char>::empty());
    }
    while i < to
        invariant
            from <= i <= to <= s@.len(),
            whole == s@.subrange(from as int, to as int),
            forall|q: int| from <= q < to ==> is_alpha(#[trigger] s@[q]),
            acc == alpha_val(whole.subrange(0, i - from)),
        decreases to - i,
    {
        let c = s[i];
        assert(c == whole[i - from]);
        let cv = c as u32;
        assert(cv == c as int);
        let dig: u32 = if c >= 'a' && c <= 'z' {
            cv - 'a' as u32 + 10
        } else {
            cv - 'A' as u32 + 10
        };
        assert(dig == alpha_of(c));
        // step = (digit - 10) + 26 * (i - from)
        let posn = i - from;
        if posn > (usize::MAX - (dig as usize - 10)) / 26 {
            // the positional weight alone exceeds the index range
            proof {
                let g = whole.subrange(0, i - from + 1);
                assert(g.drop_last() =~= whole.subrange(0, i - from));
                assert(g.last() == whole[i - from]);
                lemma_alpha_val_monotone(whole, i - from + 1);
            }
            return None;
        }
        let step = (dig as usize - 10) + 26 * posn;
        if acc > usize::MAX - step {
            proof {
                let g = whole.subrange(0, i - from + 1);
                assert(g.drop_last() =~= whole.subrange(0, i - from));
                assert(g.last() == whole[i - from]);
                lemma_alpha_val_monotone(whole, i - from + 1);
            }
            return None;
        }
        acc = acc + step;
        i = i + 1;
        proof {
            let g = whole.subrange(0, i - from);
            assert(g.drop_last() =~= whole.subrange(0, i - from - 1));
            assert(g.last() == whole[i - from - 1]);
        }
    }
    proof {
        assert(whole.subrange(0, to - from) =~= whole);
    }
    Some(acc)
}

/// Once a prefix of an all-letter run exceeds any bound, the whole run does:
/// every later summand is non-negative.
proof fn lemma_alpha_val_monotone(s: Seq<char>, i: int)
    requires
        0 <= i <= s.len(),
        forall|q: int| 0 <= q < s.len() ==> is_alpha(#[trigger] s[q]),
    ensures
        alpha_val(s) >= alpha_val(s.subrange(0, i)),
    decreases s.len() - i,
{
    if i < s.len() {
        lemma_alpha_val_monotone(s, i + 1);
        let g = s.subrange(0, i + 1);
        assert(g.drop_last() =~= s.subrange(0, i));
        assert(g.last() == s[i]);
        assert(alpha_of(s[i]) - 10 >= 0);
    } else {
        assert(s.subrange(0, i) =~= s);
    }
}

/// The row index for the digit run `s[from..to]`, or `None` when it
/// overflows the index range.
fn digits_value(s: &Vec<char>, from: usize, to: usize) -> (r: Option<usize>)
    requires
        from <= to <= s@.len(),
        forall|q: int| from <= q < to ==> is_digit(#[trigger] s@[q]),
    ensures
        ({
            let v = digits_val(s@.subrange(from as int, to as int));
            match r {
                Some(c) => c == v,
                None => v > usize::MAX,
            }
        }),
{
    let ghost whole = s@.subrange(from as int, to as int);
    let mut acc: usize = 0;
    let mut i: usize = from;
    proof {
        assert(whole.subrange(0, 0) =~= Seq::<char>::empty());
    }
    while i < to
        invariant
            from <= i <= to <= s@.len(),
            whole == s@.subrange(from as int, to as int),
            forall|q: int| from <= q < to ==> is_digit(#[trigger] s@[q]),
            acc == digits_val(whole.subrange(0, i - from)),
        decreases to - i,
    {
        let c = s[i];
        assert(c == whole[i - from]);
        let cv = c as u32;
        assert(cv == c as int);
        let dig: usize = (cv - '0' as u32) as usize;
        assert(dig == crate::text::digit_of(c));
        if acc > usize::MAX / 10 || (acc == usize::MAX / 10 && dig > usize::MAX % 10) {
            proof {
                let g = whole.subrange(0, i - from + 1);
                assert(g.drop_last() =~= whole.subrange(0, i - from));
                assert(g.last() == whole[i - from]);
                lemma_digits_val_monotone(whole, i - from + 1);
                assert(digits_val(whole.subrange(0, i - from + 1)) == acc * 10 + dig);
            }
            return None;
        }
        acc = acc * 10 + dig;
        i = i + 1;
        proof {
            let g = whole.subrange(0, i - from);
            assert(g.drop_last() =~= whole.subrange(0, i - from - 1));
            assert(g.last() == whole[i - from - 1]);
        }
    }
    proof {
        assert(whole.subrange(0, to - from) =~= whole);
    }
    Some(acc)
}

/// As digits are appended, the value of an all-digit run never decreases.
proof fn lemma_digits_val_monotone(s: Seq<char>, i: int)
    requires
        0 <= i <= s.len(),
        forall|q: int| 0 <= q < s.len() ==> is_digit(#[trigger] s[q]),
    ensures
        digits_val(s) >= digits_val(s.subrange(0, i)),
        digits_val(s.subrange(0, i)) >= 0,
    decreases s.len() - i,
{
    lemma_digits_val_nonneg_sub(s, i);
    if i < s.len() {
        lemma_digits_val_monotone(s, i + 1);
        let g = s.subrange(0, i + 1);
        assert(g.drop_last() =~= s.subrange(0, i));
        assert(g.last() == s[i]);
        assert(digits_val(g) == digits_val(s.subrange(0, i)) * 10 + crate::text::digit_of(s[i]));
        assert(digits_val(s.subrange(0, i)) * 10 >= digits_val(s.subrange(0, i)));
    } else {
        assert(s.subrange(0, i) =~= s);
    }
}

/// A prefix of an all-digit run has a non-negative value.
proof fn lemma_digits_val_nonneg_sub(s: Seq<char>, i: int)
    requires
        0 <= i <= s.len(),
        forall|q: int| 0 <= q < s.len() ==> is_digit(#[trigger] s[q]),
    ensures
        digits_val(s.subrange(0, i)) >= 0,
    decreases i,
{
    if i > 0 {
        lemma_digits_val_nonneg_sub(s, i - 1);
        let g = s.subrange(0, i);
        assert(g.drop_last() =~= s.subrange(0, i - 1));
        assert(is_digit(g.last()));
        assert(digits_val(g.drop_last()) * 10 >= 0);
    } else {
        assert(s.subrange(0, 0) =~= Seq::<char>::empty());
    }
}

/// The operator keyword written at `s[from..to]`.
fn op_value(s: &Vec<char>, from: usize, to: usize) -> (r: Operation)
    requires
        from <= to <= s@.len(),
    ensures
        r == op_of(s@.subrange(from as int, to as int)),
{
    let ghost w = s@.subrange(from as int, to as int);
    if to - from == 3 {
        let c0 = s[from];
        let c1 = s[from + 1];
        let c2 = s[from + 2];
        assert(c0 == w[0] && c1 == w[1] && c2 == w[2]);
        if c0 == 'a' && c1 == 'd' && c2 == 'd' {
            assert(w =~= seq!['a', 'd', 'd']);
            Operation::Add
        } else if c0 == 's' && c1 == 'u' && c2 == 'b' {
            assert(w =~= seq!['s', 'u', 'b']);
            Operation::Sub
        } else if c0 == 'm' && c1 == 'u' && c2 == 'l' {
            assert(w =~= seq!['m', 'u', 'l']);
            Operation::Mul
        } else if c0 == 'd' && c1 == 'i' && c2 == 'v' {
            assert(w =~= seq!['d', 'i', 'v']);
            Operation::Div
        } else {
            proof { lemma_op_of_other(w); }
            Operation::Unknown
        }
    } else {
        proof { lemma_op_of_other(w); }
        Operation::Unknown
    }
}

/// A word that differs from each keyword in length or in some position is
/// not a keyword.
proof fn lemma_op_of_other(w: Seq<char>)
    requires
        w.len() != 3 || !((w[0] == 'a' && w[1] == 'd' && w[2] == 'd') || (w[0] == 's' && w[1]
            == 'u' && w[2] == 'b') || (w[0] == 'm' && w[1] == 'u' && w[2] == 'l') || (w[0] == 'd'
            && w[1] == 'i' && w[2] == 'v')),
    ensures
        op_of(w) == Operation::Unknown,
{
}

/// Parses an expression at `i`: a bare or parenthesized application.
fn p_expr(s: &Vec<char>, i: usize) -> (r: Option<(Expr, usize)>)
    requires
        i <= s@.len(),
    ensures
        parses_to(r, spec_expr(s@, i as int), i as int, s@.len() as int),
    decreases s@.len() - i, 3int,
{
    if i < s.len() && s[i] == '(' {
        p_paren(s, i)
    } else {
        p_body(s, i)
    }
}

/// Parses a parenthesized application at `i`.
fn p_paren(s: &Vec<char>, i: usize) -> (r: Option<(Expr, usize)>)
    requires
        i <= s@.len(),
    ensures
        parses_to(r, spec_paren(s@, i as int), i as int, s@.len() as int),
    decreases s@.len() - i, 1int,
{
    if i < s.len() && s[i] == '(' {
        let j = skip_ws(s, i + 1);
        match p_body(s, j) {
            None => None,
            Some((e, k)) => {
                let m = skip_ws(s, k);
                if m < s.len() && s[m] == ')' {
                    Some((e, m + 1))
                } else {
                    None
                }
            },
        }
    } else {
        None
    }
}

/// Parses an application body at `i`: an operator word, then two or more
/// terms.
fn p_body(s: &Vec<char>, i: usize) -> (r: Option<(Expr, usize)>)
    requires
        i <= s@.len(),
    ensures
        parses_to(r, spec_body(s@, i as int), i as int, s@.len() as int),
    decreases s@.len() - i, 1int,
{
    let w = alpha_end(s, i);
    if w == i {
        None
    } else {
        let op = op_value(s, i, w);
        match p_terms(s, w) {
            None => None,
            Some((list, k)) => {
                if at_least_two(&list) {
                    Some((Expr::Call(op, Box::new(list)), k))
                } else {
                    None
                }
            },
        }
    }
}

/// Whether a term list has at least two entries.
fn at_least_two(l: &ExprList) -> (r: bool)
    ensures
        r == (list_len(*l) >= 2),
{
    match l {
        ExprList::More(_, t) => match &**t {
            ExprList::More(_, _) => {
                assert(list_len(**t) >= 1);
                true
            },
            ExprList::Empty => {
                assert(list_len(**t) == 0);
                false
            },
        },
        ExprList::Empty => false,
    }
}

/// Parses the whitespace-separated terms that follow `i`.
fn p_terms(s: &Vec<char>, i: usize) -> (r: Option<(ExprList, usize)>)
    requires
        i <= s@.len(),
    ensures
        list_parses_to(r, spec_terms(s@, i as int), i as int, s@.len() as int),
    decreases s@.len() - i, 0int,
{
    let j = skip_ws(s, i);
    if j > i && j < s.len() && s[j] != ')' {
        match p_term(s, j) {
            None => None,
            Some((t, k)) => {
                match p_terms(s, k) {
                    None => None,
                    Some((rest, m)) => Some((ExprList::More(Box::new(t), Box::new(rest)), m)),
                }
            },
        }
    } else {
        Some((ExprList::Empty, i))
    }
}

/// Parses one term at `j`.
fn p_term(s: &Vec<char>, j: usize) -> (r: Option<(Expr, usize)>)
    requires
        j <= s@.len(),
    ensures
        parses_to(r, spec_term(s@, j as int), j as int, s@.len() as int),
    decreases s@.len() - j, 2int,
{
    if j >= s.len() {
        None
    } else if s[j] == '(' {
        p_paren(s, j)
    } else if (s[j] >= 'a' && s[j] <= 'z') || (s[j] >= 'A' && s[j] <= 'Z') {
        let a = alpha_end(s, j);
        let d = digit_end(s, a);
        if d == a {
            None
        } else {
            proof {
                lemma_alpha_run(s@, j as int, a as int);
                lemma_digit_run(s@, a as int, d as int);
            }
            let col = alpha_value(s, j, a);
            let row = digits_value(s, a, d);
            let cell = match (col, row) {
                (Some(x), Some(y)) => Some(CellPos::new(x, y)),
                _ => None,
            };
            assert(cell == mk_cell(s@.subrange(j as int, a as int), s@.subrange(a as int, d as int)));
            Some((Expr::Cell(cell), d))
        }
    } else if s[j] == '-' {
        let d = digit_end(s, j + 1);
        if d == j + 1 {
            None
        } else {
            proof { lemma_digit_run(s@, j + 1 as int, d as int); }
            let mag = digits_value(s, j + 1, d);
            let lit = lit_of(true, mag);
            assert(lit == mk_lit(true, s@.subrange(j + 1, d as int)));
            Some((Expr::Lit(lit), d))
        }
    } else if s[j] >= '0' && s[j] <= '9' {
        let d = digit_end(s, j);
        proof { lemma_digit_run(s@, j as int, d as int); }
        let mag = digits_value(s, j, d);
        let lit = lit_of(false, mag);
        assert(lit == mk_lit(false, s@.subrange(j as int, d as int)));
        Some((Expr::Lit(lit), d))
    } else {
        None
    }
}

/// Narrows a digit-run value to the 32-bit literal it denotes, if any.
fn lit_of(neg: bool, mag: Option<usize>) -> (r: Option<i32>)
    ensures
        ({
            match mag {
                Some(m) => r == ({
                    let v = if neg { -(m as int) } else { m as int };
                    if i32::MIN <= v <= i32::MAX {
                        Some(v as i32)
                    } else {
                        None::<i32>
                    }
                }),
                None => r is None,
            }
        }),
{
    match mag {
        None => None,
        Some(m) => {
            if neg {
                if m <= 0x7fff_ffff {
                    Some(0i32 - (m as i32))
                } else if m == 0x8000_0000 {
                    Some(i32::MIN)
                } else {
                    None
                }
            } else {
                if m <= 0x7fff_ffff {
                    Some(m as i32)
                } else {
                    None
                }
            }
        },
    }
}

/// Everything scanned by `spec_alpha_end` is a letter.
proof fn lemma_alpha_run(s: Seq<char>, i: int, e: int)
    requires
        0 <= i <= s.len(),
        e == spec_alpha_end(s, i),
    ensures
        forall|q: int| i <= q < e ==> is_alpha(#[trigger] s[q]),
    decreases s.len() - i,
{
    if i < s.len() && is_alpha(s[i]) {
        lemma_alpha_run(s, i + 1, e);
    }
}

/// Everything scanned by `spec_digit_end` is a digit.
proof fn lemma_digit_run(s: Seq<char>, i: int, e: int)
    requires
        0 <= i <= s.len(),
        e == spec_digit_end(s, i),
    ensures
        forall|q: int| i <= q < e ==> is_digit(#[trigger] s[q]),
    decreases s.len() - i,
{
    if i < s.len() && is_digit(s[i]) {
        lemma_digit_run(s, i + 1, e);
    }
}

/// Parses a whole formula (the leading `=` included) into an expression
/// tree, exactly as [`spec_parse`] describes.
pub fn parse_formula(chars: &Vec<char>) -> (r: Option<Expr>)
    ensures
        r == spec_parse(chars@),
{
    if chars.len() == 0 {
        return None;
    }
    if chars[0] != '=' {
        return None;
    }
    let start = skip_ws(chars, 1);
    match p_expr(chars, start) {
        None => None,
        Some((e, k)) => {
            let m = skip_ws(chars, k);
            if m == chars.len() {
                Some(e)
            } else {
                None
            }
        },
    }
}

/// Appends every cell an expression references, in source order.
fn push_refs(e: &Expr, out: &mut Vec<CellPos>)
    ensures
        final(out)@ == old(out)@ + expr_refs(*e),
    decreases *e,
{
    match e {
        Expr::Lit(_) => {
            assert(out@ =~= old(out)@ + expr_refs(*e));
        },
        Expr::Cell(c) => {
            match c {
                Some(p) => {
                    out.push(*p);
                },
                None => {},
            }
            assert(out@ =~= old(out)@ + expr_refs(*e));
        },
        Expr::Call(_, list) => {
            push_list_refs(list, out);
        },
    }
}

/// Appends every cell referenced in a term list, in source order.
fn push_list_refs(l: &ExprList, out: &mut Vec<CellPos>)
    ensures
        final(out)@ == old(out)@ + list_refs(*l),
    decreases *l,
{
    match l {
        ExprList::Empty => {
            assert(out@ =~= old(out)@ + list_refs(*l));
        },
        ExprList::More(h, t) => {
            push_refs(h, out);
            push_list_refs(t, out);
            assert(out@ =~= old(out)@ + list_refs(*l));
        },
    }
}

/// The cells an expression references, in source order, duplicates kept.
pub fn collect_refs(e: &Expr) -> (r: Vec<CellPos>)
    ensures
        r@ == expr_refs(*e),
{
    let mut out: Vec<CellPos> = Vec::new();
    push_refs(e, &mut out);
    out
}

/// The column index a run of letters denotes, as the parser reads it; see
/// [`alpha_val`]. The run must be all letters and the value must fit the
/// index range (a single letter always does).
pub fn convert_alpha_str_to_num(alpha: &str) -> (r: usize)
    requires
        forall|q: int| 0 <= q < alpha@.len() ==> is_alpha(#[trigger] alpha@[q]),
        alpha_val(alpha@) <= usize::MAX,
    ensures
        r == alpha_val(alpha@),
{
    let chars = crate::text::str_to_chars(alpha);
    proof {
        assert(chars@.subrange(0, chars@.len() as int) =~= alpha@);
    }
    let r = alpha_value(&chars, 0, chars.len());
    match r {
        Some(v) => v,
        None => {
            proof {
                assert(false);
            }
            0
        },
    }
}

/// Every single capital letter reads back as its alphabetical index:
/// parsing the letter with code `65 + n` as a column yields `n`.
pub proof fn lemma_alpha_round_trip(c: char)
    requires
        'A' <= c <= 'Z',
    ensures
        alpha_val(seq![c]) == c as int - 'A' as int,
{
    let s = seq![c];
    assert(s.drop_last() =~= Seq::<char>::empty());
    assert(s.last() == c);
    assert(alpha_val(Seq::<char>::empty()) == 0);
    assert(alpha_val(s) == alpha_of(c) - 10);
}


/// The meaning of evaluating an expression against a view of the store:
/// the map from cell position to the text `get` would return.
pub open spec fn spec_eval(e: Expr, m: Map<CellPos, Seq<char>>) -> Result<i32, LangError>
    decreases e,
{
    match e {
        Expr::Lit(o) => match o {
            Some(v) => Ok(v),
            None => Err(LangError::CellError),
        },
        Expr::Cell(c) => match c {
            None => Err(LangError::RefError),
            Some(p) => if !m.dom().contains(p) {
                Err(LangError::RefError)
            } else {
                match crate::text::spec_parse_i32(m[p]) {
                    None => Err(LangError::RefError),
                    Some(v) => Ok(v),
                }
            },
        },
        Expr::Call(op, args) => if op is Unknown {
            Err(LangError::OpError)
        } else {
            match spec_eval_list(*args, m) {
                Err(er) => Err(er),
                Ok(vals) => spec_apply(op, vals),
            }
        },
    }
}

/// Evaluates the terms left to right; the first failure wins.
pub open spec fn spec_eval_list(l: ExprList, m: Map<CellPos, Seq<char>>) -> Result<
    Seq<i32>,
    LangError,
>
    decreases l,
{
    match l {
        ExprList::Empty => Ok(Seq::empty()),
        ExprList::More(h, t) => match spec_eval(*h, m) {
            Err(er) => Err(er),
            Ok(v) => match spec_eval_list(*t, m) {
                Err(er) => Err(er),
                Ok(vs) => Ok(seq![v] + vs),
            },
        },
    }
}

/// Applies an operator to its evaluated terms. `add` and `mul` fold left to
/// right with wraparound; `sub` and `div` take exactly two terms; division
/// truncates toward zero and rejects a zero divisor.
pub open spec fn spec_apply(op: Operation, vals: Seq<i32>) -> Result<i32, LangError> {
    match op {
        Operation::Add => Ok(fold_add(vals)),
        Operation::Mul => Ok(fold_mul(vals)),
        Operation::Sub => if vals.len() != 2 {
            Err(LangError::OpError)
        } else {
            Ok(vstd::wrapping::i32_specs::wrapping_sub(vals[0], vals[1]))
        },
        Operation::Div => if vals.len() != 2 {
            Err(LangError::OpError)
        } else if vals[1] == 0 {
            Err(LangError::OpError)
        } else {
            Ok(div_wrap(vals[0], vals[1]))
        },
        Operation::Unknown => Err(LangError::OpError),
    }
}

/// The wrapping sum of a sequence, left to right, from zero.
pub open spec fn fold_add(vals: Seq<i32>) -> i32
    decreases vals.len(),
{
    if vals.len() == 0 {
        0i32
    } else {
        vstd::wrapping::i32_specs::wrapping_add(fold_add(vals.drop_last()), vals.last())
    }
}

/// The wrapping product of a sequence, left to right, from one.
pub open spec fn fold_mul(vals: Seq<i32>) -> i32
    decreases vals.len(),
{
    if vals.len() == 0 {
        1i32
    } else {
        vstd::wrapping::i32_specs::wrapping_mul(fold_mul(vals.drop_last()), vals.last())
    }
}

/// Truncating division; the one overflowing case wraps to `i32::MIN`.
pub open spec fn div_wrap(a: i32, b: i32) -> i32
    recommends
        b != 0,
{
    match a.checked_div(b) {
        Some(v) => v,
        None => i32::MIN,
    }
}

/// Evaluates an expression against the store, exactly as [`spec_eval`]
/// describes it over the store's lookup view.
pub fn evaluate(e: &Expr, data: &crate::data::Data) -> (r: Result<i32, LangError>)
    requires
        data.wf(),
    ensures
        r == spec_eval(*e, data.lookup()),
    decreases *e,
{
    match e {
        Expr::Lit(o) => match o {
            Some(v) => Ok(*v),
            None => Err(LangError::CellError),
        },
        Expr::Cell(c) => match c {
            None => Err(LangError::RefError),
            Some(p) => match data.get(*p) {
                None => Err(LangError::RefError),
                Some(s) => {
                    let chars = crate::text::str_to_chars(s.as_str());
                    match crate::text::parse_i32_chars(chars.as_slice()) {
                        None => Err(LangError::RefError),
                        Some(v) => Ok(v),
                    }
                },
            },
        },
        Expr::Call(op, args) => {
            if matches!(op, Operation::Unknown) {
                Err(LangError::OpError)
            } else {
                match eval_list(args, data) {
                    Err(er) => Err(er),
                    Ok(vals) => apply_op(*op, &vals),
                }
            }
        },
    }
}

/// Evaluates each term in order, stopping at the first failure.
fn eval_list(l: &ExprList, data: &crate::data::Data) -> (r: Result<Vec<i32>, LangError>)
    requires
        data.wf(),
    ensures
        match r {
            Ok(vals) => spec_eval_list(*l, data.lookup()) == Ok::<Seq<i32>, LangError>(vals@),
            Err(er) => spec_eval_list(*l, data.lookup()) == Err::<Seq<i32>, LangError>(er),
        },
    decreases *l,
{
    match l {
        ExprList::Empty => {
            let r: Vec<i32> = Vec::new();
            assert(r@ =~= Seq::<i32>::empty());
            Ok(r)
        },
        ExprList::More(h, t) => match evaluate(h, data) {
            Err(er) => Err(er),
            Ok(v) => match eval_list(t, data) {
                Err(er) => Err(er),
                Ok(vs) => {
                    let mut out: Vec<i32> = Vec::new();
                    out.push(v);
                    let mut rest = vs;
                    let ghost restv = rest@;
                    out.append(&mut rest);
                    assert(out@ =~= seq![v] + restv);
                    Ok(out)
                },
            },
        },
    }
}

/// Applies an operator to evaluated terms, as [`spec_apply`] describes.
fn apply_op(op: Operation, vals: &Vec<i32>) -> (r: Result<i32, LangError>)
    ensures
        r == spec_apply(op, vals@),
{
    match op {
        Operation::Add => {
            let n = vals.len();
            let mut acc: i32 = 0;
            let mut i: usize = 0;
            proof {
                assert(vals@.take(0) =~= Seq::<i32>::empty());
            }
            while i < n
                invariant
                    i <= n,
                    n == vals@.len(),
                    acc == fold_add(vals@.take(i as int)),
                decreases n - i,
            {
                acc = acc.wrapping_add(vals[i]);
                i += 1;
                proof {
                    assert(vals@.take(i as int).drop_last() =~= vals@.take(i - 1));
                    assert(vals@.take(i as int).last() == vals@[i - 1]);
                }
            }
            proof {
                assert(vals@.take(n as int) =~= vals@);
            }
            Ok(acc)
        },
        Operation::Mul => {
            let n = vals.len();
            let mut acc: i32 = 1;
            let mut i: usize = 0;
            proof {
                assert(vals@.take(0) =~= Seq::<i32>::empty());
            }
            while i < n
                invariant
                    i <= n,
                    n == vals@.len(),
                    acc == fold_mul(vals@.take(i as int)),
                decreases n - i,
            {
                acc = acc.wrapping_mul(vals[i]);
                i += 1;
                proof {
                    assert(vals@.take(i as int).drop_last() =~= vals@.take(i - 1));
                    assert(vals@.take(i as int).last() == vals@[i - 1]);
                }
            }
            proof {
                assert(vals@.take(n as int) =~= vals@);
            }
            Ok(acc)
        },
        Operation::Sub => {
            if vals.len() != 2 {
                Err(LangError::OpError)
            } else {
                Ok(vals[0].wrapping_sub(vals[1]))
            }
        },
        Operation::Div => {
            if vals.len() != 2 {
                Err(LangError::OpError)
            } else if vals[1] == 0 {
                Err(LangError::OpError)
            } else {
                match vals[0].checked_div(vals[1]) {
                    Some(v) => Ok(v),
                    None => Ok(i32::MIN),
                }
            }
        },
        Operation::Unknown => Err(LangError::OpError),
    }
}

/// Parses and evaluates a formula against the store: the computed value and
/// the cells the formula references, or the error.
pub fn parse(source: &str, data: &crate::data::Data) -> (r: Result<(i32, Vec<CellPos>), LangError>)
    requires
        data.wf(),
    ensures
        match spec_parse(source@) {
            None => r == Err::<(i32, Vec<CellPos>), LangError>(LangError::ParseError),
            Some(e) => match spec_eval(e, data.lookup()) {
                Ok(v) => r is Ok && r->Ok_0.0 == v && r->Ok_0.1@ == expr_refs(e),
                Err(er) => r == Err::<(i32, Vec<CellPos>), LangError>(er),
            },
        },
{
    let chars = crate::text::str_to_chars(source);
    match parse_formula(&chars) {
        None => Err(LangError::ParseError),
        Some(e) => {
            let refs = collect_refs(&e);
            match evaluate(&e, data) {
                Ok(v) => Ok((v, refs)),
                Err(er) => Err(er),
            }
        },
    }
}

} // verus!
