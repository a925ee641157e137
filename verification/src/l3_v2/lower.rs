//! Lowering surface expressions to v2 expressions: name resolution, the
//! admitted operators and patterns, and the literal forms.
use vstd::prelude::*;

use crate::finite_decision::plan::{names_of, note_name};
use crate::input::grammar::{ascii_digit, digits_value};
use crate::input::parser::lemma_digits_value_mono;
use crate::keymap::{assoc_get, KeyMap};
use crate::l3_v2::expr_view::{
    lemma_arms_prefix, lemma_expr_fields_prefix, lemma_exprs_prefix, pattern_model, ExprModel, PatternModel,
};
use crate::l3_v2::{opt_text, ArithOpV2, CmpOpV2, L3ExprV2, L3PatternV2, L3V2LowerError};
use crate::text::owned;

verus! {

/// The text `s` without a leading `+` or `-`.
pub open spec fn unsigned_part(s: Seq<char>) -> Seq<char> {
    if s.len() > 0 && (s[0] == '-' || s[0] == '+') {
        s.drop_first()
    } else {
        s
    }
}

/// Every character of `d` is an ASCII digit.
pub open spec fn all_digits(d: Seq<char>) -> bool {
    forall|i: int| 0 <= i < d.len() ==> ascii_digit(#[trigger] d[i])
}

/// A 64-bit integer literal as `i64` parses one: an optional `+` or `-`,
/// then one or more ASCII digits, with the value in range.
pub open spec fn int_literal(s: Seq<char>) -> Option<i64> {
    let d = unsigned_part(s);
    let v = if s.len() > 0 && s[0] == '-' {
        -digits_value(d, d.len())
    } else {
        digits_value(d, d.len())
    };
    if d.len() > 0 && all_digits(d) && i64::MIN <= v <= i64::MAX {
        Some(v as i64)
    } else {
        None
    }
}

/// Parse a 64-bit integer literal.
#[verifier::loop_isolation(false)]
pub fn parse_int_literal(s: &str) -> (r: Option<i64>)
    ensures
        r == int_literal(s@),
{
    let n = s.unicode_len();
    if n == 0 {
        return None;
    }
    let first = s.get_char(0);
    let neg = first == '-';
    let start: usize = if first == '-' || first == '+' {
        1
    } else {
        0
    };
    let ghost d = unsigned_part(s@);
    proof {
        assert(d.len() == n - start);
        assert forall|i: int| 0 <= i < d.len() implies d[i] == s@[i + start] by {}
    }
    if start == n {
        return None;
    }
    let mut k: usize = start;
    while k < n
        invariant
            start <= k <= n,
            forall|i: int| 0 <= i < k - start ==> ascii_digit(#[trigger] d[i]),
        decreases n - k,
    {
        let c = s.get_char(k);
        if !('0' <= c && c <= '9') {
            proof {
                assert(!ascii_digit(d[k - start]));
            }
            return None;
        }
        k = k + 1;
    }
    proof {
        assert(all_digits(d));
        lemma_digits_value_mono(d, 0, d.len());
    }
    let mut acc: i64 = 0;
    let mut i: usize = start;
    while i < n
        invariant
            start <= i <= n,
            all_digits(d),
            acc == (if neg {
                -digits_value(d, (i - start) as nat)
            } else {
                digits_value(d, (i - start) as nat)
            }),
        decreases n - i,
    {
        let c = s.get_char(i);
        proof {
            assert(d[i - start] == c);
            assert(ascii_digit(d[i - start]));
            lemma_digits_value_mono(d, (i - start + 1) as nat, d.len());
        }
        let digit = (c as u32 - 48) as i64;
        let m = match acc.checked_mul(10) {
            Some(m) => m,
            None => {
                return None;
            },
        };
        let next = if neg {
            m.checked_sub(digit)
        } else {
            m.checked_add(digit)
        };
        match next {
            Some(v) => {
                acc = v;
            },
            None => {
                return None;
            },
        }
        i = i + 1;
    }
    Some(acc)
}

/// ASCII lowercase of a character.
pub open spec fn lower_ascii(c: char) -> char {
    if 'A' <= c <= 'Z' {
        ((c as int) + 32) as char
    } else {
        c
    }
}

/// `t`, lowercased, is the word `w`.
pub open spec fn is_word(t: Seq<char>, w: Seq<char>) -> bool {
    t.len() == w.len() && forall|i: int| 0 <= i < t.len() ==> lower_ascii(#[trigger] t[i]) == w[i]
}

/// An exponent marker.
pub open spec fn exp_mark(c: char) -> bool {
    c == 'e' || c == 'E'
}

/// Digits with at most one `.` among them, and at least one digit.
pub open spec fn mantissa_ok(m: Seq<char>) -> bool {
    &&& forall|i: int| 0 <= i < m.len() ==> ascii_digit(#[trigger] m[i]) || m[i] == '.'
    &&& forall|i: int, j: int| 0 <= i < j < m.len() ==> !(#[trigger] m[i] == '.' && #[trigger] m[j] == '.')
    &&& exists|i: int| 0 <= i < m.len() && ascii_digit(#[trigger] m[i])
}

/// An optional sign, then one or more digits.
pub open spec fn exponent_ok(x: Seq<char>) -> bool {
    unsigned_part(x).len() > 0 && all_digits(unsigned_part(x))
}

/// A decimal number: a mantissa, then optionally an exponent marker and an
/// exponent.
pub open spec fn number_ok(t: Seq<char>) -> bool {
    ||| (forall|i: int| 0 <= i < t.len() ==> !exp_mark(#[trigger] t[i])) && mantissa_ok(t)
    ||| exists|k: int|
        0 <= k < t.len() && exp_mark(#[trigger] t[k]) && (forall|i: int| 0 <= i < k ==> !exp_mark(#[trigger] t[i]))
            && mantissa_ok(t.take(k)) && exponent_ok(t.skip(k + 1))
}

/// Text that `f64` parses: an optional sign, then `inf`, `infinity` or
/// `nan` in any case, or a decimal number with an optional exponent.
pub open spec fn float_syntax(s: Seq<char>) -> bool {
    let t = unsigned_part(s);
    ||| is_word(t, "inf"@)
    ||| is_word(t, "infinity"@)
    ||| is_word(t, "nan"@)
    ||| number_ok(t)
}

/// Whether the characters of `s` from `start` on, lowercased, spell `w`.
#[verifier::loop_isolation(false)]
fn spells(s: &str, start: usize, w: &str) -> (b: bool)
    requires
        start <= s@.len(),
    ensures
        b == is_word(s@.skip(start as int), w@),
{
    let n = s.unicode_len();
    let m = w.unicode_len();
    let ghost t = s@.skip(start as int);
    if n - start != m {
        return false;
    }
    let mut i: usize = 0;
    while i < m
        invariant
            i <= m,
            t.len() == m,
            forall|j: int| 0 <= j < i ==> lower_ascii(#[trigger] t[j]) == w@[j],
        decreases m - i,
    {
        let c = s.get_char(start + i);
        let code = c as u32;
        let l = if 65 <= code && code <= 90 {
            ((code + 32) as u8) as char
        } else {
            c
        };
        proof {
            assert(t[i as int] == c);
            assert(l == lower_ascii(c));
        }
        if l != w.get_char(i) {
            return false;
        }
        i = i + 1;
    }
    true
}

/// Whether the characters of `s` from `start` to `end` are a mantissa.
#[verifier::loop_isolation(false)]
fn mantissa_between(s: &str, start: usize, end: usize) -> (b: bool)
    requires
        start <= end <= s@.len(),
    ensures
        b == mantissa_ok(s@.subrange(start as int, end as int)),
{
    let ghost m = s@.subrange(start as int, end as int);
    let mut dot = false;
    let mut digit = false;
    let mut i: usize = start;
    while i < end
        invariant
            start <= i <= end,
            forall|j: int| 0 <= j < i - start ==> ascii_digit(#[trigger] m[j]) || m[j] == '.',
            forall|a: int, b: int| 0 <= a < b < i - start ==> !(#[trigger] m[a] == '.' && #[trigger] m[b] == '.'),
            dot == (exists|j: int| 0 <= j < i - start && #[trigger] m[j] == '.'),
            digit == (exists|j: int| 0 <= j < i - start && ascii_digit(#[trigger] m[j])),
        decreases end - i,
    {
        let c = s.get_char(i);
        proof {
            assert(m[i - start] == c);
        }
        if c == '.' {
            if dot {
                proof {
                    let a = choose|j: int| 0 <= j < i - start && #[trigger] m[j] == '.';
                    assert(m[a] == '.' && m[i - start] == '.');
                }
                return false;
            }
            dot = true;
        } else if '0' <= c && c <= '9' {
            digit = true;
        } else {
            return false;
        }
        i = i + 1;
    }
    digit
}

/// Whether the characters of `s` from `start` on are an exponent.
#[verifier::loop_isolation(false)]
fn exponent_from(s: &str, start: usize) -> (b: bool)
    requires
        start <= s@.len(),
    ensures
        b == exponent_ok(s@.skip(start as int)),
{
    let n = s.unicode_len();
    let ghost x = s@.skip(start as int);
    let mut i = start;
    if i < n && (s.get_char(i) == '+' || s.get_char(i) == '-') {
        i = i + 1;
    }
    let ghost d = unsigned_part(x);
    proof {
        assert(d.len() == n - i);
        assert forall|j: int| 0 <= j < d.len() implies d[j] == s@[i + j] by {}
    }
    if i == n {
        return false;
    }
    let first = i;
    while i < n
        invariant
            first <= i <= n,
            forall|j: int| 0 <= j < i - first ==> ascii_digit(#[trigger] d[j]),
        decreases n - i,
    {
        let c = s.get_char(i);
        proof {
            assert(d[i - first] == c);
        }
        if !('0' <= c && c <= '9') {
            return false;
        }
        i = i + 1;
    }
    true
}

/// Whether the characters of `s` from `start` on are a decimal number.
fn number_from(s: &str, start: usize) -> (b: bool)
    requires
        start <= s@.len(),
    ensures
        b == number_ok(s@.skip(start as int)),
{
    let n = s.unicode_len();
    let ghost t = s@.skip(start as int);
    let mut k: usize = start;
    loop
        invariant
            start <= k <= n,
            n == s@.len(),
            t == s@.skip(start as int),
            forall|i: int| 0 <= i < k - start ==> !exp_mark(#[trigger] t[i]),
        ensures
            start <= k <= n,
            forall|i: int| 0 <= i < k - start ==> !exp_mark(#[trigger] t[i]),
            k < n ==> exp_mark(t[k - start]),
        decreases n - k,
    {
        if k == n {
            break;
        }
        let c = s.get_char(k);
        proof {
            assert(t[k - start] == c);
        }
        if c == 'e' || c == 'E' {
            break;
        }
        k = k + 1;
    }
    let mantissa = mantissa_between(s, start, k);
    proof {
        assert(s@.subrange(start as int, k as int) =~= t.take(k - start));
    }
    if k == n {
        proof {
            assert(t.take(k - start) =~= t);
        }
        return mantissa;
    }
    let exponent = exponent_from(s, k + 1);
    proof {
        assert(s@.skip(k + 1) =~= t.skip(k - start + 1));
        if number_ok(t) {
            if !((forall|i: int| 0 <= i < t.len() ==> !exp_mark(#[trigger] t[i])) && mantissa_ok(t)) {
                let k2 = choose|k2: int|
                    0 <= k2 < t.len() && exp_mark(#[trigger] t[k2]) && (forall|i: int| 0 <= i < k2 ==> !exp_mark(#[trigger] t[i]))
                        && mantissa_ok(t.take(k2)) && exponent_ok(t.skip(k2 + 1));
                if k2 < k - start {
                    assert(!exp_mark(t[k2]));
                }
                if k2 > k - start {
                    assert(!exp_mark(t[k - start]));
                }
            } else {
                assert(!exp_mark(t[k - start]));
            }
        }
    }
    mantissa && exponent
}

/// Whether `f64` parses `s`.
pub fn float_literal(s: &str) -> (b: bool)
    ensures
        b == float_syntax(s@),
{
    let n = s.unicode_len();
    let start: usize = if n > 0 && (s.get_char(0) == '+' || s.get_char(0) == '-') {
        1
    } else {
        0
    };
    proof {
        assert(s@.skip(start as int) =~= unsigned_part(s@));
        reveal_strlit("inf");
        reveal_strlit("infinity");
        reveal_strlit("nan");
    }
    spells(s, start, "inf") || spells(s, start, "infinity") || spells(s, start, "nan") || number_from(s, start)
}

/// Binary operators of the surface language.
#[derive(Clone, Copy, Debug, PartialEq, Eq, Structural)]
pub enum SurfaceBinOp {
    Add,
    Sub,
    Mul,
    Div,
    Lt,
    Le,
    Gt,
    Ge,
    Eq,
    Ne,
    Then,
    And,
}

/// A `match` pattern of the surface language.
#[derive(Debug, PartialEq, Eq)]
pub enum SurfacePattern {
    Ctor { name: String, args: Vec<SurfacePattern> },
    Wildcard,
    Var(String),
}

/// One arm of a surface `match`.
#[derive(Debug, PartialEq, Eq)]
pub struct SurfaceArm {
    pub pattern: SurfacePattern,
    pub body: SurfaceExpr,
}

/// The expression forms of the surface language that lowering reads.
#[derive(Debug, PartialEq, Eq)]
pub enum SurfaceExpr {
    /// A numeric literal, as written.
    Num(String),
    Str(String),
    Bool(bool),
    Var(String),
    Field(Box<SurfaceExpr>, String),
    Record { config: String, fields: Vec<(String, SurfaceExpr)> },
    Call { func: String, args: Vec<SurfaceExpr> },
    Bin { op: SurfaceBinOp, lhs: Box<SurfaceExpr>, rhs: Box<SurfaceExpr> },
    Match { scrutinee: Box<SurfaceExpr>, arms: Vec<SurfaceArm> },
    Prove(Box<SurfaceExpr>),
    Why(Box<SurfaceExpr>),
    Audit(Box<SurfaceExpr>),
}

/// The names an expression may resolve against: prior `let`s and rules,
/// nullary constructors and constructors with their sums, helpers with
/// their arities, record configs with their declared fields; whether a rule
/// body is lowered, and whether helpers are enabled.
pub struct ScopeModel {
    pub lets: Set<Seq<char>>,
    pub rules: Set<Seq<char>>,
    pub nullary: Seq<(Seq<char>, String)>,
    pub variants_of: Seq<(Seq<char>, String)>,
    pub functions: Seq<(Seq<char>, usize)>,
    pub records: Seq<(Seq<char>, Seq<Seq<char>>)>,
    pub in_rule: bool,
    pub helper_enabled: bool,
}

/// Why an expression could not be lowered, as a model.
pub enum LowerFault {
    Unresolved(Seq<char>),
    FloatLiteral(Seq<char>),
    IntegerOverflow(Seq<char>),
    Arity { func: Seq<char>, expected: usize, found: usize },
    Division,
    Unsupported(Seq<char>),
    DuplicateBinder(Seq<char>),
    NestedPattern,
    DefaultArm,
}

/// `e` is the error `f` describes.
pub open spec fn lower_fault_is(e: L3V2LowerError, f: LowerFault) -> bool {
    match f {
        LowerFault::Unresolved(n) => e matches L3V2LowerError::UnresolvedReference(x) && x@ == n,
        LowerFault::FloatLiteral(n) => e matches L3V2LowerError::FloatLiteralNotAllowed(x) && x@ == n,
        LowerFault::IntegerOverflow(n) => e matches L3V2LowerError::IntegerOverflow(x) && x@ == n,
        LowerFault::Arity { func, expected, found } => e matches L3V2LowerError::FunctionArityMismatch {
            func: x,
            expected: a,
            found: b,
        } && x@ == func && a == expected && b == found,
        LowerFault::Division => e is DivisionNotAllowed,
        LowerFault::Unsupported(n) => e matches L3V2LowerError::Unsupported(x) && x@ == n,
        LowerFault::DuplicateBinder(n) => e matches L3V2LowerError::DuplicateMatchBinder(x) && x@ == n,
        LowerFault::NestedPattern => e is NestedPatternNotAllowed,
        LowerFault::DefaultArm => e is DefaultArmNotAllowed,
    }
}

/// A rule's fact, read from a rule body; otherwise the name is unresolved.
pub open spec fn rule_or_unresolved(name: Seq<char>, sc: ScopeModel) -> Result<ExprModel, LowerFault> {
    if sc.rules.contains(name) && sc.in_rule {
        Ok(ExprModel::RuleFact(name))
    } else {
        Err(LowerFault::Unresolved(name))
    }
}

/// A name: with helpers enabled, a local first, then a nullary
/// constructor, then a `let`; without, a nullary constructor first, then a
/// local or `let`. A prior rule's fact comes last.
pub open spec fn resolve_var(name: Seq<char>, sc: ScopeModel, locals: Set<Seq<char>>) -> Result<ExprModel, LowerFault> {
    let nullary = assoc_get(sc.nullary, name);
    if sc.helper_enabled {
        if locals.contains(name) {
            Ok(ExprModel::LetRef(name))
        } else if nullary is Some {
            Ok(ExprModel::NullaryVariant { nominal_sum: nullary->0@, variant: name })
        } else if sc.lets.contains(name) {
            Ok(ExprModel::LetRef(name))
        } else {
            rule_or_unresolved(name, sc)
        }
    } else {
        if nullary is Some {
            Ok(ExprModel::NullaryVariant { nominal_sum: nullary->0@, variant: name })
        } else if locals.contains(name) || sc.lets.contains(name) {
            Ok(ExprModel::LetRef(name))
        } else {
            rule_or_unresolved(name, sc)
        }
    }
}

/// The expression a binary operator forms from its lowered operands.
pub open spec fn bin_spec(op: SurfaceBinOp, l: ExprModel, r: ExprModel) -> Result<ExprModel, LowerFault> {
    let (lb, rb) = (Box::new(l), Box::new(r));
    match op {
        SurfaceBinOp::Add => Ok(ExprModel::Arith(ArithOpV2::Add, lb, rb)),
        SurfaceBinOp::Sub => Ok(ExprModel::Arith(ArithOpV2::Sub, lb, rb)),
        SurfaceBinOp::Mul => Ok(ExprModel::Arith(ArithOpV2::Mul, lb, rb)),
        SurfaceBinOp::Div => Err(LowerFault::Division),
        SurfaceBinOp::Lt => Ok(ExprModel::Cmp(CmpOpV2::Lt, lb, rb)),
        SurfaceBinOp::Le => Ok(ExprModel::Cmp(CmpOpV2::Le, lb, rb)),
        SurfaceBinOp::Gt => Ok(ExprModel::Cmp(CmpOpV2::Gt, lb, rb)),
        SurfaceBinOp::Ge => Ok(ExprModel::Cmp(CmpOpV2::Ge, lb, rb)),
        SurfaceBinOp::Eq => Ok(ExprModel::Cmp(CmpOpV2::Eq, lb, rb)),
        SurfaceBinOp::Ne => Ok(ExprModel::Cmp(CmpOpV2::Ne, lb, rb)),
        SurfaceBinOp::Then | SurfaceBinOp::And => Err(
            LowerFault::Unsupported("witness composition has no executable meaning in v2"@),
        ),
    }
}

/// The binders of the first `n` argument patterns of a constructor pattern:
/// `_` binds nothing, a name binds itself, a nested constructor is refused;
/// with helpers enabled a name may bind only once.
pub open spec fn binders_spec(args: Seq<SurfacePattern>, helper_enabled: bool, n: nat) -> Result<
    Seq<Option<Seq<char>>>,
    LowerFault,
>
    decreases n,
{
    if n == 0 || n > args.len() {
        Ok(Seq::empty())
    } else {
        match binders_spec(args, helper_enabled, (n - 1) as nat) {
            Err(f) => Err(f),
            Ok(bs) => match args[n - 1] {
                SurfacePattern::Wildcard => Ok(bs.push(None)),
                SurfacePattern::Var(x) => if helper_enabled && bs.contains(Some(x@)) {
                    Err(LowerFault::DuplicateBinder(x@))
                } else {
                    Ok(bs.push(Some(x@)))
                },
                SurfacePattern::Ctor { .. } => Err(LowerFault::NestedPattern),
            },
        }
    }
}

/// A top-level pattern: a constructor with binders; a default arm is
/// refused.
pub open spec fn pattern_spec(p: SurfacePattern, helper_enabled: bool) -> Result<PatternModel, LowerFault> {
    match p {
        SurfacePattern::Ctor { name, args } => match binders_spec(args@, helper_enabled, args@.len()) {
            Ok(bs) => Ok(PatternModel { variant: name@, binders: bs }),
            Err(f) => Err(f),
        },
        _ => Err(LowerFault::DefaultArm),
    }
}

/// The names a pattern's binders bind.
pub open spec fn bound_names(bs: Seq<Option<Seq<char>>>) -> Set<Seq<char>> {
    Set::new(|x: Seq<char>| bs.contains(Some(x)))
}

/// Sub-expressions of a surface expression, in order.
pub open spec fn surface_args(e: SurfaceExpr) -> Seq<SurfaceExpr> {
    match e {
        SurfaceExpr::Call { args, .. } => args@,
        _ => Seq::empty(),
    }
}

/// Named field expressions of a surface record.
pub open spec fn surface_fields(e: SurfaceExpr) -> Seq<(String, SurfaceExpr)> {
    match e {
        SurfaceExpr::Record { fields, .. } => fields@,
        _ => Seq::empty(),
    }
}

/// Arms of a surface `match`.
pub open spec fn surface_arms(e: SurfaceExpr) -> Seq<SurfaceArm> {
    match e {
        SurfaceExpr::Match { arms, .. } => arms@,
        _ => Seq::empty(),
    }
}

/// The declared field names of record configs, by config name, in
/// declaration order.
pub open spec fn records_model(v: Seq<(String, Vec<String>)>) -> Seq<(Seq<char>, Seq<Seq<char>>)> {
    v.map_values(|p: (String, Vec<String>)| (p.0@, p.1@.map_values(|f: String| f@)))
}

/// The field names the latest declaration of record config `c` lists.
pub open spec fn latest_decl(s: Seq<(Seq<char>, Seq<Seq<char>>)>, c: Seq<char>) -> Option<Seq<Seq<char>>>
    decreases s.len(),
{
    if s.len() == 0 {
        None
    } else if s.last().0 == c {
        Some(s.last().1)
    } else {
        latest_decl(s.drop_last(), c)
    }
}

/// The field order a record literal of config `c` follows: the config's
/// declared fields, or none when `c` declares no record.
pub open spec fn field_order(sc: ScopeModel, c: Seq<char>) -> Seq<Seq<char>> {
    match latest_decl(sc.records, c) {
        Some(d) => d,
        None => Seq::empty(),
    }
}

/// The position of the first `n` in `d` from the `i`-th on, or the length
/// of `d` when it has none.
pub open spec fn rank_from(d: Seq<Seq<char>>, n: Seq<char>, i: nat) -> nat
    decreases d.len() - i,
{
    if i >= d.len() {
        d.len()
    } else if d[i as int] == n {
        i
    } else {
        rank_from(d, n, i + 1)
    }
}

/// Where field `n` stands in the declared order `d`: its first position,
/// after every declared field when `d` does not list it.
pub open spec fn rank(d: Seq<Seq<char>>, n: Seq<char>) -> nat {
    rank_from(d, n, 0)
}

/// `s` with `x` placed after every entry that does not stand after it in
/// the declared order `d`.
pub open spec fn insert_ranked(s: Seq<(Seq<char>, ExprModel)>, x: (Seq<char>, ExprModel), d: Seq<Seq<char>>) -> Seq<
    (Seq<char>, ExprModel),
>
    decreases s.len(),
{
    if s.len() == 0 {
        seq![x]
    } else if rank(d, x.0) < rank(d, s.last().0) {
        insert_ranked(s.drop_last(), x, d).push(s.last())
    } else {
        s.push(x)
    }
}

/// The first `n` entries of `s`, stably ordered by where their names stand
/// in the declared order `d`: declared fields in declaration order, the
/// rest after them in source order.
pub open spec fn order_fields(s: Seq<(Seq<char>, ExprModel)>, n: nat, d: Seq<Seq<char>>) -> Seq<(Seq<char>, ExprModel)>
    decreases n,
{
    if n == 0 || n > s.len() {
        Seq::empty()
    } else {
        insert_ranked(order_fields(s, (n - 1) as nat, d), s[n - 1], d)
    }
}

/// The lowering of a surface expression, or the first reason it cannot be
/// lowered, in evaluation order.
pub open spec fn lower_spec(e: SurfaceExpr, sc: ScopeModel, locals: Set<Seq<char>>) -> Result<ExprModel, LowerFault>
    decreases e, 1nat, 0nat,
{
    match e {
        SurfaceExpr::Num(s) => match int_literal(s@) {
            Some(n) => Ok(ExprModel::Int(n)),
            None => if float_syntax(s@) {
                Err(LowerFault::FloatLiteral(s@))
            } else {
                Err(LowerFault::IntegerOverflow(s@))
            },
        },
        SurfaceExpr::Str(s) => Ok(ExprModel::Str(s@)),
        SurfaceExpr::Bool(b) => Ok(ExprModel::Bool(b)),
        SurfaceExpr::Var(name) => resolve_var(name@, sc, locals),
        SurfaceExpr::Field(base, field) => match lower_spec(*base, sc, locals) {
            Ok(b) => Ok(ExprModel::Field(Box::new(b), field@)),
            Err(f) => Err(f),
        },
        SurfaceExpr::Record { config, fields } => match lower_fields_spec(e, sc, locals, fields@.len()) {
            Ok(fs) => Ok(
                ExprModel::Record { nominal_config: config@, fields: order_fields(fs, fs.len(), field_order(sc, config@)) },
            ),
            Err(f) => Err(f),
        },
        SurfaceExpr::Call { func, args } => match assoc_get(sc.variants_of, func@) {
            Some(sum) => match lower_args_spec(e, sc, locals, args@.len()) {
                Ok(xs) => Ok(ExprModel::Ctor { nominal_sum: sum@, variant: func@, args: xs }),
                Err(f) => Err(f),
            },
            None => match assoc_get(sc.functions, func@) {
                Some(k) => if args@.len() != k {
                    Err(LowerFault::Arity { func: func@, expected: k, found: args@.len() as usize })
                } else {
                    match lower_args_spec(e, sc, locals, args@.len()) {
                        Ok(xs) => Ok(ExprModel::Call { func: func@, args: xs }),
                        Err(f) => Err(f),
                    }
                },
                None => Err(LowerFault::Unresolved(func@)),
            },
        },
        SurfaceExpr::Bin { op, lhs, rhs } => match lower_spec(*lhs, sc, locals) {
            Err(f) => Err(f),
            Ok(l) => match lower_spec(*rhs, sc, locals) {
                Err(f) => Err(f),
                Ok(r) => bin_spec(op, l, r),
            },
        },
        SurfaceExpr::Match { scrutinee, arms } => match lower_spec(*scrutinee, sc, locals) {
            Err(f) => Err(f),
            Ok(s) => match lower_arms_spec(e, sc, locals, arms@.len()) {
                Ok(a) => Ok(ExprModel::Match { scrutinee: Box::new(s), arms: a }),
                Err(f) => Err(f),
            },
        },
        SurfaceExpr::Prove(_) => Err(LowerFault::Unsupported("prove"@)),
        SurfaceExpr::Why(_) => Err(LowerFault::Unsupported("why"@)),
        SurfaceExpr::Audit(_) => Err(LowerFault::Unsupported("audit"@)),
    }
}

/// The first `n` arguments of call `parent`, lowered in order.
pub open spec fn lower_args_spec(parent: SurfaceExpr, sc: ScopeModel, locals: Set<Seq<char>>, n: nat) -> Result<
    Seq<ExprModel>,
    LowerFault,
>
    decreases parent, 0nat, n,
{
    if n == 0 || n > surface_args(parent).len() {
        Ok(Seq::empty())
    } else {
        match lower_args_spec(parent, sc, locals, (n - 1) as nat) {
            Err(f) => Err(f),
            Ok(xs) => match lower_spec(surface_args(parent)[n - 1], sc, locals) {
                Ok(x) => Ok(xs.push(x)),
                Err(f) => Err(f),
            },
        }
    }
}

/// The first `n` fields of record `parent`, lowered in order.
pub open spec fn lower_fields_spec(parent: SurfaceExpr, sc: ScopeModel, locals: Set<Seq<char>>, n: nat) -> Result<
    Seq<(Seq<char>, ExprModel)>,
    LowerFault,
>
    decreases parent, 0nat, n,
{
    if n == 0 || n > surface_fields(parent).len() {
        Ok(Seq::empty())
    } else {
        match lower_fields_spec(parent, sc, locals, (n - 1) as nat) {
            Err(f) => Err(f),
            Ok(xs) => match lower_spec(surface_fields(parent)[n - 1].1, sc, locals) {
                Ok(x) => Ok(xs.push((surface_fields(parent)[n - 1].0@, x))),
                Err(f) => Err(f),
            },
        }
    }
}

/// The first `n` arms of `match` `parent`, lowered in order: the pattern,
/// then the body with the pattern's binders in scope.
pub open spec fn lower_arms_spec(parent: SurfaceExpr, sc: ScopeModel, locals: Set<Seq<char>>, n: nat) -> Result<
    Seq<(PatternModel, ExprModel)>,
    LowerFault,
>
    decreases parent, 0nat, n,
{
    if n == 0 || n > surface_arms(parent).len() {
        Ok(Seq::empty())
    } else {
        match lower_arms_spec(parent, sc, locals, (n - 1) as nat) {
            Err(f) => Err(f),
            Ok(xs) => {
                let arm = surface_arms(parent)[n - 1];
                match pattern_spec(arm.pattern, sc.helper_enabled) {
                    Err(f) => Err(f),
                    Ok(p) => match lower_spec(arm.body, sc, locals + bound_names(p.binders)) {
                        Ok(x) => Ok(xs.push((p, x))),
                        Err(f) => Err(f),
                    },
                }
            },
        }
    }
}

/// Whether `bs` already binds `x`.
fn binds(bs: &Vec<Option<String>>, x: &str) -> (b: bool)
    ensures
        b == bs@.map_values(|o: Option<String>| opt_text(o)).contains(Some(x@)),
{
    let ghost m = bs@.map_values(|o: Option<String>| opt_text(o));
    let mut i: usize = 0;
    while i < bs.len()
        invariant
            i <= bs@.len(),
            m == bs@.map_values(|o: Option<String>| opt_text(o)),
            forall|j: int| 0 <= j < i ==> m[j] != Some(x@),
        decreases bs@.len() - i,
    {
        match &bs[i] {
            Some(y) => {
                if crate::keymap::same_text(y.as_str(), x) {
                    proof {
                        assert(m[i as int] == Some(x@));
                    }
                    return true;
                }
            },
            None => {},
        }
        i = i + 1;
    }
    false
}

proof fn lemma_binders_stop(args: Seq<SurfacePattern>, helper_enabled: bool, k: nat, n: nat)
    requires
        k <= n <= args.len(),
        binders_spec(args, helper_enabled, k) is Err,
    ensures
        binders_spec(args, helper_enabled, n) == binders_spec(args, helper_enabled, k),
    decreases n - k,
{
    if k < n {
        lemma_binders_stop(args, helper_enabled, k, (n - 1) as nat);
    }
}

/// Lower a top-level `match` pattern.
pub fn lower_pattern_v2(p: &SurfacePattern, helper_enabled: bool) -> (r: Result<L3PatternV2, L3V2LowerError>)
    ensures
        match pattern_spec(*p, helper_enabled) {
            Ok(m) => r matches Ok(x) && pattern_model(x) == m,
            Err(f) => r matches Err(x) && lower_fault_is(x, f),
        },
{
    match p {
        SurfacePattern::Ctor { name, args } => {
            let mut binders: Vec<Option<String>> = Vec::new();
            proof {
                assert(binders@.map_values(|o: Option<String>| opt_text(o)) =~= Seq::empty());
            }
            let mut i: usize = 0;
            while i < args.len()
                invariant
                    p is Ctor && p->Ctor_args == *args,
                    i <= args@.len(),
                    binders_spec(args@, helper_enabled, i as nat) == Ok::<Seq<Option<Seq<char>>>, LowerFault>(
                        binders@.map_values(|o: Option<String>| opt_text(o)),
                    ),
                decreases args@.len() - i,
            {
                let ghost before = binders@.map_values(|o: Option<String>| opt_text(o));
                match &args[i] {
                    SurfacePattern::Wildcard => {
                        binders.push(None);
                    },
                    SurfacePattern::Var(x) => {
                        if helper_enabled && binds(&binders, x.as_str()) {
                            proof {
                                lemma_binders_stop(args@, helper_enabled, (i + 1) as nat, args@.len());
                            }
                            return Err(L3V2LowerError::DuplicateMatchBinder(x.clone()));
                        }
                        binders.push(Some(x.clone()));
                    },
                    SurfacePattern::Ctor { .. } => {
                        proof {
                            lemma_binders_stop(args@, helper_enabled, (i + 1) as nat, args@.len());
                        }
                        return Err(L3V2LowerError::NestedPatternNotAllowed);
                    },
                }
                proof {
                    assert(binders@.map_values(|o: Option<String>| opt_text(o)) =~= before.push(
                        opt_text(binders@.last()),
                    ));
                }
                i = i + 1;
            }
            Ok(L3PatternV2::Ctor { variant: name.clone(), binders })
        },
        _ => Err(L3V2LowerError::DefaultArmNotAllowed),
    }
}

/// Models of named expressions.
pub open spec fn fields_model(v: Seq<(String, L3ExprV2)>) -> Seq<(Seq<char>, ExprModel)> {
    v.map_values(|p: (String, L3ExprV2)| (p.0@, p.1@))
}

proof fn lemma_insert_ranked(s: Seq<(Seq<char>, ExprModel)>, x: (Seq<char>, ExprModel), d: Seq<Seq<char>>, j: int)
    requires
        0 <= j <= s.len(),
        forall|k: int| j <= k < s.len() ==> rank(d, x.0) < rank(d, #[trigger] s[k].0),
        j == 0 || !(rank(d, x.0) < rank(d, s[j - 1].0)),
    ensures
        insert_ranked(s, x, d) == s.insert(j, x),
    decreases s.len(),
{
    if s.len() == 0 {
        assert(s.insert(j, x) =~= seq![x]);
    } else if j == s.len() {
        assert(s.insert(j, x) =~= s.push(x));
    } else {
        assert(rank(d, x.0) < rank(d, s.last().0));
        lemma_insert_ranked(s.drop_last(), x, d, j);
        assert(s.drop_last().insert(j, x).push(s.last()) =~= s.insert(j, x));
    }
}

/// Where field `n` stands in the declared order `d`.
fn field_rank(d: &Vec<String>, n: &str) -> (r: usize)
    ensures
        r == rank(d@.map_values(|f: String| f@), n@),
{
    let ghost m = d@.map_values(|f: String| f@);
    let mut i: usize = 0;
    while i < d.len()
        invariant
            i <= d@.len(),
            m == d@.map_values(|f: String| f@),
            rank_from(m, n@, i as nat) == rank(m, n@),
        decreases d@.len() - i,
    {
        if crate::keymap::same_text(d[i].as_str(), n) {
            return i;
        }
        i = i + 1;
    }
    i
}

/// The field names the latest declaration of record config `c` lists.
fn declared_fields<'a>(records: &'a Vec<(String, Vec<String>)>, c: &str) -> (r: Option<&'a Vec<String>>)
    ensures
        match latest_decl(records_model(records@), c@) {
            Some(d) => r matches Some(v) && v@.map_values(|f: String| f@) == d,
            None => r is None,
        },
{
    let ghost m = records_model(records@);
    proof {
        assert(m.take(m.len() as int) =~= m);
    }
    let mut i: usize = records.len();
    while i > 0
        invariant
            i <= records@.len(),
            m == records_model(records@),
            latest_decl(m.take(i as int), c@) == latest_decl(m, c@),
        decreases i,
    {
        proof {
            assert(m.take(i as int).drop_last() =~= m.take(i - 1));
        }
        if crate::keymap::same_text(records[i - 1].0.as_str(), c) {
            return Some(&records[i - 1].1);
        }
        i = i - 1;
    }
    proof {
        assert(m.take(0) =~= Seq::<(Seq<char>, Seq<Seq<char>>)>::empty());
    }
    None
}

/// Place `x` after every field that does not stand after it in the
/// declared order `d`.
fn insert_field(out: &mut Vec<(String, L3ExprV2)>, x: (String, L3ExprV2), d: &Vec<String>)
    ensures
        fields_model(final(out)@) == insert_ranked(
            fields_model(old(out)@),
            (x.0@, x.1@),
            d@.map_values(|f: String| f@),
        ),
{
    let ghost s = fields_model(out@);
    let ghost dm = d@.map_values(|f: String| f@);
    let rx = field_rank(d, x.0.as_str());
    let mut j: usize = out.len();
    let mut placed = false;
    while j > 0 && !placed
        invariant
            j <= out@.len(),
            s == fields_model(out@),
            dm == d@.map_values(|f: String| f@),
            rx == rank(dm, x.0@),
            forall|k: int| j <= k < s.len() ==> rank(dm, x.0@) < rank(dm, #[trigger] s[k].0),
            placed ==> j > 0 && !(rank(dm, x.0@) < rank(dm, s[j - 1].0)),
        decreases j + (if placed {
            0int
        } else {
            1int
        }),
    {
        let ry = field_rank(d, out[j - 1].0.as_str());
        proof {
            assert(s[j - 1].0 == out@[j - 1].0@);
        }
        if rx < ry {
            j = j - 1;
        } else {
            placed = true;
        }
    }
    proof {
        lemma_insert_ranked(s, (x.0@, x.1@), dm, j as int);
    }
    out.insert(j, x);
    proof {
        assert(fields_model(out@) =~= s.insert(j as int, (x.0@, x.1@)));
    }
}

/// The scope the maps and flags describe.
pub open spec fn scope_model(
    lets: KeyMap<()>,
    rules: KeyMap<()>,
    nullary: KeyMap<String>,
    variants_of: KeyMap<String>,
    functions: KeyMap<usize>,
    records: Seq<(String, Vec<String>)>,
    in_rule: bool,
    helper_enabled: bool,
) -> ScopeModel {
    ScopeModel {
        lets: names_of(lets),
        rules: names_of(rules),
        nullary: nullary.pairs(),
        variants_of: variants_of.pairs(),
        functions: functions.pairs(),
        records: records_model(records),
        in_rule,
        helper_enabled,
    }
}

/// Whether a set-like map holds `k`.
fn holds(m: &KeyMap<()>, k: &str) -> (b: bool)
    ensures
        b == names_of(*m).contains(k@),
{
    m.get(k).is_some()
}

/// Resolve a name.
fn resolve_name(
    name: &String,
    lets: &KeyMap<()>,
    locals: &KeyMap<()>,
    rules: &KeyMap<()>,
    nullary: &KeyMap<String>,
    in_rule: bool,
    helper_enabled: bool,
) -> (r: Result<L3ExprV2, L3V2LowerError>)
    ensures
        ({
            let sc = ScopeModel {
                lets: names_of(*lets),
                rules: names_of(*rules),
                nullary: nullary.pairs(),
                variants_of: Seq::empty(),
                functions: Seq::empty(),
                records: Seq::empty(),
                in_rule,
                helper_enabled,
            };
            match resolve_var(name@, sc, names_of(*locals)) {
                Ok(m) => r matches Ok(x) && x@ == m,
                Err(f) => r matches Err(x) && lower_fault_is(x, f),
            }
        }),
{
    let sum = nullary.get(name.as_str());
    if helper_enabled {
        if holds(locals, name.as_str()) {
            return Ok(L3ExprV2::LetRef(name.clone()));
        }
        if let Some(s) = sum {
            return Ok(L3ExprV2::NullaryVariant { nominal_sum: s.clone(), variant: name.clone() });
        }
        if holds(lets, name.as_str()) {
            return Ok(L3ExprV2::LetRef(name.clone()));
        }
    } else {
        if let Some(s) = sum {
            return Ok(L3ExprV2::NullaryVariant { nominal_sum: s.clone(), variant: name.clone() });
        }
        if holds(locals, name.as_str()) || holds(lets, name.as_str()) {
            return Ok(L3ExprV2::LetRef(name.clone()));
        }
    }
    if holds(rules, name.as_str()) && in_rule {
        return Ok(L3ExprV2::RuleFact(name.clone()));
    }
    Err(L3V2LowerError::UnresolvedReference(name.clone()))
}

proof fn lemma_order_prefix(s: Seq<(Seq<char>, ExprModel)>, t: Seq<(Seq<char>, ExprModel)>, n: nat, d: Seq<Seq<char>>)
    requires
        n <= s.len(),
        n <= t.len(),
        forall|k: int| 0 <= k < n ==> s[k] == t[k],
    ensures
        order_fields(s, n, d) == order_fields(t, n, d),
    decreases n,
{
    if n > 0 {
        lemma_order_prefix(s, t, (n - 1) as nat, d);
    }
}

proof fn lemma_args_stop(parent: SurfaceExpr, sc: ScopeModel, locals: Set<Seq<char>>, k: nat, n: nat)
    requires
        k <= n <= surface_args(parent).len(),
        lower_args_spec(parent, sc, locals, k) is Err,
    ensures
        lower_args_spec(parent, sc, locals, n) == lower_args_spec(parent, sc, locals, k),
    decreases n - k,
{
    if k < n {
        lemma_args_stop(parent, sc, locals, k, (n - 1) as nat);
    }
}

proof fn lemma_fields_stop(parent: SurfaceExpr, sc: ScopeModel, locals: Set<Seq<char>>, k: nat, n: nat)
    requires
        k <= n <= surface_fields(parent).len(),
        lower_fields_spec(parent, sc, locals, k) is Err,
    ensures
        lower_fields_spec(parent, sc, locals, n) == lower_fields_spec(parent, sc, locals, k),
    decreases n - k,
{
    if k < n {
        lemma_fields_stop(parent, sc, locals, k, (n - 1) as nat);
    }
}

proof fn lemma_arms_stop(parent: SurfaceExpr, sc: ScopeModel, locals: Set<Seq<char>>, k: nat, n: nat)
    requires
        k <= n <= surface_arms(parent).len(),
        lower_arms_spec(parent, sc, locals, k) is Err,
    ensures
        lower_arms_spec(parent, sc, locals, n) == lower_arms_spec(parent, sc, locals, k),
    decreases n - k,
{
    if k < n {
        lemma_arms_stop(parent, sc, locals, k, (n - 1) as nat);
    }
}

/// Lower the arguments of call `parent`, in order.
#[verifier::loop_isolation(false)]
fn lower_args(
    parent: &SurfaceExpr,
    args: &Vec<SurfaceExpr>,
    lets: &KeyMap<()>,
    locals: &KeyMap<()>,
    rules: &KeyMap<()>,
    nullary: &KeyMap<String>,
    variants_of: &KeyMap<String>,
    functions: &KeyMap<usize>,
    records: &Vec<(String, Vec<String>)>,
    in_rule: bool,
    helper_enabled: bool,
) -> (r: Result<Vec<L3ExprV2>, L3V2LowerError>)
    requires
        parent is Call && parent->Call_args == *args,
    ensures
        match lower_args_spec(
            *parent,
            scope_model(*lets, *rules, *nullary, *variants_of, *functions, records@, in_rule, helper_enabled),
            names_of(*locals),
            args@.len(),
        ) {
            Ok(xs) => r matches Ok(v) && v@.len() == xs.len() && forall|k: int| 0 <= k < xs.len() ==> (#[trigger] v@[k])@
                == xs[k],
            Err(f) => r matches Err(x) && lower_fault_is(x, f),
        },
    decreases parent, 0nat,
{
    let ghost sc = scope_model(*lets, *rules, *nullary, *variants_of, *functions, records@, in_rule, helper_enabled);
    let ghost loc = names_of(*locals);
    let mut out: Vec<L3ExprV2> = Vec::new();
    let mut i: usize = 0;
    while i < args.len()
        invariant
            i <= args@.len(),
            lower_args_spec(*parent, sc, loc, i as nat) matches Ok(xs) && out@.len() == xs.len() && forall|k: int|
                0 <= k < xs.len() ==> (#[trigger] out@[k])@ == xs[k],
        decreases args@.len() - i,
    {
        proof {
            assert(decreases_to!(*parent => parent->Call_args));
            assert(decreases_to!(parent->Call_args => parent->Call_args@));
            assert(decreases_to!(parent->Call_args@ => parent->Call_args@[i as int]));
        }
        match lower_expr_v2(&args[i], lets, locals, rules, nullary, variants_of, functions, records, in_rule, helper_enabled) {
            Ok(x) => {
                out.push(x);
            },
            Err(err) => {
                proof {
                    lemma_args_stop(*parent, sc, loc, (i + 1) as nat, args@.len());
                }
                return Err(err);
            },
        }
        i = i + 1;
    }
    Ok(out)
}

/// Lower a surface expression to a v2 expression under the given names.
///
/// `lets`, `locals` and `rules` are the names in scope; `nullary` maps each
/// nullary constructor and `variants_of` each constructor to its sum;
/// `functions` maps each helper to its arity; `records` lists each record
/// config with its declared fields, the latest declaration last, and a
/// record literal's fields follow that order whatever the source order.
/// Only a rule body (`in_rule`) may read a prior rule's fact.
#[verifier::loop_isolation(false)]
#[verifier::spinoff_prover]
pub fn lower_expr_v2(
    e: &SurfaceExpr,
    lets: &KeyMap<()>,
    locals: &KeyMap<()>,
    rules: &KeyMap<()>,
    nullary: &KeyMap<String>,
    variants_of: &KeyMap<String>,
    functions: &KeyMap<usize>,
    records: &Vec<(String, Vec<String>)>,
    in_rule: bool,
    helper_enabled: bool,
) -> (r: Result<L3ExprV2, L3V2LowerError>)
    ensures
        match lower_spec(
            *e,
            scope_model(*lets, *rules, *nullary, *variants_of, *functions, records@, in_rule, helper_enabled),
            names_of(*locals),
        ) {
            Ok(m) => r matches Ok(x) && x@ == m,
            Err(f) => r matches Err(x) && lower_fault_is(x, f),
        },
    decreases e, 1nat,
{
    let ghost sc = scope_model(*lets, *rules, *nullary, *variants_of, *functions, records@, in_rule, helper_enabled);
    let ghost loc = names_of(*locals);
    match e {
        SurfaceExpr::Num(s) => match parse_int_literal(s.as_str()) {
            Some(n) => Ok(L3ExprV2::Int(n)),
            None => {
                if float_literal(s.as_str()) {
                    Err(L3V2LowerError::FloatLiteralNotAllowed(s.clone()))
                } else {
                    Err(L3V2LowerError::IntegerOverflow(s.clone()))
                }
            },
        },
        SurfaceExpr::Str(s) => Ok(L3ExprV2::Str(s.clone())),
        SurfaceExpr::Bool(b) => Ok(L3ExprV2::Bool(*b)),
        SurfaceExpr::Var(name) => resolve_name(name, lets, locals, rules, nullary, in_rule, helper_enabled),
        SurfaceExpr::Field(base, field) => {
            match lower_expr_v2(base, lets, locals, rules, nullary, variants_of, functions, records, in_rule, helper_enabled) {
                Ok(b) => Ok(L3ExprV2::Field(Box::new(b), field.clone())),
                Err(err) => Err(err),
            }
        },
        SurfaceExpr::Record { config, fields } => {
            let none: Vec<String> = Vec::new();
            let order: &Vec<String> = match declared_fields(records, config.as_str()) {
                Some(v) => v,
                None => &none,
            };
            let ghost dm = order@.map_values(|f: String| f@);
            proof {
                assert(none@.map_values(|f: String| f@) =~= Seq::<Seq<char>>::empty());
                assert(dm == field_order(sc, config@));
            }
            let mut out: Vec<(String, L3ExprV2)> = Vec::new();
            proof {
                assert(fields_model(out@) =~= Seq::empty());
            }
            let mut i: usize = 0;
            while i < fields.len()
                invariant
                    e is Record && e->Record_fields == *fields,
                    i <= fields@.len(),
                    dm == order@.map_values(|f: String| f@),
                    lower_fields_spec(*e, sc, loc, i as nat) matches Ok(xs) && xs.len() == i && fields_model(out@)
                        == order_fields(xs, i as nat, dm),
                decreases fields@.len() - i,
            {
                proof {
                    assert(decreases_to!(*e => e->Record_fields));
                    assert(decreases_to!(e->Record_fields => e->Record_fields@));
                    assert(decreases_to!(e->Record_fields@ => e->Record_fields@[i as int]));
                    assert(decreases_to!(e->Record_fields@[i as int] => e->Record_fields@[i as int].1));
                }
                let ghost xs = lower_fields_spec(*e, sc, loc, i as nat)->Ok_0;
                match lower_expr_v2(&fields[i].1, lets, locals, rules, nullary, variants_of, functions, records, in_rule, helper_enabled) {
                    Ok(x) => {
                        let ghost y = (fields@[i as int].0@, x@);
                        insert_field(&mut out, (fields[i].0.clone(), x), order);
                        proof {
                            let ys = xs.push(y);
                            assert(lower_fields_spec(*e, sc, loc, (i + 1) as nat) == Ok::<Seq<(Seq<char>, ExprModel)>, LowerFault>(ys));
                            lemma_order_prefix(xs, ys, i as nat, dm);
                        }
                    },
                    Err(err) => {
                        proof {
                            lemma_fields_stop(*e, sc, loc, (i + 1) as nat, fields@.len());
                        }
                        return Err(err);
                    },
                }
                i = i + 1;
            }
            let r = L3ExprV2::Record { nominal_config: config.clone(), fields: out };
            proof {
                lemma_expr_fields_prefix(out@, out@.len());
                assert(expr_fields_prefix_of(out@) =~= fields_model(out@));
            }
            Ok(r)
        },
        SurfaceExpr::Call { func, args } => {
            match variants_of.get(func.as_str()) {
                Some(sum) => {
                    match lower_args(e, args, lets, locals, rules, nullary, variants_of, functions, records, in_rule, helper_enabled) {
                        Ok(out) => {
                            let r = L3ExprV2::Ctor { nominal_sum: sum.clone(), variant: func.clone(), args: out };
                            proof {
                                lemma_exprs_prefix(out@, out@.len());
                                let xs = lower_args_spec(*e, sc, loc, args@.len())->Ok_0;
                                assert(crate::l3_v2::expr_view::exprs_prefix(out@, out@.len()) =~= xs);
                            }
                            Ok(r)
                        },
                        Err(err) => Err(err),
                    }
                },
                None => {
                    match functions.get(func.as_str()) {
                        Some(k) => {
                            if args.len() != *k {
                                return Err(
                                    L3V2LowerError::FunctionArityMismatch {
                                        func: func.clone(),
                                        expected: *k,
                                        found: args.len(),
                                    },
                                );
                            }
                            match lower_args(e, args, lets, locals, rules, nullary, variants_of, functions, records, in_rule, helper_enabled) {
                                Ok(out) => {
                                    let r = L3ExprV2::Call { func: func.clone(), args: out };
                                    proof {
                                        lemma_exprs_prefix(out@, out@.len());
                                        let xs = lower_args_spec(*e, sc, loc, args@.len())->Ok_0;
                                        assert(crate::l3_v2::expr_view::exprs_prefix(out@, out@.len()) =~= xs);
                                    }
                                    Ok(r)
                                },
                                Err(err) => Err(err),
                            }
                        },
                        None => Err(L3V2LowerError::UnresolvedReference(func.clone())),
                    }
                },
            }
        },
        SurfaceExpr::Bin { op, lhs, rhs } => {
            let l = match lower_expr_v2(lhs, lets, locals, rules, nullary, variants_of, functions, records, in_rule, helper_enabled) {
                Ok(l) => l,
                Err(err) => {
                    return Err(err);
                },
            };
            let r = match lower_expr_v2(rhs, lets, locals, rules, nullary, variants_of, functions, records, in_rule, helper_enabled) {
                Ok(r) => r,
                Err(err) => {
                    return Err(err);
                },
            };
            let (lb, rb) = (Box::new(l), Box::new(r));
            match op {
                SurfaceBinOp::Add => Ok(L3ExprV2::Arith(ArithOpV2::Add, lb, rb)),
                SurfaceBinOp::Sub => Ok(L3ExprV2::Arith(ArithOpV2::Sub, lb, rb)),
                SurfaceBinOp::Mul => Ok(L3ExprV2::Arith(ArithOpV2::Mul, lb, rb)),
                SurfaceBinOp::Div => Err(L3V2LowerError::DivisionNotAllowed),
                SurfaceBinOp::Lt => Ok(L3ExprV2::Cmp(CmpOpV2::Lt, lb, rb)),
                SurfaceBinOp::Le => Ok(L3ExprV2::Cmp(CmpOpV2::Le, lb, rb)),
                SurfaceBinOp::Gt => Ok(L3ExprV2::Cmp(CmpOpV2::Gt, lb, rb)),
                SurfaceBinOp::Ge => Ok(L3ExprV2::Cmp(CmpOpV2::Ge, lb, rb)),
                SurfaceBinOp::Eq => Ok(L3ExprV2::Cmp(CmpOpV2::Eq, lb, rb)),
                SurfaceBinOp::Ne => Ok(L3ExprV2::Cmp(CmpOpV2::Ne, lb, rb)),
                SurfaceBinOp::Then | SurfaceBinOp::And => Err(
                    L3V2LowerError::Unsupported(owned("witness composition has no executable meaning in v2")),
                ),
            }
        },
        SurfaceExpr::Match { scrutinee, arms } => {
            let s = match lower_expr_v2(scrutinee, lets, locals, rules, nullary, variants_of, functions, records, in_rule, helper_enabled) {
                Ok(s) => s,
                Err(err) => {
                    return Err(err);
                },
            };
            let mut out: Vec<(L3PatternV2, L3ExprV2)> = Vec::new();
            let mut i: usize = 0;
            while i < arms.len()
                invariant
                    e is Match && e->Match_arms == *arms,
                    i <= arms@.len(),
                    lower_arms_spec(*e, sc, loc, i as nat) matches Ok(xs) && out@.len() == xs.len() && forall|k: int|
                        0 <= k < xs.len() ==> pattern_model(#[trigger] out@[k].0) == xs[k].0 && out@[k].1@ == xs[k].1,
                decreases arms@.len() - i,
            {
                proof {
                    assert(decreases_to!(*e => e->Match_arms));
                    assert(decreases_to!(e->Match_arms => e->Match_arms@));
                    assert(decreases_to!(e->Match_arms@ => e->Match_arms@[i as int]));
                    assert(decreases_to!(e->Match_arms@[i as int] => e->Match_arms@[i as int].body));
                }
                let arm = &arms[i];
                let pat = match lower_pattern_v2(&arm.pattern, helper_enabled) {
                    Ok(p) => p,
                    Err(err) => {
                        proof {
                            lemma_arms_stop(*e, sc, loc, (i + 1) as nat, arms@.len());
                        }
                        return Err(err);
                    },
                };
                let arm_locals = locals_with_binders(locals, &pat);
                match lower_expr_v2(&arm.body, lets, &arm_locals, rules, nullary, variants_of, functions, records, in_rule, helper_enabled) {
                    Ok(body) => {
                        out.push((pat, body));
                    },
                    Err(err) => {
                        proof {
                            lemma_arms_stop(*e, sc, loc, (i + 1) as nat, arms@.len());
                        }
                        return Err(err);
                    },
                }
                i = i + 1;
            }
            let r = L3ExprV2::Match { scrutinee: Box::new(s), arms: out };
            proof {
                lemma_arms_prefix(out@, out@.len());
                let xs = lower_arms_spec(*e, sc, loc, arms@.len())->Ok_0;
                assert(crate::l3_v2::expr_view::arms_prefix(out@, out@.len()) =~= xs);
            }
            Ok(r)
        },
        SurfaceExpr::Prove(_) => Err(L3V2LowerError::Unsupported(owned("prove"))),
        SurfaceExpr::Why(_) => Err(L3V2LowerError::Unsupported(owned("why"))),
        SurfaceExpr::Audit(_) => Err(L3V2LowerError::Unsupported(owned("audit"))),
    }
}

/// Models of named expressions as the expression view renders them.
pub open spec fn expr_fields_prefix_of(v: Seq<(String, L3ExprV2)>) -> Seq<(Seq<char>, ExprModel)> {
    crate::l3_v2::expr_view::expr_fields_prefix(v, v.len())
}

/// `locals` with the names `pat` binds.
fn locals_with_binders(locals: &KeyMap<()>, pat: &L3PatternV2) -> (m: KeyMap<()>)
    ensures
        names_of(m) == names_of(*locals) + bound_names(pattern_model(*pat).binders),
{
    let mut m = locals.clone();
    proof {
        assert forall|i: int| 0 <= i < m.pairs().len() implies m.pairs()[i] == locals.pairs()[i] by {
            let (a, u) = m.pairs()[i];
            let (b, w) = locals.pairs()[i];
            assert(a == b);
            assert(u == w);
        }
        assert(m.pairs() =~= locals.pairs());
    }
    let L3PatternV2::Ctor { binders, .. } = pat;
    let ghost bm = binders@.map_values(|o: Option<String>| opt_text(o));
    let mut j: usize = 0;
    while j < binders.len()
        invariant
            j <= binders@.len(),
            bm == binders@.map_values(|o: Option<String>| opt_text(o)),
            names_of(m) == names_of(*locals) + bound_names(bm.take(j as int)),
        decreases binders@.len() - j,
    {
        let ghost before = names_of(m);
        match &binders[j] {
            Some(b) => {
                note_name(&mut m, b);
            },
            None => {},
        }
        proof {
            let t = bm.take(j as int);
            let t1 = bm.take(j + 1);
            assert forall|x: Seq<char>| #[trigger] bound_names(t1).contains(x) == (bound_names(t).contains(x) || bm[j as int]
                == Some(x)) by {
                if t1.contains(Some(x)) {
                    let k = choose|k: int| 0 <= k < t1.len() && t1[k] == Some(x);
                    if k < j {
                        assert(t[k] == Some(x));
                    }
                }
                if t.contains(Some(x)) {
                    let k = choose|k: int| 0 <= k < t.len() && t[k] == Some(x);
                    assert(t1[k] == Some(x));
                }
                if bm[j as int] == Some(x) {
                    assert(t1[j as int] == Some(x));
                }
            }
            assert(names_of(m) =~= names_of(*locals) + bound_names(t1));
        }
        j = j + 1;
    }
    proof {
        assert(bm.take(binders@.len() as int) =~= bm);
    }
    m
}

} // verus!
