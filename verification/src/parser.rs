//! Parser for the rule language.
//!
//! The grammar is line-oriented and whitespace-tolerant:
//!
//! ```text
//! document := bounds rule*
//! bounds   := 'start' ':' INT 'end' ':' INT
//! rule     := INT ':' TEXT NEWLINE
//! ```
//!
//! `INT` is a run of decimal digits read as an unsigned 32-bit value.
//! `TEXT` is every character after the rule's colon (leading spaces and tabs
//! stripped) up to, and not including, the line's newline.  Whitespace may
//! surround every other token.  A rule whose divisor is zero is rejected
//! with a semantic error: the generated program divides by each divisor.
//!
//! Parsing is total and deterministic: [`parse`] returns exactly
//! [`spec_parse`] of the input's characters, both on success and on error.

use vstd::prelude::*;

verus! {

/// One `divisor: literal` rule, in declaration order within a document.
#[derive(Debug)]
pub struct Rule {
    pub divisor: u32,
    pub literal: String,
}

/// The inclusive iteration range of a document.
#[derive(Debug)]
pub struct Bound {
    pub start: u32,
    pub end: u32,
}

/// A parsed document: the range and the ordered rules.
#[derive(Debug)]
pub struct Rules {
    pub bounds: Bound,
    pub rules: Vec<Rule>,
}

/// Mathematical model of a [`Rule`].
pub struct RuleModel {
    pub divisor: u32,
    pub literal: Seq<char>,
}

/// Mathematical model of a [`Rules`] value.
pub struct RulesModel {
    pub start: u32,
    pub end: u32,
    pub rules: Seq<RuleModel>,
}

impl View for Rule {
    type V = RuleModel;

    open spec fn view(&self) -> RuleModel {
        RuleModel { divisor: self.divisor, literal: self.literal@ }
    }
}

impl DeepView for Rule {
    type V = RuleModel;

    open spec fn deep_view(&self) -> RuleModel {
        self@
    }
}

impl View for Rules {
    type V = RulesModel;

    open spec fn view(&self) -> RulesModel {
        RulesModel {
            start: self.bounds.start,
            end: self.bounds.end,
            rules: self.rules.deep_view(),
        }
    }
}

/// Every divisor is nonzero, so the generated program never divides by zero.
pub open spec fn wf_rules(rules: Seq<RuleModel>) -> bool {
    forall|i: int| 0 <= i < rules.len() ==> rules[i].divisor != 0
}

/// The token kinds the parser can demand at a position.
#[derive(Clone, Copy, Debug, PartialEq, Eq)]
pub enum Expected {
    /// The keyword `start` opening the bounds section.
    StartKeyword,
    /// The keyword `end` closing the bounds section.
    EndKeyword,
    /// A `:` separating a keyword or divisor from its value.
    Colon,
    /// A decimal digit.
    Digit,
    /// Either a further rule or the end of the document.
    RuleOrEnd,
    /// A newline ending a rule's literal.
    Newline,
}

/// Why parsing stopped.
#[derive(Clone, Copy, Debug, PartialEq, Eq)]
pub enum ParseErrorKind {
    /// The character at the span (or the end of input) is not what the
    /// grammar accepts there.
    Unexpected { expected: Expected, found: Option<char> },
    /// An integer literal does not fit in 32 unsigned bits.
    IntOverflow,
    /// A rule's divisor is zero.
    ZeroDivisor,
}

/// A structured parse failure: a character-offset span into the source and
/// the reason.
#[derive(Clone, Copy, Debug, PartialEq, Eq)]
pub struct ParseError {
    /// Offset of the first offending character.
    pub start: usize,
    /// Offset one past the span (equal to `start` at end of input).
    pub end: usize,
    pub kind: ParseErrorKind,
}

/// Whitespace that may surround tokens.
pub open spec fn is_ws(c: char) -> bool {
    c == ' ' || c == '\t' || c == '\r' || c == '\n'
}

/// A decimal digit.
pub open spec fn is_digit(c: char) -> bool {
    '0' <= c && c <= '9'
}

/// Numeric value of a digit character.
pub open spec fn digit_val(c: char) -> nat {
    ((c as int) - ('0' as int)) as nat
}

/// First position at or after `i` holding a non-whitespace character.
pub open spec fn skip_ws(s: Seq<char>, i: int) -> int
    decreases s.len() - i,
{
    if 0 <= i < s.len() && is_ws(s[i]) {
        skip_ws(s, i + 1)
    } else {
        i
    }
}

/// First position at or after `i` holding a non-digit character.
pub open spec fn digits_end(s: Seq<char>, i: int) -> int
    decreases s.len() - i,
{
    if 0 <= i < s.len() && is_digit(s[i]) {
        digits_end(s, i + 1)
    } else {
        i
    }
}

/// Value of the digit run `s[i..j)`, most significant digit first.
pub open spec fn digits_val(s: Seq<char>, i: int, j: int) -> nat
    decreases j - i,
{
    if i < j {
        digits_val(s, i, j - 1) * 10 + digit_val(s[j - 1])
    } else {
        0
    }
}

/// Whitespace that may precede a rule's literal without joining it.
pub open spec fn is_inline_ws(c: char) -> bool {
    c == ' ' || c == '\t'
}

/// First position at or after `i` holding neither a space nor a tab.
pub open spec fn skip_inline_ws(s: Seq<char>, i: int) -> int
    decreases s.len() - i,
{
    if 0 <= i < s.len() && is_inline_ws(s[i]) {
        skip_inline_ws(s, i + 1)
    } else {
        i
    }
}

/// First position at or after `i` holding a newline character, or the length.
pub open spec fn line_end(s: Seq<char>, i: int) -> int
    decreases s.len() - i,
{
    if 0 <= i < s.len() && s[i] != '\n' && s[i] != '\r' {
        line_end(s, i + 1)
    } else {
        i
    }
}

/// Position after the newline starting at `i`; `"\r\n"` counts as one.
pub open spec fn after_newline(s: Seq<char>, i: int) -> int {
    if 0 <= i && i + 1 < s.len() && s[i] == '\r' && s[i + 1] == '\n' {
        i + 2
    } else {
        i + 1
    }
}

/// The character at `i`, or `None` at the end of input.
pub open spec fn found_at(s: Seq<char>, i: int) -> Option<char> {
    if 0 <= i < s.len() {
        Some(s[i])
    } else {
        None
    }
}

/// The error reported when position `i` does not offer `exp`.
pub open spec fn err_at(s: Seq<char>, i: int, exp: Expected) -> ParseError {
    ParseError {
        start: i as usize,
        end: if 0 <= i < s.len() {
            (i + 1) as usize
        } else {
            i as usize
        },
        kind: ParseErrorKind::Unexpected { expected: exp, found: found_at(s, i) },
    }
}

/// How many leading characters of `kw` stand at position `i` of `s`.
pub open spec fn match_len(s: Seq<char>, i: int, kw: Seq<char>) -> int
    decreases kw.len(),
{
    if kw.len() > 0 && 0 <= i < s.len() && s[i] == kw[0] {
        1 + match_len(s, i + 1, kw.drop_first())
    } else {
        0
    }
}

/// Accept the keyword `kw` at `i`, or fail at the first diverging character.
pub open spec fn p_keyword(s: Seq<char>, i: int, kw: Seq<char>, exp: Expected) -> Result<
    int,
    ParseError,
> {
    if match_len(s, i, kw) == kw.len() {
        Ok(i + kw.len())
    } else {
        Err(err_at(s, i + match_len(s, i, kw), exp))
    }
}

/// Accept a `:` at `i`.
pub open spec fn p_colon(s: Seq<char>, i: int) -> Result<int, ParseError> {
    if 0 <= i < s.len() && s[i] == ':' {
        Ok(i + 1)
    } else {
        Err(err_at(s, i, Expected::Colon))
    }
}

/// Accept a run of decimal digits at `i` as an unsigned 32-bit value.
pub open spec fn p_u32(s: Seq<char>, i: int) -> Result<(u32, int), ParseError> {
    let j = digits_end(s, i);
    if j == i {
        Err(err_at(s, i, Expected::Digit))
    } else if digits_val(s, i, j) > u32::MAX {
        Err(ParseError { start: i as usize, end: j as usize, kind: ParseErrorKind::IntOverflow })
    } else {
        Ok((digits_val(s, i, j) as u32, j))
    }
}

/// Accept one rule at `i` (the caller has seen a digit there): a nonzero
/// divisor, a colon, and a literal running to the line's newline.
pub open spec fn p_rule(s: Seq<char>, i: int) -> Result<(RuleModel, int), ParseError> {
    match p_u32(s, i) {
        Err(e) => Err(e),
        Ok((d, j)) => if d == 0 {
            Err(ParseError { start: i as usize, end: j as usize, kind: ParseErrorKind::ZeroDivisor })
        } else {
            match p_colon(s, skip_ws(s, j)) {
                Err(e) => Err(e),
                Ok(m) => {
                    let a = skip_inline_ws(s, m);
                    let b = line_end(s, a);
                    if b >= s.len() {
                        Err(err_at(s, b, Expected::Newline))
                    } else {
                        Ok((RuleModel { divisor: d, literal: s.subrange(a, b) }, after_newline(s, b)))
                    }
                },
            }
        },
    }
}

/// Accept rules until the end of input, each preceded by optional whitespace.
pub open spec fn p_rules(s: Seq<char>, i: int) -> Result<(Seq<RuleModel>, int), ParseError>
    decreases s.len() - i,
    when 0 <= i
    via p_rules_decreases
{
    let j = skip_ws(s, i);
    if j >= s.len() {
        Ok((Seq::empty(), j))
    } else if !is_digit(s[j]) {
        Err(err_at(s, j, Expected::RuleOrEnd))
    } else {
        match p_rule(s, j) {
            Err(e) => Err(e),
            Ok((r, k)) => match p_rules(s, k) {
                Err(e) => Err(e),
                Ok((rs, n)) => Ok((seq![r].add(rs), n)),
            },
        }
    }
}

#[via_fn]
proof fn p_rules_decreases(s: Seq<char>, i: int) {
    let j = skip_ws(s, i);
    if j < s.len() {
        if i > s.len() {
            assert(skip_ws(s, i) == i);
        }
        lemma_skip_ws_range(s, i);
        if is_digit(s[j]) && p_rule(s, j) is Ok {
            lemma_p_rule_range(s, j);
        }
    }
}

/// `skip_ws` stays within the input and moves only forward.
pub proof fn lemma_skip_ws_range(s: Seq<char>, i: int)
    requires
        0 <= i <= s.len(),
    ensures
        i <= skip_ws(s, i) <= s.len(),
    decreases s.len() - i,
{
    if i < s.len() && is_ws(s[i]) {
        lemma_skip_ws_range(s, i + 1);
    }
}

/// `digits_end` stays within the input and moves only forward.
pub proof fn lemma_digits_end_range(s: Seq<char>, i: int)
    requires
        0 <= i <= s.len(),
    ensures
        i <= digits_end(s, i) <= s.len(),
    decreases s.len() - i,
{
    if i < s.len() && is_digit(s[i]) {
        lemma_digits_end_range(s, i + 1);
    }
}

/// `skip_inline_ws` stays within the input and moves only forward.
pub proof fn lemma_skip_inline_ws_range(s: Seq<char>, i: int)
    requires
        0 <= i <= s.len(),
    ensures
        i <= skip_inline_ws(s, i) <= s.len(),
    decreases s.len() - i,
{
    if i < s.len() && is_inline_ws(s[i]) {
        lemma_skip_inline_ws_range(s, i + 1);
    }
}

/// `line_end` stays within the input and moves only forward.
pub proof fn lemma_line_end_range(s: Seq<char>, i: int)
    requires
        0 <= i <= s.len(),
    ensures
        i <= line_end(s, i) <= s.len(),
    decreases s.len() - i,
{
    if i < s.len() && s[i] != '\n' && s[i] != '\r' {
        lemma_line_end_range(s, i + 1);
    }
}

/// A successfully parsed rule ends past where it began, within the input.
pub proof fn lemma_p_rule_range(s: Seq<char>, i: int)
    requires
        0 <= i <= s.len(),
        p_rule(s, i) is Ok,
    ensures
        i < p_rule(s, i)->Ok_0.1 <= s.len(),
{
    let j = digits_end(s, i);
    lemma_digits_end_range(s, i);
    lemma_skip_ws_range(s, j);
    let m = skip_ws(s, j) + 1;
    lemma_skip_inline_ws_range(s, m);
    let a = skip_inline_ws(s, m);
    lemma_line_end_range(s, a);
}

/// Parse a whole document: bounds first, then any number of rules, then the
/// end of the input.
pub open spec fn spec_parse(s: Seq<char>) -> Result<RulesModel, ParseError> {
    match p_keyword(s, skip_ws(s, 0), "start"@, Expected::StartKeyword) {
        Err(e) => Err(e),
        Ok(i1) => match p_colon(s, skip_ws(s, i1)) {
            Err(e) => Err(e),
            Ok(i2) => match p_u32(s, skip_ws(s, i2)) {
                Err(e) => Err(e),
                Ok((start, i3)) => match p_keyword(s, skip_ws(s, i3), "end"@, Expected::EndKeyword) {
                    Err(e) => Err(e),
                    Ok(i4) => match p_colon(s, skip_ws(s, i4)) {
                        Err(e) => Err(e),
                        Ok(i5) => match p_u32(s, skip_ws(s, i5)) {
                            Err(e) => Err(e),
                            Ok((end, i6)) => match p_rules(s, i6) {
                                Err(e) => Err(e),
                                Ok((rules, _)) => Ok(RulesModel { start, end, rules }),
                            },
                        },
                    },
                },
            },
        },
    }
}

/// All characters of the digit run found by `digits_end` are digits.
proof fn lemma_digits_end_chars(s: Seq<char>, i: int)
    requires
        0 <= i,
    ensures
        forall|p: int| i <= p < digits_end(s, i) ==> is_digit(s[p]),
    decreases s.len() - i,
{
    if 0 <= i < s.len() && is_digit(s[i]) {
        lemma_digits_end_chars(s, i + 1);
    }
}

/// How `match_len` reads as a character-by-character comparison.
proof fn lemma_match_len_chars(s: Seq<char>, i: int, kw: Seq<char>)
    requires
        0 <= i <= s.len(),
    ensures
        0 <= match_len(s, i, kw) <= kw.len(),
        i + match_len(s, i, kw) <= s.len(),
        forall|k: int| 0 <= k < match_len(s, i, kw) ==> s[i + k] == #[trigger] kw[k],
        match_len(s, i, kw) < kw.len() ==> !(i + match_len(s, i, kw) < s.len() && s[i + match_len(
            s,
            i,
            kw,
        )] == kw[match_len(s, i, kw)]),
    decreases kw.len(),
{
    if kw.len() > 0 && 0 <= i < s.len() && s[i] == kw[0] {
        lemma_match_len_chars(s, i + 1, kw.drop_first());
        let ml = match_len(s, i, kw);
        let sub = match_len(s, i + 1, kw.drop_first());
        assert(ml == 1 + sub);
        assert(0 <= ml <= kw.len());
        assert forall|k: int| 0 <= k < ml implies s[i + k] == #[trigger] kw[k] by {
            if k > 0 {
                assert(kw.drop_first()[k - 1] == kw[k]);
                assert(s[(i + 1) + (k - 1)] == kw.drop_first()[k - 1]);
            }
        }
        if ml < kw.len() {
            assert(kw.drop_first()[ml - 1] == kw[ml]);
            assert(!((i + 1) + (ml - 1) < s.len() && s[(i + 1) + (ml - 1)] == kw.drop_first()[ml
                - 1]));
        }
    } else {
        assert(match_len(s, i, kw) == 0);
    }
}

fn is_ws_exec(c: char) -> (r: bool)
    ensures
        r == is_ws(c),
{
    c == ' ' || c == '\t' || c == '\r' || c == '\n'
}

fn is_digit_exec(c: char) -> (r: bool)
    ensures
        r == is_digit(c),
{
    '0' <= c && c <= '9'
}

fn skip_ws_exec(cs: &Vec<char>, i: usize) -> (j: usize)
    requires
        i <= cs@.len(),
    ensures
        j as int == skip_ws(cs@, i as int),
        i <= j <= cs@.len(),
{
    let mut j = i;
    while j < cs.len() && is_ws_exec(cs[j])
        invariant
            i <= j <= cs@.len(),
            skip_ws(cs@, i as int) == skip_ws(cs@, j as int),
        decreases cs@.len() - j,
    {
        j += 1;
    }
    j
}

fn skip_inline_ws_exec(cs: &Vec<char>, i: usize) -> (j: usize)
    requires
        i <= cs@.len(),
    ensures
        j as int == skip_inline_ws(cs@, i as int),
        i <= j <= cs@.len(),
{
    let mut j = i;
    while j < cs.len() && (cs[j] == ' ' || cs[j] == '\t')
        invariant
            i <= j <= cs@.len(),
            skip_inline_ws(cs@, i as int) == skip_inline_ws(cs@, j as int),
        decreases cs@.len() - j,
    {
        j += 1;
    }
    j
}

fn line_end_exec(cs: &Vec<char>, i: usize) -> (j: usize)
    requires
        i <= cs@.len(),
    ensures
        j as int == line_end(cs@, i as int),
        i <= j <= cs@.len(),
{
    let mut j = i;
    while j < cs.len() && cs[j] != '\n' && cs[j] != '\r'
        invariant
            i <= j <= cs@.len(),
            line_end(cs@, i as int) == line_end(cs@, j as int),
        decreases cs@.len() - j,
    {
        j += 1;
    }
    j
}

fn digits_end_exec(cs: &Vec<char>, i: usize) -> (j: usize)
    requires
        i <= cs@.len(),
    ensures
        j as int == digits_end(cs@, i as int),
        i <= j <= cs@.len(),
{
    let mut j = i;
    while j < cs.len() && is_digit_exec(cs[j])
        invariant
            i <= j <= cs@.len(),
            digits_end(cs@, i as int) == digits_end(cs@, j as int),
        decreases cs@.len() - j,
    {
        j += 1;
    }
    j
}

fn mk_err_at(cs: &Vec<char>, i: usize, exp: Expected) -> (e: ParseError)
    requires
        i <= cs@.len(),
    ensures
        e == err_at(cs@, i as int, exp),
{
    if i < cs.len() {
        ParseError {
            start: i,
            end: i + 1,
            kind: ParseErrorKind::Unexpected { expected: exp, found: Some(cs[i]) },
        }
    } else {
        ParseError {
            start: i,
            end: i,
            kind: ParseErrorKind::Unexpected { expected: exp, found: None },
        }
    }
}

fn match_keyword(cs: &Vec<char>, i: usize, kw: &str) -> (ml: usize)
    requires
        i <= cs@.len(),
    ensures
        ml as int == match_len(cs@, i as int, kw@),
{
    let kn = kw.unicode_len();
    let mut k: usize = 0;
    let mut j = i;
    while k < kn && j < cs.len() && cs[j] == kw.get_char(k)
        invariant
            j == i + k,
            i <= j <= cs@.len(),
            k <= kn,
            kn == kw@.len(),
            forall|t: int| 0 <= t < k ==> i + t < cs@.len() && cs@[i + t] == #[trigger] kw@[t],
        decreases kn - k,
    {
        k += 1;
        j += 1;
    }
    proof {
        lemma_match_len_chars(cs@, i as int, kw@);
        let ml = match_len(cs@, i as int, kw@);
        if ml < k {
            assert(cs@[i + ml] == kw@[ml]);
        }
        if ml > k {
            assert(cs@[i as int + k as int] == kw@[k as int]);
        }
    }
    k
}

fn p_keyword_exec(cs: &Vec<char>, i: usize, kw: &str, exp: Expected) -> (r: Result<
    usize,
    ParseError,
>)
    requires
        i <= cs@.len(),
    ensures
        (match (r, p_keyword(cs@, i as int, kw@, exp)) {
            (Ok(j), Ok(sj)) => j as int == sj && j <= cs@.len(),
            (Err(e), Err(se)) => e == se,
            _ => false,
        }),
{
    let n = cs.len();
    let kn = kw.unicode_len();
    let ml = match_keyword(cs, i, kw);
    proof {
        lemma_match_len_chars(cs@, i as int, kw@);
        assert(i + ml <= n);
    }
    if ml == kn {
        Ok(i + kn)
    } else {
        Err(mk_err_at(cs, i + ml, exp))
    }
}

fn p_colon_exec(cs: &Vec<char>, i: usize) -> (r: Result<usize, ParseError>)
    requires
        i <= cs@.len(),
    ensures
        (match (r, p_colon(cs@, i as int)) {
            (Ok(j), Ok(sj)) => j as int == sj && j <= cs@.len(),
            (Err(e), Err(se)) => e == se,
            _ => false,
        }),
{
    if i < cs.len() && cs[i] == ':' {
        Ok(i + 1)
    } else {
        Err(mk_err_at(cs, i, Expected::Colon))
    }
}

fn p_u32_exec(cs: &Vec<char>, i: usize) -> (r: Result<(u32, usize), ParseError>)
    requires
        i <= cs@.len(),
    ensures
        (match (r, p_u32(cs@, i as int)) {
            (Ok((v, j)), Ok((sv, sj))) => v == sv && j as int == sj && i < j <= cs@.len(),
            (Err(e), Err(se)) => e == se,
            _ => false,
        }),
{
    let j = digits_end_exec(cs, i);
    if j == i {
        return Err(mk_err_at(cs, i, Expected::Digit));
    }
    proof {
        lemma_digits_end_chars(cs@, i as int);
    }
    let mut k = i;
    let mut acc: u64 = 0;
    let mut over = false;
    while k < j
        invariant
            i <= k <= j <= cs@.len(),
            j as int == digits_end(cs@, i as int),
            forall|p: int| i <= p < j ==> is_digit(cs@[p]),
            acc <= u32::MAX,
            !over ==> acc as nat == digits_val(cs@, i as int, k as int),
            over ==> digits_val(cs@, i as int, k as int) > u32::MAX,
        decreases j - k,
    {
        let d = (cs[k] as u32) - 48;
        proof {
            assert(is_digit(cs@[k as int]));
            assert(digits_val(cs@, i as int, k as int + 1) == digits_val(
                cs@,
                i as int,
                k as int,
            ) * 10 + digit_val(cs@[k as int]));
        }
        if !over {
            let nacc = acc * 10 + (d as u64);
            if nacc > u32::MAX as u64 {
                over = true;
            } else {
                acc = nacc;
            }
        }
        k += 1;
    }
    if over {
        Err(ParseError { start: i, end: j, kind: ParseErrorKind::IntOverflow })
    } else {
        Ok((acc as u32, j))
    }
}

fn p_rule_exec(src: &str, cs: &Vec<char>, i: usize) -> (r: Result<(Rule, usize), ParseError>)
    requires
        cs@ == src@,
        i <= cs@.len(),
    ensures
        (match (r, p_rule(cs@, i as int)) {
            (Ok((rule, k)), Ok((sr, sk))) => rule@ == sr && k as int == sk && i < k <= cs@.len()
                && rule.divisor != 0,
            (Err(e), Err(se)) => e == se,
            _ => false,
        }),
{
    let (d, j) = match p_u32_exec(cs, i) {
        Ok(p) => p,
        Err(e) => { return Err(e); },
    };
    if d == 0 {
        return Err(ParseError { start: i, end: j, kind: ParseErrorKind::ZeroDivisor });
    }
    let after_colon = match p_colon_exec(cs, skip_ws_exec(cs, j)) {
        Ok(p) => p,
        Err(e) => { return Err(e); },
    };
    let a = skip_inline_ws_exec(cs, after_colon);
    let b = line_end_exec(cs, a);
    if b >= cs.len() {
        return Err(mk_err_at(cs, b, Expected::Newline));
    }
    let literal: String = src.substring_char(a, b).to_owned();
    let next = if cs[b] == '\r' && b + 1 < cs.len() && cs[b + 1] == '\n' {
        b + 2
    } else {
        b + 1
    };
    Ok((Rule { divisor: d, literal }, next))
}

fn p_rules_exec(src: &str, cs: &Vec<char>, i: usize) -> (r: Result<(Vec<Rule>, usize), ParseError>)
    requires
        cs@ == src@,
        i <= cs@.len(),
    ensures
        (match (r, p_rules(cs@, i as int)) {
            (Ok((rv, j)), Ok((srs, sj))) => rv.deep_view() == srs && j as int == sj && wf_rules(
                rv.deep_view(),
            ),
            (Err(e), Err(se)) => e == se,
            _ => false,
        }),
{
    let mut acc: Vec<Rule> = Vec::new();
    let mut cur = i;
    loop
        invariant
            cs@ == src@,
            i <= cs@.len(),
            cur <= cs@.len(),
            wf_rules(acc.deep_view()),
            (match p_rules(cs@, cur as int) {
                Ok((rs, n)) => p_rules(cs@, i as int) == Ok::<_, ParseError>(
                    (acc.deep_view() + rs, n),
                ),
                Err(e) => p_rules(cs@, i as int) == Err::<(Seq<RuleModel>, int), _>(e),
            }),
        decreases cs@.len() - cur,
    {
        let j = skip_ws_exec(cs, cur);
        if j >= cs.len() {
            proof {
                assert(p_rules(cs@, cur as int) == Ok::<_, ParseError>(
                    (Seq::<RuleModel>::empty(), j as int),
                ));
                assert(acc.deep_view() + Seq::<RuleModel>::empty() =~= acc.deep_view());
            }
            return Ok((acc, j));
        }
        if !is_digit_exec(cs[j]) {
            return Err(mk_err_at(cs, j, Expected::RuleOrEnd));
        }
        let (rule, k) = match p_rule_exec(src, cs, j) {
            Ok(p) => p,
            Err(e) => { return Err(e); },
        };
        proof {
            let ghost (sr, sk) = p_rule(cs@, j as int)->Ok_0;
            let ghost old_acc = acc.deep_view();
            if let Ok((rs, n)) = p_rules(cs@, k as int) {
                assert(p_rules(cs@, cur as int) == Ok::<_, ParseError>((seq![sr].add(rs), n)));
                assert(old_acc + (seq![sr] + rs) =~= old_acc.push(sr) + rs);
            }
        }
        let ghost prev = acc.deep_view();
        acc.push(rule);
        proof {
            assert(acc.deep_view() =~= prev.push(rule@));
        }
        cur = k;
    }
}

/// Parse a document.
///
/// The result is exactly [`spec_parse`] of the source's characters: the same
/// input always yields the same ruleset or the same error.  On success every
/// parsed divisor is nonzero.
pub fn parse(src: &str) -> (r: Result<Rules, ParseError>)
    ensures
        (match (r, spec_parse(src@)) {
            (Ok(rules), Ok(m)) => rules@ == m && wf_rules(m.rules),
            (Err(e), Err(se)) => e == se,
            _ => false,
        }),
{
    let n = src.unicode_len();
    let mut cs: Vec<char> = Vec::new();
    let mut k: usize = 0;
    while k < n
        invariant
            k <= n,
            n == src@.len(),
            cs@ == src@.subrange(0, k as int),
        decreases n - k,
    {
        let c = src.get_char(k);
        cs.push(c);
        proof {
            assert(cs@ =~= src@.subrange(0, k as int + 1));
        }
        k += 1;
    }
    proof {
        assert(cs@ =~= src@);
    }
    let i1 = match p_keyword_exec(&cs, skip_ws_exec(&cs, 0), "start", Expected::StartKeyword) {
        Ok(p) => p,
        Err(e) => { return Err(e); },
    };
    let i2 = match p_colon_exec(&cs, skip_ws_exec(&cs, i1)) {
        Ok(p) => p,
        Err(e) => { return Err(e); },
    };
    let (start, i3) = match p_u32_exec(&cs, skip_ws_exec(&cs, i2)) {
        Ok(p) => p,
        Err(e) => { return Err(e); },
    };
    let i4 = match p_keyword_exec(&cs, skip_ws_exec(&cs, i3), "end", Expected::EndKeyword) {
        Ok(p) => p,
        Err(e) => { return Err(e); },
    };
    let i5 = match p_colon_exec(&cs, skip_ws_exec(&cs, i4)) {
        Ok(p) => p,
        Err(e) => { return Err(e); },
    };
    let (end, i6) = match p_u32_exec(&cs, skip_ws_exec(&cs, i5)) {
        Ok(p) => p,
        Err(e) => { return Err(e); },
    };
    let (rules, _rest) = match p_rules_exec(src, &cs, i6) {
        Ok(p) => p,
        Err(e) => { return Err(e); },
    };
    Ok(Rules { bounds: Bound { start, end }, rules })
}

} // verus!
