//! What the generated program prints.
//!
//! [`output`] states, over the parsed rules alone, the text the compiled
//! program writes for an inclusive range: per value one line, holding the
//! constants of every rule whose divisor divides the value (in declaration
//! order, no separator) or the value in decimal when no rule matches.  A
//! rule reads its text from the divisor-keyed constant table, so of two
//! rules sharing a divisor the later literal wins — both matches still
//! print, each the later text.
//!
//! [`simulate`] computes that text, so the behaviour of a compiled document
//! can be run and tested without a native toolchain.  When the range's end
//! lies before its start the generated program never stops (it leaves the
//! loop only on equality), so there is no finite output to return.

use vstd::prelude::*;

use crate::codegen::ConstModel;
use crate::codegen::idx_from;
use crate::codegen::lemma_idx_from_props;
use crate::codegen::lemma_table_covers;
use crate::codegen::lemma_upsert_keys;
use crate::codegen::lit_for;
use crate::codegen::table_of;
use crate::codegen::upsert;
use crate::codegen::find_const;
use crate::codegen::build_consts;
use crate::parser::RuleModel;
use crate::parser::Rules;
use crate::parser::wf_rules;
use vstd::string::StringExecFns;

verus! {

/// `d` divides `v`.
pub open spec fn divides(d: u32, v: u32) -> bool {
    (v as nat) % (d as nat) == 0
}

/// Some rule among the first `i` matches `v`.
pub open spec fn matches_upto(rules: Seq<RuleModel>, v: u32, i: int) -> bool {
    exists|j: int| 0 <= j < i && divides(rules[j].divisor, v)
}

/// Some rule matches `v`.
pub open spec fn matches_any(rules: Seq<RuleModel>, v: u32) -> bool {
    matches_upto(rules, v, rules.len() as int)
}

/// What the first `i` rules print for `v`: the table constant of each
/// matching rule, in declaration order.
pub open spec fn line_upto(rules: Seq<RuleModel>, t: Seq<ConstModel>, v: u32, i: int) -> Seq<char>
    decreases i,
{
    if i <= 0 {
        Seq::empty()
    } else {
        line_upto(rules, t, v, i - 1) + (if divides(rules[i - 1].divisor, v) {
            lit_for(t, rules[i - 1].divisor)
        } else {
            Seq::empty()
        })
    }
}

/// The decimal digit character of `d`.
pub open spec fn dec_digit(d: nat) -> char {
    if d == 0 {
        '0'
    } else if d == 1 {
        '1'
    } else if d == 2 {
        '2'
    } else if d == 3 {
        '3'
    } else if d == 4 {
        '4'
    } else if d == 5 {
        '5'
    } else if d == 6 {
        '6'
    } else if d == 7 {
        '7'
    } else if d == 8 {
        '8'
    } else {
        '9'
    }
}

/// The decimal text of `n`, most significant digit first, no sign, no
/// leading zero except for `n == 0` itself.
pub open spec fn dec_str(n: nat) -> Seq<char>
    decreases n,
{
    if n < 10 {
        seq![dec_digit(n)]
    } else {
        dec_str(n / 10).push(dec_digit(n % 10))
    }
}

/// The line printed for `v`, without its newline: every matching rule's
/// constant, or the decimal value when no rule matches.
pub open spec fn line_for(rules: Seq<RuleModel>, v: u32) -> Seq<char> {
    if matches_any(rules, v) {
        line_upto(rules, table_of(rules), v, rules.len() as int)
    } else {
        dec_str(v as nat)
    }
}

/// The whole text printed for the inclusive range `a..=b`: one line per
/// value, each ended by a newline.
pub open spec fn output(rules: Seq<RuleModel>, a: u32, b: u32) -> Seq<char>
    decreases b - a,
{
    if a == b {
        line_for(rules, a) + seq!['\n']
    } else if a < b {
        line_for(rules, a) + seq!['\n'] + output(rules, (a + 1) as u32, b)
    } else {
        Seq::empty()
    }
}

/// Relies on `String::push`: appends exactly the one character.
#[verifier::external_body]
pub(crate) fn push_char(s: &mut String, c: char)
    ensures
        final(s)@ == old(s)@.push(c),
{
    s.push(c);
}

fn dec_digit_exec(d: u32) -> (c: char)
    requires
        d < 10,
    ensures
        c == dec_digit(d as nat),
{
    match d {
        0 => '0',
        1 => '1',
        2 => '2',
        3 => '3',
        4 => '4',
        5 => '5',
        6 => '6',
        7 => '7',
        8 => '8',
        _ => '9',
    }
}

/// The decimal text of `n`.
fn u32_dec(n: u32) -> (s: String)
    ensures
        s@ == dec_str(n as nat),
    decreases n,
{
    if n < 10 {
        let mut s = String::new();
        push_char(&mut s, dec_digit_exec(n));
        proof {
            assert(s@ =~= dec_str(n as nat));
        }
        s
    } else {
        let mut s = u32_dec(n / 10);
        push_char(&mut s, dec_digit_exec(n % 10));
        s
    }
}

/// Appending one value's line extends the output of the range before it.
proof fn lemma_output_snoc(rules: Seq<RuleModel>, a: u32, b: u32)
    requires
        a < b,
    ensures
        output(rules, a, b) == output(rules, a, (b - 1) as u32) + line_for(rules, b) + seq!['\n'],
    decreases b - a,
{
    if a == b - 1 {
        assert(output(rules, (a + 1) as u32, b) == line_for(rules, b) + seq!['\n']);
        assert(output(rules, a, b) =~= output(rules, a, (b - 1) as u32) + line_for(rules, b)
            + seq!['\n']);
    } else {
        lemma_output_snoc(rules, (a + 1) as u32, b);
        assert(output(rules, a, b) =~= output(rules, a, (b - 1) as u32) + line_for(rules, b)
            + seq!['\n']);
    }
}

/// A line over rules none of which matches is empty.
proof fn lemma_line_upto_unmatched(rules: Seq<RuleModel>, t: Seq<ConstModel>, v: u32, i: int)
    requires
        !matches_upto(rules, v, i),
    ensures
        line_upto(rules, t, v, i) == Seq::<char>::empty(),
    decreases i,
{
    if i > 0 {
        assert(!divides(rules[i - 1].divisor, v));
        assert(!matches_upto(rules, v, i - 1)) by {
            if matches_upto(rules, v, i - 1) {
                let j = choose|j: int| 0 <= j < i - 1 && divides(rules[j].divisor, v);
                assert(0 <= j < i && divides(rules[j].divisor, v));
            }
        }
        lemma_line_upto_unmatched(rules, t, v, i - 1);
        assert(line_upto(rules, t, v, i) =~= Seq::<char>::empty());
    }
}

/// The decimal text of a value is never empty.
proof fn lemma_dec_str_nonempty(n: nat)
    ensures
        dec_str(n).len() >= 1,
    decreases n,
{
    if n >= 10 {
        lemma_dec_str_nonempty(n / 10);
    }
}

/// With every literal nonempty, every constant of the table is nonempty.
proof fn lemma_table_values_nonempty(rules: Seq<RuleModel>)
    requires
        forall|i: int| 0 <= i < rules.len() ==> rules[i].literal.len() > 0,
    ensures
        forall|k: int|
            0 <= k < table_of(rules).len() ==> (#[trigger] table_of(rules)[k]).value.len() > 0,
    decreases rules.len(),
{
    if rules.len() > 0 {
        let prev = rules.drop_last();
        assert forall|i: int| 0 <= i < prev.len() implies prev[i].literal.len() > 0 by {
            assert(prev[i] == rules[i]);
        }
        lemma_table_values_nonempty(prev);
        let t0 = table_of(prev);
        let last = rules.last();
        assert(last.literal.len() > 0);
        let t = table_of(rules);
        assert(t == upsert(t0, last.divisor, last.literal));
        let cm = ConstModel { divisor: last.divisor, value: last.literal };
        let i = idx_from(t0, last.divisor, 0);
        lemma_idx_from_props(t0, last.divisor, 0);
        assert forall|k: int| 0 <= k < t.len() implies (#[trigger] t[k]).value.len() > 0 by {
            if i < t0.len() {
                assert(t == t0.update(i, cm));
                assert(t.len() == t0.len());
                if k == i {
                    assert(t[k] == cm);
                } else {
                    assert(t[k] == t0[k]);
                    assert(t0[k].value.len() > 0);
                }
            } else {
                assert(t == t0.push(cm));
                if k == t0.len() {
                    assert(t[k] == cm);
                } else {
                    assert(t[k] == t0[k]);
                    assert(t0[k].value.len() > 0);
                }
            }
        }
    }
}

/// A line with a match among the first `i` rules is nonempty, as long as
/// every literal is.
proof fn lemma_line_matched_nonempty(rules: Seq<RuleModel>, v: u32, i: int)
    requires
        0 <= i <= rules.len(),
        matches_upto(rules, v, i),
        forall|k: int| 0 <= k < rules.len() ==> rules[k].literal.len() > 0,
    ensures
        line_upto(rules, table_of(rules), v, i).len() > 0,
    decreases i,
{
    let t = table_of(rules);
    if i > 0 {
        if divides(rules[i - 1].divisor, v) {
            lemma_table_covers(rules, i - 1);
            lemma_table_values_nonempty(rules);
            lemma_idx_from_props(t, rules[i - 1].divisor, 0);
            assert(lit_for(t, rules[i - 1].divisor).len() > 0);
        } else {
            let j = choose|j: int| 0 <= j < i && divides(rules[j].divisor, v);
            assert(0 <= j < i - 1 && divides(rules[j].divisor, v));
            assert(matches_upto(rules, v, i - 1));
            lemma_line_matched_nonempty(rules, v, i - 1);
        }
    }
}

/// Each line of the generated output holds exactly one thing.  When at least
/// one rule matches the value, the line is the matched rules' constants and
/// nothing else; when none matches, it is the value's decimal text and
/// nothing else — never both, never neither.  With every literal nonempty,
/// the line is never empty either.
pub proof fn lemma_line_exclusive(rules: Seq<RuleModel>, v: u32)
    requires
        forall|k: int| 0 <= k < rules.len() ==> rules[k].literal.len() > 0,
    ensures
        matches_any(rules, v) ==> line_for(rules, v) == line_upto(
            rules,
            table_of(rules),
            v,
            rules.len() as int,
        ),
        !matches_any(rules, v) ==> line_for(rules, v) == dec_str(v as nat),
        line_for(rules, v).len() > 0,
{
    if matches_any(rules, v) {
        lemma_line_matched_nonempty(rules, v, rules.len() as int);
    } else {
        lemma_dec_str_nonempty(v as nat);
    }
}

/// The constant of a divisor is the literal of its last rule: later rules
/// with the same divisor overwrite earlier ones in the table, while both
/// still print on a match.
pub proof fn lemma_table_last_wins(rules: Seq<RuleModel>, i: int)
    requires
        0 <= i < rules.len(),
        forall|j: int| i < j < rules.len() ==> rules[j].divisor != rules[i].divisor,
    ensures
        idx_from(table_of(rules), rules[i].divisor, 0) < table_of(rules).len(),
        lit_for(table_of(rules), rules[i].divisor) == rules[i].literal,
    decreases rules.len(),
{
    let t0 = table_of(rules.drop_last());
    let last = rules.last();
    lemma_upsert_keys(t0, last.divisor, last.literal);
    if i == rules.len() - 1 {
        assert(lit_for(table_of(rules), rules[i].divisor) == last.literal);
    } else {
        assert(rules[rules.len() - 1].divisor != rules[i].divisor);
        let prev = rules.drop_last();
        assert(prev[i] == rules[i]);
        assert forall|j: int| i < j < prev.len() implies prev[j].divisor != prev[i].divisor by {
            assert(prev[j] == rules[j]);
        }
        lemma_table_last_wins(prev, i);
    }
}

/// Compute the text the compiled document prints, or `None` when the range
/// never ends (`end` before `start`).
pub fn simulate(rules: &Rules) -> (r: Option<String>)
    requires
        wf_rules(rules@.rules),
    ensures
        r is Some <==> rules@.start <= rules@.end,
        (match r {
            Some(out) => out@ == output(rules@.rules, rules@.start, rules@.end),
            None => true,
        }),
{
    let start = rules.bounds.start;
    let end = rules.bounds.end;
    if start > end {
        return None;
    }
    let consts = build_consts(&rules.rules);
    let mut out = String::new();
    let mut v = start;
    loop
        invariant
            wf_rules(rules@.rules),
            consts.deep_view() == table_of(rules@.rules),
            start <= v <= end,
            start == rules@.start,
            end == rules@.end,
            v == start ==> out@ == Seq::<char>::empty(),
            v > start ==> out@ == output(rules@.rules, start, (v - 1) as u32),
        decreases end - v,
    {
        let n = rules.rules.len();
        let mut matched = false;
        let mut i: usize = 0;
        let ghost out_before = out@;
        while i < n
            invariant
                wf_rules(rules@.rules),
                consts.deep_view() == table_of(rules@.rules),
                i <= n,
                n == rules@.rules.len(),
                matched == matches_upto(rules@.rules, v, i as int),
                out@ == out_before + line_upto(rules@.rules, consts.deep_view(), v, i as int),
            decreases n - i,
        {
            let r = &rules.rules[i];
            proof {
                assert(rules@.rules[i as int].divisor != 0);
            }
            let ghost was_matched = matched;
            if v % r.divisor == 0 {
                proof {
                    lemma_table_covers(rules@.rules, i as int);
                }
                let cid = find_const(&consts, r.divisor);
                out.append(consts[cid].value.as_str());
                matched = true;
            }
            proof {
                let rulesv = rules@.rules;
                let ii = i as int;
                if divides(rulesv[ii].divisor, v) {
                    assert(matches_upto(rulesv, v, ii + 1));
                } else {
                    if matches_upto(rulesv, v, ii + 1) {
                        let j = choose|j: int| 0 <= j < ii + 1 && divides(rulesv[j].divisor, v);
                        assert(0 <= j < ii && divides(rulesv[j].divisor, v));
                        assert(matches_upto(rulesv, v, ii));
                    }
                    if matches_upto(rulesv, v, ii) {
                        let j = choose|j: int| 0 <= j < ii && divides(rulesv[j].divisor, v);
                        assert(0 <= j < ii + 1 && divides(rulesv[j].divisor, v));
                        assert(matches_upto(rulesv, v, ii + 1));
                    }
                }
                assert(out@ =~= out_before + line_upto(
                    rulesv,
                    consts.deep_view(),
                    v,
                    ii + 1,
                ));
            }
            i += 1;
        }
        if !matched {
            proof {
                lemma_line_upto_unmatched(rules@.rules, consts.deep_view(), v, rules@.rules.len() as int);
            }
            let ds = u32_dec(v);
            out.append(ds.as_str());
            proof {
                assert(out@ =~= out_before + dec_str(v as nat));
            }
        }
        push_char(&mut out, '\n');
        proof {
            assert(out@ =~= out_before + line_for(rules@.rules, v) + seq!['\n']);
            if v > start {
                lemma_output_snoc(rules@.rules, start, v);
                assert(out@ =~= output(rules@.rules, start, v));
            } else {
                assert(out@ =~= output(rules@.rules, start, v));
            }
        }
        if v == end {
            return Some(out);
        }
        v = v + 1;
    }
}

} // verus!
