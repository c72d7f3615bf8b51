//! Code generation: from a parsed [`Rules`] value to a backend-agnostic IR
//! module.
//!
//! The module holds a table of string constants — one per distinct divisor,
//! keyed by divisor, the literal of the last rule naming that divisor — the
//! three formatting constants, and the basic blocks of one entry routine.
//! The routine initialises a counter to `start`, and per iteration captures
//! the counter's value, advances the counter, tests every rule in
//! declaration order (printing the divisor's constant on a match), prints
//! the value in decimal when nothing matched, prints a newline, and loops
//! while the captured value differs from `end`.
//!
//! [`compile`] is deterministic and total: it returns exactly
//! [`spec_compile`] of its input.

use vstd::prelude::*;

use crate::parser::Rules;
use crate::parser::RuleModel;

verus! {

/// A string constant of the module: the literal printed for every rule whose
/// divisor equals `divisor`.
pub struct StrConst {
    pub divisor: u32,
    pub value: String,
}

/// Mathematical model of a [`StrConst`].
pub struct ConstModel {
    pub divisor: u32,
    pub value: Seq<char>,
}

impl View for StrConst {
    type V = ConstModel;

    open spec fn view(&self) -> ConstModel {
        ConstModel { divisor: self.divisor, value: self.value@ }
    }
}

impl DeepView for StrConst {
    type V = ConstModel;

    open spec fn deep_view(&self) -> ConstModel {
        self@
    }
}

/// A condition a branch can test.
#[derive(Clone, Copy, Debug, PartialEq, Eq)]
pub enum Cond {
    /// The captured value is divisible by this divisor.
    DivisibleBy { divisor: u32 },
    /// No rule has matched the captured value in this iteration.
    NotMatched,
    /// The captured value differs from the range's end.
    ValueNeEnd { end: u32 },
}

/// A straight-line operation of the entry routine.
#[derive(Clone, Copy, Debug, PartialEq, Eq)]
pub enum Op {
    /// Store the range's start into the counter.
    InitCounter { start: u32 },
    /// Clear the matched flag.
    ResetMatched,
    /// Capture the counter as the value this iteration observes.
    CaptureValue,
    /// Store the captured value plus one into the counter, before any rule
    /// is evaluated.
    AdvanceCounter,
    /// Print the string constant at `cid` with the string format.
    PrintConst { cid: usize },
    /// Set the matched flag.
    SetMatched,
    /// Print the captured value with the decimal format.
    PrintValue,
    /// Print the newline constant.
    PrintNewline,
}

/// How a basic block ends.
#[derive(Clone, Copy, Debug, PartialEq, Eq)]
pub enum Terminator {
    /// Jump to the block at `target`.
    Br { target: usize },
    /// Jump to `then_to` when `cond` holds, else to `else_to`.
    CondBr { cond: Cond, then_to: usize, else_to: usize },
    /// Return status zero from the routine.
    Ret0,
}

/// A basic block: operations in order, then one terminator.
pub struct Block {
    pub ops: Vec<Op>,
    pub term: Terminator,
}

/// Mathematical model of a [`Block`].
pub struct BlockModel {
    pub ops: Seq<Op>,
    pub term: Terminator,
}

impl View for Block {
    type V = BlockModel;

    open spec fn view(&self) -> BlockModel {
        BlockModel { ops: self.ops@, term: self.term }
    }
}

impl DeepView for Block {
    type V = BlockModel;

    open spec fn deep_view(&self) -> BlockModel {
        self@
    }
}

/// The IR of one compilation: string constants, formatting constants, and
/// the entry routine's basic blocks.  Block index 0 is the routine's entry.
pub struct IrModule {
    pub consts: Vec<StrConst>,
    pub blocks: Vec<Block>,
    /// Format template that prints one string.
    pub str_format: String,
    /// Format template that prints one decimal integer.
    pub int_format: String,
    /// The newline constant.
    pub newline: String,
}

/// Mathematical model of an [`IrModule`].
pub struct IrModuleModel {
    pub consts: Seq<ConstModel>,
    pub blocks: Seq<BlockModel>,
    pub str_format: Seq<char>,
    pub int_format: Seq<char>,
    pub newline: Seq<char>,
}

impl View for IrModule {
    type V = IrModuleModel;

    open spec fn view(&self) -> IrModuleModel {
        IrModuleModel {
            consts: self.consts.deep_view(),
            blocks: self.blocks.deep_view(),
            str_format: self.str_format@,
            int_format: self.int_format@,
            newline: self.newline@,
        }
    }
}

/// Index of the first entry of `t` keyed by `d`, scanning from `i`; the
/// length when `d` has no entry.
pub open spec fn idx_from(t: Seq<ConstModel>, d: u32, i: int) -> int
    decreases t.len() - i,
{
    if 0 <= i < t.len() {
        if t[i].divisor == d {
            i
        } else {
            idx_from(t, d, i + 1)
        }
    } else {
        i
    }
}

/// The constant printed for divisor `d`: the table entry keyed by it.
pub open spec fn lit_for(t: Seq<ConstModel>, d: u32) -> Seq<char> {
    t[idx_from(t, d, 0)].value
}

/// Set the constant for divisor `d` to `lit`: in place when `d` already has
/// an entry (the last rule of a divisor wins), appended otherwise.
pub open spec fn upsert(t: Seq<ConstModel>, d: u32, lit: Seq<char>) -> Seq<ConstModel> {
    let i = idx_from(t, d, 0);
    if i < t.len() {
        t.update(i, ConstModel { divisor: d, value: lit })
    } else {
        t.push(ConstModel { divisor: d, value: lit })
    }
}

/// The string-constant table of a rule list: one entry per distinct divisor,
/// in first-appearance order, holding the literal of the divisor's last rule.
pub open spec fn table_of(rules: Seq<RuleModel>) -> Seq<ConstModel>
    decreases rules.len(),
{
    if rules.len() == 0 {
        Seq::empty()
    } else {
        upsert(table_of(rules.drop_last()), rules.last().divisor, rules.last().literal)
    }
}

/// The branch that tests rule `k`, or the no-match test after the last rule.
pub open spec fn rule_cond_br(rules: Seq<RuleModel>, k: int) -> Terminator {
    if 0 <= k < rules.len() {
        Terminator::CondBr {
            cond: Cond::DivisibleBy { divisor: rules[k].divisor },
            then_to: (2 + 2 * k) as usize,
            else_to: (3 + 2 * k) as usize,
        }
    } else {
        Terminator::CondBr {
            cond: Cond::NotMatched,
            then_to: (2 + 2 * rules.len()) as usize,
            else_to: (3 + 2 * rules.len()) as usize,
        }
    }
}

/// The block at index `b` of the generated routine.
///
/// Layout: 0 is the entry, 1 the loop head, `2 + 2k` and `3 + 2k` the match
/// and continuation blocks of rule `k`, then the bare-value print block, the
/// line-end block, and the exit block.
pub open spec fn block_at(rv: crate::parser::RulesModel, b: int) -> BlockModel {
    let n = rv.rules.len() as int;
    if b == 0 {
        BlockModel {
            ops: seq![Op::InitCounter { start: rv.start }, Op::ResetMatched],
            term: Terminator::Br { target: 1 },
        }
    } else if b == 1 {
        BlockModel {
            ops: seq![Op::CaptureValue, Op::AdvanceCounter],
            term: rule_cond_br(rv.rules, 0),
        }
    } else if 2 <= b < 2 + 2 * n && (b - 2) % 2 == 0 {
        let k = (b - 2) / 2;
        BlockModel {
            ops: seq![
                Op::PrintConst {
                    cid: idx_from(table_of(rv.rules), rv.rules[k].divisor, 0) as usize,
                },
                Op::SetMatched,
            ],
            term: Terminator::Br { target: (3 + 2 * k) as usize },
        }
    } else if 2 <= b < 2 + 2 * n {
        let k = (b - 3) / 2;
        BlockModel { ops: Seq::empty(), term: rule_cond_br(rv.rules, k + 1) }
    } else if b == 2 + 2 * n {
        BlockModel {
            ops: seq![Op::PrintValue],
            term: Terminator::Br { target: (3 + 2 * n) as usize },
        }
    } else if b == 3 + 2 * n {
        BlockModel {
            ops: seq![Op::PrintNewline, Op::ResetMatched],
            term: Terminator::CondBr {
                cond: Cond::ValueNeEnd { end: rv.end },
                then_to: 1,
                else_to: (4 + 2 * n) as usize,
            },
        }
    } else {
        BlockModel { ops: Seq::empty(), term: Terminator::Ret0 }
    }
}

/// The module [`compile`] builds: the divisor-keyed constant table, the
/// three formatting constants, and `2n + 5` blocks laid out as [`block_at`]
/// says.
pub open spec fn spec_compile(rv: crate::parser::RulesModel) -> IrModuleModel {
    IrModuleModel {
        consts: table_of(rv.rules),
        blocks: Seq::new((2 * rv.rules.len() + 5) as nat, |b: int| block_at(rv, b)),
        str_format: "%s"@,
        int_format: "%d"@,
        newline: "\n"@,
    }
}


/// Where `idx_from` stops: at the first entry keyed by `d`, or the length.
pub(crate) proof fn lemma_idx_from_props(t: Seq<ConstModel>, d: u32, i: int)
    requires
        0 <= i <= t.len(),
    ensures
        i <= idx_from(t, d, i) <= t.len(),
        idx_from(t, d, i) < t.len() ==> t[idx_from(t, d, i)].divisor == d,
        forall|k: int| i <= k < idx_from(t, d, i) ==> t[k].divisor != d,
    decreases t.len() - i,
{
    if i < t.len() && t[i].divisor != d {
        lemma_idx_from_props(t, d, i + 1);
    }
}

/// After `upsert`, the table has an entry keyed by the given divisor, and
/// every divisor that had an entry keeps one.
pub(crate) proof fn lemma_upsert_keys(t: Seq<ConstModel>, d: u32, lit: Seq<char>)
    ensures
        ({
            let u = upsert(t, d, lit);
            &&& idx_from(u, d, 0) < u.len()
            &&& lit_for(u, d) == lit
            &&& forall|d2: u32|
                idx_from(t, d2, 0) < t.len() ==> #[trigger] idx_from(u, d2, 0) < u.len()
            &&& forall|d2: u32|
                d2 != d && idx_from(t, d2, 0) < t.len() ==> lit_for(u, d2) == lit_for(t, d2)
        }),
{
    let i = idx_from(t, d, 0);
    let u = upsert(t, d, lit);
    lemma_idx_from_props(t, d, 0);
    lemma_idx_from_props(u, d, 0);
    let iu = idx_from(u, d, 0);
    // The entry for `d` sits where `upsert` wrote it.
    if i < t.len() {
        assert(u == t.update(i, ConstModel { divisor: d, value: lit }));
        assert(u[i].divisor == d);
        if iu < i {
            assert(u[iu] == t[iu]);
            assert(t[iu].divisor != d);
            assert(false);
        }
        if iu > i {
            assert(u[i].divisor != d);
            assert(false);
        }
        assert(iu == i);
    } else {
        assert(u == t.push(ConstModel { divisor: d, value: lit }));
        assert(u[t.len() as int].divisor == d);
        if iu < t.len() {
            assert(u[iu].divisor == d);
            assert(u[iu] == t[iu]);
            assert(t[iu].divisor != d);
            assert(false);
        }
        assert(iu == t.len() as int);
    }
    assert(lit_for(u, d) == lit);
    assert forall|d2: u32| idx_from(t, d2, 0) < t.len() implies #[trigger] idx_from(u, d2, 0)
        < u.len() && (d2 != d ==> lit_for(u, d2) == lit_for(t, d2)) by {
        if d2 == d {
            assert(idx_from(u, d2, 0) < u.len());
        } else {
            lemma_idx_from_props(t, d2, 0);
            lemma_idx_from_props(u, d2, 0);
            let j = idx_from(t, d2, 0);
            assert(t[j].divisor == d2);
            if i < t.len() {
                assert(j != i);
                assert(u[j] == t[j]);
            } else {
                assert(u[j] == t[j]);
            }
            assert(u[j].divisor == d2);
            let ju = idx_from(u, d2, 0);
            if ju < j {
                assert(u[ju].divisor == d2);
                if i < t.len() {
                    assert(ju != i);
                }
                assert(u[ju] == t[ju]);
                assert(t[ju].divisor != d2);
                assert(false);
            }
            if ju > j {
                assert(u[j].divisor != d2);
                assert(false);
            }
            assert(ju == j);
            assert(u[ju] == t[j]);
            assert(lit_for(u, d2) == lit_for(t, d2));
        }
    }
}

/// Every rule's divisor has an entry in the table, and the entry of a
/// divisor is the literal of its last rule.
pub(crate) proof fn lemma_table_covers(rules: Seq<RuleModel>, i: int)
    requires
        0 <= i < rules.len(),
    ensures
        idx_from(table_of(rules), rules[i].divisor, 0) < table_of(rules).len(),
    decreases rules.len(),
{
    let t0 = table_of(rules.drop_last());
    let last = rules.last();
    lemma_upsert_keys(t0, last.divisor, last.literal);
    if i < rules.len() - 1 && rules[i].divisor != last.divisor {
        lemma_table_covers(rules.drop_last(), i);
        assert(rules.drop_last()[i] == rules[i]);
    }
}

/// Index of the first constant keyed by `d`, or the table's length when
/// there is none.
pub(crate) fn find_const(consts: &Vec<StrConst>, d: u32) -> (j: usize)
    ensures
        j as int == idx_from(consts.deep_view(), d, 0),
        j <= consts@.len(),
{
    let mut j: usize = 0;
    while j < consts.len() && consts[j].divisor != d
        invariant
            j <= consts@.len(),
            idx_from(consts.deep_view(), d, 0) == idx_from(consts.deep_view(), d, j as int),
        decreases consts@.len() - j,
    {
        j += 1;
    }
    j
}

/// Build the divisor-keyed constant table of a rule list.
pub(crate) fn build_consts(rules: &Vec<crate::parser::Rule>) -> (t: Vec<StrConst>)
    ensures
        t.deep_view() == table_of(rules.deep_view()),
{
    let mut t: Vec<StrConst> = Vec::new();
    let mut i: usize = 0;
    proof {
        assert(rules.deep_view().take(0) =~= Seq::<RuleModel>::empty());
    }
    while i < rules.len()
        invariant
            i <= rules@.len(),
            t.deep_view() == table_of(rules.deep_view().take(i as int)),
        decreases rules@.len() - i,
    {
        let r = &rules[i];
        let d = r.divisor;
        let lit = r.literal.clone();
        let ghost litv = lit@;
        let j = find_const(&t, d);
        let ghost prev = t.deep_view();
        if j < t.len() {
            t[j] = StrConst { divisor: d, value: lit };
        } else {
            t.push(StrConst { divisor: d, value: lit });
        }
        proof {
            assert(t.deep_view() =~= upsert(prev, d, litv));
            let taken = rules.deep_view().take(i as int + 1);
            assert(taken.drop_last() =~= rules.deep_view().take(i as int));
            assert(taken.last() == rules.deep_view()[i as int]);
        }
        i += 1;
    }
    proof {
        assert(rules.deep_view().take(rules@.len() as int) =~= rules.deep_view());
    }
    t
}

fn rule_cond_br_exec(rules: &Vec<crate::parser::Rule>, k: usize) -> (t: Terminator)
    requires
        k <= rules@.len(),
        2 * rules@.len() + 5 <= usize::MAX,
    ensures
        t == rule_cond_br(rules.deep_view(), k as int),
{
    let n = rules.len();
    if k < n {
        Terminator::CondBr {
            cond: Cond::DivisibleBy { divisor: rules[k].divisor },
            then_to: 2 + 2 * k,
            else_to: 3 + 2 * k,
        }
    } else {
        Terminator::CondBr { cond: Cond::NotMatched, then_to: 2 + 2 * n, else_to: 3 + 2 * n }
    }
}

/// Generate the IR module of a parsed document.
///
/// Total and deterministic: the result is exactly [`spec_compile`] of the
/// input.  The bound on the rule count only keeps block indices addressable.
pub fn compile(rules: &Rules) -> (m: IrModule)
    requires
        2 * rules@.rules.len() + 5 <= usize::MAX,
    ensures
        m@ == spec_compile(rules@),
{
    let n = rules.rules.len();
    let consts = build_consts(&rules.rules);
    let mut blocks: Vec<Block> = Vec::new();

    let mut ops0: Vec<Op> = Vec::new();
    ops0.push(Op::InitCounter { start: rules.bounds.start });
    ops0.push(Op::ResetMatched);
    proof {
        assert(ops0@ =~= seq![Op::InitCounter { start: rules@.start }, Op::ResetMatched]);
    }
    blocks.push(Block { ops: ops0, term: Terminator::Br { target: 1 } });

    let mut ops1: Vec<Op> = Vec::new();
    ops1.push(Op::CaptureValue);
    ops1.push(Op::AdvanceCounter);
    proof {
        assert(ops1@ =~= seq![Op::CaptureValue, Op::AdvanceCounter]);
    }
    let term1 = rule_cond_br_exec(&rules.rules, 0);
    blocks.push(Block { ops: ops1, term: term1 });

    let mut k: usize = 0;
    while k < n
        invariant
            k <= n,
            n == rules@.rules.len(),
            2 * n + 5 <= usize::MAX,
            consts.deep_view() == table_of(rules@.rules),
            blocks@.len() == 2 + 2 * k,
            forall|b: int|
                0 <= b < blocks@.len() ==> blocks.deep_view()[b] == block_at(rules@, b),
        decreases n - k,
    {
        let cid = find_const(&consts, rules.rules[k].divisor);
        let mut opst: Vec<Op> = Vec::new();
        opst.push(Op::PrintConst { cid });
        opst.push(Op::SetMatched);
        proof {
            assert(opst@ =~= seq![Op::PrintConst { cid }, Op::SetMatched]);
        }
        blocks.push(Block { ops: opst, term: Terminator::Br { target: 3 + 2 * k } });
        let terme = rule_cond_br_exec(&rules.rules, k + 1);
        blocks.push(Block { ops: Vec::new(), term: terme });
        proof {
            let b1 = 2 + 2 * k as int;
            let b2 = 3 + 2 * k as int;
            assert((b1 - 2) % 2 == 0 && (b1 - 2) / 2 == k as int);
            assert((b2 - 2) % 2 == 1 && (b2 - 3) / 2 == k as int);
            assert(blocks.deep_view()[b1] == block_at(rules@, b1));
            assert(blocks.deep_view()[b2] == block_at(rules@, b2));
        }
        k += 1;
    }

    let mut opsv: Vec<Op> = Vec::new();
    opsv.push(Op::PrintValue);
    proof {
        assert(opsv@ =~= seq![Op::PrintValue]);
    }
    blocks.push(Block { ops: opsv, term: Terminator::Br { target: 3 + 2 * n } });

    let mut opsn: Vec<Op> = Vec::new();
    opsn.push(Op::PrintNewline);
    opsn.push(Op::ResetMatched);
    proof {
        assert(opsn@ =~= seq![Op::PrintNewline, Op::ResetMatched]);
    }
    blocks.push(
        Block {
            ops: opsn,
            term: Terminator::CondBr {
                cond: Cond::ValueNeEnd { end: rules.bounds.end },
                then_to: 1,
                else_to: 4 + 2 * n,
            },
        },
    );

    blocks.push(Block { ops: Vec::new(), term: Terminator::Ret0 });

    let m = IrModule {
        consts,
        blocks,
        str_format: "%s".to_owned(),
        int_format: "%d".to_owned(),
        newline: "\n".to_owned(),
    };
    proof {
        assert(m@.blocks =~= spec_compile(rules@).blocks);
        assert(m@ == spec_compile(rules@));
    }
    m
}

/// The table never has more entries than there are rules.
proof fn lemma_table_len(rules: Seq<RuleModel>)
    ensures
        table_of(rules).len() <= rules.len(),
    decreases rules.len(),
{
    if rules.len() > 0 {
        lemma_table_len(rules.drop_last());
        let t0 = table_of(rules.drop_last());
        lemma_idx_from_props(t0, rules.last().divisor, 0);
    }
}

/// An operation stays within a module with `nconsts` string constants.
pub open spec fn wf_op(o: Op, nconsts: int) -> bool {
    match o {
        Op::PrintConst { cid } => cid < nconsts,
        _ => true,
    }
}

/// A terminator stays within a routine of `nblocks` blocks.
pub open spec fn wf_term(t: Terminator, nblocks: int) -> bool {
    match t {
        Terminator::Br { target } => target < nblocks,
        Terminator::CondBr { cond, then_to, else_to } => then_to < nblocks && else_to < nblocks,
        Terminator::Ret0 => true,
    }
}

/// Every branch target names a block of the module and every printed
/// constant id names an entry of its table.
pub open spec fn wf_module(m: IrModuleModel) -> bool {
    &&& forall|b: int|
        0 <= b < m.blocks.len() ==> wf_term((#[trigger] m.blocks[b]).term, m.blocks.len() as int)
    &&& forall|b: int, o: int|
        0 <= b < m.blocks.len() && 0 <= o < m.blocks[b].ops.len() ==> wf_op(
            #[trigger] m.blocks[b].ops[o],
            m.consts.len() as int,
        )
}

/// The match block of rule `k` prints exactly the constant that the output
/// semantics assigns to rule `k`'s divisor, then records the match: the
/// compiled routine and [`crate::eval::line_for`] read the same table entry
/// for the same rule.
pub proof fn lemma_match_block_prints_rule_constant(rv: crate::parser::RulesModel, k: int)
    requires
        0 <= k < rv.rules.len(),
        2 * rv.rules.len() + 5 <= usize::MAX,
    ensures
        ({
            let m = spec_compile(rv);
            let cid = idx_from(m.consts, rv.rules[k].divisor, 0);
            &&& 0 <= cid < m.consts.len()
            &&& m.blocks[2 + 2 * k].ops =~= seq![
                Op::PrintConst { cid: cid as usize },
                Op::SetMatched,
            ]
            &&& m.consts[cid].value == lit_for(m.consts, rv.rules[k].divisor)
            &&& m.consts[cid].divisor == rv.rules[k].divisor
        }),
{
    lemma_table_covers(rv.rules, k);
    lemma_idx_from_props(table_of(rv.rules), rv.rules[k].divisor, 0);
    lemma_table_len(rv.rules);
    let b = 2 + 2 * k;
    assert((b - 2) % 2 == 0 && (b - 2) / 2 == k);
}

/// A compiled module is always well formed: its branches stay within its
/// `2n + 5` blocks and its match blocks print existing table entries.
pub proof fn lemma_compile_wf(rv: crate::parser::RulesModel)
    requires
        2 * rv.rules.len() + 5 <= usize::MAX,
    ensures
        wf_module(spec_compile(rv)),
{
    let m = spec_compile(rv);
    let n = rv.rules.len() as int;
    let nb = m.blocks.len() as int;
    assert(nb == 2 * n + 5);
    lemma_table_len(rv.rules);
    assert forall|b: int| 0 <= b < nb implies wf_term((#[trigger] m.blocks[b]).term, nb) by {
        assert(m.blocks[b] == block_at(rv, b));
        if 2 <= b < 2 + 2 * n && (b - 2) % 2 != 0 {
            let k = (b - 3) / 2;
            assert(0 <= k < n);
        }
    }
    assert forall|b: int, o: int|
        0 <= b < nb && 0 <= o < m.blocks[b].ops.len() implies wf_op(
        #[trigger] m.blocks[b].ops[o],
        m.consts.len() as int,
    ) by {
        assert(m.blocks[b] == block_at(rv, b));
        if 2 <= b < 2 + 2 * n && (b - 2) % 2 == 0 {
            let k = (b - 2) / 2;
            assert(0 <= k < n);
            lemma_table_covers(rv.rules, k);
            lemma_idx_from_props(table_of(rv.rules), rv.rules[k].divisor, 0);
        }
    }
}

} // verus!
