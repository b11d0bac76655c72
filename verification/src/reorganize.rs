//! The block-reorganization pass.
//!
//! It canonicalizes the graph after other passes may have left
//! statically-resolved branches or unreachable blocks: a match dispatch
//! whose discriminant is defined by a literal statement (as constant folding
//! leaves it) is rewritten to an unconditional jump to the matching arm; a
//! reachability analysis from the entry block then drops every unreached
//! block; finally block ids are renumbered to a dense canonical order so the
//! output is deterministic.

use vstd::prelude::*;

use crate::ir::{
    Block, BlockId, BlockView, BodyView, LoweredBody, Statement, StmtView, TermView, Terminator,
    VarId, Variable, block_views, clone_ids, group_ir_views, lemma_block_views_push,
    lemma_stmt_views_len, lemma_stmt_views_push, stmt_views,
};

verus! {

/// One step of the literal scan: a literal statement records its value for
/// its destination, first definition wins.
pub open spec fn scan_step(acc: Seq<Option<u64>>, s: StmtView) -> Seq<Option<u64>> {
    match s {
        StmtView::Literal { dest, value } => if dest < acc.len() && acc[dest as int] is None {
            acc.update(dest as int, Some(value))
        } else {
            acc
        },
        _ => acc,
    }
}

/// Scans a statement sequence for literal definitions.
pub open spec fn scan_stmts(acc: Seq<Option<u64>>, ss: Seq<StmtView>) -> Seq<Option<u64>>
    decreases ss.len(),
{
    if ss.len() == 0 {
        acc
    } else {
        scan_stmts(scan_step(acc, ss[0]), ss.drop_first())
    }
}

/// Scans the blocks in order for literal definitions.
pub open spec fn scan_blocks(acc: Seq<Option<u64>>, bs: Seq<BlockView>) -> Seq<Option<u64>>
    decreases bs.len(),
{
    if bs.len() == 0 {
        acc
    } else {
        scan_blocks(scan_stmts(acc, bs[0].statements), bs.drop_first())
    }
}

/// The literal value each variable is defined by, if any.
pub open spec fn literal_defs(v: BodyView) -> Seq<Option<u64>> {
    scan_blocks(Seq::new(v.variables.len(), |i: int| None), v.blocks)
}

/// Scanning a sequence extended by one statement scans the prefix and then
/// steps once.
pub proof fn lemma_scan_stmts_snoc(acc: Seq<Option<u64>>, ss: Seq<StmtView>, s: StmtView)
    ensures
        scan_stmts(acc, ss.push(s)) == scan_step(scan_stmts(acc, ss), s),
    decreases ss.len(),
{
    let whole = ss.push(s);
    if ss.len() == 0 {
        assert(whole.drop_first() =~= Seq::<StmtView>::empty());
        assert(whole[0] == s);
        assert(scan_stmts(acc, ss) == acc);
        assert(scan_stmts(scan_step(acc, s), whole.drop_first()) == scan_step(acc, s));
    } else {
        assert(whole[0] == ss[0]);
        assert(whole.drop_first() =~= ss.drop_first().push(s));
        lemma_scan_stmts_snoc(scan_step(acc, ss[0]), ss.drop_first(), s);
    }
}

/// Scanning a block sequence extended by one block scans the prefix and
/// then that block's statements.
pub proof fn lemma_scan_blocks_snoc(acc: Seq<Option<u64>>, bs: Seq<BlockView>, b: BlockView)
    ensures
        scan_blocks(acc, bs.push(b)) == scan_stmts(scan_blocks(acc, bs), b.statements),
    decreases bs.len(),
{
    let whole = bs.push(b);
    if bs.len() == 0 {
        assert(whole.drop_first() =~= Seq::<BlockView>::empty());
        assert(whole[0] == b);
        assert(scan_blocks(acc, bs) == acc);
        assert(scan_blocks(scan_stmts(acc, b.statements), whole.drop_first()) == scan_stmts(
            acc,
            b.statements,
        ));
    } else {
        assert(whole[0] == bs[0]);
        assert(whole.drop_first() =~= bs.drop_first().push(b));
        lemma_scan_blocks_snoc(scan_stmts(acc, bs[0].statements), bs.drop_first(), b);
    }
}

/// Rewrites a match dispatch over a literal-defined discriminant into an
/// unconditional jump to the matching arm, dropping the other arms.
pub open spec fn rewrite_term(lit: Seq<Option<u64>>, t: TermView) -> TermView {
    match t {
        TermView::MatchEnum { discriminant, arms } => if discriminant < lit.len() && lit[
            discriminant as int
        ] is Some && (lit[discriminant as int]->0 as int) < arms.len() {
            TermView::Goto {
                target: arms[lit[discriminant as int]->0 as int],
                args: Seq::empty(),
            }
        } else {
            t
        },
        _ => t,
    }
}

/// The match-rewriting step on a whole body: only terminators change.
pub open spec fn spec_rewrite_matches(v: BodyView) -> BodyView {
    let lit = literal_defs(v);
    BodyView {
        entry: v.entry,
        blocks: Seq::new(
            v.blocks.len(),
            |i: int|
                BlockView {
                    params: v.blocks[i].params,
                    statements: v.blocks[i].statements,
                    terminator: rewrite_term(lit, v.blocks[i].terminator),
                },
        ),
        variables: v.variables,
    }
}

/// The blocks a terminator can transfer control to.
pub open spec fn successors(t: TermView) -> Seq<BlockId> {
    match t {
        TermView::Goto { target, args } => seq![target],
        TermView::MatchEnum { discriminant, arms } => arms,
        TermView::Return { var } => Seq::empty(),
        TermView::Unreachable => Seq::empty(),
    }
}

/// The block `b` can be reached from the entry block in at most `n` steps.
pub open spec fn reaches(v: BodyView, b: BlockId, n: nat) -> bool
    decreases n,
{
    b < v.blocks.len() && (b == v.entry || (n > 0 && exists|p: BlockId|
        reaches(v, p, (n - 1) as nat) && successors(v.blocks[p as int].terminator).contains(b)))
}

/// The block `b` is reachable from the entry block.
pub open spec fn reachable(v: BodyView, b: BlockId) -> bool {
    exists|n: nat| reaches(v, b, n)
}

/// A reachable block's successor is reachable.
pub proof fn lemma_reachable_step(v: BodyView, p: BlockId, b: BlockId)
    requires
        reachable(v, p),
        successors(v.blocks[p as int].terminator).contains(b),
        b < v.blocks.len(),
    ensures
        reachable(v, b),
{
    let n = choose|n: nat| reaches(v, p, n);
    assert(reaches(v, b, n + 1));
}

/// The number of unmarked entries.
pub open spec fn count_false(s: Seq<bool>) -> nat
    decreases s.len(),
{
    if s.len() == 0 {
        0
    } else {
        count_false(s.drop_last()) + if s.last() {
            0nat
        } else {
            1nat
        }
    }
}

/// Marking an unmarked entry strictly decreases the number of unmarked
/// entries.
pub proof fn lemma_count_false_update(s: Seq<bool>, i: int)
    requires
        0 <= i < s.len(),
        !s[i],
    ensures
        count_false(s.update(i, true)) < count_false(s),
    decreases s.len(),
{
    let t = s.update(i, true);
    if i == s.len() - 1 {
        assert(t.drop_last() =~= s.drop_last());
        assert(t.last() == true);
        assert(s.last() == false);
    } else {
        assert(t.drop_last() =~= s.drop_last().update(i, true));
        assert(t.last() == s.last());
        lemma_count_false_update(s.drop_last(), i);
    }
}

/// Every marking, closed under successors and containing the entry, covers
/// every reachable block.
proof fn lemma_closure_covers(v: BodyView, marked: Seq<bool>, b: BlockId, n: nat)
    requires
        marked.len() == v.blocks.len(),
        v.entry < v.blocks.len(),
        marked[v.entry as int],
        forall|p: BlockId, s: BlockId|
            p < marked.len() && #[trigger] marked[p as int] && successors(
                v.blocks[p as int].terminator,
            ).contains(s) && s < marked.len() ==> #[trigger] marked[s as int],
        reaches(v, b, n),
    ensures
        marked[b as int],
    decreases n,
{
    if b == v.entry {
    } else {
        let p = choose|p: BlockId|
            reaches(v, p, (n - 1) as nat) && successors(
                v.blocks[p as int].terminator,
            ).contains(b);
        lemma_closure_covers(v, marked, p, (n - 1) as nat);
    }
}

/// The blocks a terminator of a body's block can transfer control to.
fn successors_exec(t: &Terminator) -> (r: Vec<BlockId>)
    ensures
        r@ == successors(t@),
{
    match t {
        Terminator::Goto { target, args } => {
            let mut r: Vec<BlockId> = Vec::new();
            r.push(*target);
            assert(r@ =~= successors(t@));
            r
        },
        Terminator::MatchEnum { discriminant, arms } => clone_ids(arms),
        Terminator::Return { var } => Vec::new(),
        Terminator::Unreachable => Vec::new(),
    }
}

/// Computes, for every block, whether it is reachable from the entry block.
fn compute_reachable(body: &LoweredBody) -> (r: Vec<bool>)
    requires
        body@.entry < body@.blocks.len(),
    ensures
        r@.len() == body@.blocks.len(),
        forall|b: BlockId| b < r@.len() ==> (r@[b as int] <==> reachable(body@, b)),
{
    broadcast use group_ir_views;

    let n = body.blocks.len();
    let mut visited: Vec<bool> = Vec::new();
    let mut i: usize = 0;
    while i < n
        invariant
            i <= n,
            visited@.len() == i,
            forall|j: int| 0 <= j < i ==> !visited@[j],
        decreases n - i,
    {
        visited.push(false);
        i += 1;
    }
    let entry = body.entry;
    visited.set(entry, true);
    let mut stack: Vec<BlockId> = Vec::new();
    stack.push(entry);
    proof {
        assert(reaches(body@, entry, 0));
        assert(reachable(body@, entry));
        assert(stack@[0] == entry);
        assert(stack@.contains(entry));
    }
    while stack.len() > 0
        invariant
            visited@.len() == n,
            n == body@.blocks.len(),
            entry == body@.entry,
            entry < n,
            visited@[entry as int],
            forall|k: int| 0 <= k < stack@.len() ==> #[trigger] stack@[k] < n && visited@[stack@[k] as int],
            forall|b: BlockId| b < n && #[trigger] visited@[b as int] ==> reachable(body@, b),
            forall|p: BlockId, s: BlockId|
                p < n && #[trigger] visited@[p as int] && !stack@.contains(p) && successors(
                    body@.blocks[p as int].terminator,
                ).contains(s) && s < n ==> #[trigger] visited@[s as int],
        decreases count_false(visited@), stack@.len(),
    {
        let ghost pre_visited = visited@;
        let ghost pre_stack = stack@;
        let p = stack.pop().unwrap();
        let succs = successors_exec(&body.get_block(p).terminator);
        let mut k: usize = 0;
        let ghost mid_stack = stack@;
        proof {
            assert forall|y: BlockId| #[trigger] mid_stack.contains(y) implies pre_stack.contains(
                y,
            ) by {
                let i = choose|i: int| 0 <= i < mid_stack.len() && mid_stack[i] == y;
                assert(pre_stack[i] == y);
            }
            assert forall|y: BlockId| pre_stack.contains(y) && y != p implies #[trigger] mid_stack
                .contains(y) by {
                let i = choose|i: int| 0 <= i < pre_stack.len() && pre_stack[i] == y;
                if i < pre_stack.len() - 1 {
                    assert(mid_stack[i] == y);
                }
            }
        }
        while k < succs.len()
            invariant
                k <= succs.len(),
                visited@.len() == n,
                n == body@.blocks.len(),
                entry == body@.entry,
                entry < n,
                p < n,
                visited@[entry as int],
                visited@[p as int],
                reachable(body@, p),
                succs@ == successors(body@.blocks[p as int].terminator),
                forall|m: int|
                    0 <= m < stack@.len() ==> #[trigger] stack@[m] < n && visited@[stack@[m] as int],
                forall|b: BlockId| b < n && #[trigger] visited@[b as int] ==> reachable(body@, b),
                forall|pp: BlockId, s: BlockId|
                    pp < n && #[trigger] visited@[pp as int] && pp != p && !stack@.contains(pp)
                        && successors(body@.blocks[pp as int].terminator).contains(s) && s < n
                        ==> #[trigger] visited@[s as int],
                forall|m: int|
                    0 <= m < k ==> succs@[m] >= n || visited@[#[trigger] succs@[m] as int],
                count_false(visited@) <= count_false(pre_visited),
                count_false(visited@) < count_false(pre_visited) || stack@.len()
                    <= pre_stack.len() - 1,
            decreases succs.len() - k,
        {
            let s = succs[k];
            if s < n {
                let already = visited[s];
                if !already {
                    proof {
                        lemma_count_false_update(visited@, s as int);
                        lemma_reachable_step(body@, p, s);
                    }
                    let ghost vstack = stack@;
                    visited.set(s, true);
                    stack.push(s);
                    proof {
                        assert forall|y: BlockId| #[trigger] stack@.contains(y) implies (
                        vstack.contains(y) || y == s) by {
                            let i = choose|i: int| 0 <= i < stack@.len() && stack@[i] == y;
                            if i < vstack.len() {
                                assert(vstack[i] == y);
                            }
                        }
                        assert forall|y: BlockId| vstack.contains(y) implies #[trigger] stack@
                            .contains(y) by {
                            let i = choose|i: int| 0 <= i < vstack.len() && vstack[i] == y;
                            assert(stack@[i] == y);
                        }
                        assert(stack@[vstack.len() as int] == s);
                        assert(stack@.contains(s));
                    }
                }
            }
            k += 1;
        }
        proof {
            assert forall|s2: BlockId|
                successors(body@.blocks[p as int].terminator).contains(s2) && s2 < n implies
                visited@[s2 as int] by {
                let m = choose|m: int| 0 <= m < succs@.len() && succs@[m] == s2;
            }
        }
    }
    proof {
        assert forall|b: BlockId| b < n && reachable(body@, b) implies visited@[b as int] by {
            let nn = choose|nn: nat| reaches(body@, b, nn);
            lemma_closure_covers(body@, visited@, b, nn);
        }
    }
    visited
}


/// The number of kept blocks among the first `i`.
pub open spec fn prefix_trues(reach: Seq<bool>, i: int) -> nat
    decreases i,
{
    if i <= 0 {
        0
    } else {
        prefix_trues(reach, i - 1) + if reach[i - 1] {
            1nat
        } else {
            0nat
        }
    }
}

/// The renumbering map: a kept block's new id is the number of kept blocks
/// before it; a dropped block has no new id.
pub open spec fn id_map(reach: Seq<bool>) -> Seq<Option<BlockId>> {
    Seq::new(
        reach.len(),
        |b: int|
            if reach[b] {
                Some(prefix_trues(reach, b) as BlockId)
            } else {
                None
            },
    )
}

/// Applies the renumbering map to one block id.
pub open spec fn map_id(m: Seq<Option<BlockId>>, t: BlockId) -> BlockId {
    if t < m.len() {
        match m[t as int] {
            Some(x) => x,
            None => t,
        }
    } else {
        t
    }
}

/// Applies the renumbering map to a list of block ids.
pub open spec fn map_ids(m: Seq<Option<BlockId>>, ts: Seq<BlockId>) -> Seq<BlockId> {
    ts.map_values(|t: BlockId| map_id(m, t))
}

/// Applies the renumbering map to a terminator's targets.
pub open spec fn map_term(m: Seq<Option<BlockId>>, t: TermView) -> TermView {
    match t {
        TermView::Goto { target, args } => TermView::Goto { target: map_id(m, target), args },
        TermView::MatchEnum { discriminant, arms } => TermView::MatchEnum {
            discriminant,
            arms: map_ids(m, arms),
        },
        TermView::Return { var } => t,
        TermView::Unreachable => t,
    }
}

/// A block with its terminator's targets renumbered.
pub open spec fn remap_block(b: BlockView, m: Seq<Option<BlockId>>) -> BlockView {
    BlockView { params: b.params, statements: b.statements, terminator: map_term(m, b.terminator) }
}

/// The kept blocks among the first `i`, in order, with targets renumbered.
pub open spec fn compact_prefix(v: BodyView, reach: Seq<bool>, m: Seq<Option<BlockId>>, i: int) -> Seq<
    BlockView,
>
    decreases i,
{
    if i <= 0 {
        Seq::empty()
    } else {
        compact_prefix(v, reach, m, i - 1) + if reach[i - 1] {
            seq![remap_block(v.blocks[i - 1], m)]
        } else {
            Seq::empty()
        }
    }
}

/// Which blocks of a body are reachable.
pub open spec fn reach_seq(v: BodyView) -> Seq<bool> {
    Seq::new(v.blocks.len(), |b: int| reachable(v, b as usize))
}

/// Dropping the unreached blocks and renumbering the rest.
pub open spec fn spec_drop_unreachable(v: BodyView) -> BodyView {
    let reach = reach_seq(v);
    let m = id_map(reach);
    BodyView {
        entry: map_id(m, v.entry),
        blocks: compact_prefix(v, reach, m, v.blocks.len() as int),
        variables: v.variables,
    }
}

/// The variables one statement touches: operands and destinations alike.
pub open spec fn stmt_vars(s: StmtView) -> Seq<VarId> {
    match s {
        StmtView::Literal { dest, value } => seq![dest],
        StmtView::BinaryOp { op, lhs, rhs, dest } => seq![lhs, rhs, dest],
        StmtView::Call { callee, args, dest } => args.push(dest),
        StmtView::BoxValue { input, dest } => seq![input, dest],
        StmtView::UnboxValue { input, dest } => seq![input, dest],
    }
}

/// The variables a terminator reads.
pub open spec fn term_vars(t: TermView) -> Seq<VarId> {
    match t {
        TermView::Goto { target, args } => args,
        TermView::MatchEnum { discriminant, arms } => seq![discriminant],
        TermView::Return { var } => seq![var],
        TermView::Unreachable => Seq::empty(),
    }
}

/// Whether a block references a variable: as one of its parameters, in a
/// statement, or in its terminator.
pub open spec fn block_refs(b: BlockView, x: VarId) -> bool {
    ||| b.params.contains(x)
    ||| exists|j: int|
        0 <= j < b.statements.len() && stmt_vars(#[trigger] b.statements[j]).contains(x)
    ||| term_vars(b.terminator).contains(x)
}

/// Whether any block of the body references the variable.
pub open spec fn var_referenced(v: BodyView, x: VarId) -> bool {
    exists|i: int| 0 <= i < v.blocks.len() && block_refs(#[trigger] v.blocks[i], x)
}

/// Marks every in-range variable of a list.
pub open spec fn mark_all(acc: Seq<bool>, vs: Seq<VarId>) -> Seq<bool>
    decreases vs.len(),
{
    if vs.len() == 0 {
        acc
    } else {
        let acc2 = if vs[0] < acc.len() {
            acc.update(vs[0] as int, true)
        } else {
            acc
        };
        mark_all(acc2, vs.drop_first())
    }
}

/// Marks the variables of a statement sequence.
pub open spec fn mark_stmts(acc: Seq<bool>, ss: Seq<StmtView>) -> Seq<bool>
    decreases ss.len(),
{
    if ss.len() == 0 {
        acc
    } else {
        mark_stmts(mark_all(acc, stmt_vars(ss[0])), ss.drop_first())
    }
}

/// Marks the variables of a block sequence.
pub open spec fn mark_blocks(acc: Seq<bool>, bs: Seq<BlockView>) -> Seq<bool>
    decreases bs.len(),
{
    if bs.len() == 0 {
        acc
    } else {
        mark_blocks(
            mark_all(
                mark_stmts(mark_all(acc, bs[0].params), bs[0].statements),
                term_vars(bs[0].terminator),
            ),
            bs.drop_first(),
        )
    }
}

/// Which variables the body references anywhere.
pub open spec fn ref_marks(v: BodyView) -> Seq<bool> {
    mark_blocks(Seq::new(v.variables.len(), |i: int| false), v.blocks)
}

/// What marking a list does at one slot.
proof fn lemma_mark_all_at(acc: Seq<bool>, vs: Seq<VarId>, x: VarId)
    requires
        x < acc.len(),
    ensures
        mark_all(acc, vs).len() == acc.len(),
        mark_all(acc, vs)[x as int] == (acc[x as int] || vs.contains(x)),
    decreases vs.len(),
{
    if vs.len() == 0 {
    } else {
        let acc2 = if vs[0] < acc.len() {
            acc.update(vs[0] as int, true)
        } else {
            acc
        };
        lemma_mark_all_at(acc2, vs.drop_first(), x);
        assert(vs.contains(x) == (vs[0] == x || vs.drop_first().contains(x))) by {
            if vs.contains(x) {
                let i = choose|i: int| 0 <= i < vs.len() && vs[i] == x;
                if i > 0 {
                    assert(vs.drop_first()[i - 1] == x);
                }
            }
            if vs.drop_first().contains(x) {
                let i = choose|i: int|
                    0 <= i < vs.drop_first().len() && vs.drop_first()[i] == x;
                assert(vs[i + 1] == x);
            }
            if vs[0] == x {
                assert(vs.contains(x));
            }
        }
    }
}

/// What marking a statement sequence does at one slot.
proof fn lemma_mark_stmts_at(acc: Seq<bool>, ss: Seq<StmtView>, x: VarId)
    requires
        x < acc.len(),
    ensures
        mark_stmts(acc, ss).len() == acc.len(),
        mark_stmts(acc, ss)[x as int] == (acc[x as int] || exists|j: int|
            0 <= j < ss.len() && stmt_vars(#[trigger] ss[j]).contains(x)),
    decreases ss.len(),
{
    if ss.len() == 0 {
    } else {
        let acc2 = mark_all(acc, stmt_vars(ss[0]));
        lemma_mark_all_at(acc, stmt_vars(ss[0]), x);
        lemma_mark_stmts_at(acc2, ss.drop_first(), x);
        assert((exists|j: int| 0 <= j < ss.len() && stmt_vars(#[trigger] ss[j]).contains(x)) == (
        stmt_vars(ss[0]).contains(x) || exists|j: int|
            0 <= j < ss.drop_first().len() && stmt_vars(#[trigger] ss.drop_first()[j]).contains(
                x,
            ))) by {
            if exists|j: int| 0 <= j < ss.len() && stmt_vars(#[trigger] ss[j]).contains(x) {
                let j = choose|j: int| 0 <= j < ss.len() && stmt_vars(#[trigger] ss[j]).contains(x);
                if j > 0 {
                    assert(stmt_vars(ss.drop_first()[j - 1]).contains(x));
                }
            }
            if exists|j: int|
                0 <= j < ss.drop_first().len() && stmt_vars(
                    #[trigger] ss.drop_first()[j],
                ).contains(x) {
                let j = choose|j: int|
                    0 <= j < ss.drop_first().len() && stmt_vars(
                        #[trigger] ss.drop_first()[j],
                    ).contains(x);
                assert(stmt_vars(ss[j + 1]).contains(x));
            }
        }
    }
}

/// What marking a block sequence does at one slot.
proof fn lemma_mark_blocks_at(acc: Seq<bool>, bs: Seq<BlockView>, x: VarId)
    requires
        x < acc.len(),
    ensures
        mark_blocks(acc, bs).len() == acc.len(),
        mark_blocks(acc, bs)[x as int] == (acc[x as int] || exists|i: int|
            0 <= i < bs.len() && block_refs(#[trigger] bs[i], x)),
    decreases bs.len(),
{
    if bs.len() == 0 {
    } else {
        let a1 = mark_all(acc, bs[0].params);
        let a2 = mark_stmts(a1, bs[0].statements);
        let a3 = mark_all(a2, term_vars(bs[0].terminator));
        lemma_mark_all_at(acc, bs[0].params, x);
        lemma_mark_stmts_at(a1, bs[0].statements, x);
        lemma_mark_all_at(a2, term_vars(bs[0].terminator), x);
        lemma_mark_blocks_at(a3, bs.drop_first(), x);
        assert(a3[x as int] == (acc[x as int] || block_refs(bs[0], x)));
        assert((exists|i: int| 0 <= i < bs.len() && block_refs(#[trigger] bs[i], x)) == (
        block_refs(bs[0], x) || exists|i: int|
            0 <= i < bs.drop_first().len() && block_refs(#[trigger] bs.drop_first()[i], x))) by {
            if exists|i: int| 0 <= i < bs.len() && block_refs(#[trigger] bs[i], x) {
                let i = choose|i: int| 0 <= i < bs.len() && block_refs(#[trigger] bs[i], x);
                if i > 0 {
                    assert(block_refs(bs.drop_first()[i - 1], x));
                }
            }
            if exists|i: int|
                0 <= i < bs.drop_first().len() && block_refs(#[trigger] bs.drop_first()[i], x) {
                let i = choose|i: int|
                    0 <= i < bs.drop_first().len() && block_refs(#[trigger] bs.drop_first()[i], x);
                assert(block_refs(bs[i + 1], x));
            }
        }
    }
}

/// The marks say exactly which variables the body references.
pub proof fn lemma_ref_marks_at(v: BodyView, x: VarId)
    requires
        x < v.variables.len(),
    ensures
        ref_marks(v).len() == v.variables.len(),
        ref_marks(v)[x as int] == var_referenced(v, x),
{
    lemma_mark_blocks_at(Seq::new(v.variables.len(), |i: int| false), v.blocks, x);
}

/// Marking keeps the pool length.
proof fn lemma_mark_all_len(acc: Seq<bool>, vs: Seq<VarId>)
    ensures
        mark_all(acc, vs).len() == acc.len(),
    decreases vs.len(),
{
    if vs.len() > 0 {
        let acc2 = if vs[0] < acc.len() {
            acc.update(vs[0] as int, true)
        } else {
            acc
        };
        lemma_mark_all_len(acc2, vs.drop_first());
    }
}

/// Marking keeps the pool length.
proof fn lemma_mark_stmts_len(acc: Seq<bool>, ss: Seq<StmtView>)
    ensures
        mark_stmts(acc, ss).len() == acc.len(),
    decreases ss.len(),
{
    if ss.len() > 0 {
        lemma_mark_all_len(acc, stmt_vars(ss[0]));
        lemma_mark_stmts_len(mark_all(acc, stmt_vars(ss[0])), ss.drop_first());
    }
}

/// Marking keeps the pool length.
proof fn lemma_mark_blocks_len(acc: Seq<bool>, bs: Seq<BlockView>)
    ensures
        mark_blocks(acc, bs).len() == acc.len(),
    decreases bs.len(),
{
    if bs.len() > 0 {
        let a1 = mark_all(acc, bs[0].params);
        let a2 = mark_stmts(a1, bs[0].statements);
        let a3 = mark_all(a2, term_vars(bs[0].terminator));
        lemma_mark_all_len(acc, bs[0].params);
        lemma_mark_stmts_len(a1, bs[0].statements);
        lemma_mark_all_len(a2, term_vars(bs[0].terminator));
        lemma_mark_blocks_len(a3, bs.drop_first());
    }
}

/// The marks cover the whole pool.
pub proof fn lemma_ref_marks_len(v: BodyView)
    ensures
        ref_marks(v).len() == v.variables.len(),
{
    lemma_mark_blocks_len(Seq::new(v.variables.len(), |i: int| false), v.blocks);
}

/// The kept entries of a variable pool, in order.
pub open spec fn compact_vars(vars: Seq<Variable>, marks: Seq<bool>, i: int) -> Seq<Variable>
    decreases i,
{
    if i <= 0 {
        Seq::empty()
    } else {
        compact_vars(vars, marks, i - 1) + if marks[i - 1] {
            seq![vars[i - 1]]
        } else {
            Seq::empty()
        }
    }
}

/// The compacted pool holds exactly the kept entries.
pub proof fn lemma_compact_vars_len(vars: Seq<Variable>, marks: Seq<bool>, i: int)
    requires
        0 <= i,
    ensures
        compact_vars(vars, marks, i).len() == prefix_trues(marks, i),
    decreases i,
{
    if i > 0 {
        lemma_compact_vars_len(vars, marks, i - 1);
    }
}

/// A kept variable stands in the compacted pool at its new id.
pub proof fn lemma_compact_vars_index(vars: Seq<Variable>, marks: Seq<bool>, b: int, i: int)
    requires
        0 <= b < i,
        marks[b],
    ensures
        prefix_trues(marks, b) < compact_vars(vars, marks, i).len(),
        compact_vars(vars, marks, i)[prefix_trues(marks, b) as int] == vars[b],
    decreases i,
{
    lemma_compact_vars_len(vars, marks, i);
    lemma_compact_vars_len(vars, marks, i - 1);
    if b == i - 1 {
        lemma_compact_vars_len(vars, marks, b);
    } else {
        lemma_compact_vars_index(vars, marks, b, i - 1);
    }
}

/// Every slot of the compacted pool comes from a kept variable.
pub proof fn lemma_compact_vars_origin(vars: Seq<Variable>, marks: Seq<bool>, j: int, i: int)
    requires
        0 <= i,
        0 <= j < compact_vars(vars, marks, i).len(),
    ensures
        exists|b: int|
            0 <= b < i && #[trigger] marks[b] && prefix_trues(marks, b) == j && compact_vars(
                vars,
                marks,
                i,
            )[j] == vars[b],
    decreases i,
{
    lemma_compact_vars_len(vars, marks, i);
    lemma_compact_vars_len(vars, marks, i - 1);
    if j < prefix_trues(marks, i - 1) {
        lemma_compact_vars_origin(vars, marks, j, i - 1);
        let b = choose|b: int|
            0 <= b < i - 1 && #[trigger] marks[b] && prefix_trues(marks, b) == j && compact_vars(
                vars,
                marks,
                i - 1,
            )[j] == vars[b];
        assert(compact_vars(vars, marks, i)[j] == compact_vars(vars, marks, i - 1)[j]);
        assert(marks[b] && prefix_trues(marks, b) == j && compact_vars(vars, marks, i)[j]
            == vars[b]);
    } else {
        assert(marks[i - 1]);
        assert(prefix_trues(marks, i - 1) == j);
        assert(compact_vars(vars, marks, i)[j] == vars[i - 1]);
    }
}

/// Applies the variable renumbering map to a statement, operands and
/// destinations alike.
pub open spec fn map_stmt_vars(m: Seq<Option<VarId>>, s: StmtView) -> StmtView {
    match s {
        StmtView::Literal { dest, value } => StmtView::Literal { dest: map_id(m, dest), value },
        StmtView::BinaryOp { op, lhs, rhs, dest } => StmtView::BinaryOp {
            op,
            lhs: map_id(m, lhs),
            rhs: map_id(m, rhs),
            dest: map_id(m, dest),
        },
        StmtView::Call { callee, args, dest } => StmtView::Call {
            callee,
            args: map_ids(m, args),
            dest: map_id(m, dest),
        },
        StmtView::BoxValue { input, dest } => StmtView::BoxValue {
            input: map_id(m, input),
            dest: map_id(m, dest),
        },
        StmtView::UnboxValue { input, dest } => StmtView::UnboxValue {
            input: map_id(m, input),
            dest: map_id(m, dest),
        },
    }
}

/// Applies the variable renumbering map to a terminator's operands; its
/// block targets are untouched.
pub open spec fn map_term_vars(m: Seq<Option<VarId>>, t: TermView) -> TermView {
    match t {
        TermView::Goto { target, args } => TermView::Goto { target, args: map_ids(m, args) },
        TermView::MatchEnum { discriminant, arms } => TermView::MatchEnum {
            discriminant: map_id(m, discriminant),
            arms,
        },
        TermView::Return { var } => TermView::Return { var: map_id(m, var) },
        TermView::Unreachable => t,
    }
}

/// Dropping the unreferenced variables and renumbering the survivors
/// densely, with every occurrence remapped.
pub open spec fn spec_compact_variables(v: BodyView) -> BodyView {
    let marks = ref_marks(v);
    let m = id_map(marks);
    BodyView {
        entry: v.entry,
        blocks: Seq::new(
            v.blocks.len(),
            |i: int|
                BlockView {
                    params: map_ids(m, v.blocks[i].params),
                    statements: v.blocks[i].statements.map_values(
                        |s: StmtView| map_stmt_vars(m, s),
                    ),
                    terminator: map_term_vars(m, v.blocks[i].terminator),
                },
        ),
        variables: compact_vars(v.variables, marks, v.variables.len() as int),
    }
}

/// Counts one more predecessor edge per target, saturating at two: the
/// collapse only ever asks whether a block has exactly one predecessor.
pub open spec fn bump_preds(acc: Seq<u64>, ids: Seq<BlockId>) -> Seq<u64>
    decreases ids.len(),
{
    if ids.len() == 0 {
        acc
    } else {
        let acc2 = if ids[0] < acc.len() && acc[ids[0] as int] < 2 {
            acc.update(ids[0] as int, (acc[ids[0] as int] + 1) as u64)
        } else {
            acc
        };
        bump_preds(acc2, ids.drop_first())
    }
}

/// Counts the predecessor edges of every block.
pub open spec fn preds_blocks(acc: Seq<u64>, bs: Seq<BlockView>) -> Seq<u64>
    decreases bs.len(),
{
    if bs.len() == 0 {
        acc
    } else {
        preds_blocks(bump_preds(acc, successors(bs[0].terminator)), bs.drop_first())
    }
}

/// How many predecessor edges each block has, saturated at two.
pub open spec fn pred_counts(v: BodyView) -> Seq<u64> {
    preds_blocks(Seq::new(v.blocks.len(), |i: int| 0u64), v.blocks)
}

/// Whether block `b` ends in an unconditional jump that can be collapsed:
/// its target exists, is not `b` itself and not the entry block, binds no
/// parameters, and `b`'s jump is its only predecessor edge.
pub open spec fn collapse_target(v: BodyView, counts: Seq<u64>, b: int) -> Option<BlockId> {
    match v.blocks[b].terminator {
        TermView::Goto { target, args } => if args.len() == 0 && target < v.blocks.len()
            && target != b && target != v.entry && v.blocks[target as int].params.len() == 0
            && target < counts.len() && counts[target as int] == 1 {
            Some(target)
        } else {
            None
        },
        _ => None,
    }
}

/// One simultaneous round of jump-chain collapsing: every block ending in a
/// collapsible jump absorbs its unique successor's statements and takes its
/// terminator; the absorbed block loses its only predecessor and the
/// following reachability step drops it. Longer chains collapse one level
/// per round, and the sequencer runs this pass several times.
pub open spec fn spec_collapse_jumps(v: BodyView) -> BodyView {
    let counts = pred_counts(v);
    BodyView {
        entry: v.entry,
        blocks: Seq::new(
            v.blocks.len(),
            |b: int|
                match collapse_target(v, counts, b) {
                    Some(t) => BlockView {
                        params: v.blocks[b].params,
                        statements: v.blocks[b].statements + v.blocks[t as int].statements,
                        terminator: v.blocks[t as int].terminator,
                    },
                    None => v.blocks[b],
                },
        ),
        variables: v.variables,
    }
}

/// The whole pass on body models: rewrite statically-resolved match
/// dispatches, collapse a block ending in an unconditional jump into its
/// unique parameterless successor, drop what the entry block no longer
/// reaches, renumber the blocks, then drop the now-dead variables and
/// renumber the rest. A body without an existing entry block is left
/// untouched.
pub open spec fn spec_reorganize(v: BodyView) -> BodyView {
    if v.entry < v.blocks.len() {
        spec_compact_variables(
            spec_drop_unreachable(spec_collapse_jumps(spec_rewrite_matches(v))),
        )
    } else {
        v
    }
}

/// Kept-block count never exceeds the prefix length and is monotone.
pub proof fn lemma_prefix_trues_bound(reach: Seq<bool>, i: int)
    requires
        0 <= i,
    ensures
        prefix_trues(reach, i) <= i,
    decreases i,
{
    if i > 0 {
        lemma_prefix_trues_bound(reach, i - 1);
    }
}

/// Kept-block count is monotone in the prefix length.
pub proof fn lemma_prefix_trues_mono(reach: Seq<bool>, i: int, j: int)
    requires
        0 <= i <= j,
    ensures
        prefix_trues(reach, i) <= prefix_trues(reach, j),
    decreases j - i,
{
    if i < j {
        lemma_prefix_trues_mono(reach, i, j - 1);
    }
}

/// The compacted prefix holds exactly the kept blocks.
pub proof fn lemma_compact_len(v: BodyView, reach: Seq<bool>, m: Seq<Option<BlockId>>, i: int)
    requires
        0 <= i,
    ensures
        compact_prefix(v, reach, m, i).len() == prefix_trues(reach, i),
    decreases i,
{
    if i > 0 {
        lemma_compact_len(v, reach, m, i - 1);
    }
}

/// A kept block stands in the compacted prefix at its new id.
pub proof fn lemma_compact_index(
    v: BodyView,
    reach: Seq<bool>,
    m: Seq<Option<BlockId>>,
    b: int,
    i: int,
)
    requires
        0 <= b < i,
        reach[b],
    ensures
        prefix_trues(reach, b) < compact_prefix(v, reach, m, i).len(),
        compact_prefix(v, reach, m, i)[prefix_trues(reach, b) as int] == remap_block(
            v.blocks[b],
            m,
        ),
    decreases i,
{
    lemma_compact_len(v, reach, m, i);
    lemma_compact_len(v, reach, m, i - 1);
    if b == i - 1 {
        lemma_compact_len(v, reach, m, b);
    } else {
        lemma_compact_index(v, reach, m, b, i - 1);
    }
}

/// Every slot of the compacted prefix comes from a kept block.
pub proof fn lemma_compact_origin(
    v: BodyView,
    reach: Seq<bool>,
    m: Seq<Option<BlockId>>,
    j: int,
    i: int,
)
    requires
        0 <= i,
        0 <= j < compact_prefix(v, reach, m, i).len(),
    ensures
        exists|b: int|
            0 <= b < i && #[trigger] reach[b] && prefix_trues(reach, b) == j && compact_prefix(
                v,
                reach,
                m,
                i,
            )[j] == remap_block(v.blocks[b], m),
    decreases i,
{
    lemma_compact_len(v, reach, m, i);
    lemma_compact_len(v, reach, m, i - 1);
    if j < prefix_trues(reach, i - 1) {
        lemma_compact_origin(v, reach, m, j, i - 1);
        let b = choose|b: int|
            0 <= b < i - 1 && #[trigger] reach[b] && prefix_trues(reach, b) == j && compact_prefix(
                v,
                reach,
                m,
                i - 1,
            )[j] == remap_block(v.blocks[b], m);
        assert(compact_prefix(v, reach, m, i)[j] == compact_prefix(v, reach, m, i - 1)[j]);
        assert(reach[b] && prefix_trues(reach, b) == j && compact_prefix(v, reach, m, i)[j]
            == remap_block(v.blocks[b], m));
    } else {
        assert(reach[i - 1]);
        assert(prefix_trues(reach, i - 1) == j);
        assert(compact_prefix(v, reach, m, i)[j] == remap_block(v.blocks[i - 1], m));
    }
}

/// Renumbering maps a terminator's successors pointwise.
pub proof fn lemma_successors_map(m: Seq<Option<BlockId>>, t: TermView)
    ensures
        successors(map_term(m, t)) == map_ids(m, successors(t)),
{
    match t {
        TermView::Goto { target, args } => {
            assert(successors(map_term(m, t)) =~= map_ids(m, successors(t)));
        },
        TermView::MatchEnum { discriminant, arms } => {},
        TermView::Return { var } => {
            assert(successors(map_term(m, t)) =~= map_ids(m, successors(t)));
        },
        TermView::Unreachable => {
            assert(successors(map_term(m, t)) =~= map_ids(m, successors(t)));
        },
    }
}

/// A path in the input graph maps to a path in the compacted graph.
proof fn lemma_path_transfer(w: BodyView, b: BlockId, n: nat)
    requires
        w.entry < w.blocks.len(),
        reaches(w, b, n),
    ensures
        reaches(spec_drop_unreachable(w), map_id(id_map(reach_seq(w)), b), n),
    decreases n,
{
    let reach = reach_seq(w);
    let m = id_map(reach);
    let out = spec_drop_unreachable(w);
    assert(reachable(w, b));
    assert(reach[b as int]);
    let jb = prefix_trues(reach, b as int);
    lemma_prefix_trues_bound(reach, b as int);
    lemma_compact_index(w, reach, m, b as int, w.blocks.len() as int);
    assert(map_id(m, b) == jb);
    assert(jb < out.blocks.len());
    if b == w.entry {
        assert(out.entry == jb);
        assert(reaches(out, jb as BlockId, n));
    } else {
        let p = choose|p: BlockId|
            reaches(w, p, (n - 1) as nat) && successors(w.blocks[p as int].terminator).contains(b);
        lemma_path_transfer(w, p, (n - 1) as nat);
        assert(reachable(w, p)) by {
            assert(reaches(w, p, (n - 1) as nat));
        }
        assert(reach[p as int]);
        let jp = prefix_trues(reach, p as int);
        lemma_prefix_trues_bound(reach, p as int);
        lemma_compact_index(w, reach, m, p as int, w.blocks.len() as int);
        assert(out.blocks[jp as int] == remap_block(w.blocks[p as int], m));
        lemma_successors_map(m, w.blocks[p as int].terminator);
        let idx = choose|idx: int|
            0 <= idx < successors(w.blocks[p as int].terminator).len() && successors(
                w.blocks[p as int].terminator,
            )[idx] == b;
        assert(map_ids(m, successors(w.blocks[p as int].terminator))[idx] == map_id(m, b));
        assert(successors(out.blocks[jp as int].terminator).contains(jb as BlockId));
        assert(reaches(out, jp as BlockId, (n - 1) as nat));
        assert(reaches(out, jb as BlockId, n));
    }
}

/// Renumbering variables never changes a terminator's block targets.
proof fn lemma_map_term_vars_successors(m: Seq<Option<VarId>>, t: TermView)
    ensures
        successors(map_term_vars(m, t)) == successors(t),
{
    match t {
        TermView::Goto { target, args } => {
            assert(successors(map_term_vars(m, t)) =~= successors(t));
        },
        TermView::MatchEnum { discriminant, arms } => {},
        TermView::Return { var } => {
            assert(successors(map_term_vars(m, t)) =~= successors(t));
        },
        TermView::Unreachable => {
            assert(successors(map_term_vars(m, t)) =~= successors(t));
        },
    }
}

/// Variable compaction preserves every path through the graph.
proof fn lemma_compact_preserves_reaches(u: BodyView, b: BlockId, n: nat)
    requires
        reaches(u, b, n),
    ensures
        reaches(spec_compact_variables(u), b, n),
    decreases n,
{
    let out = spec_compact_variables(u);
    assert(out.blocks.len() == u.blocks.len());
    if b == u.entry {
    } else {
        let p = choose|p: BlockId|
            reaches(u, p, (n - 1) as nat) && successors(u.blocks[p as int].terminator).contains(b);
        lemma_compact_preserves_reaches(u, p, (n - 1) as nat);
        assert(out.blocks[p as int].terminator == map_term_vars(
            id_map(ref_marks(u)),
            u.blocks[p as int].terminator,
        ));
        lemma_map_term_vars_successors(id_map(ref_marks(u)), u.blocks[p as int].terminator);
        assert(reaches(out, b, n));
    }
}

/// Renumbering maps a statement's variable occurrences pointwise.
proof fn lemma_map_stmt_vars_list(m: Seq<Option<VarId>>, s: StmtView)
    ensures
        stmt_vars(map_stmt_vars(m, s)) == map_ids(m, stmt_vars(s)),
{
    match s {
        StmtView::Call { callee, args, dest } => {
            assert(stmt_vars(map_stmt_vars(m, s)) =~= map_ids(m, stmt_vars(s)));
        },
        _ => {
            assert(stmt_vars(map_stmt_vars(m, s)) =~= map_ids(m, stmt_vars(s)));
        },
    }
}

/// Renumbering maps a terminator's variable occurrences pointwise.
proof fn lemma_map_term_vars_list(m: Seq<Option<VarId>>, t: TermView)
    ensures
        term_vars(map_term_vars(m, t)) == map_ids(m, term_vars(t)),
{
    match t {
        TermView::Goto { target, args } => {},
        _ => {
            assert(term_vars(map_term_vars(m, t)) =~= map_ids(m, term_vars(t)));
        },
    }
}

/// Law: after block reorganization no dead variable remains. Every slot of
/// the compacted variable pool is referenced by the surviving graph — as a
/// block parameter, in a statement, or in a terminator; a variable only an
/// unreached block touched, or one nothing touched at all, is gone, and
/// the survivors carry dense ids with every occurrence remapped.
pub proof fn lemma_reorganize_vars_referenced(v: BodyView, x: VarId)
    requires
        v.entry < v.blocks.len(),
        v.variables.len() <= usize::MAX,
        x < spec_reorganize(v).variables.len(),
    ensures
        var_referenced(spec_reorganize(v), x),
{
    let u = spec_drop_unreachable(spec_collapse_jumps(spec_rewrite_matches(v)));
    let out = spec_compact_variables(u);
    let marks = ref_marks(u);
    let m = id_map(marks);
    assert(u.variables == v.variables);
    lemma_compact_vars_origin(u.variables, marks, x as int, u.variables.len() as int);
    let ox = choose|b: int|
        0 <= b < u.variables.len() && #[trigger] marks[b] && prefix_trues(marks, b) == x
            && compact_vars(u.variables, marks, u.variables.len() as int)[x as int]
            == u.variables[b];
    lemma_ref_marks_at(u, ox as VarId);
    assert(var_referenced(u, ox as VarId));
    lemma_prefix_trues_bound(marks, ox);
    assert(map_id(m, ox as VarId) == x);
    let i = choose|i: int| 0 <= i < u.blocks.len() && block_refs(#[trigger] u.blocks[i], ox as VarId);
    assert(out.blocks[i] == (BlockView {
        params: map_ids(m, u.blocks[i].params),
        statements: u.blocks[i].statements.map_values(|s: StmtView| map_stmt_vars(m, s)),
        terminator: map_term_vars(m, u.blocks[i].terminator),
    }));
    if u.blocks[i].params.contains(ox as VarId) {
        let k = choose|k: int|
            0 <= k < u.blocks[i].params.len() && u.blocks[i].params[k] == ox as VarId;
        assert(map_ids(m, u.blocks[i].params)[k] == x);
        assert(out.blocks[i].params.contains(x));
        assert(block_refs(out.blocks[i], x));
    } else if exists|j: int|
        0 <= j < u.blocks[i].statements.len() && stmt_vars(
            #[trigger] u.blocks[i].statements[j],
        ).contains(ox as VarId) {
        let j = choose|j: int|
            0 <= j < u.blocks[i].statements.len() && stmt_vars(
                #[trigger] u.blocks[i].statements[j],
            ).contains(ox as VarId);
        let s = u.blocks[i].statements[j];
        lemma_map_stmt_vars_list(m, s);
        let k = choose|k: int| 0 <= k < stmt_vars(s).len() && stmt_vars(s)[k] == ox as VarId;
        assert(map_ids(m, stmt_vars(s))[k] == x);
        assert(out.blocks[i].statements[j] == map_stmt_vars(m, s));
        assert(stmt_vars(out.blocks[i].statements[j]).contains(x));
        assert(block_refs(out.blocks[i], x));
    } else {
        assert(term_vars(u.blocks[i].terminator).contains(ox as VarId));
        lemma_map_term_vars_list(m, u.blocks[i].terminator);
        let k = choose|k: int|
            0 <= k < term_vars(u.blocks[i].terminator).len() && term_vars(
                u.blocks[i].terminator,
            )[k] == ox as VarId;
        assert(map_ids(m, term_vars(u.blocks[i].terminator))[k] == x);
        assert(term_vars(out.blocks[i].terminator).contains(x));
        assert(block_refs(out.blocks[i], x));
    }
    assert(var_referenced(out, x));
}

/// Law: after block reorganization every remaining block is reachable from
/// the entry block.
pub proof fn lemma_reorganize_reachable(v: BodyView, j: BlockId)
    requires
        v.entry < v.blocks.len(),
        v.blocks.len() <= usize::MAX,
        j < spec_reorganize(v).blocks.len(),
    ensures
        reachable(spec_reorganize(v), j),
{
    let w = spec_collapse_jumps(spec_rewrite_matches(v));
    assert(w.entry == v.entry && w.blocks.len() == v.blocks.len());
    let reach = reach_seq(w);
    let m = id_map(reach);
    let out = spec_drop_unreachable(w);
    lemma_compact_origin(w, reach, m, j as int, w.blocks.len() as int);
    let b = choose|b: int|
        0 <= b < w.blocks.len() && #[trigger] reach[b] && prefix_trues(reach, b) == j
            && compact_prefix(w, reach, m, w.blocks.len() as int)[j as int] == remap_block(
            w.blocks[b],
            m,
        );
    assert(reachable(w, b as BlockId));
    let n = choose|n: nat| #[trigger] reaches(w, b as BlockId, n);
    lemma_path_transfer(w, b as BlockId, n);
    assert(map_id(m, b as BlockId) == j);
    assert(reaches(out, j, n));
    lemma_compact_preserves_reaches(out, j, n);
    assert(reachable(spec_reorganize(v), j)) by {
        assert(reaches(spec_compact_variables(out), j, n));
    }
}


/// Scans the body for literal definitions; first definition wins.
fn exec_literal_defs(body: &LoweredBody) -> (r: Vec<Option<u64>>)
    ensures
        r@ == literal_defs(body@),
{
    broadcast use group_ir_views;

    let nvars = body.variables.len();
    let mut lit: Vec<Option<u64>> = Vec::new();
    let mut i: usize = 0;
    while i < nvars
        invariant
            i <= nvars,
            lit@.len() == i,
            forall|j: int| 0 <= j < i ==> lit@[j] is None,
        decreases nvars - i,
    {
        lit.push(None);
        i += 1;
    }
    assert(lit@ =~= Seq::new(body@.variables.len(), |j: int| None::<u64>));
    let ghost init = lit@;
    let mut b: usize = 0;
    while b < body.blocks.len()
        invariant
            b <= body.blocks.len(),
            body@.blocks.len() == body.blocks.len(),
            lit@ == scan_blocks(init, body@.blocks.take(b as int)),
        decreases body.blocks.len() - b,
    {
        broadcast use group_ir_views;

        let ghost pre_take = body@.blocks.take(b as int);
        let blk = body.get_block(b);
        let ghost acc0 = lit@;
        let mut j: usize = 0;
        while j < blk.statements.len()
            invariant
                j <= blk.statements.len(),
                blk@.statements.len() == blk.statements.len(),
                blk@ == body@.blocks[b as int],
                0 <= b < body@.blocks.len(),
                lit@ == scan_stmts(acc0, blk@.statements.take(j as int)),
            decreases blk.statements.len() - j,
        {
            broadcast use group_ir_views;

            let ghost prior = lit@;
            let ghost stmts_take = blk@.statements.take(j as int);
            assert(blk@.statements[j as int] == blk.statements@[j as int]@);
            match &blk.statements[j] {
                Statement::Literal { dest, value } => {
                    if *dest < lit.len() {
                        let cur = lit[*dest];
                        if cur.is_none() {
                            lit.set(*dest, Some(*value));
                        }
                    }
                },
                _ => {},
            }
            assert(lit@ == scan_step(prior, blk@.statements[j as int]));
            j += 1;
            proof {
                assert(blk@.statements.take(j as int) =~= stmts_take.push(
                    blk@.statements[j - 1],
                ));
                lemma_scan_stmts_snoc(acc0, stmts_take, blk@.statements[j - 1]);
            }
        }
        assert(blk@.statements.take(blk.statements.len() as int) =~= blk@.statements);
        b += 1;
        proof {
            assert(body@.blocks.take(b as int) =~= pre_take.push(body@.blocks[b - 1]));
            lemma_scan_blocks_snoc(init, pre_take, body@.blocks[b - 1]);
        }
    }
    assert(body@.blocks.take(body.blocks.len() as int) =~= body@.blocks);
    lit
}

/// Rewrites every match dispatch over a literal-defined discriminant into a
/// jump to the matching arm.
fn rewrite_matches(body: &mut LoweredBody)
    ensures
        final(body)@ == spec_rewrite_matches(old(body)@),
{
    broadcast use group_ir_views;

    let lit = exec_literal_defs(body);
    let mut new_blocks: Vec<Block> = Vec::new();
    let mut i: usize = 0;
    while i < body.blocks.len()
        invariant
            i <= body.blocks.len(),
            body@ == old(body)@,
            body@.blocks.len() == body.blocks.len(),
            lit@ == literal_defs(body@),
            block_views(new_blocks@) == spec_rewrite_matches(body@).blocks.take(i as int),
        decreases body.blocks.len() - i,
    {
        broadcast use group_ir_views;

        let blk = body.get_block(i);
        let mut nb = blk.clone();
        match &blk.terminator {
            Terminator::MatchEnum { discriminant, arms } => {
                if *discriminant < lit.len() {
                    if let Some(val) = lit[*discriminant] {
                        if val < arms.len() as u64 {
                            nb.terminator = Terminator::Goto {
                                target: arms[val as usize],
                                args: Vec::new(),
                            };
                        }
                    }
                }
            },
            _ => {},
        }
        assert(nb@ == spec_rewrite_matches(body@).blocks[i as int]);
        let ghost prev_blocks = new_blocks@;
        proof {
            lemma_block_views_push(prev_blocks, nb);
        }
        new_blocks.push(nb);
        i += 1;
        proof {
            assert(spec_rewrite_matches(body@).blocks.take(i as int) =~= spec_rewrite_matches(
                body@,
            ).blocks.take(i - 1).push(spec_rewrite_matches(body@).blocks[i - 1]));
        }
    }
    proof {
        assert(spec_rewrite_matches(body@).blocks.take(body.blocks.len() as int)
            =~= spec_rewrite_matches(body@).blocks);
    }
    body.blocks = new_blocks;
    proof {
        assert(body@ =~= spec_rewrite_matches(old(body)@));
    }
}

/// Applies the renumbering map to one block id.
fn map_id_exec(m: &Vec<Option<BlockId>>, t: BlockId) -> (r: BlockId)
    ensures
        r == map_id(m@, t),
{
    if t < m.len() {
        match m[t] {
            Some(x) => x,
            None => t,
        }
    } else {
        t
    }
}

/// Applies the renumbering map to a terminator's targets.
fn map_term_exec(m: &Vec<Option<BlockId>>, t: &Terminator) -> (r: Terminator)
    ensures
        r@ == map_term(m@, t@),
{
    match t {
        Terminator::Goto { target, args } => Terminator::Goto {
            target: map_id_exec(m, *target),
            args: clone_ids(args),
        },
        Terminator::MatchEnum { discriminant, arms } => {
            let mut mapped: Vec<BlockId> = Vec::new();
            let mut i: usize = 0;
            while i < arms.len()
                invariant
                    i <= arms.len(),
                    mapped@.len() == i,
                    forall|j: int|
                        0 <= j < i ==> mapped@[j] == map_id(m@, #[trigger] arms@[j]),
                decreases arms.len() - i,
            {
                mapped.push(map_id_exec(m, arms[i]));
                i += 1;
            }
            assert(mapped@ =~= map_ids(m@, arms@));
            Terminator::MatchEnum { discriminant: *discriminant, arms: mapped }
        },
        Terminator::Return { var } => Terminator::Return { var: *var },
        Terminator::Unreachable => Terminator::Unreachable,
    }
}

impl LoweredBody {
    /// Drops every block the entry block does not reach and renumbers the
    /// remaining blocks densely, in their original order; a body whose
    /// entry id is out of range is left untouched.
    pub fn remove_unreachable_blocks(&mut self)
        ensures
            final(self)@ == if old(self)@.entry < old(self)@.blocks.len() {
                spec_drop_unreachable(old(self)@)
            } else {
                old(self)@
            },
    {
        broadcast use group_ir_views;

        if self.entry >= self.blocks.len() {
            return;
        }
        let reach = compute_reachable(self);
        proof {
            assert(reach@ =~= reach_seq(self@));
        }
        let mut m: Vec<Option<BlockId>> = Vec::new();
        let mut count: usize = 0;
        let mut i: usize = 0;
        while i < self.blocks.len()
            invariant
                i <= self.blocks.len(),
                self@.blocks.len() == self.blocks.len(),
                reach@ == reach_seq(self@),
                reach@.len() == self.blocks.len(),
                m@.len() == i,
                count == prefix_trues(reach@, i as int),
                forall|j: int| 0 <= j < i ==> m@[j] == id_map(reach@)[j],
            decreases self.blocks.len() - i,
        {
            proof {
                lemma_prefix_trues_bound(reach@, i as int);
            }
            if reach[i] {
                m.push(Some(count));
                count += 1;
            } else {
                m.push(None);
            }
            i += 1;
        }
        assert(m@ =~= id_map(reach@));
        let mut new_blocks: Vec<Block> = Vec::new();
        let mut b: usize = 0;
        while b < self.blocks.len()
            invariant
                b <= self.blocks.len(),
                self@.blocks.len() == self.blocks.len(),
                reach@ == reach_seq(self@),
                reach@.len() == self.blocks.len(),
                m@ == id_map(reach@),
                block_views(new_blocks@) == compact_prefix(self@, reach@, m@, b as int),
            decreases self.blocks.len() - b,
        {
            broadcast use group_ir_views;

            if reach[b] {
                let blk = self.get_block(b);
                let mut nb = blk.clone();
                nb.terminator = map_term_exec(&m, &blk.terminator);
                assert(nb@ == remap_block(self@.blocks[b as int], m@));
                let ghost prev_blocks = new_blocks@;
                proof {
                    lemma_block_views_push(prev_blocks, nb);
                }
                new_blocks.push(nb);
                proof {
                    assert(block_views(new_blocks@) =~= compact_prefix(
                        self@,
                        reach@,
                        m@,
                        b + 1,
                    ));
                }
            } else {
                proof {
                    assert(block_views(new_blocks@) =~= compact_prefix(
                        self@,
                        reach@,
                        m@,
                        b + 1,
                    ));
                }
            }
            b += 1;
        }
        let new_entry = map_id_exec(&m, self.entry);
        self.blocks = new_blocks;
        self.entry = new_entry;
        proof {
            assert(self@ =~= spec_drop_unreachable(old(self)@));
        }
    }
}

/// The variables one statement touches.
fn stmt_vars_exec(s: &Statement) -> (r: Vec<VarId>)
    ensures
        r@ == stmt_vars(s@),
{
    match s {
        Statement::Literal { dest, value } => {
            let mut r: Vec<VarId> = Vec::new();
            r.push(*dest);
            assert(r@ =~= stmt_vars(s@));
            r
        },
        Statement::BinaryOp { op, lhs, rhs, dest } => {
            let mut r: Vec<VarId> = Vec::new();
            r.push(*lhs);
            r.push(*rhs);
            r.push(*dest);
            assert(r@ =~= stmt_vars(s@));
            r
        },
        Statement::Call { callee, args, dest } => {
            let mut r = clone_ids(args);
            r.push(*dest);
            assert(r@ =~= stmt_vars(s@));
            r
        },
        Statement::BoxValue { input, dest } => {
            let mut r: Vec<VarId> = Vec::new();
            r.push(*input);
            r.push(*dest);
            assert(r@ =~= stmt_vars(s@));
            r
        },
        Statement::UnboxValue { input, dest } => {
            let mut r: Vec<VarId> = Vec::new();
            r.push(*input);
            r.push(*dest);
            assert(r@ =~= stmt_vars(s@));
            r
        },
    }
}

/// The variables a terminator reads.
fn term_vars_exec(t: &Terminator) -> (r: Vec<VarId>)
    ensures
        r@ == term_vars(t@),
{
    match t {
        Terminator::Goto { target, args } => clone_ids(args),
        Terminator::MatchEnum { discriminant, arms } => {
            let mut r: Vec<VarId> = Vec::new();
            r.push(*discriminant);
            assert(r@ =~= term_vars(t@));
            r
        },
        Terminator::Return { var } => {
            let mut r: Vec<VarId> = Vec::new();
            r.push(*var);
            assert(r@ =~= term_vars(t@));
            r
        },
        Terminator::Unreachable => {
            let r: Vec<VarId> = Vec::new();
            assert(r@ =~= term_vars(t@));
            r
        },
    }
}

/// Marks every in-range variable of a list.
fn mark_all_exec(acc: &mut Vec<bool>, vs: &Vec<VarId>)
    ensures
        final(acc)@ == mark_all(old(acc)@, vs@),
{
    let mut i: usize = 0;
    assert(vs@.skip(0) =~= vs@);
    while i < vs.len()
        invariant
            i <= vs.len(),
            mark_all(old(acc)@, vs@) == mark_all(acc@, vs@.skip(i as int)),
        decreases vs.len() - i,
    {
        let ghost pre = acc@;
        let v = vs[i];
        if v < acc.len() {
            acc.set(v, true);
        }
        assert(acc@ == (if vs@[i as int] < pre.len() {
            pre.update(vs@[i as int] as int, true)
        } else {
            pre
        }));
        i += 1;
        proof {
            assert(vs@.skip(i - 1)[0] == vs@[i - 1]);
            assert(vs@.skip(i - 1).drop_first() =~= vs@.skip(i as int));
        }
    }
    proof {
        assert(vs@.skip(vs@.len() as int) =~= Seq::<VarId>::empty());
    }
}

/// Computes which variables the body references anywhere.
fn compute_ref_marks(body: &LoweredBody) -> (r: Vec<bool>)
    ensures
        r@ == ref_marks(body@),
{
    broadcast use group_ir_views;

    let nvars = body.variables.len();
    let mut acc: Vec<bool> = Vec::new();
    let mut i: usize = 0;
    while i < nvars
        invariant
            i <= nvars,
            acc@.len() == i,
            forall|j: int| 0 <= j < i ==> !acc@[j],
        decreases nvars - i,
    {
        acc.push(false);
        i += 1;
    }
    assert(acc@ =~= Seq::new(body@.variables.len(), |j: int| false));
    let ghost init = acc@;
    let mut b: usize = 0;
    assert(body@.blocks.skip(0) =~= body@.blocks);
    while b < body.blocks.len()
        invariant
            b <= body.blocks.len(),
            body@.blocks.len() == body.blocks.len(),
            mark_blocks(init, body@.blocks) == mark_blocks(acc@, body@.blocks.skip(b as int)),
        decreases body.blocks.len() - b,
    {
        broadcast use group_ir_views;

        let ghost at_entry = acc@;
        let blk = body.get_block(b);
        let ghost blocks_skip = body@.blocks.skip(b as int);
        let ps = clone_ids(&blk.params);
        mark_all_exec(&mut acc, &ps);
        let ghost after_params = acc@;
        let mut j: usize = 0;
        assert(blk@.statements.skip(0) =~= blk@.statements);
        while j < blk.statements.len()
            invariant
                j <= blk.statements.len(),
                blk@.statements.len() == blk.statements.len(),
                blk@ == body@.blocks[b as int],
                0 <= b < body@.blocks.len(),
                mark_stmts(after_params, blk@.statements) == mark_stmts(
                    acc@,
                    blk@.statements.skip(j as int),
                ),
            decreases blk.statements.len() - j,
        {
            broadcast use group_ir_views;

            assert(blk@.statements[j as int] == blk.statements@[j as int]@);
            let sv = stmt_vars_exec(&blk.statements[j]);
            mark_all_exec(&mut acc, &sv);
            j += 1;
            proof {
                assert(blk@.statements.skip(j - 1)[0] == blk@.statements[j - 1]);
                assert(blk@.statements.skip(j - 1).drop_first() =~= blk@.statements.skip(
                    j as int,
                ));
            }
        }
        proof {
            assert(blk@.statements.skip(blk@.statements.len() as int) =~= Seq::<
                StmtView,
            >::empty());
        }
        let tv = term_vars_exec(&blk.terminator);
        mark_all_exec(&mut acc, &tv);
        b += 1;
        proof {
            assert(blocks_skip[0] == body@.blocks[b - 1]);
            assert(blocks_skip.drop_first() =~= body@.blocks.skip(b as int));
        }
    }
    proof {
        assert(body@.blocks.skip(body@.blocks.len() as int) =~= Seq::<BlockView>::empty());
    }
    acc
}

/// Applies the renumbering map to a whole id list.
fn map_ids_exec(m: &Vec<Option<VarId>>, ids: &Vec<VarId>) -> (r: Vec<VarId>)
    ensures
        r@ == map_ids(m@, ids@),
{
    let mut r: Vec<VarId> = Vec::new();
    let mut i: usize = 0;
    while i < ids.len()
        invariant
            i <= ids.len(),
            r@.len() == i,
            forall|j: int| 0 <= j < i ==> r@[j] == map_id(m@, #[trigger] ids@[j]),
        decreases ids.len() - i,
    {
        r.push(map_id_exec(m, ids[i]));
        i += 1;
    }
    assert(r@ =~= map_ids(m@, ids@));
    r
}

/// Applies the variable renumbering map to a statement.
fn map_stmt_vars_exec(m: &Vec<Option<VarId>>, s: &Statement) -> (r: Statement)
    ensures
        r@ == map_stmt_vars(m@, s@),
{
    match s {
        Statement::Literal { dest, value } => Statement::Literal {
            dest: map_id_exec(m, *dest),
            value: *value,
        },
        Statement::BinaryOp { op, lhs, rhs, dest } => Statement::BinaryOp {
            op: *op,
            lhs: map_id_exec(m, *lhs),
            rhs: map_id_exec(m, *rhs),
            dest: map_id_exec(m, *dest),
        },
        Statement::Call { callee, args, dest } => Statement::Call {
            callee: *callee,
            args: map_ids_exec(m, args),
            dest: map_id_exec(m, *dest),
        },
        Statement::BoxValue { input, dest } => Statement::BoxValue {
            input: map_id_exec(m, *input),
            dest: map_id_exec(m, *dest),
        },
        Statement::UnboxValue { input, dest } => Statement::UnboxValue {
            input: map_id_exec(m, *input),
            dest: map_id_exec(m, *dest),
        },
    }
}

/// Applies the variable renumbering map to a terminator's operands.
fn map_term_vars_exec(m: &Vec<Option<VarId>>, t: &Terminator) -> (r: Terminator)
    ensures
        r@ == map_term_vars(m@, t@),
{
    match t {
        Terminator::Goto { target, args } => Terminator::Goto {
            target: *target,
            args: map_ids_exec(m, args),
        },
        Terminator::MatchEnum { discriminant, arms } => Terminator::MatchEnum {
            discriminant: map_id_exec(m, *discriminant),
            arms: clone_ids(arms),
        },
        Terminator::Return { var } => Terminator::Return { var: map_id_exec(m, *var) },
        Terminator::Unreachable => Terminator::Unreachable,
    }
}

impl LoweredBody {
    /// Drops every variable the graph no longer references and renumbers
    /// the survivors densely, remapping every occurrence.
    pub fn compact_variables(&mut self)
        ensures
            final(self)@ == spec_compact_variables(old(self)@),
    {
        broadcast use group_ir_views;

        let marks = compute_ref_marks(self);
        let nv = self.variables.len();
        proof {
            lemma_ref_marks_len(self@);
            assert(self@.variables.len() == nv);
        }
        let mut m: Vec<Option<VarId>> = Vec::new();
        let mut count: usize = 0;
        let mut i: usize = 0;
        while i < marks.len()
            invariant
                i <= marks.len(),
                marks@ == ref_marks(self@),
                marks@.len() == self@.variables.len(),
                self@.variables.len() <= usize::MAX,
                m@.len() == i,
                count == prefix_trues(marks@, i as int),
                forall|j: int| 0 <= j < i ==> m@[j] == id_map(marks@)[j],
            decreases marks.len() - i,
        {
            proof {
                lemma_prefix_trues_bound(marks@, i as int);
            }
            if marks[i] {
                m.push(Some(count));
                count += 1;
            } else {
                m.push(None);
            }
            i += 1;
        }
        assert(m@ =~= id_map(marks@));
        let mut new_vars: Vec<Variable> = Vec::new();
        let mut k: usize = 0;
        while k < self.variables.len()
            invariant
                k <= self.variables.len(),
                marks@ == ref_marks(self@),
                marks@.len() == self@.variables.len(),
                self@.variables.len() == self.variables.len(),
                new_vars@ == compact_vars(self@.variables, marks@, k as int),
            decreases self.variables.len() - k,
        {
            if marks[k] {
                new_vars.push(self.variables[k]);
                proof {
                    assert(new_vars@ =~= compact_vars(self@.variables, marks@, k + 1));
                }
            } else {
                proof {
                    assert(new_vars@ =~= compact_vars(self@.variables, marks@, k + 1));
                }
            }
            k += 1;
        }
        let ghost target = spec_compact_variables(self@);
        let mut new_blocks: Vec<Block> = Vec::new();
        let mut b: usize = 0;
        while b < self.blocks.len()
            invariant
                b <= self.blocks.len(),
                self@.blocks.len() == self.blocks.len(),
                marks@ == ref_marks(self@),
                m@ == id_map(marks@),
                target == spec_compact_variables(self@),
                target.blocks.len() == self@.blocks.len(),
                block_views(new_blocks@) == target.blocks.take(b as int),
            decreases self.blocks.len() - b,
        {
            broadcast use group_ir_views;

            let blk = self.get_block(b);
            let params = map_ids_exec(&m, &blk.params);
            let mut out_stmts: Vec<Statement> = Vec::new();
            let mut j: usize = 0;
            proof {
                lemma_stmt_views_len(blk.statements@);
                assert(stmt_views(out_stmts@) =~= Seq::<StmtView>::empty());
                assert(blk@.statements.map_values(|s: StmtView| map_stmt_vars(m@, s)).take(0)
                    =~= Seq::<StmtView>::empty());
            }
            while j < blk.statements.len()
                invariant
                    j <= blk.statements.len(),
                    blk@.statements.len() == blk.statements.len(),
                    m@ == id_map(marks@),
                    stmt_views(out_stmts@) == blk@.statements.map_values(
                        |s: StmtView| map_stmt_vars(m@, s),
                    ).take(j as int),
                decreases blk.statements.len() - j,
            {
                broadcast use group_ir_views;

                assert(blk@.statements[j as int] == blk.statements@[j as int]@);
                let ghost prev = out_stmts@;
                let ns = map_stmt_vars_exec(&m, &blk.statements[j]);
                proof {
                    lemma_stmt_views_push(prev, ns);
                }
                out_stmts.push(ns);
                j += 1;
                proof {
                    assert(stmt_views(out_stmts@) =~= blk@.statements.map_values(
                        |s: StmtView| map_stmt_vars(m@, s),
                    ).take(j as int));
                }
            }
            proof {
                assert(blk@.statements.map_values(|s: StmtView| map_stmt_vars(m@, s)).take(
                    blk@.statements.len() as int,
                ) =~= blk@.statements.map_values(|s: StmtView| map_stmt_vars(m@, s)));
            }
            let new_term = map_term_vars_exec(&m, &blk.terminator);
            let nb = Block { params, statements: out_stmts, terminator: new_term };
            assert(nb@ == target.blocks[b as int]);
            let ghost prev_blocks = new_blocks@;
            proof {
                lemma_block_views_push(prev_blocks, nb);
            }
            new_blocks.push(nb);
            b += 1;
            proof {
                assert(target.blocks.take(b as int) =~= target.blocks.take(b - 1).push(
                    target.blocks[b - 1],
                ));
            }
        }
        proof {
            assert(target.blocks.take(self.blocks.len() as int) =~= target.blocks);
        }
        self.blocks = new_blocks;
        self.variables = new_vars;
        proof {
            assert(self@ =~= target);
        }
    }
}

/// Counts the predecessor edges of every block, saturated at two.
fn compute_pred_counts(body: &LoweredBody) -> (r: Vec<u64>)
    ensures
        r@ == pred_counts(body@),
{
    broadcast use group_ir_views;

    let n = body.blocks.len();
    let mut acc: Vec<u64> = Vec::new();
    let mut i: usize = 0;
    while i < n
        invariant
            i <= n,
            acc@.len() == i,
            forall|j: int| 0 <= j < i ==> acc@[j] == 0u64,
        decreases n - i,
    {
        acc.push(0);
        i += 1;
    }
    assert(acc@ =~= Seq::new(body@.blocks.len(), |j: int| 0u64));
    let ghost init = acc@;
    let mut b: usize = 0;
    assert(body@.blocks.skip(0) =~= body@.blocks);
    while b < body.blocks.len()
        invariant
            b <= body.blocks.len(),
            body@.blocks.len() == body.blocks.len(),
            preds_blocks(init, body@.blocks) == preds_blocks(acc@, body@.blocks.skip(b as int)),
        decreases body.blocks.len() - b,
    {
        broadcast use group_ir_views;

        let blk = body.get_block(b);
        let ghost blocks_skip = body@.blocks.skip(b as int);
        let succs = successors_exec(&blk.terminator);
        let ghost pre = acc@;
        let mut k: usize = 0;
        assert(succs@.skip(0) =~= succs@);
        while k < succs.len()
            invariant
                k <= succs.len(),
                succs@ == successors(body@.blocks[b as int].terminator),
                0 <= b < body@.blocks.len(),
                bump_preds(pre, succs@) == bump_preds(acc@, succs@.skip(k as int)),
            decreases succs.len() - k,
        {
            let ghost before = acc@;
            let t = succs[k];
            if t < acc.len() {
                let cur = acc[t];
                if cur < 2 {
                    acc.set(t, cur + 1);
                }
            }
            assert(acc@ == (if succs@[k as int] < before.len() && before[succs@[k as int] as int]
                < 2 {
                before.update(succs@[k as int] as int, (before[succs@[k as int] as int] + 1) as u64)
            } else {
                before
            }));
            k += 1;
            proof {
                assert(succs@.skip(k - 1)[0] == succs@[k - 1]);
                assert(succs@.skip(k - 1).drop_first() =~= succs@.skip(k as int));
            }
        }
        proof {
            assert(succs@.skip(succs@.len() as int) =~= Seq::<BlockId>::empty());
        }
        b += 1;
        proof {
            assert(blocks_skip[0] == body@.blocks[b - 1]);
            assert(blocks_skip.drop_first() =~= body@.blocks.skip(b as int));
        }
    }
    proof {
        assert(body@.blocks.skip(body@.blocks.len() as int) =~= Seq::<BlockView>::empty());
    }
    acc
}

/// Collapses, in one simultaneous round, every block ending in an
/// unconditional jump into its unique parameterless successor.
fn collapse_jumps(body: &mut LoweredBody)
    ensures
        final(body)@ == spec_collapse_jumps(old(body)@),
{
    broadcast use group_ir_views;

    let counts = compute_pred_counts(body);
    let ghost target_body = spec_collapse_jumps(body@);
    let mut new_blocks: Vec<Block> = Vec::new();
    let mut b: usize = 0;
    while b < body.blocks.len()
        invariant
            b <= body.blocks.len(),
            body@ == old(body)@,
            body@.blocks.len() == body.blocks.len(),
            counts@ == pred_counts(body@),
            target_body == spec_collapse_jumps(body@),
            target_body.blocks.len() == body@.blocks.len(),
            block_views(new_blocks@) == target_body.blocks.take(b as int),
        decreases body.blocks.len() - b,
    {
        broadcast use group_ir_views;

        let blk = body.get_block(b);
        let mut decided: Option<BlockId> = None;
        match &blk.terminator {
            Terminator::Goto { target, args } => {
                if args.len() == 0 && *target < body.blocks.len() && *target != b && *target
                    != body.entry {
                    if body.get_block(*target).params.len() == 0 && *target < counts.len()
                        && counts[*target] == 1 {
                        decided = Some(*target);
                    }
                }
            },
            _ => {},
        }
        assert(decided == collapse_target(body@, counts@, b as int));
        let nb: Block = match decided {
            Some(t) => {
                let blk2 = body.get_block(t);
                let mut merged = blk.clone();
                proof {
                    lemma_stmt_views_len(blk2.statements@);
                    assert(stmt_views(merged.statements@) =~= body@.blocks[b as int].statements
                        + blk2@.statements.take(0));
                }
                let mut k: usize = 0;
                while k < blk2.statements.len()
                    invariant
                        k <= blk2.statements.len(),
                        blk2@ == body@.blocks[t as int],
                        0 <= b < body@.blocks.len(),
                        t < body@.blocks.len(),
                        blk2@.statements.len() == blk2.statements.len(),
                        merged@.params == body@.blocks[b as int].params,
                        stmt_views(merged.statements@) == body@.blocks[b as int].statements
                            + blk2@.statements.take(k as int),
                    decreases blk2.statements.len() - k,
                {
                    broadcast use group_ir_views;

                    assert(blk2@.statements[k as int] == blk2.statements@[k as int]@);
                    let ghost prev = merged.statements@;
                    merged.statements.push(blk2.statements[k].clone());
                    k += 1;
                    proof {
                        lemma_stmt_views_push(prev, merged.statements@.last());
                        assert(merged.statements@.drop_last() =~= prev);
                        assert(stmt_views(merged.statements@) =~= body@.blocks[b as int].statements
                            + blk2@.statements.take(k as int));
                    }
                }
                proof {
                    assert(blk2@.statements.take(blk2@.statements.len() as int)
                        =~= blk2@.statements);
                }
                merged.terminator = blk2.terminator.clone();
                proof {
                    assert(merged@.params =~= target_body.blocks[b as int].params);
                    assert(merged@.statements =~= target_body.blocks[b as int].statements);
                    assert(merged@.terminator == target_body.blocks[b as int].terminator);
                }
                merged
            },
            None => blk.clone(),
        };
        assert(nb@ == target_body.blocks[b as int]);
        let ghost prev_blocks = new_blocks@;
        proof {
            lemma_block_views_push(prev_blocks, nb);
        }
        new_blocks.push(nb);
        b += 1;
        proof {
            assert(target_body.blocks.take(b as int) =~= target_body.blocks.take(b - 1).push(
                target_body.blocks[b - 1],
            ));
        }
    }
    proof {
        assert(target_body.blocks.take(body.blocks.len() as int) =~= target_body.blocks);
    }
    body.blocks = new_blocks;
    proof {
        assert(body@ =~= target_body);
    }
}

/// Runs block reorganization over a body in place: statically-resolved
/// match dispatches become jumps, unreached blocks are dropped, and block
/// ids are renumbered to the canonical dense order.
pub fn reorganize(body: &mut LoweredBody)
    ensures
        final(body)@ == spec_reorganize(old(body)@),
{
    broadcast use group_ir_views;

    if body.entry >= body.blocks.len() {
        return;
    }
    rewrite_matches(body);
    collapse_jumps(body);
    assert(body@.entry < body@.blocks.len());
    body.remove_unreachable_blocks();
    body.compact_variables();
}

} // verus!
