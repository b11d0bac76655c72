//! The lowered intermediate representation: a control-flow graph of basic
//! blocks over a per-function pool of typed variables.
//!
//! Blocks and variables live in flat pools owned by the body; every
//! intra-body reference is an index into those pools, so rewrites never
//! invalidate unrelated references and the graph supports deterministic
//! renumbering. Variables are write-once: a given index is produced by
//! exactly one statement or block parameter.

use vstd::prelude::*;

use crate::field::FIELD_MODULUS;

verus! {

/// Index of a variable in a body's variable pool.
pub type VarId = usize;

/// Index of a block in a body's block pool.
pub type BlockId = usize;

/// Identity of a concrete function with a body.
pub type FunctionId = usize;

/// Semantic type of a variable.
#[derive(Clone, Copy, PartialEq, Eq, Structural, Debug)]
pub enum VarType {
    /// A scalar of the target field.
    Felt,
    /// A heap-boxed scalar.
    Boxed,
}

/// An entry of the variable pool.
#[derive(Clone, Copy, PartialEq, Eq, Structural, Debug)]
pub struct Variable {
    /// Semantic type of the slot.
    pub ty: VarType,
    /// Whether the external lowering marked this local as a candidate for
    /// the local-into-box representation change.
    pub box_candidate: bool,
    /// Whether the local is represented as a heap-allocated box.
    pub is_boxed: bool,
}

/// Binary operations on field elements.
#[derive(Clone, Copy, PartialEq, Eq, Structural, Debug)]
pub enum BinOp {
    /// Field addition.
    Add,
    /// Field subtraction.
    Sub,
    /// Field multiplication.
    Mul,
}

/// An operation producing output variables from input variables.
#[derive(Debug)]
pub enum Statement {
    /// Materializes a compile-time literal.
    Literal { dest: VarId, value: u64 },
    /// A field-arithmetic operation.
    BinaryOp { op: BinOp, lhs: VarId, rhs: VarId, dest: VarId },
    /// A call to another function.
    Call { callee: FunctionId, args: Vec<VarId>, dest: VarId },
    /// Boxes a value into heap storage; pure representation change.
    BoxValue { input: VarId, dest: VarId },
    /// Reads a boxed value back; pure representation change.
    UnboxValue { input: VarId, dest: VarId },
}

/// The single exit of a block.
#[derive(Debug)]
pub enum Terminator {
    /// Unconditional jump, binding arguments to the target's parameters.
    Goto { target: BlockId, args: Vec<VarId> },
    /// Exhaustive dispatch over an enum discriminant, one target per variant.
    MatchEnum { discriminant: VarId, arms: Vec<BlockId> },
    /// Returns a value to the caller.
    Return { var: VarId },
    /// A panic sentinel; control never continues past it.
    Unreachable,
}

/// An ordered sequence of statements followed by exactly one terminator.
#[derive(Debug)]
pub struct Block {
    /// Variables bound on entry by the jump that targets this block.
    pub params: Vec<VarId>,
    /// The straight-line statements of the block.
    pub statements: Vec<Statement>,
    /// The single exit.
    pub terminator: Terminator,
}

/// The full control-flow graph of one concrete function with a body.
#[derive(Debug)]
pub struct LoweredBody {
    /// The block where execution starts; its parameters are the function's
    /// parameters.
    pub entry: BlockId,
    /// The block pool; ids are indices and stay stable across rewrites.
    pub blocks: Vec<Block>,
    /// The variable pool.
    pub variables: Vec<Variable>,
}

/// Mathematical model of a statement.
#[verifier::ext_equal]
pub enum StmtView {
    /// See [`Statement::Literal`].
    Literal { dest: VarId, value: u64 },
    /// See [`Statement::BinaryOp`].
    BinaryOp { op: BinOp, lhs: VarId, rhs: VarId, dest: VarId },
    /// See [`Statement::Call`].
    Call { callee: FunctionId, args: Seq<VarId>, dest: VarId },
    /// See [`Statement::BoxValue`].
    BoxValue { input: VarId, dest: VarId },
    /// See [`Statement::UnboxValue`].
    UnboxValue { input: VarId, dest: VarId },
}

/// Mathematical model of a terminator.
#[verifier::ext_equal]
pub enum TermView {
    /// See [`Terminator::Goto`].
    Goto { target: BlockId, args: Seq<VarId> },
    /// See [`Terminator::MatchEnum`].
    MatchEnum { discriminant: VarId, arms: Seq<BlockId> },
    /// See [`Terminator::Return`].
    Return { var: VarId },
    /// See [`Terminator::Unreachable`].
    Unreachable,
}

/// Mathematical model of a block.
#[verifier::ext_equal]
pub struct BlockView {
    /// See [`Block::params`].
    pub params: Seq<VarId>,
    /// See [`Block::statements`].
    pub statements: Seq<StmtView>,
    /// See [`Block::terminator`].
    pub terminator: TermView,
}

/// Mathematical model of a lowered body.
#[verifier::ext_equal]
pub struct BodyView {
    /// See [`LoweredBody::entry`].
    pub entry: BlockId,
    /// See [`LoweredBody::blocks`].
    pub blocks: Seq<BlockView>,
    /// See [`LoweredBody::variables`].
    pub variables: Seq<Variable>,
}

impl View for Statement {
    type V = StmtView;

    open spec fn view(&self) -> StmtView {
        match self {
            Statement::Literal { dest, value } => StmtView::Literal {
                dest: *dest,
                value: *value,
            },
            Statement::BinaryOp { op, lhs, rhs, dest } => StmtView::BinaryOp {
                op: *op,
                lhs: *lhs,
                rhs: *rhs,
                dest: *dest,
            },
            Statement::Call { callee, args, dest } => StmtView::Call {
                callee: *callee,
                args: args@,
                dest: *dest,
            },
            Statement::BoxValue { input, dest } => StmtView::BoxValue {
                input: *input,
                dest: *dest,
            },
            Statement::UnboxValue { input, dest } => StmtView::UnboxValue {
                input: *input,
                dest: *dest,
            },
        }
    }
}

impl View for Terminator {
    type V = TermView;

    open spec fn view(&self) -> TermView {
        match self {
            Terminator::Goto { target, args } => TermView::Goto { target: *target, args: args@ },
            Terminator::MatchEnum { discriminant, arms } => TermView::MatchEnum {
                discriminant: *discriminant,
                arms: arms@,
            },
            Terminator::Return { var } => TermView::Return { var: *var },
            Terminator::Unreachable => TermView::Unreachable,
        }
    }
}

/// The models of a sequence of statements, element by element.
pub open spec fn stmt_views(ss: Seq<Statement>) -> Seq<StmtView>
    decreases ss.len(),
{
    if ss.len() == 0 {
        Seq::empty()
    } else {
        stmt_views(ss.drop_last()).push(ss.last()@)
    }
}

/// `stmt_views` keeps the length.
pub broadcast proof fn lemma_stmt_views_len(ss: Seq<Statement>)
    ensures
        #[trigger] stmt_views(ss).len() == ss.len(),
    decreases ss.len(),
{
    if ss.len() > 0 {
        lemma_stmt_views_len(ss.drop_last());
    }
}

/// `stmt_views` models each element in place.
pub broadcast proof fn lemma_stmt_views_index(ss: Seq<Statement>, j: int)
    requires
        0 <= j < ss.len(),
    ensures
        stmt_views(ss).len() == ss.len(),
        #[trigger] stmt_views(ss)[j] == ss[j]@,
    decreases ss.len(),
{
    lemma_stmt_views_len(ss);
    if j < ss.len() - 1 {
        lemma_stmt_views_index(ss.drop_last(), j);
    }
}

/// Pushing a statement pushes its model.
pub broadcast proof fn lemma_stmt_views_push(ss: Seq<Statement>, s: Statement)
    ensures
        #[trigger] stmt_views(ss.push(s)) == stmt_views(ss).push(s@),
{
    assert(ss.push(s).drop_last() =~= ss);
    assert(ss.push(s).last() == s);
}

/// The models of a sequence of blocks, element by element.
pub open spec fn block_views(bs: Seq<Block>) -> Seq<BlockView>
    decreases bs.len(),
{
    if bs.len() == 0 {
        Seq::empty()
    } else {
        block_views(bs.drop_last()).push(bs.last()@)
    }
}

/// `block_views` keeps the length.
pub broadcast proof fn lemma_block_views_len(bs: Seq<Block>)
    ensures
        #[trigger] block_views(bs).len() == bs.len(),
    decreases bs.len(),
{
    if bs.len() > 0 {
        lemma_block_views_len(bs.drop_last());
    }
}

/// `block_views` models each element in place.
pub broadcast proof fn lemma_block_views_index(bs: Seq<Block>, j: int)
    requires
        0 <= j < bs.len(),
    ensures
        block_views(bs).len() == bs.len(),
        #[trigger] block_views(bs)[j] == bs[j]@,
    decreases bs.len(),
{
    lemma_block_views_len(bs);
    if j < bs.len() - 1 {
        lemma_block_views_index(bs.drop_last(), j);
    }
}

/// Pushing a block pushes its model.
pub broadcast proof fn lemma_block_views_push(bs: Seq<Block>, b: Block)
    ensures
        #[trigger] block_views(bs.push(b)) == block_views(bs).push(b@),
{
    assert(bs.push(b).drop_last() =~= bs);
    assert(bs.push(b).last() == b);
}

/// The facts connecting a vector of IR nodes to its sequence of models.
pub broadcast group group_ir_views {
    lemma_stmt_views_len,
    lemma_stmt_views_index,
    lemma_stmt_views_push,
    lemma_block_views_len,
    lemma_block_views_index,
    lemma_block_views_push,
}

impl View for Block {
    type V = BlockView;

    open spec fn view(&self) -> BlockView {
        BlockView {
            params: self.params@,
            statements: stmt_views(self.statements@),
            terminator: self.terminator@,
        }
    }
}

impl View for LoweredBody {
    type V = BodyView;

    open spec fn view(&self) -> BodyView {
        BodyView {
            entry: self.entry,
            blocks: block_views(self.blocks@),
            variables: self.variables@,
        }
    }
}

/// Copies a vector of indices element by element.
pub fn clone_ids(v: &Vec<usize>) -> (r: Vec<usize>)
    ensures
        r@ == v@,
{
    let mut r: Vec<usize> = Vec::new();
    let mut i: usize = 0;
    while i < v.len()
        invariant
            i <= v.len(),
            r@ == v@.take(i as int),
        decreases v.len() - i,
    {
        r.push(v[i]);
        i += 1;
        assert(r@ =~= v@.take(i as int));
    }
    assert(v@.take(v.len() as int) =~= v@);
    r
}

impl Clone for Statement {
    /// Clones preserve the statement's model exactly.
    fn clone(&self) -> (r: Self)
        ensures
            r@ == self@,
    {
        match self {
            Statement::Literal { dest, value } => Statement::Literal {
                dest: *dest,
                value: *value,
            },
            Statement::BinaryOp { op, lhs, rhs, dest } => Statement::BinaryOp {
                op: *op,
                lhs: *lhs,
                rhs: *rhs,
                dest: *dest,
            },
            Statement::Call { callee, args, dest } => Statement::Call {
                callee: *callee,
                args: clone_ids(args),
                dest: *dest,
            },
            Statement::BoxValue { input, dest } => Statement::BoxValue {
                input: *input,
                dest: *dest,
            },
            Statement::UnboxValue { input, dest } => Statement::UnboxValue {
                input: *input,
                dest: *dest,
            },
        }
    }
}

impl Clone for Terminator {
    /// Clones preserve the terminator's model exactly.
    fn clone(&self) -> (r: Self)
        ensures
            r@ == self@,
    {
        match self {
            Terminator::Goto { target, args } => Terminator::Goto {
                target: *target,
                args: clone_ids(args),
            },
            Terminator::MatchEnum { discriminant, arms } => Terminator::MatchEnum {
                discriminant: *discriminant,
                arms: clone_ids(arms),
            },
            Terminator::Return { var } => Terminator::Return { var: *var },
            Terminator::Unreachable => Terminator::Unreachable,
        }
    }
}

impl Clone for Block {
    /// Clones preserve the block's model exactly.
    fn clone(&self) -> (r: Self)
        ensures
            r@ == self@,
    {
        broadcast use group_ir_views;
        let mut statements: Vec<Statement> = Vec::new();
        let mut i: usize = 0;
        while i < self.statements.len()
            invariant
                i <= self.statements.len(),
                statements@.len() == i,
                forall|j: int| 0 <= j < i ==> #[trigger] statements@[j]@ == self.statements@[j]@,
            decreases self.statements.len() - i,
        {
            statements.push(self.statements[i].clone());
            i += 1;
        }
        proof {
            assert forall|j: int| 0 <= j < self.statements@.len() implies #[trigger] stmt_views(
                statements@,
            )[j] == stmt_views(self.statements@)[j] by {
                lemma_stmt_views_index(statements@, j);
                lemma_stmt_views_index(self.statements@, j);
            }
            lemma_stmt_views_len(statements@);
            lemma_stmt_views_len(self.statements@);
            assert(stmt_views(statements@) =~= stmt_views(self.statements@));
        }
        Block { params: clone_ids(&self.params), statements, terminator: self.terminator.clone() }
    }
}

impl Clone for LoweredBody {
    /// Clones preserve the body's model exactly.
    fn clone(&self) -> (r: Self)
        ensures
            r@ == self@,
    {
        broadcast use group_ir_views;
        let mut blocks: Vec<Block> = Vec::new();
        let mut i: usize = 0;
        while i < self.blocks.len()
            invariant
                i <= self.blocks.len(),
                blocks@.len() == i,
                forall|j: int| 0 <= j < i ==> #[trigger] blocks@[j]@ == self.blocks@[j]@,
            decreases self.blocks.len() - i,
        {
            blocks.push(self.blocks[i].clone());
            i += 1;
        }
        proof {
            assert forall|j: int| 0 <= j < self.blocks@.len() implies #[trigger] block_views(
                blocks@,
            )[j] == block_views(self.blocks@)[j] by {
                lemma_block_views_index(blocks@, j);
                lemma_block_views_index(self.blocks@, j);
            }
            lemma_block_views_len(blocks@);
            lemma_block_views_len(self.blocks@);
            assert(block_views(blocks@) =~= block_views(self.blocks@));
        }
        let mut variables: Vec<Variable> = Vec::new();
        let mut j: usize = 0;
        while j < self.variables.len()
            invariant
                j <= self.variables.len(),
                variables@ == self.variables@.take(j as int),
            decreases self.variables.len() - j,
        {
            variables.push(self.variables[j]);
            j += 1;
            assert(variables@ =~= self.variables@.take(j as int));
        }
        assert(self.variables@.take(self.variables.len() as int) =~= self.variables@);
        LoweredBody { entry: self.entry, blocks, variables }
    }
}

/// All ids of a list lie below a bound.
pub open spec fn ids_below(ids: Seq<usize>, bound: int) -> bool {
    forall|i: int| 0 <= i < ids.len() ==> ids[i] < bound
}

/// Every arm of a match dispatch targets an existing, parameterless block.
pub open spec fn arms_wf(arms: Seq<BlockId>, v: BodyView) -> bool {
    forall|i: int|
        0 <= i < arms.len() ==> #[trigger] arms[i] < v.blocks.len()
            && v.blocks[arms[i] as int].params.len() == 0
}

/// Structural well-formedness of a statement: all referenced variables lie
/// in the pool and literal values are reduced field elements.
pub open spec fn stmt_wf(s: StmtView, nvars: nat) -> bool {
    match s {
        StmtView::Literal { dest, value } => dest < nvars && value < FIELD_MODULUS,
        StmtView::BinaryOp { op, lhs, rhs, dest } => lhs < nvars && rhs < nvars && dest < nvars,
        StmtView::Call { callee, args, dest } => dest < nvars && ids_below(args, nvars as int),
        StmtView::BoxValue { input, dest } => input < nvars && dest < nvars,
        StmtView::UnboxValue { input, dest } => input < nvars && dest < nvars,
    }
}

/// Structural well-formedness of a terminator within a body: targets lie in
/// the block pool, jump arguments match the target's parameters, and match
/// dispatch is over parameterless arms.
pub open spec fn term_wf(t: TermView, v: BodyView) -> bool {
    let nvars = v.variables.len();
    match t {
        TermView::Goto { target, args } => target < v.blocks.len() && args.len()
            == v.blocks[target as int].params.len() && ids_below(args, nvars as int),
        TermView::MatchEnum { discriminant, arms } => discriminant < nvars && arms.len() > 0
            && arms_wf(arms, v),
        TermView::Return { var } => var < nvars,
        TermView::Unreachable => true,
    }
}

/// Structural well-formedness of one block within a body.
pub open spec fn block_wf(b: BlockView, v: BodyView) -> bool {
    &&& ids_below(b.params, v.variables.len() as int)
    &&& forall|i: int|
        0 <= i < b.statements.len() ==> stmt_wf(#[trigger] b.statements[i], v.variables.len())
    &&& term_wf(b.terminator, v)
}

/// Structural well-formedness of a body: the entry block exists and every
/// block refers only to existing variables and blocks, with matching jump
/// arities. This is the graph precondition every optimization phase checks
/// before rewriting.
pub open spec fn body_wf(v: BodyView) -> bool {
    &&& v.entry < v.blocks.len()
    &&& forall|i: int| 0 <= i < v.blocks.len() ==> block_wf(#[trigger] v.blocks[i], v)
}

/// Checks that every id in a list lies below a bound.
fn check_ids_below(ids: &Vec<usize>, bound: usize) -> (r: bool)
    ensures
        r == ids_below(ids@, bound as int),
{
    let mut i: usize = 0;
    while i < ids.len()
        invariant
            i <= ids.len(),
            forall|j: int| 0 <= j < i ==> ids@[j] < bound,
        decreases ids.len() - i,
    {
        if ids[i] >= bound {
            assert(!ids_below(ids@, bound as int));
            return false;
        }
        i += 1;
    }
    assert(ids_below(ids@, bound as int));
    true
}

/// Checks structural well-formedness of one statement.
fn check_stmt_wf(s: &Statement, nvars: usize) -> (r: bool)
    ensures
        r == stmt_wf(s@, nvars as nat),
{
    match s {
        Statement::Literal { dest, value } => *dest < nvars && *value < FIELD_MODULUS,
        Statement::BinaryOp { op, lhs, rhs, dest } => *lhs < nvars && *rhs < nvars && *dest
            < nvars,
        Statement::Call { callee, args, dest } => *dest < nvars && check_ids_below(args, nvars),
        Statement::BoxValue { input, dest } => *input < nvars && *dest < nvars,
        Statement::UnboxValue { input, dest } => *input < nvars && *dest < nvars,
    }
}

impl LoweredBody {
    /// Allocates a fresh variable slot of the given type and returns its
    /// stable id; the graph itself is untouched.
    pub fn allocate_variable(&mut self, ty: VarType) -> (id: VarId)
        requires
            old(self)@.variables.len() < usize::MAX,
        ensures
            id == old(self)@.variables.len(),
            final(self)@.variables == old(self)@.variables.push(
                Variable { ty, box_candidate: false, is_boxed: false },
            ),
            final(self)@.blocks == old(self)@.blocks,
            final(self)@.entry == old(self)@.entry,
    {
        let id = self.variables.len();
        self.variables.push(Variable { ty, box_candidate: false, is_boxed: false });
        id
    }

    /// Reads a block by its stable id.
    pub fn get_block(&self, id: BlockId) -> (b: &Block)
        requires
            id < self@.blocks.len(),
        ensures
            b@ == self@.blocks[id as int],
    {
        broadcast use group_ir_views;

        proof {
            lemma_block_views_index(self.blocks@, id as int);
        }
        &self.blocks[id]
    }

    /// Replaces the block stored under a stable id; every other block and
    /// every variable keeps its id.
    pub fn replace_block(&mut self, id: BlockId, b: Block)
        requires
            id < old(self)@.blocks.len(),
        ensures
            final(self)@.blocks == old(self)@.blocks.update(id as int, b@),
            final(self)@.variables == old(self)@.variables,
            final(self)@.entry == old(self)@.entry,
    {
        broadcast use group_ir_views;

        proof {
            lemma_block_views_len(self.blocks@);
        }
        self.blocks.set(id, b);
        proof {
            let ghost nb = self.blocks@;
            let ghost ob = old(self).blocks@;
            assert forall|j: int| 0 <= j < nb.len() implies #[trigger] block_views(nb)[j]
                == block_views(ob).update(id as int, b@)[j] by {
                lemma_block_views_index(nb, j);
                lemma_block_views_index(ob, j);
            }
            lemma_block_views_len(nb);
            lemma_block_views_len(ob);
            assert(block_views(nb) =~= block_views(ob).update(id as int, b@));
        }
    }

    /// Checks structural well-formedness of a terminator against this body.
    fn check_term_wf(&self, t: &Terminator) -> (r: bool)
        ensures
            r == term_wf(t@, self@),
    {
        broadcast use group_ir_views;

        let nvars = self.variables.len();
        match t {
            Terminator::Goto { target, args } => *target < self.blocks.len() && args.len()
                == self.get_block(*target).params.len() && check_ids_below(args, nvars),
            Terminator::MatchEnum { discriminant, arms } => {
                if *discriminant >= nvars || arms.len() == 0 {
                    assert(!term_wf(t@, self@));
                    false
                } else {
                    let mut k: usize = 0;
                    loop
                        invariant
                            k <= arms.len(),
                            nvars == self@.variables.len(),
                            self.blocks.len() == self@.blocks.len(),
                            *discriminant < nvars,
                            arms.len() > 0,
                            t@ == (TermView::MatchEnum {
                                discriminant: *discriminant,
                                arms: arms@,
                            }),
                            forall|m: int|
                                0 <= m < k ==> #[trigger] arms@[m] < self@.blocks.len()
                                    && self@.blocks[arms@[m] as int].params.len() == 0,
                        decreases arms.len() - k,
                    {
                        if k == arms.len() {
                            assert(arms_wf(arms@, self@));
                            assert(term_wf(t@, self@));
                            return true;
                        }
                        if arms[k] >= self.blocks.len() {
                            assert(!arms_wf(arms@, self@));
                            return false;
                        }
                        if self.get_block(arms[k]).params.len() != 0 {
                            assert(!arms_wf(arms@, self@));
                            return false;
                        }
                        k += 1;
                    }
                }
            },
            Terminator::Return { var } => *var < nvars,
            Terminator::Unreachable => true,
        }
    }

    /// Checks structural well-formedness of the block stored at an id.
    fn check_block_wf(&self, i: usize) -> (r: bool)
        requires
            i < self@.blocks.len(),
        ensures
            r == block_wf(self@.blocks[i as int], self@),
    {
        broadcast use group_ir_views;

        let b = self.get_block(i);
        let nvars = self.variables.len();
        if !check_ids_below(&b.params, nvars) {
            return false;
        }
        let mut j: usize = 0;
        while j < b.statements.len()
            invariant
                j <= b.statements.len(),
                nvars == self@.variables.len(),
                b@ == self@.blocks[i as int],
                forall|k: int|
                    0 <= k < j ==> stmt_wf(#[trigger] b@.statements[k], nvars as nat),
            decreases b.statements.len() - j,
        {
            proof {
                lemma_stmt_views_index(b.statements@, j as int);
            }
            if !check_stmt_wf(&b.statements[j], nvars) {
                assert(!stmt_wf(b@.statements[j as int], nvars as nat));
                return false;
            }
            j += 1;
        }
        proof {
            lemma_stmt_views_len(b.statements@);
        }
        self.check_term_wf(&b.terminator)
    }

    /// Checks the structural graph precondition of the optimization phases.
    pub fn check_wf(&self) -> (r: bool)
        ensures
            r == body_wf(self@),
    {
        broadcast use group_ir_views;

        if self.entry >= self.blocks.len() {
            proof {
                lemma_block_views_len(self.blocks@);
            }
            return false;
        }
        proof {
            lemma_block_views_len(self.blocks@);
        }
        let mut i: usize = 0;
        while i < self.blocks.len()
            invariant
                i <= self.blocks.len(),
                self.entry < self.blocks.len(),
                self@.blocks.len() == self.blocks.len(),
                forall|j: int| 0 <= j < i ==> block_wf(#[trigger] self@.blocks[j], self@),
            decreases self.blocks.len() - i,
        {
            if !self.check_block_wf(i) {
                return false;
            }
            i += 1;
        }
        true
    }
}

} // verus!
