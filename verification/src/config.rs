//! Optimization configuration: compiler flags resolved into a concrete,
//! immutable recipe.
//!
//! A recipe snapshots which passes run and with what parameters at the
//! moment a query begins; two recipes are equal exactly when all their
//! fields are equal, and that value equality is the cache's fingerprint.

use vstd::prelude::*;

use crate::diag::ConfigurationConflict;
use crate::ir::FunctionId;

verus! {

/// Which callees the inlining pass may splice.
#[derive(Debug)]
pub enum InliningStrategy {
    /// Inline any movable callee the size heuristic accepts.
    Default,
    /// Inline nothing.
    Never,
    /// Avoid inlining except for the functions on this allow-list.
    Avoid(Vec<FunctionId>),
}

/// Mathematical model of an inlining strategy.
#[verifier::ext_equal]
pub enum InliningStrategyView {
    /// See [`InliningStrategy::Default`].
    Default,
    /// See [`InliningStrategy::Never`].
    Never,
    /// See [`InliningStrategy::Avoid`].
    Avoid(Seq<FunctionId>),
}

impl View for InliningStrategy {
    type V = InliningStrategyView;

    open spec fn view(&self) -> InliningStrategyView {
        match self {
            InliningStrategy::Default => InliningStrategyView::Default,
            InliningStrategy::Never => InliningStrategyView::Never,
            InliningStrategy::Avoid(list) => InliningStrategyView::Avoid(list@),
        }
    }
}

impl Clone for InliningStrategy {
    /// Clones preserve the strategy's model exactly.
    fn clone(&self) -> (r: Self)
        ensures
            r@ == self@,
    {
        match self {
            InliningStrategy::Default => InliningStrategy::Default,
            InliningStrategy::Never => InliningStrategy::Never,
            InliningStrategy::Avoid(list) => InliningStrategy::Avoid(crate::ir::clone_ids(list)),
        }
    }
}

/// The optimization settings stored in the configuration store.
#[derive(Debug)]
pub struct Optimizations {
    /// Which callees may be inlined.
    pub inlining: InliningStrategy,
    /// Whether the constant-folding phase runs.
    pub const_folding: bool,
    /// Whether candidate locals are represented as heap boxes.
    pub local_into_box: bool,
    /// The functions eligible for inlining at all.
    pub movable_functions: Vec<FunctionId>,
}

/// Mathematical model of the optimization settings; a resolved recipe has
/// the same shape.
#[verifier::ext_equal]
pub struct RecipeView {
    /// See [`Optimizations::inlining`].
    pub inlining: InliningStrategyView,
    /// See [`Optimizations::const_folding`].
    pub const_folding: bool,
    /// See [`Optimizations::local_into_box`].
    pub local_into_box: bool,
    /// See [`Optimizations::movable_functions`].
    pub movable_functions: Seq<FunctionId>,
}

impl View for Optimizations {
    type V = RecipeView;

    open spec fn view(&self) -> RecipeView {
        RecipeView {
            inlining: self.inlining@,
            const_folding: self.const_folding,
            local_into_box: self.local_into_box,
            movable_functions: self.movable_functions@,
        }
    }
}

impl Clone for Optimizations {
    /// Clones preserve the settings' model exactly.
    fn clone(&self) -> (r: Self)
        ensures
            r@ == self@,
    {
        Optimizations {
            inlining: self.inlining.clone(),
            const_folding: self.const_folding,
            local_into_box: self.local_into_box,
            movable_functions: crate::ir::clone_ids(&self.movable_functions),
        }
    }
}

impl Optimizations {
    /// The settings a freshly configured store starts from: constant
    /// folding on, local-into-box off, the given inlining strategy, and no
    /// movable functions declared yet.
    pub fn enabled_with_default_movable_functions(strategy: InliningStrategy) -> (r: Self)
        ensures
            r@.inlining == strategy@,
            r@.const_folding == true,
            r@.local_into_box == false,
            r@.movable_functions == Seq::<FunctionId>::empty(),
    {
        let r = Optimizations {
            inlining: strategy,
            const_folding: true,
            local_into_box: false,
            movable_functions: Vec::new(),
        };
        assert(r@.movable_functions =~= Seq::<FunctionId>::empty());
        r
    }

    /// The same settings with the local-into-box axis switched.
    pub fn with_local_into_box(self, enable: bool) -> (r: Self)
        ensures
            r@ == (RecipeView { local_into_box: enable, ..self@ }),
    {
        Optimizations {
            inlining: self.inlining,
            const_folding: self.const_folding,
            local_into_box: enable,
            movable_functions: self.movable_functions,
        }
    }

    /// The same settings with the movable-function set replaced.
    pub fn with_movable_functions(self, funcs: Vec<FunctionId>) -> (r: Self)
        ensures
            r@ == (RecipeView { movable_functions: funcs@, ..self@ }),
    {
        Optimizations {
            inlining: self.inlining,
            const_folding: self.const_folding,
            local_into_box: self.local_into_box,
            movable_functions: funcs,
        }
    }
}

/// An immutable snapshot of the settings a query runs under; its value is
/// the cache fingerprint.
pub type Recipe = Optimizations;

/// Whether a list of ids contains an id.
pub open spec fn id_list_contains(s: Seq<FunctionId>, x: FunctionId) -> bool {
    exists|i: int| 0 <= i < s.len() && s[i] == x
}

/// Whether a list of ids contains an id.
pub fn id_list_contains_exec(s: &Vec<FunctionId>, x: FunctionId) -> (r: bool)
    ensures
        r == id_list_contains(s@, x),
{
    let mut i: usize = 0;
    while i < s.len()
        invariant
            i <= s.len(),
            forall|j: int| 0 <= j < i ==> s@[j] != x,
        decreases s.len() - i,
    {
        if s[i] == x {
            assert(id_list_contains(s@, x));
            return true;
        }
        i += 1;
    }
    false
}

/// The first allow-listed function that is not movable, if any.
pub open spec fn first_unmovable(list: Seq<FunctionId>, movable: Seq<FunctionId>) -> Option<
    FunctionId,
>
    decreases list.len(),
{
    if list.len() == 0 {
        None
    } else if !id_list_contains(movable, list[0]) {
        Some(list[0])
    } else {
        first_unmovable(list.drop_first(), movable)
    }
}

/// The settings a store without any stored [`Optimizations`] resolves to.
pub open spec fn default_recipe() -> RecipeView {
    RecipeView {
        inlining: InliningStrategyView::Default,
        const_folding: true,
        local_into_box: false,
        movable_functions: Seq::empty(),
    }
}

/// Resolution of the stored settings and the local-into-box flag into a
/// recipe: the flag, when set, overrides the stored local-into-box axis; an
/// allow-list naming a non-movable function is a configuration conflict.
pub open spec fn spec_resolve_recipe(opts: Option<RecipeView>, flag: Option<bool>) -> Result<
    RecipeView,
    ConfigurationConflict,
> {
    let base = match opts {
        Some(o) => o,
        None => default_recipe(),
    };
    let resolved = RecipeView {
        local_into_box: match flag {
            Some(b) => b,
            None => base.local_into_box,
        },
        ..base
    };
    match base.inlining {
        InliningStrategyView::Avoid(list) => match first_unmovable(
            list,
            base.movable_functions,
        ) {
            Some(f) => Err(ConfigurationConflict { function: f }),
            None => Ok(resolved),
        },
        _ => Ok(resolved),
    }
}

/// Resolves the stored settings and flag into a recipe, or reports the
/// conflict; see [`spec_resolve_recipe`].
pub fn resolve_recipe(opts: &Option<Optimizations>, flag: Option<bool>) -> (r: Result<
    Recipe,
    ConfigurationConflict,
>)
    ensures
        match r {
            Ok(rec) => spec_resolve_recipe(
                match opts {
                    Some(o) => Some(o@),
                    None => None,
                },
                flag,
            ) == Ok::<RecipeView, ConfigurationConflict>(rec@),
            Err(e) => spec_resolve_recipe(
                match opts {
                    Some(o) => Some(o@),
                    None => None,
                },
                flag,
            ) == Err::<RecipeView, ConfigurationConflict>(e),
        },
{
    let base = match opts {
        Some(o) => o.clone(),
        None => {
            let b = Optimizations {
                inlining: InliningStrategy::Default,
                const_folding: true,
                local_into_box: false,
                movable_functions: Vec::new(),
            };
            assert(b@ =~= default_recipe());
            b
        },
    };
    let ghost base_view = base@;
    match &base.inlining {
        InliningStrategy::Avoid(list) => {
            let mut i: usize = 0;
            assert(list@.skip(0) =~= list@);
            while i < list.len()
                invariant
                    i <= list.len(),
                    base@ == base_view,
                    base@ == (match opts {
                        Some(o) => o@,
                        None => default_recipe(),
                    }),
                    base@.inlining == (InliningStrategyView::Avoid(list@)),
                    first_unmovable(list@, base@.movable_functions) == first_unmovable(
                        list@.skip(i as int),
                        base@.movable_functions,
                    ),
                decreases list.len() - i,
            {
                if !id_list_contains_exec(&base.movable_functions, list[i]) {
                    proof {
                        assert(list@.skip(i as int)[0] == list@[i as int]);
                        assert(first_unmovable(list@.skip(i as int), base@.movable_functions)
                            == Some(list@[i as int]));
                    }
                    return Err(ConfigurationConflict { function: list[i] });
                }
                i += 1;
                proof {
                    assert(list@.skip(i - 1)[0] == list@[i - 1]);
                    assert(list@.skip(i - 1).drop_first() =~= list@.skip(i as int));
                }
            }
            proof {
                assert(list@.skip(list@.len() as int) =~= Seq::<FunctionId>::empty());
            }
            let lb: bool = match flag {
                Some(b) => b,
                None => base.local_into_box,
            };
            let r = base.with_local_into_box(lb);
            Ok(r)
        },
        _ => {
            let lb: bool = match flag {
                Some(b) => b,
                None => base.local_into_box,
            };
            let r = base.with_local_into_box(lb);
            Ok(r)
        },
    }
}

/// Whether two id lists are equal element for element.
pub fn id_list_eq(a: &Vec<FunctionId>, b: &Vec<FunctionId>) -> (r: bool)
    ensures
        r == (a@ == b@),
{
    if a.len() != b.len() {
        return false;
    }
    let mut i: usize = 0;
    while i < a.len()
        invariant
            i <= a.len(),
            a@.len() == b@.len(),
            forall|j: int| 0 <= j < i ==> a@[j] == b@[j],
        decreases a.len() - i,
    {
        if a[i] != b[i] {
            return false;
        }
        i += 1;
    }
    assert(a@ =~= b@);
    true
}

impl Optimizations {
    /// Value equality of two recipes: the cache fingerprint comparison.
    /// Two recipes are equal exactly when all their fields are.
    pub fn recipe_eq(&self, other: &Self) -> (r: bool)
        ensures
            r == (self@ == other@),
    {
        let strat_eq: bool = match (&self.inlining, &other.inlining) {
            (InliningStrategy::Default, InliningStrategy::Default) => true,
            (InliningStrategy::Never, InliningStrategy::Never) => true,
            (InliningStrategy::Avoid(a), InliningStrategy::Avoid(b)) => id_list_eq(a, b),
            _ => false,
        };
        if !strat_eq {
            assert(self@.inlining != other@.inlining);
            return false;
        }
        assert(self@.inlining == other@.inlining);
        let r = self.const_folding == other.const_folding && self.local_into_box
            == other.local_into_box && id_list_eq(&self.movable_functions, &other.movable_functions);
        assert(r == (self@ =~= other@));
        r
    }
}

} // verus!
