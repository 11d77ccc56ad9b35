//! Choosing among the errors of alternatives that all failed.
//!
//! Each alternative is a branch with the errors it met. The branch whose
//! errors reach furthest into the source is taken to be the one that was
//! meant; the errors of the others are kept and marked as unlikely.
use vstd::prelude::*;
use crate::result::{error_views, ParseError, ParseErrorView};

verus! {

/// The order of positions: by line, then by column.
pub open spec fn pos_before(a: (nat, nat), b: (nat, nat)) -> bool {
    a.0 < b.0 || (a.0 == b.0 && a.1 < b.1)
}

/// The later of two positions.
pub open spec fn pos_later(a: (nat, nat), b: (nat, nat)) -> (nat, nat) {
    if pos_before(a, b) {
        b
    } else {
        a
    }
}

/// How far a branch got: the latest position among its errors, `(0, 0)` if
/// it has none.
pub open spec fn branch_depth(errors: Seq<ParseErrorView>) -> (nat, nat)
    decreases errors.len(),
{
    if errors.len() == 0 {
        (0, 0)
    } else {
        pos_later(branch_depth(errors.drop_last()), errors.last().pos())
    }
}

/// How far the branch that got furthest got.
pub open spec fn deepest(branches: Seq<Seq<ParseErrorView>>) -> (nat, nat)
    decreases branches.len(),
{
    if branches.len() == 0 {
        (0, 0)
    } else {
        pos_later(deepest(branches.drop_last()), branch_depth(branches.last()))
    }
}

/// The same errors, each marked as unlikely.
pub open spec fn marked_unlikely(errors: Seq<ParseErrorView>) -> Seq<ParseErrorView> {
    errors.map_values(|e: ParseErrorView| ParseErrorView { unlikely: true, ..e })
}

/// All errors of all branches in order, those of a branch that did not get
/// as far as `depth` marked as unlikely.
pub open spec fn flatten_at(
    branches: Seq<Seq<ParseErrorView>>,
    depth: (nat, nat),
) -> Seq<ParseErrorView>
    decreases branches.len(),
{
    if branches.len() == 0 {
        Seq::empty()
    } else {
        flatten_at(branches.drop_last(), depth) + if branch_depth(branches.last()) == depth {
            branches.last()
        } else {
            marked_unlikely(branches.last())
        }
    }
}

/// All errors of all branches in order, those of every branch but the
/// deepest ones marked as unlikely.
pub open spec fn flatten_branched(branches: Seq<Seq<ParseErrorView>>) -> Seq<ParseErrorView> {
    flatten_at(branches, deepest(branches))
}

/// The values of the errors of each branch.
pub open spec fn branch_views(branches: Seq<Vec<ParseError>>) -> Seq<Seq<ParseErrorView>> {
    branches.map_values(|b: Vec<ParseError>| error_views(b@))
}

fn later(a: (usize, usize), b: (usize, usize)) -> (res: (usize, usize))
    ensures
        (res.0 as nat, res.1 as nat) == pos_later(
            (a.0 as nat, a.1 as nat),
            (b.0 as nat, b.1 as nat),
        ),
{
    if a.0 < b.0 || (a.0 == b.0 && a.1 < b.1) {
        b
    } else {
        a
    }
}

fn depth_of(errors: &Vec<ParseError>) -> (res: (usize, usize))
    ensures
        (res.0 as nat, res.1 as nat) == branch_depth(error_views(errors@)),
{
    let mut depth: (usize, usize) = (0, 0);
    let mut i: usize = 0;
    while i < errors.len()
        invariant
            i <= errors@.len(),
            (depth.0 as nat, depth.1 as nat) == branch_depth(error_views(errors@).take(i as int)),
        decreases errors.len() - i,
    {
        let pos = errors[i].pos();
        depth = later(depth, pos);
        i += 1;
        assert(error_views(errors@).take(i as int).drop_last() =~= error_views(errors@).take(
            i - 1,
        ));
    }
    assert(error_views(errors@).take(i as int) =~= error_views(errors@));
    depth
}

/// Merges the errors of alternatives that all failed into one list, in
/// order. The errors of every branch that did not get as far as the deepest
/// one are marked as unlikely; the others are left as they are.
pub fn flatten_branched_errors(errors: Vec<Vec<ParseError>>) -> (res: Vec<ParseError>)
    ensures
        error_views(res@) == flatten_branched(branch_views(errors@)),
{
    let ghost branches = branch_views(errors@);
    let mut deepest_pos: (usize, usize) = (0, 0);
    let mut i: usize = 0;
    while i < errors.len()
        invariant
            i <= errors@.len(),
            branches == branch_views(errors@),
            (deepest_pos.0 as nat, deepest_pos.1 as nat) == deepest(branches.take(i as int)),
        decreases errors.len() - i,
    {
        let depth = depth_of(&errors[i]);
        deepest_pos = later(deepest_pos, depth);
        i += 1;
        assert(branches.take(i as int).drop_last() =~= branches.take(i - 1));
    }
    assert(branches.take(i as int) =~= branches);
    let ghost depth = deepest(branches);
    let mut result_errors: Vec<ParseError> = Vec::new();
    let mut i: usize = 0;
    assert(error_views(result_errors@) =~= flatten_at(branches.take(0), depth));
    while i < errors.len()
        invariant
            i <= errors@.len(),
            branches == branch_views(errors@),
            depth == (deepest_pos.0 as nat, deepest_pos.1 as nat),
            error_views(result_errors@) == flatten_at(branches.take(i as int), depth),
        decreases errors.len() - i,
    {
        let errs = &errors[i];
        let here = depth_of(errs);
        let is_deepest = here.0 == deepest_pos.0 && here.1 == deepest_pos.1;
        let ghost before = error_views(result_errors@);
        let ghost branch = if is_deepest {
            error_views(errs@)
        } else {
            marked_unlikely(error_views(errs@))
        };
        let mut k: usize = 0;
        assert(error_views(result_errors@) =~= before + branch.take(0));
        while k < errs.len()
            invariant
                k <= errs@.len(),
                branch.len() == errs@.len(),
                branch == if is_deepest {
                    error_views(errs@)
                } else {
                    marked_unlikely(error_views(errs@))
                },
                error_views(result_errors@) == before + branch.take(k as int),
            decreases errs.len() - k,
        {
            let mut err = errs[k].clone();
            if !is_deepest {
                err.unlikely = true;
            }
            assert(error_views(errs@)[k as int] == errs@[k as int]@);
            assert(err@ == branch[k as int]);
            let ghost so_far = result_errors@;
            result_errors.push(err);
            k += 1;
            assert(error_views(result_errors@) =~= error_views(so_far).push(err@));
            assert(branch.take(k as int) =~= branch.take(k - 1).push(branch[k - 1]));
            assert(error_views(result_errors@) =~= before + branch.take(k as int));
        }
        i += 1;
        assert(branch.take(k as int) =~= branch);
        assert(branches.take(i as int).drop_last() =~= branches.take(i - 1));
    }
    assert(branches.take(i as int) =~= branches);
    result_errors
}

proof fn lemma_single_branch(branch: Seq<ParseErrorView>, depth: (nat, nat))
    ensures
        deepest(seq![branch]) == branch_depth(branch),
        flatten_at(seq![branch], depth) == if branch_depth(branch) == depth {
            branch
        } else {
            marked_unlikely(branch)
        },
{
    let none = Seq::<Seq<ParseErrorView>>::empty();
    assert(seq![branch].drop_last() =~= none);
    assert(deepest(none) == (0nat, 0nat));
    assert(flatten_at(none, depth) =~= Seq::<ParseErrorView>::empty());
    assert(seq![branch].last() == branch);
    assert(flatten_at(seq![branch], depth) =~= if branch_depth(branch) == depth {
        branch
    } else {
        marked_unlikely(branch)
    });
}

/// Of two branches, the one that got further keeps its errors as they are and
/// the other has all of its errors marked as unlikely.
pub proof fn lemma_deeper_branch_wins(deep: Seq<ParseErrorView>, shallow: Seq<ParseErrorView>)
    requires
        pos_before(branch_depth(shallow), branch_depth(deep)),
    ensures
        flatten_branched(seq![deep, shallow]) == deep + marked_unlikely(shallow),
        flatten_branched(seq![shallow, deep]) == marked_unlikely(shallow) + deep,
{
    let depth = branch_depth(deep);
    lemma_single_branch(deep, depth);
    lemma_single_branch(shallow, depth);
    let first = seq![deep, shallow];
    assert(first.drop_last() =~= seq![deep]);
    assert(first.last() == shallow);
    assert(deepest(first) == depth);
    assert(flatten_branched(first) =~= deep + marked_unlikely(shallow));
    let second = seq![shallow, deep];
    assert(second.drop_last() =~= seq![shallow]);
    assert(second.last() == deep);
    assert(deepest(second) == depth);
    assert(flatten_branched(second) =~= marked_unlikely(shallow) + deep);
}

/// Branches that got equally far all keep their errors as they are.
pub proof fn lemma_equal_branches_keep(first: Seq<ParseErrorView>, second: Seq<ParseErrorView>)
    requires
        branch_depth(first) == branch_depth(second),
    ensures
        flatten_branched(seq![first, second]) == first + second,
{
    let depth = branch_depth(first);
    lemma_single_branch(first, depth);
    let both = seq![first, second];
    assert(both.drop_last() =~= seq![first]);
    assert(both.last() == second);
    assert(deepest(both) == depth);
    assert(flatten_branched(both) =~= first + second);
}

} // verus!
