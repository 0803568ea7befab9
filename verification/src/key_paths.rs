//! The paths of a tree's nodes as keys and indices, in depth-first
//! pre-order.
use crate::ast::CustomNode;
use vstd::prelude::*;

verus! {

/// One step of a path: a mapping key or a sequence index.
#[derive(Debug, PartialEq, Eq)]
pub enum PathStep {
    Key(String),
    Index(usize),
}

/// The value of a step.
pub enum StepView {
    Key(Seq<char>),
    Index(int),
}

pub open spec fn step_view(s: PathStep) -> StepView {
    match s {
        PathStep::Key(k) => StepView::Key(k@),
        PathStep::Index(i) => StepView::Index(i as int),
    }
}

/// The value of a path.
pub open spec fn steps_view(p: Seq<PathStep>) -> Seq<StepView> {
    p.map_values(|s: PathStep| step_view(s))
}

/// The values of a list of paths.
pub open spec fn paths_view(ps: Seq<Vec<PathStep>>) -> Seq<Seq<StepView>> {
    ps.map_values(|p: Vec<PathStep>| steps_view(p@))
}

/// Whether a node gets a path of its own: every node, or with
/// `leaves_only` just scalars and nulls.
pub open spec fn listed(n: CustomNode, leaves_only: bool) -> bool {
    !leaves_only || n is Scalar || n is Null
}

/// The paths of the nodes of `n`, reached by `prefix`, in pre-order: the
/// node itself (when listed), then the values of a mapping under their keys
/// (pairs whose key is not a scalar are skipped), or the items of a sequence
/// under their indices.
pub open spec fn key_paths(n: CustomNode, prefix: Seq<StepView>, leaves_only: bool) -> Seq<Seq<StepView>>
    decreases n, 0int, 0int,
{
    let me = if listed(n, leaves_only) {
        seq![prefix]
    } else {
        Seq::empty()
    };
    match n {
        CustomNode::Mapping { pairs, .. } => me + pair_paths(pairs@, 0, prefix, leaves_only),
        CustomNode::Sequence { items, .. } => me + item_paths(items@, 0, prefix, leaves_only),
        _ => me,
    }
}

/// The paths under the pairs of `ps` from index `i` on.
pub open spec fn pair_paths(
    ps: Seq<(CustomNode, CustomNode)>,
    i: int,
    prefix: Seq<StepView>,
    leaves_only: bool,
) -> Seq<Seq<StepView>>
    decreases ps, ps.len() - i, 0int,
{
    if i < 0 || i >= ps.len() {
        Seq::empty()
    } else {
        match ps[i].0 {
            CustomNode::Scalar { value, .. } => key_paths(
                ps[i].1,
                prefix.push(StepView::Key(value@)),
                leaves_only,
            ) + pair_paths(ps, i + 1, prefix, leaves_only),
            _ => pair_paths(ps, i + 1, prefix, leaves_only),
        }
    }
}

/// The paths under the items of `xs` from index `i` on.
pub open spec fn item_paths(xs: Seq<CustomNode>, i: int, prefix: Seq<StepView>, leaves_only: bool) -> Seq<
    Seq<StepView>,
>
    decreases xs, xs.len() - i, 0int,
{
    if i < 0 || i >= xs.len() {
        Seq::empty()
    } else {
        key_paths(xs[i], prefix.push(StepView::Index(i)), leaves_only) + item_paths(
            xs,
            i + 1,
            prefix,
            leaves_only,
        )
    }
}

/// A copy of a path.
fn copy_path(p: &Vec<PathStep>) -> (res: Vec<PathStep>)
    ensures
        steps_view(res@) == steps_view(p@),
{
    let mut out: Vec<PathStep> = Vec::new();
    let mut i: usize = 0;
    while i < p.len()
        invariant
            0 <= i <= p@.len(),
            steps_view(out@) == steps_view(p@.take(i as int)),
        decreases p@.len() - i,
    {
        let s = match &p[i] {
            PathStep::Key(k) => PathStep::Key(k.clone()),
            PathStep::Index(j) => PathStep::Index(*j),
        };
        let ghost before = out@;
        out.push(s);
        assert(steps_view(out@) =~= steps_view(before).push(step_view(s)));
        assert(steps_view(p@.take(i + 1)) =~= steps_view(p@.take(i as int)).push(step_view(p@[i as int])));
        i = i + 1;
    }
    assert(p@.take(p@.len() as int) =~= p@);
    out
}

/// Append the paths of the pre-order of `node`, reached by `path`, to `out`.
fn collect_paths(node: &CustomNode, leaves_only: bool, path: &mut Vec<PathStep>, out: &mut Vec<Vec<PathStep>>)
    ensures
        final(path)@ == old(path)@,
        paths_view(final(out)@) == paths_view(old(out)@) + key_paths(*node, steps_view(old(path)@), leaves_only),
    decreases node, 0int, 0int,
{
    let ghost pre = steps_view(path@);
    let ghost out0 = paths_view(out@);
    let ghost path0 = path@;
    let is_listed = match node {
        CustomNode::Scalar { .. } => true,
        CustomNode::Null { .. } => true,
        _ => !leaves_only,
    };
    let ghost me: Seq<Seq<StepView>> = if is_listed {
        seq![pre]
    } else {
        Seq::empty()
    };
    if is_listed {
        let p = copy_path(path);
        let ghost before = out@;
        out.push(p);
        assert(paths_view(out@) =~= paths_view(before).push(steps_view(p@)));
    }
    assert(paths_view(out@) =~= out0 + me);
    let ghost mut done: Seq<Seq<StepView>> = me;
    match node {
        CustomNode::Mapping { pairs, .. } => {
            let mut i: usize = 0;
            while i < pairs.len()
                invariant
                    0 <= i <= pairs@.len(),
                    *node matches CustomNode::Mapping { pairs: p, .. } && p == *pairs,
                    key_paths(*node, pre, leaves_only) == done + pair_paths(pairs@, i as int, pre, leaves_only),
                    paths_view(out@) == out0 + done,
                    path@ == path0,
                    steps_view(path0) == pre,
                decreases pairs@.len() - i,
            {
                match &pairs[i].0 {
                    CustomNode::Scalar { value, .. } => {
                        let step = PathStep::Key(value.clone());
                        path.push(step);
                        assert(steps_view(path@) =~= pre.push(StepView::Key(value@)));
                        let ghost before = paths_view(out@);
                        collect_paths(&pairs[i].1, leaves_only, path, out);
                        let _ = path.pop();
                        assert(path@ =~= path0);
                        proof {
                            let sub = key_paths(pairs@[i as int].1, pre.push(StepView::Key(value@)), leaves_only);
                            assert(done + (sub + pair_paths(pairs@, i + 1, pre, leaves_only)) =~= (done + sub)
                                + pair_paths(pairs@, i + 1, pre, leaves_only));
                            assert(out0 + done + sub =~= out0 + (done + sub));
                            done = done + sub;
                        }
                    },
                    _ => {},
                }
                i = i + 1;
            }
            assert(done + Seq::<Seq<StepView>>::empty() =~= done);
        },
        CustomNode::Sequence { items, .. } => {
            let mut i: usize = 0;
            while i < items.len()
                invariant
                    0 <= i <= items@.len(),
                    *node matches CustomNode::Sequence { items: p, .. } && p == *items,
                    key_paths(*node, pre, leaves_only) == done + item_paths(items@, i as int, pre, leaves_only),
                    paths_view(out@) == out0 + done,
                    path@ == path0,
                    steps_view(path0) == pre,
                decreases items@.len() - i,
            {
                path.push(PathStep::Index(i));
                assert(steps_view(path@) =~= pre.push(StepView::Index(i as int)));
                collect_paths(&items[i], leaves_only, path, out);
                let _ = path.pop();
                assert(path@ =~= path0);
                proof {
                    let sub = key_paths(items@[i as int], pre.push(StepView::Index(i as int)), leaves_only);
                    assert(done + (sub + item_paths(items@, i + 1, pre, leaves_only)) =~= (done + sub)
                        + item_paths(items@, i + 1, pre, leaves_only));
                    assert(out0 + done + sub =~= out0 + (done + sub));
                    done = done + sub;
                }
                i = i + 1;
            }
            assert(done + Seq::<Seq<StepView>>::empty() =~= done);
        },
        _ => {},
    }
}

/// The path of every node of the tree, as keys and indices from the root,
/// in depth-first pre-order; the root's path is empty.
pub fn node_paths(node: &CustomNode) -> (res: Vec<Vec<PathStep>>)
    ensures
        paths_view(res@) == key_paths(*node, Seq::empty(), false),
{
    let mut path: Vec<PathStep> = Vec::new();
    let mut out: Vec<Vec<PathStep>> = Vec::new();
    collect_paths(node, false, &mut path, &mut out);
    assert(steps_view(Seq::<PathStep>::empty()) =~= Seq::<StepView>::empty());
    assert(paths_view(Seq::<Vec<PathStep>>::empty()) =~= Seq::<Seq<StepView>>::empty());
    assert(Seq::<Seq<StepView>>::empty() + key_paths(*node, Seq::empty(), false) =~= key_paths(
        *node,
        Seq::empty(),
        false,
    ));
    out
}

/// The paths of the scalar and null nodes of the tree, as keys and indices
/// from the root, in depth-first pre-order.
pub fn scalar_paths(node: &CustomNode) -> (res: Vec<Vec<PathStep>>)
    ensures
        paths_view(res@) == key_paths(*node, Seq::empty(), true),
{
    let mut path: Vec<PathStep> = Vec::new();
    let mut out: Vec<Vec<PathStep>> = Vec::new();
    collect_paths(node, true, &mut path, &mut out);
    assert(steps_view(Seq::<PathStep>::empty()) =~= Seq::<StepView>::empty());
    assert(paths_view(Seq::<Vec<PathStep>>::empty()) =~= Seq::<Seq<StepView>>::empty());
    assert(Seq::<Seq<StepView>>::empty() + key_paths(*node, Seq::empty(), true) =~= key_paths(
        *node,
        Seq::empty(),
        true,
    ));
    out
}

} // verus!
