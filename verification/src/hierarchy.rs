//! The hierarchy resolver: a parent-to-children index over a process list,
//! and post-order expansion of a root PID into its full descendant set.

use std::collections::HashMap;
use vstd::prelude::*;

use crate::model::ProcessInfo;

verus! {

broadcast use vstd::std_specs::hash::group_hash_axioms, vstd::seq::group_seq_axioms, vstd::seq_lib::group_seq_lib_default;

/// The mathematical index a process list induces: each parent PID maps to the
/// PIDs of its direct children, in the list's relative order.
pub open spec fn child_map_spec(procs: Seq<ProcessInfo>) -> Map<i32, Seq<i32>>
    decreases procs.len(),
{
    if procs.len() == 0 {
        Map::empty()
    } else {
        let m = child_map_spec(procs.drop_last());
        let p = procs.last();
        match p.parent_pid {
            Some(pp) => m.insert(
                pp,
                (if m.dom().contains(pp) {
                    m[pp]
                } else {
                    Seq::empty()
                }).push(p.pid),
            ),
            None => m,
        }
    }
}

/// The index as mathematics: each stored child list replaced by its sequence.
pub open spec fn index_view(m: Map<i32, Vec<i32>>) -> Map<i32, Seq<i32>> {
    Map::new(|k: i32| m.dom().contains(k), |k: i32| m[k]@)
}

/// Builds the parent-to-children index in one pass, preserving the input's
/// relative order among siblings. Records without a parent contribute nothing.
pub fn build_child_map(processes: &Vec<ProcessInfo>) -> (r: HashMap<i32, Vec<i32>>)
    ensures
        index_view(r@) == child_map_spec(processes@),
{
    let mut child_map: HashMap<i32, Vec<i32>> = HashMap::new();
    proof {
        assert(index_view(child_map@) =~= child_map_spec(processes@.take(0)));
    }
    let mut i: usize = 0;
    while i < processes.len()
        invariant
            i <= processes@.len(),
            index_view(child_map@) == child_map_spec(processes@.take(i as int)),
        decreases processes@.len() - i,
    {
        proof {
            assert(processes@.take(i + 1).drop_last() =~= processes@.take(i as int));
            assert(processes@.take(i + 1).last() == processes@[i as int]);
        }
        if let Some(parent_pid) = processes[i].parent_pid {
            let pid = processes[i].pid;
            let mut children = match child_map.remove(&parent_pid) {
                Some(v) => v,
                None => Vec::new(),
            };
            children.push(pid);
            child_map.insert(parent_pid, children);
            proof {
                assert(index_view(child_map@) =~= child_map_spec(processes@.take(i + 1)));
            }
        } else {
            proof {
                assert(index_view(child_map@) =~= child_map_spec(processes@.take(i + 1)));
            }
        }
        i += 1;
    }
    proof {
        assert(processes@.take(processes@.len() as int) =~= processes@);
    }
    child_map
}

/// The descendants of `pid`, emitted in post-order: for each child, the
/// child's own subtree first, then the child itself. A PID absent from the
/// index expands to nothing. The fuel bounds the recursion depth; on a
/// genuine process forest a fuel of the index's size is never exhausted.
pub open spec fn descendants_of(m: Map<i32, Seq<i32>>, pid: i32, fuel: nat) -> Seq<i32>
    decreases fuel, 0nat, 0nat,
{
    if !m.dom().contains(pid) {
        Seq::empty()
    } else if fuel == 0 {
        Seq::empty()
    } else {
        descendants_of_list(m, m[pid], (fuel - 1) as nat)
    }
}

/// The concatenated post-order expansions of a list of children.
pub open spec fn descendants_of_list(m: Map<i32, Seq<i32>>, children: Seq<i32>, fuel: nat) -> Seq<
    i32,
>
    decreases fuel, 1nat, children.len(),
{
    if children.len() == 0 {
        Seq::empty()
    } else {
        descendants_of(m, children[0], fuel) + seq![children[0]] + descendants_of_list(
            m,
            children.skip(1),
            fuel,
        )
    }
}

proof fn lemma_descendants_of_list_push(m: Map<i32, Seq<i32>>, children: Seq<i32>, x: i32, fuel: nat)
    ensures
        descendants_of_list(m, children.push(x), fuel) == descendants_of_list(m, children, fuel)
            + descendants_of(m, x, fuel) + seq![x],
    decreases children.len(),
{
    let cp = children.push(x);
    if children.len() == 0 {
        assert(cp[0] == x);
        assert(cp.skip(1) =~= Seq::<i32>::empty());
        assert(descendants_of_list(m, cp.skip(1), fuel) =~= Seq::<i32>::empty());
        assert(descendants_of_list(m, cp, fuel) == descendants_of(m, x, fuel) + seq![x]
            + descendants_of_list(m, cp.skip(1), fuel));
        assert(descendants_of_list(m, children, fuel) =~= Seq::<i32>::empty());
        assert(descendants_of_list(m, cp, fuel) =~= descendants_of_list(m, children, fuel)
            + descendants_of(m, x, fuel) + seq![x]);
    } else {
        assert(cp.skip(1) =~= children.skip(1).push(x));
        assert(cp[0] == children[0]);
        lemma_descendants_of_list_push(m, children.skip(1), x, fuel);
        assert(descendants_of_list(m, cp, fuel) == descendants_of(m, children[0], fuel)
            + seq![children[0]] + descendants_of_list(m, cp.skip(1), fuel));
        assert(descendants_of_list(m, children, fuel) == descendants_of(m, children[0], fuel)
            + seq![children[0]] + descendants_of_list(m, children.skip(1), fuel));
        assert(descendants_of_list(m, cp, fuel) =~= descendants_of_list(m, children, fuel)
            + descendants_of(m, x, fuel) + seq![x]);
    }
}

fn descend(child_map: &HashMap<i32, Vec<i32>>, pid: i32, out: &mut Vec<i32>, fuel: usize)
    ensures
        final(out)@ == old(out)@ + descendants_of(index_view(child_map@), pid, fuel as nat),
    decreases fuel,
{
    let ghost m = index_view(child_map@);
    match child_map.get(&pid) {
        None => {
            proof {
                assert(!m.dom().contains(pid));
                assert(out@ =~= old(out)@ + descendants_of(m, pid, fuel as nat));
            }
        },
        Some(children) => {
            proof {
                assert(m.dom().contains(pid) && m[pid] == children@);
            }
            if fuel == 0 {
                proof {
                    assert(out@ =~= old(out)@ + descendants_of(m, pid, fuel as nat));
                }
            } else {
                let ghost sub_fuel = (fuel - 1) as nat;
                proof {
                    assert(out@ =~= old(out)@ + descendants_of_list(
                        m,
                        children@.take(0),
                        sub_fuel,
                    ));
                }
                let mut j: usize = 0;
                while j < children.len()
                    invariant
                        j <= children@.len(),
                        fuel >= 1,
                        sub_fuel == (fuel - 1) as nat,
                        child_map@.dom().contains(pid) && child_map@[pid]@ == children@,
                        m == index_view(child_map@),
                        out@ == old(out)@ + descendants_of_list(m, children@.take(j as int), sub_fuel),
                    decreases children@.len() - j,
                {
                    let child = children[j];
                    descend(child_map, child, out, fuel - 1);
                    out.push(child);
                    proof {
                        assert(children@.take(j + 1) =~= children@.take(j as int).push(child));
                        lemma_descendants_of_list_push(m, children@.take(j as int), child, sub_fuel);
                        assert(out@ =~= old(out)@ + descendants_of_list(
                            m,
                            children@.take(j + 1),
                            sub_fuel,
                        ));
                    }
                    j += 1;
                }
                proof {
                    assert(children@.take(children@.len() as int) =~= children@);
                    assert(descendants_of(m, pid, fuel as nat) == descendants_of_list(
                        m,
                        children@,
                        sub_fuel,
                    ));
                }
            }
        },
    }
}

/// Appends to `out` the full descendant set of `root_pid`, in post-order:
/// every child's subtree is emitted before the child itself, so the deepest
/// leaves come first and the root's direct children last. The root itself is
/// not appended. A root absent from the index appends nothing.
pub fn collect_descendants(root_pid: i32, child_map: &HashMap<i32, Vec<i32>>, out: &mut Vec<i32>)
    ensures
        final(out)@ == old(out)@ + descendants_of(
            index_view(child_map@),
            root_pid,
            child_map@.dom().len(),
        ),
{
    let fuel = child_map.len();
    descend(child_map, root_pid, out, fuel);
}

/// The post-order law: in a chain where `a` is a child of `root` and `b` a
/// child of `a` with no children of its own, the expansion of `root` yields
/// `b` strictly before `a`.
pub proof fn lemma_descendants_post_order(
    m: Map<i32, Seq<i32>>,
    root: i32,
    a: i32,
    b: i32,
    fuel: nat,
)
    requires
        m.dom().contains(root),
        m.dom().contains(a),
        !m.dom().contains(b),
        m[root] == seq![a],
        m[a] == seq![b],
        fuel >= 2,
    ensures
        descendants_of(m, root, fuel) == seq![b, a],
{
    let f1 = (fuel - 1) as nat;
    let f2 = (fuel - 2) as nat;
    assert(seq![a].skip(1) =~= Seq::<i32>::empty());
    assert(seq![b].skip(1) =~= Seq::<i32>::empty());
    assert(descendants_of_list(m, Seq::<i32>::empty(), f1) =~= Seq::<i32>::empty());
    assert(descendants_of_list(m, Seq::<i32>::empty(), f2) =~= Seq::<i32>::empty());
    assert(descendants_of(m, b, f2) =~= Seq::<i32>::empty());
    assert(descendants_of_list(m, seq![b], f2) == descendants_of(m, b, f2) + seq![b]
        + descendants_of_list(m, seq![b].skip(1), f2));
    assert(descendants_of_list(m, seq![b], f2) =~= seq![b]);
    assert(descendants_of(m, a, f1) == descendants_of_list(m, seq![b], f2));
    assert(descendants_of_list(m, seq![a], f1) == descendants_of(m, a, f1) + seq![a]
        + descendants_of_list(m, seq![a].skip(1), f1));
    assert(descendants_of_list(m, seq![a], f1) =~= seq![b, a]);
    assert(descendants_of(m, root, fuel) == descendants_of_list(m, seq![a], f1));
    assert(descendants_of(m, root, fuel) =~= seq![b, a]);
}

} // verus!
