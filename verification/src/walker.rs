//! Depth-first, module-boundary aware traversal of the entity tree.
//!
//! Entities live in an arena: every node's children stand strictly after
//! it, which is what makes the traversal visibly terminating. The walk
//! yields the indices of the declarations to classify, in deterministic
//! source order; declarations whose originating header belongs to another
//! module are skipped together with their subtrees.
use vstd::prelude::*;

verus! {

broadcast use Seq::lemma_push_map_commute;

/// What kind of declaration an entity is.
#[derive(PartialEq, Eq, Structural, Clone, Copy, Debug)]
pub enum EntityKind {
    Namespace,
    ClassDecl,
    EnumDecl,
    FuncDecl,
    TypedefDecl,
    ConstDecl,
    FieldDecl,
    Other,
}

/// What a visitor asks the walker to do with a node's subtree. `Stop` is
/// reserved for fatal preconditions; the module policy below never asks
/// for it, and the walker ends the node's traversal if it ever sees it.
#[derive(PartialEq, Eq, Structural, Clone, Copy, Debug)]
pub enum WalkAction {
    Continue,
    SkipChildren,
    Stop,
}

/// One entity of the tree. `key` is its stable identity (the same
/// declaration reached twice carries the same key); `module` names the
/// module its originating header belongs to; `children` are arena indices,
/// each strictly after the node itself. `ty` is the declaration's
/// underlying type (a function's return, a typedef's target, a constant's
/// type), `member_types` the types its members mention (a function's
/// parameters, a class's fields), and `bases` a class's direct base names.
pub struct EntityNode {
    pub key: u64,
    pub kind: EntityKind,
    pub name: Vec<u8>,
    pub module: Vec<u8>,
    pub children: Vec<usize>,
    pub ty: Option<crate::type_ref::RawType>,
    pub member_types: Vec<crate::type_ref::RawType>,
    pub bases: Vec<Vec<u8>>,
}

/// The entity tree of one translation unit, arena-style.
pub struct EntityArena {
    pub nodes: Vec<EntityNode>,
    pub roots: Vec<usize>,
}

/// Children stand strictly after their parent and inside the arena.
pub open spec fn arena_nodes_wf(nodes: Seq<EntityNode>) -> bool {
    forall|i: int, j: int|
        0 <= i < nodes.len() && 0 <= j < nodes[i].children@.len() ==> i < (
        #[trigger] nodes[i].children@[j]) < nodes.len()
}

pub open spec fn roots_wf(nodes: Seq<EntityNode>, roots: Seq<usize>) -> bool {
    forall|k: int| 0 <= k < roots.len() ==> (#[trigger] roots[k]) < nodes.len()
}

impl EntityArena {
    pub open spec fn wf(&self) -> bool {
        arena_nodes_wf(self.nodes@) && roots_wf(self.nodes@, self.roots@)
    }
}

/// The module policy: subtrees from other modules are skipped whole,
/// namespaces of the requested module are descended into, and any other
/// in-module declaration is classified without descending further.
pub open spec fn spec_walk_action(kind: EntityKind, in_module: bool) -> WalkAction {
    if !in_module {
        WalkAction::SkipChildren
    } else if kind == EntityKind::Namespace {
        WalkAction::Continue
    } else {
        WalkAction::SkipChildren
    }
}

/// Same policy, executable.
pub fn walk_action_for(kind: EntityKind, in_module: bool) -> (r: WalkAction)
    ensures
        r == spec_walk_action(kind, in_module),
{
    if !in_module {
        WalkAction::SkipChildren
    } else {
        match kind {
            EntityKind::Namespace => WalkAction::Continue,
            _ => WalkAction::SkipChildren,
        }
    }
}

/// Whether the walk hands this node over for classification.
pub open spec fn spec_emits(n: EntityNode, module: Seq<u8>) -> bool {
    n.module@ == module && match n.kind {
        EntityKind::ClassDecl => true,
        EntityKind::EnumDecl => true,
        EntityKind::FuncDecl => true,
        EntityKind::TypedefDecl => true,
        EntityKind::ConstDecl => true,
        _ => false,
    }
}

/// The indices one node's visit contributes, in order.
pub open spec fn spec_walk_node(nodes: Seq<EntityNode>, i: int, module: Seq<u8>) -> Seq<int>
    decreases nodes.len() - i, 1int, 0int,
        when arena_nodes_wf(nodes) && 0 <= i < nodes.len()
{
    let n = nodes[i];
    let emit: Seq<int> = if spec_emits(n, module) {
        seq![i]
    } else {
        Seq::empty()
    };
    let rest: Seq<int> = match spec_walk_action(n.kind, n.module@ == module) {
        WalkAction::Continue => spec_walk_children(nodes, i, 0, module),
        WalkAction::SkipChildren => Seq::empty(),
        WalkAction::Stop => Seq::empty(),
    };
    emit + rest
}

/// The indices a node's children from the `k`-th on contribute.
pub open spec fn spec_walk_children(
    nodes: Seq<EntityNode>,
    parent: int,
    k: int,
    module: Seq<u8>,
) -> Seq<int>
    decreases nodes.len() - parent, 0int, nodes[parent].children@.len() - k,
        when arena_nodes_wf(nodes) && 0 <= parent < nodes.len() && 0 <= k
{
    if k >= nodes[parent].children@.len() {
        Seq::empty()
    } else {
        spec_walk_node(nodes, nodes[parent].children@[k] as int, module) + spec_walk_children(
            nodes,
            parent,
            k + 1,
            module,
        )
    }
}

/// The indices the whole walk yields, roots from the `k`-th on.
pub open spec fn spec_walk_roots(
    nodes: Seq<EntityNode>,
    roots: Seq<usize>,
    k: int,
    module: Seq<u8>,
) -> Seq<int>
    decreases nodes.len() + 1, 0int, roots.len() - k,
        when arena_nodes_wf(nodes) && roots_wf(nodes, roots) && 0 <= k
{
    if k >= roots.len() {
        Seq::empty()
    } else {
        spec_walk_node(nodes, roots[k] as int, module) + spec_walk_roots(nodes, roots, k + 1, module)
    }
}

/// What holds of every index the walk yields: it lies in the arena, its
/// entity belongs to the requested module, and the walk was right to emit
/// it.
pub open spec fn walked_ok(nodes: Seq<EntityNode>, module: Seq<u8>, idx: int) -> bool {
    &&& 0 <= idx < nodes.len()
    &&& nodes[idx].module@ == module
    &&& spec_emits(nodes[idx], module)
}

/// Everything the walk yields lies in the arena and belongs to the
/// requested module: a declaration physically defined in another module's
/// header is excluded even when the walked module's headers reach it.
pub proof fn lemma_walk_node_module_boundary(nodes: Seq<EntityNode>, i: int, module: Seq<u8>)
    requires
        arena_nodes_wf(nodes),
        0 <= i < nodes.len(),
    ensures
        forall|q: int|
            0 <= q < spec_walk_node(nodes, i, module).len() ==> walked_ok(
                nodes,
                module,
                #[trigger] spec_walk_node(nodes, i, module)[q],
            ),
    decreases nodes.len() - i, 1int, 0int,
{
    lemma_walk_children_module_boundary(nodes, i, 0, module);
    let n = nodes[i];
    let a: Seq<int> = if spec_emits(n, module) {
        seq![i]
    } else {
        Seq::empty()
    };
    let b: Seq<int> = match spec_walk_action(n.kind, n.module@ == module) {
        WalkAction::Continue => spec_walk_children(nodes, i, 0, module),
        WalkAction::SkipChildren => Seq::empty(),
        WalkAction::Stop => Seq::empty(),
    };
    assert(spec_walk_node(nodes, i, module) == a + b);
    assert forall|q: int| 0 <= q < spec_walk_node(nodes, i, module).len() implies walked_ok(
        nodes,
        module,
        #[trigger] spec_walk_node(nodes, i, module)[q],
    ) by {
        if q < a.len() {
            assert((a + b)[q] == a[q]);
        } else {
            assert((a + b)[q] == b[q - a.len()]);
        }
    }
}

pub proof fn lemma_walk_children_module_boundary(
    nodes: Seq<EntityNode>,
    parent: int,
    k: int,
    module: Seq<u8>,
)
    requires
        arena_nodes_wf(nodes),
        0 <= parent < nodes.len(),
        0 <= k,
    ensures
        forall|q: int|
            0 <= q < spec_walk_children(nodes, parent, k, module).len() ==> walked_ok(
                nodes,
                module,
                #[trigger] spec_walk_children(nodes, parent, k, module)[q],
            ),
    decreases nodes.len() - parent, 0int, nodes[parent].children@.len() - k,
{
    if k < nodes[parent].children@.len() {
        let c = nodes[parent].children@[k] as int;
        lemma_walk_node_module_boundary(nodes, c, module);
        lemma_walk_children_module_boundary(nodes, parent, k + 1, module);
        let a = spec_walk_node(nodes, c, module);
        let b = spec_walk_children(nodes, parent, k + 1, module);
        assert(spec_walk_children(nodes, parent, k, module) == a + b);
        assert forall|q: int|
            0 <= q < spec_walk_children(nodes, parent, k, module).len() implies walked_ok(
            nodes,
            module,
            #[trigger] spec_walk_children(nodes, parent, k, module)[q],
        ) by {
            if q < a.len() {
                assert((a + b)[q] == a[q]);
            } else {
                assert((a + b)[q] == b[q - a.len()]);
            }
        }
    }
}

pub proof fn lemma_walk_roots_module_boundary(
    nodes: Seq<EntityNode>,
    roots: Seq<usize>,
    k: int,
    module: Seq<u8>,
)
    requires
        arena_nodes_wf(nodes),
        roots_wf(nodes, roots),
        0 <= k,
    ensures
        forall|q: int|
            0 <= q < spec_walk_roots(nodes, roots, k, module).len() ==> walked_ok(
                nodes,
                module,
                #[trigger] spec_walk_roots(nodes, roots, k, module)[q],
            ),
    decreases roots.len() - k,
{
    if k < roots.len() {
        lemma_walk_node_module_boundary(nodes, roots[k] as int, module);
        lemma_walk_roots_module_boundary(nodes, roots, k + 1, module);
        let a = spec_walk_node(nodes, roots[k] as int, module);
        let b = spec_walk_roots(nodes, roots, k + 1, module);
        assert(spec_walk_roots(nodes, roots, k, module) == a + b);
        assert forall|q: int|
            0 <= q < spec_walk_roots(nodes, roots, k, module).len() implies walked_ok(
            nodes,
            module,
            #[trigger] spec_walk_roots(nodes, roots, k, module)[q],
        ) by {
            if q < a.len() {
                assert((a + b)[q] == a[q]);
            } else {
                assert((a + b)[q] == b[q - a.len()]);
            }
        }
    }
}

fn walk_node(arena: &EntityArena, i: usize, module: &[u8], out: &mut Vec<usize>)
    requires
        arena.wf(),
        i < arena.nodes@.len(),
    ensures
        final(out)@.map_values(|x: usize| x as int) == old(out)@.map_values(|x: usize| x as int)
            + spec_walk_node(arena.nodes@, i as int, module@),
    decreases arena.nodes@.len() - i, 1int, 0int,
{
    let ghost nodes = arena.nodes@;
    let n = &arena.nodes[i];
    let in_module = crate::bytes_eq(n.module.as_slice(), module);
    let emit = in_module && match n.kind {
        EntityKind::ClassDecl => true,
        EntityKind::EnumDecl => true,
        EntityKind::FuncDecl => true,
        EntityKind::TypedefDecl => true,
        EntityKind::ConstDecl => true,
        _ => false,
    };
    let ghost out0 = out@;
    let ghost emitseq: Seq<int> = if spec_emits(nodes[i as int], module@) {
        seq![i as int]
    } else {
        Seq::empty()
    };
    proof {
        assert(emit == spec_emits(nodes[i as int], module@));
    }
    if emit {
        out.push(i);
        proof {
            assert(out@.map_values(|x: usize| x as int) =~= out0.map_values(|x: usize| x as int)
                + emitseq);
        }
    } else {
        proof {
            assert(out@.map_values(|x: usize| x as int) =~= out0.map_values(|x: usize| x as int)
                + emitseq);
        }
    }
    let ghost after_emit = out@;
    let action = walk_action_for(n.kind, in_module);
    match action {
        WalkAction::Continue => {
            let ghost parent = i as int;
            let nc = arena.nodes[i].children.len();
            let mut k: usize = 0;
            while k < nc
                invariant
                    arena.wf(),
                    nodes == arena.nodes@,
                    parent == i as int,
                    0 <= parent < nodes.len(),
                    i < arena.nodes@.len(),
                    nc == nodes[parent].children@.len(),
                    0 <= k <= nc,
                    out@.map_values(|x: usize| x as int) == after_emit.map_values(
                        |x: usize| x as int,
                    ) + spec_walk_children_upto(nodes, parent, k as int, module@),
                decreases nc - k,
            {
                let c = arena.nodes[i].children[k];
                proof {
                    assert(c == nodes[parent].children@[k as int]);
                    assert(i < c < nodes.len());
                }
                let ghost before = out@;
                walk_node(arena, c, module, out);
                proof {
                    lemma_walk_children_upto_step(nodes, parent, k as int, module@);
                    assert(out@.map_values(|x: usize| x as int) =~= after_emit.map_values(
                        |x: usize| x as int,
                    ) + spec_walk_children_upto(nodes, parent, k as int + 1, module@));
                }
                k += 1;
            }
            proof {
                lemma_walk_children_upto_all(nodes, parent, module@);
                assert(spec_walk_node(nodes, i as int, module@) == emitseq + spec_walk_children(
                    nodes,
                    parent,
                    0,
                    module@,
                ));
                assert(after_emit.map_values(|x: usize| x as int) == out0.map_values(
                    |x: usize| x as int,
                ) + emitseq);
                assert(out@.map_values(|x: usize| x as int) =~= out0.map_values(|x: usize| x as int)
                    + spec_walk_node(nodes, i as int, module@));
            }
        }
        WalkAction::SkipChildren => {
            proof {
                assert(spec_walk_node(nodes, i as int, module@) == emitseq + Seq::<int>::empty());
                assert(out@.map_values(|x: usize| x as int) =~= out0.map_values(|x: usize| x as int)
                    + spec_walk_node(nodes, i as int, module@));
            }
        }
        WalkAction::Stop => {
            proof {
                assert(spec_walk_node(nodes, i as int, module@) == emitseq + Seq::<int>::empty());
                assert(out@.map_values(|x: usize| x as int) =~= out0.map_values(|x: usize| x as int)
                    + spec_walk_node(nodes, i as int, module@));
            }
        }
    }
}

/// The indices children `0 .. k` contribute — the loop's view of
/// `spec_walk_children`.
pub open spec fn spec_walk_children_upto(
    nodes: Seq<EntityNode>,
    parent: int,
    k: int,
    module: Seq<u8>,
) -> Seq<int>
    decreases k,
        when arena_nodes_wf(nodes) && 0 <= parent < nodes.len() && 0 <= k <= nodes[parent].children@.len()
{
    if k <= 0 {
        Seq::empty()
    } else {
        spec_walk_children_upto(nodes, parent, k - 1, module) + spec_walk_node(
            nodes,
            nodes[parent].children@[k - 1] as int,
            module,
        )
    }
}

proof fn lemma_walk_children_upto_step(nodes: Seq<EntityNode>, parent: int, k: int, module: Seq<u8>)
    requires
        arena_nodes_wf(nodes),
        0 <= parent < nodes.len(),
        0 <= k,
        k + 1 <= nodes[parent].children@.len(),
    ensures
        spec_walk_children_upto(nodes, parent, k + 1, module) == spec_walk_children_upto(
            nodes,
            parent,
            k,
            module,
        ) + spec_walk_node(nodes, nodes[parent].children@[k] as int, module),
{
}

/// Walking the first `k` children and then the rest gives the whole.
proof fn lemma_walk_children_split(nodes: Seq<EntityNode>, parent: int, k: int, module: Seq<u8>)
    requires
        arena_nodes_wf(nodes),
        0 <= parent < nodes.len(),
        0 <= k <= nodes[parent].children@.len(),
    ensures
        spec_walk_children(nodes, parent, 0, module) == spec_walk_children_upto(
            nodes,
            parent,
            k,
            module,
        ) + spec_walk_children(nodes, parent, k, module),
    decreases k,
{
    if k == 0 {
        assert(spec_walk_children_upto(nodes, parent, 0, module) + spec_walk_children(
            nodes,
            parent,
            0,
            module,
        ) =~= spec_walk_children(nodes, parent, 0, module));
    } else {
        lemma_walk_children_split(nodes, parent, k - 1, module);
        assert(spec_walk_children(nodes, parent, k - 1, module) == spec_walk_node(
            nodes,
            nodes[parent].children@[k - 1] as int,
            module,
        ) + spec_walk_children(nodes, parent, k, module));
        assert(spec_walk_children_upto(nodes, parent, k, module) + spec_walk_children(
            nodes,
            parent,
            k,
            module,
        ) =~= spec_walk_children_upto(nodes, parent, k - 1, module) + (spec_walk_node(
            nodes,
            nodes[parent].children@[k - 1] as int,
            module,
        ) + spec_walk_children(nodes, parent, k, module)));
    }
}

proof fn lemma_walk_children_upto_all(nodes: Seq<EntityNode>, parent: int, module: Seq<u8>)
    requires
        arena_nodes_wf(nodes),
        0 <= parent < nodes.len(),
    ensures
        spec_walk_children_upto(nodes, parent, nodes[parent].children@.len() as int, module)
            == spec_walk_children(nodes, parent, 0, module),
{
    let k = nodes[parent].children@.len() as int;
    lemma_walk_children_split(nodes, parent, k, module);
    assert(spec_walk_children(nodes, parent, k, module) =~= Seq::<int>::empty());
    assert(spec_walk_children_upto(nodes, parent, k, module) + Seq::<int>::empty()
        =~= spec_walk_children_upto(nodes, parent, k, module));
}

/// The same prefix view for the roots.
pub open spec fn spec_walk_roots_upto(
    nodes: Seq<EntityNode>,
    roots: Seq<usize>,
    k: int,
    module: Seq<u8>,
) -> Seq<int>
    decreases k,
        when arena_nodes_wf(nodes) && roots_wf(nodes, roots) && 0 <= k <= roots.len()
{
    if k <= 0 {
        Seq::empty()
    } else {
        spec_walk_roots_upto(nodes, roots, k - 1, module) + spec_walk_node(
            nodes,
            roots[k - 1] as int,
            module,
        )
    }
}

proof fn lemma_walk_roots_split(nodes: Seq<EntityNode>, roots: Seq<usize>, k: int, module: Seq<u8>)
    requires
        arena_nodes_wf(nodes),
        roots_wf(nodes, roots),
        0 <= k <= roots.len(),
    ensures
        spec_walk_roots(nodes, roots, 0, module) == spec_walk_roots_upto(nodes, roots, k, module)
            + spec_walk_roots(nodes, roots, k, module),
    decreases k,
{
    if k == 0 {
        assert(spec_walk_roots_upto(nodes, roots, 0, module) + spec_walk_roots(
            nodes,
            roots,
            0,
            module,
        ) =~= spec_walk_roots(nodes, roots, 0, module));
    } else {
        lemma_walk_roots_split(nodes, roots, k - 1, module);
        assert(spec_walk_roots(nodes, roots, k - 1, module) == spec_walk_node(
            nodes,
            roots[k - 1] as int,
            module,
        ) + spec_walk_roots(nodes, roots, k, module));
        assert(spec_walk_roots_upto(nodes, roots, k, module) + spec_walk_roots(
            nodes,
            roots,
            k,
            module,
        ) =~= spec_walk_roots_upto(nodes, roots, k - 1, module) + (spec_walk_node(
            nodes,
            roots[k - 1] as int,
            module,
        ) + spec_walk_roots(nodes, roots, k, module)));
    }
}

/// Walks a module: a deterministic, source-order sequence of the arena
/// indices of exactly the declarations to classify (see the module
/// boundary lemmas: every index belongs to the requested module).
pub fn walk(arena: &EntityArena, module: &[u8]) -> (r: Vec<usize>)
    requires
        arena.wf(),
    ensures
        r@.map_values(|x: usize| x as int) == spec_walk_roots(arena.nodes@, arena.roots@, 0, module@),
        forall|q: int| 0 <= q < r@.len() ==> (#[trigger] r@[q]) < arena.nodes@.len(),
{
    let ghost nodes = arena.nodes@;
    let ghost roots = arena.roots@;
    let mut out: Vec<usize> = Vec::new();
    let nr = arena.roots.len();
    let mut k: usize = 0;
    proof {
        assert(out@.map_values(|x: usize| x as int) =~= Seq::<int>::empty());
    }
    while k < nr
        invariant
            arena.wf(),
            nodes == arena.nodes@,
            roots == arena.roots@,
            nr == roots.len(),
            0 <= k <= nr,
            out@.map_values(|x: usize| x as int) == spec_walk_roots_upto(
                nodes,
                roots,
                k as int,
                module@,
            ),
        decreases nr - k,
    {
        let r0 = arena.roots[k];
        walk_node(arena, r0, module, &mut out);
        k += 1;
    }
    proof {
        lemma_walk_roots_split(nodes, roots, nr as int, module@);
        assert(spec_walk_roots(nodes, roots, nr as int, module@) =~= Seq::<int>::empty());
        assert(spec_walk_roots_upto(nodes, roots, nr as int, module@) + Seq::<int>::empty()
            =~= spec_walk_roots_upto(nodes, roots, nr as int, module@));
        lemma_walk_roots_module_boundary(nodes, roots, 0, module@);
        assert forall|q: int| 0 <= q < out@.len() implies (#[trigger] out@[q]) < nodes.len() by {
            assert(out@.map_values(|x: usize| x as int)[q] == out@[q] as int);
            assert(spec_walk_roots(nodes, roots, 0, module@)[q] < nodes.len());
        }
    }
    out
}

} // verus!
