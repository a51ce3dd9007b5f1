//! The generator: walks a module's entities, classifies each declaration
//! once (identity-keyed, memoized), applies the export policy, allocates a
//! collision-free target identifier, and assembles the ordered sequence of
//! generation-ready descriptors together with the diagnostics of the
//! declarations that were skipped.
use vstd::prelude::*;

use crate::cache::MemoizeMap;
use crate::generator_env::GeneratorEnv;
use crate::generator_env::SymbolEntry;
use crate::generator_env::spec_is_excluded;
use crate::generator_env::spec_lookup_symbol;
use crate::generator_env::spec_rename_of;
use crate::name_pool::NamePool;
use crate::type_ref::RawType;
use crate::type_ref::TypeRef;
use crate::type_ref::spec_deps;
use crate::type_ref::spec_has_opaque;
use crate::type_ref::spec_resolve;
use crate::type_ref::spec_summary;
use crate::walker::EntityArena;
use crate::walker::EntityKind;
use crate::walker::EntityNode;
use crate::walker::spec_walk_roots;
use crate::walker::walk;

verus! {

broadcast use Seq::lemma_push_map_commute;

/// The element kind of a generated declaration.
#[derive(PartialEq, Eq, Structural, Clone, Copy, Debug)]
pub enum ElementKind {
    Class,
    Enum,
    Func,
    Typedef,
    Const,
}

/// Why a declaration was skipped. Skipping is local and non-fatal: it
/// removes one declaration from the output and the run continues.
#[derive(PartialEq, Eq, Structural, Clone, Copy, Debug)]
pub enum DiagKind {
    Excluded,
    UnsupportedShape,
}

/// One recorded skip.
#[derive(PartialEq, Eq, Structural, Clone, Copy, Debug)]
pub struct Diagnostic {
    pub key: u64,
    pub reason: DiagKind,
}

/// A generation-ready descriptor: the declaration's identity key, its
/// element kind, its collision-free target identifier, and the identity
/// keys of the classes and enums it depends on.
pub struct GeneratedType {
    pub key: u64,
    pub kind: ElementKind,
    pub identifier: Vec<u8>,
    pub deps: Vec<u64>,
}

/// The projection of a descriptor the contracts speak of.
pub open spec fn gen_view(g: GeneratedType) -> (u64, ElementKind, Seq<u8>, Seq<u64>) {
    (g.key, g.kind, g.identifier@, g.deps@)
}

pub open spec fn spec_elem_kind(k: EntityKind) -> ElementKind {
    match k {
        EntityKind::ClassDecl => ElementKind::Class,
        EntityKind::EnumDecl => ElementKind::Enum,
        EntityKind::FuncDecl => ElementKind::Func,
        EntityKind::TypedefDecl => ElementKind::Typedef,
        _ => ElementKind::Const,
    }
}

/// Every type a declaration mentions, resolved: its underlying type first,
/// then its members' types in order.
pub open spec fn spec_resolved_types(syms: Seq<SymbolEntry>, n: EntityNode) -> Seq<TypeRef> {
    (match n.ty {
        Some(t) => seq![spec_resolve(syms, t)],
        None => Seq::empty(),
    }) + n.member_types@.map_values(|t: RawType| spec_resolve(syms, t))
}

/// Whether any resolved type hides an unsupported shape.
pub open spec fn spec_any_opaque(ts: Seq<TypeRef>) -> bool {
    exists|j: int| 0 <= j < ts.len() && spec_has_opaque(#[trigger] ts[j])
}

/// The concatenated summary spelling of the first `k` types — the
/// deterministic overload disambiguator.
pub open spec fn spec_summary_upto(ts: Seq<TypeRef>, k: int) -> Seq<u8>
    decreases k,
{
    if k <= 0 || k > ts.len() {
        Seq::empty()
    } else {
        spec_summary_upto(ts, k - 1) + spec_summary(ts[k - 1])
    }
}

/// The class/enum keys the first `k` types depend on.
pub open spec fn spec_deps_upto(ts: Seq<TypeRef>, k: int) -> Seq<u64>
    decreases k,
{
    if k <= 0 || k > ts.len() {
        Seq::empty()
    } else {
        spec_deps_upto(ts, k - 1) + spec_deps(ts[k - 1])
    }
}

/// The keys of the first `k` base classes that the symbol table knows.
pub open spec fn spec_base_keys_upto(syms: Seq<SymbolEntry>, bases: Seq<Vec<u8>>, k: int) -> Seq<
    u64,
>
    decreases k,
{
    if k <= 0 || k > bases.len() {
        Seq::empty()
    } else {
        spec_base_keys_upto(syms, bases, k - 1) + (match spec_lookup_symbol(syms, bases[k - 1]@) {
            Some(s) => seq![s.0],
            None => Seq::empty(),
        })
    }
}

/// The export policy's verdict on one declaration: excluded by
/// configuration, skipped for an unsupported shape, or accepted.
pub open spec fn spec_disposition(env: GeneratorEnv, n: EntityNode) -> Option<DiagKind> {
    if spec_is_excluded(env.config.excluded@, n.name@) {
        Some(DiagKind::Excluded)
    } else if spec_any_opaque(spec_resolved_types(env.symbols@, n)) {
        Some(DiagKind::UnsupportedShape)
    } else {
        None
    }
}

/// The name a declaration asks the pool for: its manual rename if the
/// configuration has one, else its own name.
pub open spec fn spec_desired_name(env: GeneratorEnv, n: EntityNode) -> Seq<u8> {
    match spec_rename_of(env.config.renames@, n.name@) {
        Some(t) => t,
        None => n.name@,
    }
}

pub open spec fn spec_disambiguator(env: GeneratorEnv, n: EntityNode) -> Seq<u8> {
    let ts = spec_resolved_types(env.symbols@, n);
    spec_summary_upto(ts, ts.len() as int)
}

pub open spec fn spec_gen_deps(env: GeneratorEnv, n: EntityNode) -> Seq<u64> {
    let ts = spec_resolved_types(env.symbols@, n);
    spec_deps_upto(ts, ts.len() as int) + spec_base_keys_upto(
        env.symbols@,
        n.bases@,
        n.bases@.len() as int,
    )
}

/// What the whole run produces from the walked declarations `idxs`, given
/// the keys already classified (`seen`) and the identifiers already
/// allocated (`used`): the descriptor projections in emission order, the
/// diagnostics in order, and the pool's final identifier list. A key
/// already seen contributes nothing — exactly one descriptor exists per
/// distinct source declaration. A skipped declaration contributes one
/// diagnostic and never touches the identifier pool.
pub open spec fn spec_gen_outputs(
    nodes: Seq<EntityNode>,
    env: GeneratorEnv,
    idxs: Seq<int>,
    seen: Set<u64>,
    used: Seq<Seq<u8>>,
) -> (Seq<(u64, ElementKind, Seq<u8>, Seq<u64>)>, Seq<Diagnostic>, Seq<Seq<u8>>)
    decreases idxs.len(),
        when forall|q: int| 0 <= q < idxs.len() ==> 0 <= #[trigger] idxs[q] < nodes.len()
{
    if idxs.len() == 0 {
        (Seq::empty(), Seq::empty(), used)
    } else {
        let n = nodes[idxs[0]];
        if seen.contains(n.key) {
            spec_gen_outputs(nodes, env, idxs.drop_first(), seen, used)
        } else {
            match spec_disposition(env, n) {
                Some(d) => {
                    let r = spec_gen_outputs(
                        nodes,
                        env,
                        idxs.drop_first(),
                        seen.insert(n.key),
                        used,
                    );
                    (r.0, seq![Diagnostic { key: n.key, reason: d }] + r.1, r.2)
                }
                None => {
                    let ident = NamePool::spec_allocate(
                        used,
                        spec_desired_name(env, n),
                        spec_disambiguator(env, n),
                    );
                    let r = spec_gen_outputs(
                        nodes,
                        env,
                        idxs.drop_first(),
                        seen.insert(n.key),
                        used.push(ident),
                    );
                    (
                        seq![(n.key, spec_elem_kind(n.kind), ident, spec_gen_deps(env, n))] + r.0,
                        r.1,
                        r.2,
                    )
                }
            }
        }
    }
}

/// One step of the fold: how the outputs of a non-empty walked list
/// decompose into the head declaration's contribution and the rest.
proof fn lemma_gen_step(
    nodes: Seq<EntityNode>,
    env: GeneratorEnv,
    idxs: Seq<int>,
    seen: Set<u64>,
    used: Seq<Seq<u8>>,
)
    requires
        idxs.len() > 0,
        forall|q: int| 0 <= q < idxs.len() ==> 0 <= #[trigger] idxs[q] < nodes.len(),
    ensures
        ({
            let n = nodes[idxs[0]];
            let tail = idxs.drop_first();
            &&& (seen.contains(n.key) ==> spec_gen_outputs(nodes, env, idxs, seen, used)
                == spec_gen_outputs(nodes, env, tail, seen, used))
            &&& (!seen.contains(n.key) ==> match spec_disposition(env, n) {
                Some(d) => spec_gen_outputs(nodes, env, idxs, seen, used) == {
                    let r = spec_gen_outputs(nodes, env, tail, seen.insert(n.key), used);
                    (r.0, seq![Diagnostic { key: n.key, reason: d }] + r.1, r.2)
                },
                None => spec_gen_outputs(nodes, env, idxs, seen, used) == {
                    let ident = NamePool::spec_allocate(
                        used,
                        spec_desired_name(env, n),
                        spec_disambiguator(env, n),
                    );
                    let r = spec_gen_outputs(
                        nodes,
                        env,
                        tail,
                        seen.insert(n.key),
                        used.push(ident),
                    );
                    (
                        seq![(n.key, spec_elem_kind(n.kind), ident, spec_gen_deps(env, n))] + r.0,
                        r.1,
                        r.2,
                    )
                },
            })
        }),
{
    assert forall|q: int| 0 <= q < idxs.drop_first().len() implies 0 <= (#[trigger] idxs.drop_first()[q]) < nodes.len() by {
        assert(idxs.drop_first()[q] == idxs[q + 1]);
    }
}

/// Resolves every type a declaration mentions./// Resolves every type a declaration mentions.
fn resolve_types(env: &GeneratorEnv, n: &EntityNode) -> (r: Vec<TypeRef>)
    ensures
        r@ == spec_resolved_types(env.symbols@, *n),
{
    let ghost syms = env.symbols@;
    let mut r: Vec<TypeRef> = Vec::new();
    match &n.ty {
        Some(t) => {
            r.push(crate::type_ref::resolve(env, t));
        }
        None => {}
    }
    let ghost head = r@;
    proof {
        assert(head =~= match n.ty {
            Some(t) => seq![spec_resolve(syms, t)],
            None => Seq::<TypeRef>::empty(),
        });
    }
    let m = n.member_types.len();
    let mut j: usize = 0;
    while j < m
        invariant
            0 <= j <= m,
            m == n.member_types@.len(),
            syms == env.symbols@,
            head == match n.ty {
                Some(t) => seq![spec_resolve(syms, t)],
                None => Seq::<TypeRef>::empty(),
            },
            r@ == head + n.member_types@.take(j as int).map_values(
                |t: RawType| spec_resolve(syms, t),
            ),
        decreases m - j,
    {
        let resolved = crate::type_ref::resolve(env, &n.member_types[j]);
        r.push(resolved);
        proof {
            assert(n.member_types@.take(j as int + 1) =~= n.member_types@.take(j as int).push(
                n.member_types@[j as int],
            ));
            Seq::lemma_push_map_commute(
                n.member_types@.take(j as int),
                |t: RawType| spec_resolve(syms, t),
                n.member_types@[j as int],
            );
            assert(r@ =~= head + n.member_types@.take(j as int + 1).map_values(
                |t: RawType| spec_resolve(syms, t),
            ));
        }
        j += 1;
    }
    proof {
        assert(n.member_types@.take(m as int) =~= n.member_types@);
    }
    r
}

fn any_opaque(ts: &Vec<TypeRef>) -> (r: bool)
    ensures
        r == spec_any_opaque(ts@),
{
    let m = ts.len();
    let mut j: usize = 0;
    while j < m
        invariant
            0 <= j <= m,
            m == ts@.len(),
            forall|q: int| 0 <= q < j ==> !spec_has_opaque(#[trigger] ts@[q]),
        decreases m - j,
    {
        if crate::type_ref::has_opaque(&ts[j]) {
            return true;
        }
        j += 1;
    }
    false
}

fn summary_of(ts: &Vec<TypeRef>) -> (r: Vec<u8>)
    ensures
        r@ == spec_summary_upto(ts@, ts@.len() as int),
{
    let mut r: Vec<u8> = Vec::new();
    let m = ts.len();
    let mut j: usize = 0;
    while j < m
        invariant
            0 <= j <= m,
            m == ts@.len(),
            r@ == spec_summary_upto(ts@, j as int),
        decreases m - j,
    {
        crate::type_ref::push_summary(&ts[j], &mut r);
        j += 1;
    }
    r
}

fn deps_of(env: &GeneratorEnv, ts: &Vec<TypeRef>, n: &EntityNode) -> (r: Vec<u64>)
    requires
        ts@ == spec_resolved_types(env.symbols@, *n),
    ensures
        r@ == spec_gen_deps(*env, *n),
{
    let ghost syms = env.symbols@;
    let mut r: Vec<u64> = Vec::new();
    let m = ts.len();
    let mut j: usize = 0;
    while j < m
        invariant
            0 <= j <= m,
            m == ts@.len(),
            r@ == spec_deps_upto(ts@, j as int),
        decreases m - j,
    {
        crate::type_ref::push_deps(&ts[j], &mut r);
        j += 1;
    }
    let nb = n.bases.len();
    let mut b: usize = 0;
    while b < nb
        invariant
            0 <= b <= nb,
            nb == n.bases@.len(),
            syms == env.symbols@,
            ts@ == spec_resolved_types(env.symbols@, *n),
            m == ts@.len(),
            r@ == spec_deps_upto(ts@, m as int) + spec_base_keys_upto(syms, n.bases@, b as int),
        decreases nb - b,
    {
        match env.lookup_symbol(n.bases[b].as_slice()) {
            Some(s) => {
                r.push(s.0);
                proof {
                    assert(r@ =~= spec_deps_upto(ts@, m as int) + spec_base_keys_upto(
                        syms,
                        n.bases@,
                        b as int + 1,
                    ));
                }
            }
            None => {
                proof {
                    assert(r@ =~= spec_deps_upto(ts@, m as int) + spec_base_keys_upto(
                        syms,
                        n.bases@,
                        b as int + 1,
                    ));
                }
            }
        }
        b += 1;
    }
    r
}

fn elem_kind_of(k: EntityKind) -> (r: ElementKind)
    ensures
        r == spec_elem_kind(k),
{
    match k {
        EntityKind::ClassDecl => ElementKind::Class,
        EntityKind::EnumDecl => ElementKind::Enum,
        EntityKind::FuncDecl => ElementKind::Func,
        EntityKind::TypedefDecl => ElementKind::Typedef,
        _ => ElementKind::Const,
    }
}

/// Runs the four phases over one module: walk, classify (memoized by
/// identity key), apply the export policy, and assemble descriptors in
/// stable order. The answer is a function of the arena, the environment
/// and the pool's prior state alone — regenerating from unchanged input
/// reproduces it exactly, in the same order.
pub fn process_module(arena: &EntityArena, env: &GeneratorEnv, pool: &mut NamePool) -> (r: (
    Vec<GeneratedType>,
    Vec<Diagnostic>,
))
    requires
        arena.wf(),
    ensures
        ({
            let walked = spec_walk_roots(arena.nodes@, arena.roots@, 0, env.config.module@);
            let o = spec_gen_outputs(
                arena.nodes@,
                *env,
                walked,
                Set::empty(),
                old(pool).used_names(),
            );
            &&& r.0@.map_values(|g: GeneratedType| gen_view(g)) == o.0
            &&& r.1@ == o.1
            &&& final(pool).used_names() == o.2
            &&& (forall|a: int, b2: int|
                0 <= a < b2 < r.0@.len() ==> (#[trigger] r.0@[a]).key != (#[trigger] r.0@[b2]).key)
        }),
{
    let ghost nodes = arena.nodes@;
    let walked = walk(arena, env.config.module.as_slice());
    let ghost idxs = walked@.map_values(|x: usize| x as int);
    let mut cache: MemoizeMap<()> = MemoizeMap::new();
    let mut gen: Vec<GeneratedType> = Vec::new();
    let mut diags: Vec<Diagnostic> = Vec::new();
    let nw = walked.len();
    let mut i: usize = 0;
    proof {
        assert(idxs.skip(0) =~= idxs);
        assert(gen@.map_values(|g: GeneratedType| gen_view(g)) =~= Seq::<(
            u64,
            ElementKind,
            Seq<u8>,
            Seq<u64>,
        )>::empty());
    }
    while i < nw
        invariant
            arena.wf(),
            nodes == arena.nodes@,
            nw == walked@.len(),
            0 <= i <= nw,
            idxs == walked@.map_values(|x: usize| x as int),
            forall|q: int| 0 <= q < idxs.len() ==> 0 <= #[trigger] idxs[q] < nodes.len(),
            cache.wf(),
            cache.pending() == Set::<u64>::empty(),
            forall|a: int, b2: int|
                0 <= a < b2 < gen@.len() ==> (#[trigger] gen@[a]).key != (#[trigger] gen@[b2]).key,
            forall|a: int|
                0 <= a < gen@.len() ==> cache.done().contains_key((#[trigger] gen@[a]).key),
            spec_gen_outputs(nodes, *env, idxs, Set::empty(), old(pool).used_names()) == {
                let rest = spec_gen_outputs(
                    nodes,
                    *env,
                    idxs.skip(i as int),
                    cache.done().dom(),
                    pool.used_names(),
                );
                (
                    gen@.map_values(|g: GeneratedType| gen_view(g)) + rest.0,
                    diags@ + rest.1,
                    rest.2,
                )
            },
        decreases nw - i,
    {
        let idx = walked[i];
        let ghost rem = idxs.skip(i as int);
        let ghost seen0 = cache.done().dom();
        let ghost used0 = pool.used_names();
        proof {
            assert(idxs[i as int] == walked@[i as int] as int);
            assert(idx < arena.nodes@.len());
            assert(rem[0] == idxs[i as int]);
            assert forall|q: int| 0 <= q < rem.len() implies 0 <= (#[trigger] rem[q])
                < nodes.len() by {
                assert(rem[q] == idxs[i + q]);
            }
            lemma_gen_step(nodes, *env, rem, seen0, used0);
            assert(rem.drop_first() =~= idxs.skip(i as int + 1));
        }
        let key = arena.nodes[idx].key;
        let ghost n = nodes[idx as int];
        let ghost genmap0 = gen@.map_values(|g: GeneratedType| gen_view(g));
        let ghost diags0 = diags@;
        let ghost total = spec_gen_outputs(nodes, *env, idxs, Set::empty(), old(
            pool,
        ).used_names());
        let ghost rest0 = spec_gen_outputs(nodes, *env, rem, seen0, used0);
        if !cache.contains(key) {
            proof {
                assert(!seen0.contains(key));
            }
            // classify this declaration exactly once, behind the cache's
            // placeholder, then record it
            cache.begin(key);
            let node = &arena.nodes[idx];
            let resolved = resolve_types(env, node);
            let excluded = env.is_excluded(node.name.as_slice());
            let opaque = any_opaque(&resolved);
            if excluded || opaque {
                let reason = if excluded {
                    DiagKind::Excluded
                } else {
                    DiagKind::UnsupportedShape
                };
                proof {
                    assert(spec_disposition(*env, n) == Some(reason));
                }
                diags.push(Diagnostic { key, reason });
                cache.finish(key, ());
                proof {
                    let rest1 = spec_gen_outputs(
                        nodes,
                        *env,
                        idxs.skip(i as int + 1),
                        seen0.insert(key),
                        used0,
                    );
                    assert(rest0 == (
                        rest1.0,
                        seq![Diagnostic { key, reason }] + rest1.1,
                        rest1.2,
                    ));
                    assert(diags@ =~= diags0.push(Diagnostic { key, reason }));
                    assert(diags@ + rest1.1 =~= diags0 + (seq![Diagnostic { key, reason }]
                        + rest1.1));
                    assert(cache.done().dom() =~= seen0.insert(key));
                    assert(cache.pending() =~= Set::<u64>::empty());
                }
            } else {
                proof {
                    assert(spec_disposition(*env, n) == None::<DiagKind>);
                }
                let desired = env.effective_name(node.name.as_slice());
                let dis = summary_of(&resolved);
                let ident = pool.allocate(desired.as_slice(), dis.as_slice());
                let deps = deps_of(env, &resolved, node);
                let kind = elem_kind_of(node.kind);
                let ghost identv = NamePool::spec_allocate(
                    used0,
                    spec_desired_name(*env, n),
                    spec_disambiguator(*env, n),
                );
                proof {
                    assert(desired@ == spec_desired_name(*env, n));
                    assert(dis@ == spec_disambiguator(*env, n));
                    assert(ident@ == identv);
                    assert(deps@ == spec_gen_deps(*env, n));
                }
                gen.push(GeneratedType { key, kind, identifier: ident, deps });
                cache.finish(key, ());
                proof {
                    let entry = (n.key, spec_elem_kind(n.kind), identv, spec_gen_deps(*env, n));
                    let rest1 = spec_gen_outputs(
                        nodes,
                        *env,
                        idxs.skip(i as int + 1),
                        seen0.insert(key),
                        used0.push(identv),
                    );
                    assert(rest0 == (seq![entry] + rest1.0, rest1.1, rest1.2));
                    assert(gen@.map_values(|g: GeneratedType| gen_view(g)) =~= genmap0.push(
                        entry,
                    ));
                    assert(gen@.map_values(|g: GeneratedType| gen_view(g)) + rest1.0
                        =~= genmap0 + (seq![entry] + rest1.0));
                    assert(pool.used_names() == used0.push(identv));
                    assert(cache.done().dom() =~= seen0.insert(key));
                    assert(cache.pending() =~= Set::<u64>::empty());
                    assert(gen@[gen@.len() - 1].key == key);
                    assert forall|a: int, b2: int| 0 <= a < b2 < gen@.len() implies (
                    #[trigger] gen@[a]).key != (#[trigger] gen@[b2]).key by {
                        if b2 == gen@.len() - 1 {
                            assert(seen0.contains(gen@[a].key));
                        }
                    }
                }
            }
        } else {
            proof {
                assert(seen0.contains(key));
                assert(rest0 == spec_gen_outputs(
                    nodes,
                    *env,
                    idxs.skip(i as int + 1),
                    seen0,
                    used0,
                ));
            }
        }
        i += 1;
    }
    proof {
        assert(idxs.skip(nw as int).len() == 0);
        let rest = spec_gen_outputs(
            nodes,
            *env,
            idxs.skip(nw as int),
            cache.done().dom(),
            pool.used_names(),
        );
        assert(rest.0 =~= Seq::<(u64, ElementKind, Seq<u8>, Seq<u64>)>::empty());
        assert(rest.1 =~= Seq::<Diagnostic>::empty());
        assert(gen@.map_values(|g: GeneratedType| gen_view(g)) + rest.0 =~= gen@.map_values(
            |g: GeneratedType| gen_view(g),
        ));
        assert(diags@ + rest.1 =~= diags@);
    }
    (gen, diags)
}


/// Law (one descriptor per declaration): however often the walk reaches a
/// declaration, the output holds at most one descriptor per identity key —
/// a class holding a sequence of pointers to itself still yields exactly
/// one descriptor, and the fold visibly terminates.
pub proof fn lemma_one_descriptor_per_key(
    nodes: Seq<EntityNode>,
    env: GeneratorEnv,
    idxs: Seq<int>,
    seen: Set<u64>,
    used: Seq<Seq<u8>>,
)
    requires
        forall|q: int| 0 <= q < idxs.len() ==> 0 <= #[trigger] idxs[q] < nodes.len(),
    ensures
        ({
            let o = spec_gen_outputs(nodes, env, idxs, seen, used);
            &&& (forall|a: int| 0 <= a < o.0.len() ==> !seen.contains((#[trigger] o.0[a]).0))
            &&& (forall|a: int, b: int| 0 <= a < b < o.0.len() ==> (#[trigger] o.0[a]).0 != (
            #[trigger] o.0[b]).0)
        }),
    decreases idxs.len(),
{
    if idxs.len() > 0 {
        let n = nodes[idxs[0]];
        let tail = idxs.drop_first();
        assert forall|q: int| 0 <= q < tail.len() implies 0 <= (#[trigger] tail[q])
            < nodes.len() by {
            assert(tail[q] == idxs[q + 1]);
        }
        let o = spec_gen_outputs(nodes, env, idxs, seen, used);
        if seen.contains(n.key) {
            lemma_one_descriptor_per_key(nodes, env, tail, seen, used);
            let r = spec_gen_outputs(nodes, env, tail, seen, used);
            assert(o.0 == r.0);
        } else {
            match spec_disposition(env, n) {
                Some(d) => {
                    lemma_one_descriptor_per_key(nodes, env, tail, seen.insert(n.key), used);
                    let r = spec_gen_outputs(nodes, env, tail, seen.insert(n.key), used);
                    assert(o.0 == r.0);
                    assert forall|a: int| 0 <= a < o.0.len() implies !seen.contains(
                        (#[trigger] o.0[a]).0,
                    ) by {
                        assert(!seen.insert(n.key).contains(r.0[a].0));
                    }
                }
                None => {
                    let ident = NamePool::spec_allocate(
                        used,
                        spec_desired_name(env, n),
                        spec_disambiguator(env, n),
                    );
                    lemma_one_descriptor_per_key(
                        nodes,
                        env,
                        tail,
                        seen.insert(n.key),
                        used.push(ident),
                    );
                    let entry = (n.key, spec_elem_kind(n.kind), ident, spec_gen_deps(env, n));
                    let r = spec_gen_outputs(nodes, env, tail, seen.insert(n.key), used.push(ident));
                    assert(o.0 == seq![entry] + r.0);
                    assert forall|a: int| 0 <= a < o.0.len() implies !seen.contains(
                        (#[trigger] o.0[a]).0,
                    ) by {
                        if a > 0 {
                            assert(o.0[a] == r.0[a - 1]);
                            assert(!seen.insert(n.key).contains(r.0[a - 1].0));
                        }
                    }
                    assert forall|a: int, b: int| 0 <= a < b < o.0.len() implies (
                    #[trigger] o.0[a]).0 != (#[trigger] o.0[b]).0 by {
                        if a == 0 {
                            assert(o.0[b] == r.0[b - 1]);
                            assert(!seen.insert(n.key).contains(r.0[b - 1].0));
                        } else {
                            assert(o.0[a] == r.0[a - 1]);
                            assert(o.0[b] == r.0[b - 1]);
                        }
                    }
                }
            }
        }
    }
}

/// Keys that occur nowhere in the walked list do not influence the
/// outputs.
proof fn lemma_gen_seen_irrelevant(
    nodes: Seq<EntityNode>,
    env: GeneratorEnv,
    idxs: Seq<int>,
    seen: Set<u64>,
    used: Seq<Seq<u8>>,
    k: u64,
)
    requires
        forall|q: int| 0 <= q < idxs.len() ==> 0 <= #[trigger] idxs[q] < nodes.len(),
        forall|q: int| 0 <= q < idxs.len() ==> nodes[#[trigger] idxs[q]].key != k,
    ensures
        spec_gen_outputs(nodes, env, idxs, seen.insert(k), used) == spec_gen_outputs(
            nodes,
            env,
            idxs,
            seen,
            used,
        ),
    decreases idxs.len(),
{
    if idxs.len() > 0 {
        let n = nodes[idxs[0]];
        let tail = idxs.drop_first();
        assert forall|q: int| 0 <= q < tail.len() implies 0 <= (#[trigger] tail[q]) < nodes.len()
            && nodes[tail[q]].key != k by {
            assert(tail[q] == idxs[q + 1]);
        }
        assert(n.key != k);
        assert(seen.insert(k).contains(n.key) == seen.contains(n.key));
        if seen.contains(n.key) {
            lemma_gen_seen_irrelevant(nodes, env, tail, seen, used, k);
        } else {
            assert(seen.insert(k).insert(n.key) =~= seen.insert(n.key).insert(k));
            match spec_disposition(env, n) {
                Some(d) => {
                    lemma_gen_seen_irrelevant(nodes, env, tail, seen.insert(n.key), used, k);
                }
                None => {
                    let ident = NamePool::spec_allocate(
                        used,
                        spec_desired_name(env, n),
                        spec_disambiguator(env, n),
                    );
                    lemma_gen_seen_irrelevant(
                        nodes,
                        env,
                        tail,
                        seen.insert(n.key),
                        used.push(ident),
                        k,
                    );
                }
            }
        }
    }
}

/// Law (graceful degradation): when the walk hands over a declaration the
/// policy skips — excluded, or of unsupported shape — the run records one
/// diagnostic for it, and every other declaration yields exactly the
/// descriptor, with exactly the identifier, that it would have yielded had
/// the skipped declaration not been walked at all.
pub proof fn lemma_graceful_degradation(
    nodes: Seq<EntityNode>,
    env: GeneratorEnv,
    bad: int,
    rest: Seq<int>,
    seen: Set<u64>,
    used: Seq<Seq<u8>>,
    d: DiagKind,
)
    requires
        0 <= bad < nodes.len(),
        forall|q: int| 0 <= q < rest.len() ==> 0 <= #[trigger] rest[q] < nodes.len(),
        spec_disposition(env, nodes[bad]) == Some(d),
        !seen.contains(nodes[bad].key),
        forall|q: int| 0 <= q < rest.len() ==> nodes[#[trigger] rest[q]].key != nodes[bad].key,
    ensures
        ({
            let with_bad = spec_gen_outputs(nodes, env, seq![bad] + rest, seen, used);
            let without = spec_gen_outputs(nodes, env, rest, seen, used);
            &&& with_bad.0 == without.0
            &&& with_bad.1 == seq![Diagnostic { key: nodes[bad].key, reason: d }] + without.1
            &&& with_bad.2 == without.2
        }),
{
    let idxs = seq![bad] + rest;
    assert(idxs[0] == bad);
    assert forall|q: int| 0 <= q < idxs.len() implies 0 <= (#[trigger] idxs[q]) < nodes.len() by {
        if q > 0 {
            assert(idxs[q] == rest[q - 1]);
        }
    }
    assert(idxs.drop_first() =~= rest);
    lemma_gen_seen_irrelevant(nodes, env, rest, seen, used, nodes[bad].key);
}

/// Law (stable ordering): the descriptor sequence, the diagnostics and the
/// final identifier list are functions of the walked entities, the
/// environment and the pool's prior state alone — regenerating the same
/// module twice from unchanged input produces them in identical order.
pub proof fn lemma_stable_ordering(
    nodes: Seq<EntityNode>,
    env: GeneratorEnv,
    idxs: Seq<int>,
    used: Seq<Seq<u8>>,
    r1: (Seq<(u64, ElementKind, Seq<u8>, Seq<u64>)>, Seq<Diagnostic>, Seq<Seq<u8>>),
    r2: (Seq<(u64, ElementKind, Seq<u8>, Seq<u64>)>, Seq<Diagnostic>, Seq<Seq<u8>>),
)
    requires
        r1 == spec_gen_outputs(nodes, env, idxs, Set::<u64>::empty(), used),
        r2 == spec_gen_outputs(nodes, env, idxs, Set::<u64>::empty(), used),
    ensures
        r1 == r2,
{
}


/// The classified-key set after a walked list has been folded.
pub open spec fn spec_seen_after(
    nodes: Seq<EntityNode>,
    env: GeneratorEnv,
    idxs: Seq<int>,
    seen: Set<u64>,
) -> Set<u64>
    decreases idxs.len(),
        when forall|q: int| 0 <= q < idxs.len() ==> 0 <= #[trigger] idxs[q] < nodes.len()
{
    if idxs.len() == 0 {
        seen
    } else {
        let n = nodes[idxs[0]];
        if seen.contains(n.key) {
            spec_seen_after(nodes, env, idxs.drop_first(), seen)
        } else {
            spec_seen_after(nodes, env, idxs.drop_first(), seen.insert(n.key))
        }
    }
}

/// Folding a concatenation folds the first part, then the second from the
/// first's final state: outputs and diagnostics concatenate, identifiers
/// thread through.
proof fn lemma_gen_append(
    nodes: Seq<EntityNode>,
    env: GeneratorEnv,
    a: Seq<int>,
    b: Seq<int>,
    seen: Set<u64>,
    used: Seq<Seq<u8>>,
)
    requires
        forall|q: int| 0 <= q < a.len() ==> 0 <= #[trigger] a[q] < nodes.len(),
        forall|q: int| 0 <= q < b.len() ==> 0 <= #[trigger] b[q] < nodes.len(),
    ensures
        ({
            let ra = spec_gen_outputs(nodes, env, a, seen, used);
            let rb = spec_gen_outputs(nodes, env, b, spec_seen_after(nodes, env, a, seen), ra.2);
            spec_gen_outputs(nodes, env, a + b, seen, used) == (ra.0 + rb.0, ra.1 + rb.1, rb.2)
        }),
    decreases a.len(),
{
    let ab = a + b;
    assert forall|q: int| 0 <= q < ab.len() implies 0 <= (#[trigger] ab[q]) < nodes.len() by {
        if q < a.len() {
            assert(ab[q] == a[q]);
        } else {
            assert(ab[q] == b[q - a.len()]);
        }
    }
    if a.len() == 0 {
        assert(ab =~= b);
        let ra = spec_gen_outputs(nodes, env, a, seen, used);
        let rb = spec_gen_outputs(nodes, env, b, spec_seen_after(nodes, env, a, seen), ra.2);
        assert(ra.0 + rb.0 =~= rb.0);
        assert(ra.1 + rb.1 =~= rb.1);
    } else {
        assert(ab[0] == a[0]);
        assert(ab.drop_first() =~= a.drop_first() + b);
        let n = nodes[a[0]];
        let tail = a.drop_first();
        assert forall|q: int| 0 <= q < tail.len() implies 0 <= (#[trigger] tail[q])
            < nodes.len() by {
            assert(tail[q] == a[q + 1]);
        }
        if seen.contains(n.key) {
            lemma_gen_append(nodes, env, tail, b, seen, used);
        } else {
            match spec_disposition(env, n) {
                Some(d) => {
                    lemma_gen_append(nodes, env, tail, b, seen.insert(n.key), used);
                    let rt = spec_gen_outputs(nodes, env, tail, seen.insert(n.key), used);
                    let rb = spec_gen_outputs(
                        nodes,
                        env,
                        b,
                        spec_seen_after(nodes, env, tail, seen.insert(n.key)),
                        rt.2,
                    );
                    let ra = spec_gen_outputs(nodes, env, a, seen, used);
                    assert(ra.1 =~= seq![Diagnostic { key: n.key, reason: d }] + rt.1);
                    assert((seq![Diagnostic { key: n.key, reason: d }] + rt.1) + rb.1
                        =~= seq![Diagnostic { key: n.key, reason: d }] + (rt.1 + rb.1));
                }
                None => {
                    let ident = NamePool::spec_allocate(
                        used,
                        spec_desired_name(env, n),
                        spec_disambiguator(env, n),
                    );
                    lemma_gen_append(nodes, env, tail, b, seen.insert(n.key), used.push(ident));
                    let rt = spec_gen_outputs(
                        nodes,
                        env,
                        tail,
                        seen.insert(n.key),
                        used.push(ident),
                    );
                    let rb = spec_gen_outputs(
                        nodes,
                        env,
                        b,
                        spec_seen_after(nodes, env, tail, seen.insert(n.key)),
                        rt.2,
                    );
                    let entry = (n.key, spec_elem_kind(n.kind), ident, spec_gen_deps(env, n));
                    assert((seq![entry] + rt.0) + rb.0 =~= seq![entry] + (rt.0 + rb.0));
                }
            }
        }
    }
}

/// Law (graceful degradation, at any position): a declaration the policy
/// skips — wherever the walk reaches it — contributes exactly one
/// diagnostic, in walk order, and every other declaration yields exactly
/// the descriptor and identifier it would have yielded had the skipped one
/// not been walked at all.
pub proof fn lemma_graceful_degradation_at(
    nodes: Seq<EntityNode>,
    env: GeneratorEnv,
    before: Seq<int>,
    bad: int,
    after: Seq<int>,
    seen: Set<u64>,
    used: Seq<Seq<u8>>,
    d: DiagKind,
)
    requires
        0 <= bad < nodes.len(),
        forall|q: int| 0 <= q < before.len() ==> 0 <= #[trigger] before[q] < nodes.len(),
        forall|q: int| 0 <= q < after.len() ==> 0 <= #[trigger] after[q] < nodes.len(),
        spec_disposition(env, nodes[bad]) == Some(d),
        !spec_seen_after(nodes, env, before, seen).contains(nodes[bad].key),
        forall|q: int| 0 <= q < after.len() ==> nodes[#[trigger] after[q]].key != nodes[bad].key,
    ensures
        ({
            let with_bad = spec_gen_outputs(nodes, env, before + seq![bad] + after, seen, used);
            let without = spec_gen_outputs(nodes, env, before + after, seen, used);
            let prefix = spec_gen_outputs(nodes, env, before, seen, used);
            &&& with_bad.0 == without.0
            &&& with_bad.2 == without.2
            &&& with_bad.1 == prefix.1.take(prefix.1.len() as int) + seq![
                Diagnostic { key: nodes[bad].key, reason: d },
            ] + (without.1.skip(prefix.1.len() as int))
        }),
{
    let mid = seq![bad] + after;
    assert(mid[0] == bad);
    assert forall|q: int| 0 <= q < mid.len() implies 0 <= (#[trigger] mid[q]) < nodes.len() by {
        if q > 0 {
            assert(mid[q] == after[q - 1]);
        }
    }
    let s1 = spec_seen_after(nodes, env, before, seen);
    let prefix = spec_gen_outputs(nodes, env, before, seen, used);
    lemma_gen_append(nodes, env, before, mid, seen, used);
    lemma_gen_append(nodes, env, before, after, seen, used);
    assert(before + seq![bad] + after =~= before + mid);
    lemma_graceful_degradation(nodes, env, bad, after, s1, prefix.2, d);
    let rb_with = spec_gen_outputs(nodes, env, mid, s1, prefix.2);
    let rb_without = spec_gen_outputs(nodes, env, after, s1, prefix.2);
    assert(spec_gen_outputs(nodes, env, before + mid, seen, used) == (
        prefix.0 + rb_with.0,
        prefix.1 + rb_with.1,
        rb_with.2,
    ));
    assert(spec_gen_outputs(nodes, env, before + after, seen, used) == (
        prefix.0 + rb_without.0,
        prefix.1 + rb_without.1,
        rb_without.2,
    ));
    assert(rb_with.0 == rb_without.0);
    assert(rb_with.2 == rb_without.2);
    assert(prefix.1.take(prefix.1.len() as int) =~= prefix.1);
    assert((prefix.1 + rb_without.1).skip(prefix.1.len() as int) =~= rb_without.1);
    assert(prefix.1 + rb_with.1 =~= prefix.1 + seq![Diagnostic { key: nodes[bad].key, reason: d }]
        + rb_without.1);
}

} // verus!
