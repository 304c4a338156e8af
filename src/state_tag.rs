//! The state tag of a package: one hash over the names and fingerprints of
//! its whole dependency closure and over the toolchain fingerprint.
use crate::bytes::copy_bytes;
use crate::closure::{
    closure_below, closure_seq, dep_lists, graph_wf, is_walk, lemma_closure_ignores_listing_order,
    reachable, resolve_deps, same_dependencies,
};
use crate::digest::{
    digest_bytes, digest_of, frames, lemma_frames_injective, lemma_frames_push, pieces_fit, push_framed,
};
use crate::fingerprint::{fingerprint_bytes, kept_files, latest_file, lemma_excluded_files_ignored, push_fingerprint, root_fingerprint, TrackedFile};
use crate::order::{lemma_lex_irreflexive, lemma_sorted_unique, lex_lt, strictly_sorted};
use vstd::prelude::*;

verus! {

/// A resolved dependency graph, one index per package.
pub struct ResolvedGraph {
    /// Each package's identity: name, version and source. Two packages may
    /// share a name, never an identity.
    pub ids: Vec<Vec<u8>>,
    /// Each package's name.
    pub names: Vec<Vec<u8>>,
    /// Each package's direct dependencies, by index.
    pub deps: Vec<Vec<usize>>,
    /// The fingerprint the package manager keeps for each package.
    pub fingerprints: Vec<Vec<u8>>,
    /// The tracked source files of each package that lives in a local
    /// directory, where they could be listed.
    pub source_files: Vec<Option<Vec<TrackedFile>>>,
}

impl ResolvedGraph {
    /// All tables cover the same packages, every dependency is one of
    /// them, and packages are numbered in increasing order of identity, so
    /// that the numbering is canonical.
    pub open spec fn wf(&self) -> bool {
        &&& strictly_sorted(id_list(*self))
        &&& self.ids@.len() == self.names@.len()
        &&& self.deps@.len() == self.names@.len()
        &&& self.fingerprints@.len() == self.names@.len()
        &&& self.source_files@.len() == self.names@.len()
        &&& graph_wf(dep_lists(self.deps@))
    }
}

/// The package identities, in index order.
pub open spec fn id_list(g: ResolvedGraph) -> Seq<Seq<u8>> {
    g.ids@.map_values(|n: Vec<u8>| n@)
}

/// The name of package `d`.
pub open spec fn name_of(g: ResolvedGraph, d: int) -> Seq<u8> {
    g.names@[d]@
}

/// The fingerprint of package `d` when the state tag of `root` is built:
/// for `root` itself its latest tracked file, where its files are known;
/// otherwise the package manager's fingerprint.
pub open spec fn package_fingerprint(g: ResolvedGraph, root: int, d: int) -> Seq<u8> {
    match g.source_files@[d] {
        Some(files) => if d == root {
            fingerprint_bytes(latest_file(files@))
        } else {
            g.fingerprints@[d]@
        },
        None => g.fingerprints@[d]@,
    }
}

/// Name and fingerprint of each package of `members`, in order.
pub open spec fn member_pieces(g: ResolvedGraph, root: int, members: Seq<usize>) -> Seq<Seq<u8>>
    decreases members.len(),
{
    if members.len() == 0 {
        seq![]
    } else {
        let d = members.last() as int;
        member_pieces(g, root, members.drop_last()).push(name_of(g, d)).push(
            package_fingerprint(g, root, d),
        )
    }
}

/// Everything the state tag of `root` is hashed from: name and fingerprint
/// of each package of its closure, in index order, then the toolchain
/// fingerprint `env`.
pub open spec fn state_pieces(g: ResolvedGraph, root: int, env: Seq<u8>) -> Seq<Seq<u8>> {
    member_pieces(g, root, closure_seq(dep_lists(g.deps@), root)).push(env)
}

/// The state tag of `root`.
pub open spec fn state_tag_of(g: ResolvedGraph, root: int, env: Seq<u8>) -> u64 {
    digest_of(frames(state_pieces(g, root, env)))
}

/// The bytes of the fingerprint of package `d` in the state tag of `root`.
fn package_fingerprint_bytes(g: &ResolvedGraph, root: usize, d: usize) -> (r: Vec<u8>)
    requires
        g.wf(),
        d < g.names@.len(),
    ensures
        r@ == package_fingerprint(*g, root as int, d as int),
{
    match &g.source_files[d] {
        Some(files) => {
            if d == root {
                let fp = root_fingerprint(files);
                let mut r: Vec<u8> = Vec::new();
                push_fingerprint(&mut r, &fp);
                assert(r@ =~= fingerprint_bytes(fp@));
                r
            } else {
                copy_bytes(&g.fingerprints[d])
            }
        },
        None => copy_bytes(&g.fingerprints[d]),
    }
}

/// The state tag of package `root` under toolchain fingerprint `env`.
pub fn generate_state_tag_for_package(g: &ResolvedGraph, root: usize, env: &Vec<u8>) -> (r: u64)
    requires
        g.wf(),
        root < g.names@.len(),
    ensures
        r == state_tag_of(*g, root as int, env@),
{
    let closure = resolve_deps(&g.deps, root);
    let ghost members = closure_seq(dep_lists(g.deps@), root as int);
    let mut buf: Vec<u8> = Vec::new();
    let mut i: usize = 0;
    assert(closure@.take(0) =~= Seq::<usize>::empty());
    while i < closure.len()
        invariant
            g.wf(),
            closure@ == members,
            i <= closure@.len(),
            forall|x: usize| #[trigger] closure@.contains(x) ==> x < g.deps@.len(),
            buf@ == frames(member_pieces(*g, root as int, closure@.take(i as int))),
        decreases closure@.len() - i,
    {
        let d = closure[i];
        assert(closure@.contains(d));
        let fp = package_fingerprint_bytes(g, root, d);
        let ghost before = member_pieces(*g, root as int, closure@.take(i as int));
        push_framed(&mut buf, &g.names[d]);
        push_framed(&mut buf, &fp);
        proof {
            assert(closure@.take(i + 1).drop_last() =~= closure@.take(i as int));
            lemma_frames_push(before, name_of(*g, d as int));
            lemma_frames_push(before.push(name_of(*g, d as int)), fp@);
            assert(buf@ =~= frames(before.push(name_of(*g, d as int)).push(fp@)));
        }
        i = i + 1;
    }
    assert(closure@.take(i as int) =~= closure@);
    proof {
        lemma_frames_push(member_pieces(*g, root as int, members), env@);
    }
    push_framed(&mut buf, env);
    assert(buf@ =~= frames(state_pieces(*g, root as int, env@)));
    digest_bytes(&buf)
}

proof fn lemma_member_pieces_index(g: ResolvedGraph, root: int, members: Seq<usize>, k: int)
    requires
        0 <= k < members.len(),
    ensures
        member_pieces(g, root, members).len() == 2 * members.len(),
        member_pieces(g, root, members)[2 * k] == name_of(g, members[k] as int),
        member_pieces(g, root, members)[2 * k + 1] == package_fingerprint(g, root, members[k] as int),
    decreases members.len(),
{
    lemma_member_pieces_len(g, root, members.drop_last());
    if k < members.len() - 1 {
        lemma_member_pieces_index(g, root, members.drop_last(), k);
    }
}

proof fn lemma_member_pieces_len(g: ResolvedGraph, root: int, members: Seq<usize>)
    ensures
        member_pieces(g, root, members).len() == 2 * members.len(),
    decreases members.len(),
{
    if members.len() > 0 {
        lemma_member_pieces_len(g, root, members.drop_last());
    }
}

proof fn lemma_member_pieces_same(g1: ResolvedGraph, g2: ResolvedGraph, root: int, members: Seq<usize>)
    requires
        forall|k: int|
            0 <= k < members.len() ==> name_of(g1, #[trigger] members[k] as int) == name_of(
                g2,
                members[k] as int,
            ) && package_fingerprint(g1, root, members[k] as int) == package_fingerprint(
                g2,
                root,
                members[k] as int,
            ),
    ensures
        member_pieces(g1, root, members) == member_pieces(g2, root, members),
    decreases members.len(),
{
    if members.len() > 0 {
        let m = members.drop_last();
        assert forall|k: int| 0 <= k < m.len() implies name_of(g1, #[trigger] m[k] as int) == name_of(
            g2,
            m[k] as int,
        ) && package_fingerprint(g1, root, m[k] as int) == package_fingerprint(g2, root, m[k] as int) by {
            assert(m[k] == members[k]);
        }
        lemma_member_pieces_same(g1, g2, root, m);
        assert(members.last() == members[members.len() - 1]);
    }
}

proof fn lemma_closure_below_members(g: Seq<Seq<usize>>, root: int, n: nat)
    ensures
        forall|k: int|
            0 <= k < closure_below(g, root, n).len() ==> (#[trigger] closure_below(g, root, n)[k]) < n,
        forall|x: int| 0 <= x < n && reachable(g, root, x) ==> closure_below(g, root, n).contains(x as usize),
    decreases n,
{
    if n > 0 {
        lemma_closure_below_members(g, root, (n - 1) as nat);
        let rest = closure_below(g, root, (n - 1) as nat);
        assert forall|x: int| 0 <= x < n && reachable(g, root, x) implies closure_below(g, root, n).contains(
            x as usize,
        ) by {
            if x < n - 1 {
                let w = choose|w: int| 0 <= w < rest.len() && rest[w] == x as usize;
                assert(closure_below(g, root, n)[w] == x as usize);
            } else {
                assert(closure_below(g, root, n).last() == x as usize);
            }
        }
    }
}

/// The same source, dependency versions and toolchain fingerprint give the
/// same exported table. Two well-formed graphs over the same set of package
/// identities are numbered alike; where each package has the same name, the
/// same dependencies (however the lists are ordered) and the same
/// fingerprints, they yield identical entries and state tags.
pub proof fn lemma_export_deterministic(g1: ResolvedGraph, g2: ResolvedGraph, env: Seq<u8>, n: nat)
    requires
        g1.wf(),
        g2.wf(),
        forall|x: Seq<u8>| id_list(g1).contains(x) <==> id_list(g2).contains(x),
        forall|a: int, b: int|
            0 <= a < g1.names@.len() && 0 <= b < g2.names@.len() && g1.ids@[a]@ == g2.ids@[b]@
                ==> name_of(g1, a) == name_of(g2, b),
        n <= g1.names@.len(),
        same_dependencies(dep_lists(g1.deps@), dep_lists(g2.deps@)),
        forall|root: int, d: int|
            0 <= root < g1.names@.len() && 0 <= d < g1.names@.len() ==> package_fingerprint(g1, root, d)
                == package_fingerprint(g2, root, d),
    ensures
        g1.names@.len() == g2.names@.len(),
        forall|d: int| 0 <= d < g1.names@.len() ==> g1.ids@[d]@ == g2.ids@[d]@,
        crate::table::entries_below(g1, env, n) == crate::table::entries_below(g2, env, n),
    decreases n,
{
    lemma_sorted_unique(id_list(g1), id_list(g2));
    assert(id_list(g1).len() == g1.names@.len());
    assert(id_list(g2).len() == g2.names@.len());
    assert forall|d: int| 0 <= d < g1.names@.len() implies g1.ids@[d]@ == g2.ids@[d]@ && name_of(g1, d)
        == name_of(g2, d) by {
        assert(id_list(g1)[d] == g1.ids@[d]@);
        assert(id_list(g2)[d] == g2.ids@[d]@);
    }
    assert forall|d: int| 0 <= d < g1.names@.len() implies g1.ids@[d]@ == g2.ids@[d]@ by {
        assert(id_list(g1)[d] == g1.ids@[d]@);
        assert(id_list(g2)[d] == g2.ids@[d]@);
    }
    if n > 0 {
        lemma_export_deterministic(g1, g2, env, (n - 1) as nat);
        let i = n - 1;
        lemma_state_tag_deterministic(g1, g2, i, env);
        let (l1, l2) = (dep_lists(g1.deps@), dep_lists(g2.deps@));
        if crate::table::is_candidate(g1, i) {
            let j = choose|j: int|
                0 <= j < g1.deps@[i]@.len() && name_of(g1, #[trigger] g1.deps@[i]@[j] as int)
                    == crate::table::own_package_name();
            let x = g1.deps@[i]@[j];
            assert(l1[i][j] == x);
            assert(l1[i].contains(x));
            assert(l2[i].contains(x));
            let j2 = choose|j2: int| 0 <= j2 < l2[i].len() && l2[i][j2] == x;
            assert(g2.deps@[i]@[j2] == x);
            assert(x < g1.names@.len());
            assert(crate::table::is_candidate(g2, i));
        }
        if crate::table::is_candidate(g2, i) {
            let j = choose|j: int|
                0 <= j < g2.deps@[i]@.len() && name_of(g2, #[trigger] g2.deps@[i]@[j] as int)
                    == crate::table::own_package_name();
            let x = g2.deps@[i]@[j];
            assert(l2[i][j] == x);
            assert(l2[i].contains(x));
            assert(l1[i].contains(x));
            let j2 = choose|j2: int| 0 <= j2 < l1[i].len() && l1[i][j2] == x;
            assert(g1.deps@[i]@[j2] == x);
            assert(x < g2.names@.len());
            assert(crate::table::is_candidate(g1, i));
        }
    }
}

/// The state tag depends on names, dependency sets, fingerprints and the
/// toolchain fingerprint alone.
pub proof fn lemma_state_tag_deterministic(g1: ResolvedGraph, g2: ResolvedGraph, root: int, env: Seq<u8>)
    requires
        g1.wf(),
        g2.wf(),
        g1.names@.len() == g2.names@.len(),
        same_dependencies(dep_lists(g1.deps@), dep_lists(g2.deps@)),
        forall|d: int| 0 <= d < g1.names@.len() ==> name_of(g1, d) == name_of(g2, d),
        forall|d: int| 0 <= d < g1.names@.len() ==> package_fingerprint(g1, root, d) == package_fingerprint(g2, root, d),
    ensures
        state_pieces(g1, root, env) == state_pieces(g2, root, env),
        state_tag_of(g1, root, env) == state_tag_of(g2, root, env),
{
    let (l1, l2) = (dep_lists(g1.deps@), dep_lists(g2.deps@));
    lemma_closure_ignores_listing_order(l1, l2, root);
    let members = closure_seq(l1, root);
    lemma_closure_below_members(l1, root, l1.len());
    assert forall|k: int| 0 <= k < members.len() implies name_of(g1, #[trigger] members[k] as int) == name_of(
        g2,
        members[k] as int,
    ) && package_fingerprint(g1, root, members[k] as int) == package_fingerprint(g2, root, members[k] as int) by {
        assert(members[k] < l1.len());
    }
    lemma_member_pieces_same(g1, g2, root, members);
}

/// Where one package of the closure has another fingerprint, and nothing
/// else differs, the state tag is hashed from another input.
pub proof fn lemma_fingerprint_change_changes_state_input(
    g1: ResolvedGraph,
    g2: ResolvedGraph,
    root: int,
    env: Seq<u8>,
    d: usize,
)
    requires
        g1.wf(),
        g2.wf(),
        dep_lists(g1.deps@) == dep_lists(g2.deps@),
        forall|x: int| 0 <= x < g1.names@.len() ==> name_of(g1, x) == name_of(g2, x),
        d < g1.names@.len(),
        reachable(dep_lists(g1.deps@), root, d as int),
        package_fingerprint(g1, root, d as int) != package_fingerprint(g2, root, d as int),
        pieces_fit(state_pieces(g1, root, env)),
        pieces_fit(state_pieces(g2, root, env)),
    ensures
        frames(state_pieces(g1, root, env)) != frames(state_pieces(g2, root, env)),
{
    let l = dep_lists(g1.deps@);
    let members = closure_seq(l, root);
    lemma_closure_below_members(l, root, l.len());
    assert(members.contains(d));
    let k = choose|k: int| 0 <= k < members.len() && members[k] == d;
    lemma_member_pieces_index(g1, root, members, k);
    lemma_member_pieces_index(g2, root, members, k);
    let (m1, m2) = (member_pieces(g1, root, members), member_pieces(g2, root, members));
    assert(m1[2 * k + 1] != m2[2 * k + 1]);
    assert(state_pieces(g1, root, env)[2 * k + 1] == m1[2 * k + 1]);
    assert(state_pieces(g2, root, env)[2 * k + 1] == m2[2 * k + 1]);
    if frames(state_pieces(g1, root, env)) == frames(state_pieces(g2, root, env)) {
        lemma_frames_injective(state_pieces(g1, root, env), state_pieces(g2, root, env));
    }
}

/// Saving a source file of the root package changes what its state tag is
/// hashed from, where that changes the root's latest tracked file.
pub proof fn lemma_root_edit_changes_state_input(
    g1: ResolvedGraph,
    g2: ResolvedGraph,
    root: usize,
    env: Seq<u8>,
)
    requires
        g1.wf(),
        g2.wf(),
        dep_lists(g1.deps@) == dep_lists(g2.deps@),
        forall|x: int| 0 <= x < g1.names@.len() ==> name_of(g1, x) == name_of(g2, x),
        root < g1.names@.len(),
        g1.source_files@[root as int] is Some,
        g2.source_files@[root as int] is Some,
        latest_file(g1.source_files@[root as int]->Some_0@) != latest_file(g2.source_files@[root as int]->Some_0@),
        pieces_fit(state_pieces(g1, root as int, env)),
        pieces_fit(state_pieces(g2, root as int, env)),
    ensures
        frames(state_pieces(g1, root as int, env)) != frames(state_pieces(g2, root as int, env)),
{
    let (a, b) = (latest_file(g1.source_files@[root as int]->Some_0@), latest_file(g2.source_files@[root as int]->Some_0@));
    crate::fingerprint::lemma_fingerprint_bytes_injective(a, b);
    let p = seq![root as int];
    assert(is_walk(dep_lists(g1.deps@), p));
    assert(p.last() == root as int);
    lemma_fingerprint_change_changes_state_input(g1, g2, root as int, env, root);
}

/// Package `d` is the same in both graphs but for excluded files among its
/// listed sources.
pub open spec fn same_but_excluded_files(g1: ResolvedGraph, g2: ResolvedGraph, d: int) -> bool {
    &&& g1.ids@[d]@ == g2.ids@[d]@
    &&& name_of(g1, d) == name_of(g2, d)
    &&& g1.fingerprints@[d]@ == g2.fingerprints@[d]@
    &&& (g1.source_files@[d] is None) == (g2.source_files@[d] is None)
    &&& g1.source_files@[d] is Some ==> kept_files(g1.source_files@[d]->Some_0@) == kept_files(
        g2.source_files@[d]->Some_0@,
    )
}

/// Builds that differ only in excluded files (added, removed or edited) of
/// their packages' listed sources export the same table, and so give every
/// type the same tag.
pub proof fn lemma_excluded_files_keep_tags(
    g1: ResolvedGraph,
    g2: ResolvedGraph,
    env: Seq<u8>,
    declared_path: Seq<u8>,
    structural: u64,
)
    requires
        g1.wf(),
        g2.wf(),
        g1.names@.len() == g2.names@.len(),
        dep_lists(g1.deps@) == dep_lists(g2.deps@),
        forall|d: int| 0 <= d < g1.names@.len() ==> #[trigger] same_but_excluded_files(g1, g2, d),
    ensures
        crate::table::entries_below(g1, env, g1.names@.len() as nat) == crate::table::entries_below(
            g2,
            env,
            g2.names@.len() as nat,
        ),
        crate::type_tag::final_tag(
            crate::table::render_table(Ok(crate::table::entries_below(g1, env, g1.names@.len() as nat))),
            declared_path,
            env,
            structural,
        ) == crate::type_tag::final_tag(
            crate::table::render_table(Ok(crate::table::entries_below(g2, env, g2.names@.len() as nat))),
            declared_path,
            env,
            structural,
        ),
{
    let n = g1.names@.len();
    assert forall|d: int| 0 <= d < n implies id_list(g1)[d] == id_list(g2)[d] by {
        assert(same_but_excluded_files(g1, g2, d));
    }
    assert(id_list(g1) =~= id_list(g2));
    assert forall|a: int, b: int|
        0 <= a < n && 0 <= b < g2.names@.len() && g1.ids@[a]@ == g2.ids@[b]@ implies name_of(g1, a)
        == name_of(g2, b) by {
        assert(same_but_excluded_files(g1, g2, a));
        assert(same_but_excluded_files(g1, g2, b));
        assert(id_list(g1)[a] == g1.ids@[a]@);
        assert(id_list(g1)[b] == g2.ids@[b]@);
        lemma_lex_irreflexive(g1.ids@[a]@);
        if a < b {
            assert(lex_lt(id_list(g1)[a], id_list(g1)[b]));
        }
        if b < a {
            assert(lex_lt(id_list(g1)[b], id_list(g1)[a]));
        }
    }
    assert forall|root: int, d: int|
        0 <= root < n && 0 <= d < n implies package_fingerprint(g1, root, d) == package_fingerprint(
        g2,
        root,
        d,
    ) by {
        assert(same_but_excluded_files(g1, g2, d));
        if g1.source_files@[d] is Some && d == root {
            lemma_excluded_files_ignored(g1.source_files@[d]->Some_0@, g2.source_files@[d]->Some_0@);
        }
    }
    lemma_export_deterministic(g1, g2, env, n);
}

} // verus!
