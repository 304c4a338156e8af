//! The exported state-tag table: one `name:tag` entry per package that
//! depends on this library, comma separated, or an error sentinel.
use crate::bytes::{append_bytes, copy_bytes};
use crate::closure::dep_lists;
use crate::state_tag::{generate_state_tag_for_package, name_of, state_tag_of, ResolvedGraph};
use vstd::prelude::*;

verus! {

/// This library's package name, `pyo3-commonize`, in ASCII.
pub open spec fn own_package_name() -> Seq<u8> {
    seq![112u8, 121u8, 111u8, 51u8, 45u8, 99u8, 111u8, 109u8, 109u8, 111u8, 110u8, 105u8, 122u8, 101u8]
}

/// The sentinel that opens a failed table, `ERROR: `, in ASCII.
pub open spec fn error_prefix() -> Seq<u8> {
    seq![69u8, 82u8, 82u8, 79u8, 82u8, 58u8, 32u8]
}

/// Package `i` depends directly on this library.
pub open spec fn is_candidate(g: ResolvedGraph, i: int) -> bool {
    exists|j: int|
        0 <= j < g.deps@[i]@.len() && name_of(g, #[trigger] g.deps@[i]@[j] as int) == own_package_name()
}

/// A package name as it appears in module paths: `-` becomes `_`.
pub open spec fn module_name_of(name: Seq<u8>) -> Seq<u8> {
    name.map_values(|c: u8| if c == 45u8 { 95u8 } else { c })
}

/// The table entries of the candidates among the first `n` packages.
pub open spec fn entries_below(g: ResolvedGraph, env: Seq<u8>, n: nat) -> Seq<(Seq<u8>, u64)>
    decreases n,
{
    if n == 0 {
        seq![]
    } else {
        let rest = entries_below(g, env, (n - 1) as nat);
        if is_candidate(g, n - 1) {
            rest.push((module_name_of(name_of(g, n - 1)), state_tag_of(g, n - 1, env)))
        } else {
            rest
        }
    }
}

/// One exported entry: a module name and its package's state tag.
pub struct StateEntry {
    pub name: Vec<u8>,
    pub tag: u64,
}

/// The entries as values.
pub open spec fn entries_view(es: Seq<StateEntry>) -> Seq<(Seq<u8>, u64)> {
    es.map_values(|e: StateEntry| (e.name@, e.tag))
}

/// The decimal digits of `v`, most significant first, with no leading zero.
pub open spec fn decimal(v: nat) -> Seq<u8>
    decreases v,
{
    if v < 10 {
        seq![(48 + v) as u8]
    } else {
        decimal(v / 10).push((48 + v % 10) as u8)
    }
}

/// One entry as text: `name:tag`.
pub open spec fn entry_text(e: (Seq<u8>, u64)) -> Seq<u8> {
    e.0 + seq![58u8] + decimal(e.1 as nat)
}

/// The entries joined by commas.
pub open spec fn render_entries(es: Seq<(Seq<u8>, u64)>) -> Seq<u8>
    decreases es.len(),
{
    if es.len() == 0 {
        seq![]
    } else if es.len() == 1 {
        entry_text(es[0])
    } else {
        render_entries(es.drop_last()) + seq![44u8] + entry_text(es.last())
    }
}

/// The exported text of a table, or of the failure that replaced it.
pub open spec fn render_table(t: Result<Seq<(Seq<u8>, u64)>, Seq<u8>>) -> Seq<u8> {
    match t {
        Ok(es) => render_entries(es),
        Err(msg) => error_prefix() + msg,
    }
}

/// Whether `name` is this library's package name.
fn is_own_package_name(name: &Vec<u8>) -> (r: bool)
    ensures
        r == (name@ == own_package_name()),
{
    let own: [u8; 14] = [112u8, 121u8, 111u8, 51u8, 45u8, 99u8, 111u8, 109u8, 109u8, 111u8, 110u8, 105u8, 122u8, 101u8];
    let r = crate::bytes::bytes_eq(name.as_slice(), own.as_slice());
    assert(own@ =~= own_package_name());
    r
}

/// Whether package `i` depends directly on this library.
pub fn depends_on_this_library(g: &ResolvedGraph, i: usize) -> (r: bool)
    requires
        g.wf(),
        i < g.names@.len(),
    ensures
        r == is_candidate(*g, i as int),
{
    let deps = &g.deps[i];
    let mut j: usize = 0;
    while j < deps.len()
        invariant
            g.wf(),
            i < g.names@.len(),
            deps@ == g.deps@[i as int]@,
            j <= deps@.len(),
            forall|k: int| 0 <= k < j ==> name_of(*g, #[trigger] deps@[k] as int) != own_package_name(),
        decreases deps@.len() - j,
    {
        let d = deps[j];
        assert(deps@[j as int] == d);
        assert(dep_lists(g.deps@)[i as int][j as int] == d);
        if is_own_package_name(&g.names[d]) {
            return true;
        }
        j = j + 1;
    }
    false
}

/// `name` with every `-` replaced by `_`.
pub fn to_module_name(name: &Vec<u8>) -> (r: Vec<u8>)
    ensures
        r@ == module_name_of(name@),
{
    let mut r: Vec<u8> = Vec::new();
    let mut i: usize = 0;
    while i < name.len()
        invariant
            i <= name@.len(),
            r@ == module_name_of(name@.subrange(0, i as int)),
        decreases name@.len() - i,
    {
        let c = name[i];
        r.push(if c == 45u8 { 95u8 } else { c });
        assert(module_name_of(name@.subrange(0, i + 1)) =~= module_name_of(name@.subrange(0, i as int)).push(
            if c == 45u8 { 95u8 } else { c },
        ));
        i = i + 1;
    }
    assert(name@.subrange(0, i as int) =~= name@);
    r
}

/// The entry of every package that depends directly on this library, in
/// index order: its module name and its state tag under toolchain
/// fingerprint `env`.
pub fn generate_state_table(g: &ResolvedGraph, env: &Vec<u8>) -> (r: Vec<StateEntry>)
    requires
        g.wf(),
    ensures
        entries_view(r@) == entries_below(*g, env@, g.names@.len() as nat),
{
    let mut r: Vec<StateEntry> = Vec::new();
    let mut i: usize = 0;
    while i < g.names.len()
        invariant
            g.wf(),
            i <= g.names@.len(),
            entries_view(r@) == entries_below(*g, env@, i as nat),
        decreases g.names@.len() - i,
    {
        if depends_on_this_library(g, i) {
            let name = to_module_name(&g.names[i]);
            let tag = generate_state_tag_for_package(g, i, env);
            let ghost before = r@;
            r.push(StateEntry { name, tag });
            assert(entries_view(r@) =~= entries_view(before).push((module_name_of(name_of(*g, i as int)), tag)));
        }
        i = i + 1;
    }
    r
}

/// Appends the decimal digits of `v`.
pub fn push_decimal(out: &mut Vec<u8>, v: u64)
    ensures
        final(out)@ == old(out)@ + decimal(v as nat),
    decreases v,
{
    if v >= 10 {
        push_decimal(out, v / 10);
    }
    out.push(48u8 + (v % 10) as u8);
    assert(final(out)@ =~= old(out)@ + decimal(v as nat));
}

/// The exported text of `table`: its entries as `name:tag`, joined by
/// commas, or `ERROR: ` and the message of the failure that replaced it.
pub fn render_state_table(table: &Result<Vec<StateEntry>, Vec<u8>>) -> (r: Vec<u8>)
    ensures
        r@ == render_table(match table {
            Ok(es) => Ok(entries_view(es@)),
            Err(msg) => Err(msg@),
        }),
{
    match table {
        Ok(es) => {
            let mut out: Vec<u8> = Vec::new();
            let mut i: usize = 0;
            while i < es.len()
                invariant
                    i <= es@.len(),
                    out@ == render_entries(entries_view(es@.take(i as int))),
                decreases es@.len() - i,
            {
                let ghost before = out@;
                if i > 0 {
                    out.push(44u8);
                }
                append_bytes(&mut out, es[i].name.as_slice());
                out.push(58u8);
                push_decimal(&mut out, es[i].tag);
                proof {
                    let vs = entries_view(es@.take(i + 1));
                    assert(vs.drop_last() =~= entries_view(es@.take(i as int)));
                    assert(vs.last() == (es@[i as int].name@, es@[i as int].tag));
                    if i == 0 {
                        assert(out@ =~= entry_text(vs[0]));
                    } else {
                        assert(out@ =~= before + seq![44u8] + entry_text(vs.last()));
                    }
                }
                i = i + 1;
            }
            assert(es@.take(i as int) =~= es@);
            out
        },
        Err(msg) => {
            let mut out: Vec<u8> = Vec::new();
            let prefix: [u8; 7] = [69u8, 82u8, 82u8, 79u8, 82u8, 58u8, 32u8];
            append_bytes(&mut out, prefix.as_slice());
            append_bytes(&mut out, msg.as_slice());
            assert(prefix@ =~= error_prefix());
            assert(out@ =~= error_prefix() + msg@);
            out
        },
    }
}

/// The exported table of a workspace: the state table of `g` if the
/// resolver succeeded, else the sentinel with the resolver's message.
pub fn export_state_table(resolved: &Result<ResolvedGraph, Vec<u8>>, env: &Vec<u8>) -> (r: Vec<u8>)
    requires
        resolved matches Ok(g) ==> g.wf(),
    ensures
        r@ == render_table(match resolved {
            Ok(g) => Ok(entries_below(*g, env@, g.names@.len() as nat)),
            Err(msg) => Err(msg@),
        }),
{
    let table: Result<Vec<StateEntry>, Vec<u8>> = match resolved {
        Ok(g) => Ok(generate_state_table(g, env)),
        Err(msg) => Err(copy_bytes(msg)),
    };
    render_state_table(&table)
}

} // verus!
