use pyo3_commonize::closure::resolve_deps;
use pyo3_commonize::digest::digest_bytes;
use pyo3_commonize::fingerprint::{is_excluded_extension, root_fingerprint, FileStamp, TrackedFile};
use pyo3_commonize::registry::{DescriptorCell, DescriptorHandle, SharedSlot, UnifyOutcome};
use pyo3_commonize::state_tag::{generate_state_tag_for_package, ResolvedGraph};
use pyo3_commonize::table::{
    export_state_table, generate_state_table, push_decimal, render_state_table, to_module_name, StateEntry,
};
use pyo3_commonize::type_tag::{combine_type_tag, generate_final_tag, get_module_name, get_tag, lookup_state_entry, TagError};
use pyo3_commonize::{commonize, CommonizeError};
use std::hash::{DefaultHasher, Hash, Hasher};

fn b(s: &str) -> Vec<u8> {
    s.as_bytes().to_vec()
}

fn file(path: &str, ext: Option<&str>, seconds: i64) -> TrackedFile {
    TrackedFile { path: b(path), extension: ext.map(b), modified: FileStamp { seconds, nanos: 0 } }
}

fn framed(out: &mut Vec<u8>, bytes: &[u8]) {
    out.extend_from_slice(&(bytes.len() as u64).to_le_bytes());
    out.extend_from_slice(bytes);
}

fn std_digest(bytes: &[u8]) -> u64 {
    let mut h = DefaultHasher::new();
    h.write(bytes);
    h.finish()
}

// Packages in name order: helper (0) and my-app (1) depend on
// pyo3-commonize (2); unused (3) depends on my-app.
fn sample_graph(deps_of_app: Vec<usize>) -> ResolvedGraph {
    ResolvedGraph {
        ids: vec![b("helper 1.0.0"), b("my-app 0.1.0"), b("pyo3-commonize 0.1.0"), b("unused 1.0.0")],
        names: vec![b("helper"), b("my-app"), b("pyo3-commonize"), b("unused")],
        deps: vec![vec![2], deps_of_app, vec![], vec![1]],
        fingerprints: vec![b("fh"), b("fa"), b("fc"), b("fu")],
        source_files: vec![None, Some(vec![file("src/lib.rs", Some("rs"), 100)]), None, None],
    }
}

#[test]
fn closure_is_sorted_and_complete() {
    let deps = vec![vec![2, 1], vec![2], vec![], vec![0]];
    assert_eq!(resolve_deps(&deps, 0), vec![0, 1, 2]);
    assert_eq!(resolve_deps(&deps, 3), vec![0, 1, 2, 3]);
    assert_eq!(resolve_deps(&deps, 2), vec![2]);
    let cyclic = vec![vec![1], vec![0]];
    assert_eq!(resolve_deps(&cyclic, 1), vec![0, 1]);
}

#[test]
fn state_tag_is_deterministic_and_order_free() {
    let env = b("x86_64-unknown-linux-gnux86_64-unknown-linux-gnu3");
    let g1 = sample_graph(vec![0, 2]);
    let g2 = sample_graph(vec![2, 0, 2]);
    let t1 = generate_state_tag_for_package(&g1, 1, &env);
    assert_eq!(t1, generate_state_tag_for_package(&g1, 1, &env));
    assert_eq!(t1, generate_state_tag_for_package(&g2, 1, &env));
}

#[test]
fn state_tag_hashes_closure_then_env() {
    let env = b("E");
    let g = sample_graph(vec![0, 2]);
    let mut expected = Vec::new();
    framed(&mut expected, b"helper");
    framed(&mut expected, b"fh");
    framed(&mut expected, b"pyo3-commonize");
    framed(&mut expected, b"fc");
    framed(&mut expected, &env);
    assert_eq!(generate_state_tag_for_package(&g, 0, &env), std_digest(&expected));
}

#[test]
fn root_fingerprint_bytes_in_state_tag() {
    let env = b("E");
    let g = ResolvedGraph {
        ids: vec![b("solo 0.1.0")],
        names: vec![b("solo")],
        deps: vec![vec![]],
        fingerprints: vec![b("manager")],
        source_files: vec![Some(vec![file("src/a.rs", Some("rs"), 5)])],
    };
    let mut fp = Vec::new();
    fp.extend_from_slice(&((5i128 + (1i128 << 63)) as u64).to_le_bytes());
    fp.extend_from_slice(&0u64.to_le_bytes());
    fp.extend_from_slice(b"src/a.rs");
    let mut expected = Vec::new();
    framed(&mut expected, b"solo");
    framed(&mut expected, &fp);
    framed(&mut expected, &env);
    assert_eq!(generate_state_tag_for_package(&g, 0, &env), std_digest(&expected));
}

#[test]
fn divergent_fingerprint_gives_divergent_tags() {
    let env = b("E");
    let g1 = sample_graph(vec![0, 2]);
    let mut g2 = sample_graph(vec![0, 2]);
    g2.fingerprints[0] = b("fh-2");
    let t1 = generate_state_tag_for_package(&g1, 1, &env);
    let t2 = generate_state_tag_for_package(&g2, 1, &env);
    assert_ne!(t1, t2);
    let st = get_tag(&b("struct T ;"));
    let ta = generate_final_tag(&b(&format!("my_app:{}", t1)), &b("my_app::m"), &env, st).ok().unwrap();
    let tb = generate_final_tag(&b(&format!("my_app:{}", t2)), &b("my_app::m"), &env, st).ok().unwrap();
    assert_ne!(ta, tb);
    let mut slot = SharedSlot::new();
    let mut cell_a = DescriptorCell::new();
    let mut cell_b = DescriptorCell::new();
    let da = DescriptorHandle { id: 1 };
    let db = DescriptorHandle { id: 2 };
    assert_eq!(pyo3_commonize::registry::unify(&mut slot, &mut cell_a, ta, da), Ok(UnifyOutcome::FirstWriter(da)));
    assert_eq!(pyo3_commonize::registry::unify(&mut slot, &mut cell_b, tb, db), Ok(UnifyOutcome::FirstWriter(db)));
    assert_eq!(slot.lookup(ta), Some(da));
    assert_eq!(slot.lookup(tb), Some(db));
}

#[test]
fn root_edit_changes_fingerprint_but_stub_edit_does_not() {
    let env = b("E");
    let base = vec![file("src/lib.rs", Some("rs"), 100), file("mod.pyi", Some("pyi"), 50), file("Cargo.toml", Some("toml"), 90)];
    let fp = root_fingerprint(&base);
    assert_eq!(fp.modified, FileStamp { seconds: 100, nanos: 0 });
    assert_eq!(fp.path, b("src/lib.rs"));

    let mut stub_edit = base.clone_files();
    stub_edit[1].modified = FileStamp { seconds: 500, nanos: 0 };
    let fp2 = root_fingerprint(&stub_edit);
    assert_eq!(fp2.modified, fp.modified);
    assert_eq!(fp2.path, fp.path);

    let mut real_edit = base.clone_files();
    real_edit[2].modified = FileStamp { seconds: 200, nanos: 1 };
    let fp3 = root_fingerprint(&real_edit);
    assert_eq!(fp3.modified, FileStamp { seconds: 200, nanos: 1 });
    assert_eq!(fp3.path, b("Cargo.toml"));

    let mut g1 = sample_graph(vec![0]);
    g1.source_files[1] = Some(base.clone_files());
    let mut g2 = sample_graph(vec![0]);
    g2.source_files[1] = Some(stub_edit);
    let mut g3 = sample_graph(vec![0]);
    g3.source_files[1] = Some(real_edit);
    let t1 = generate_state_tag_for_package(&g1, 1, &env);
    assert_eq!(t1, generate_state_tag_for_package(&g2, 1, &env));
    assert_ne!(t1, generate_state_tag_for_package(&g3, 1, &env));
}

trait CloneFiles {
    fn clone_files(&self) -> Vec<TrackedFile>;
}

impl CloneFiles for Vec<TrackedFile> {
    fn clone_files(&self) -> Vec<TrackedFile> {
        self.iter()
            .map(|f| TrackedFile { path: f.path.clone(), extension: f.extension.clone(), modified: f.modified })
            .collect()
    }
}

#[test]
fn fingerprint_of_no_files_is_epoch() {
    let fp = root_fingerprint(&Vec::new());
    assert_eq!(fp.modified, FileStamp { seconds: 0, nanos: 0 });
    assert!(fp.path.is_empty());
    let only_old = vec![file("a.rs", Some("rs"), -5), file("b.so", Some("so"), 9)];
    let fp = root_fingerprint(&only_old);
    assert_eq!(fp.modified, FileStamp { seconds: 0, nanos: 0 });
    assert!(fp.path.is_empty());
}

#[test]
fn ties_keep_first_file() {
    let files = vec![file("a.rs", None, 7), file("b.rs", Some("rs"), 7)];
    assert_eq!(root_fingerprint(&files).path, b("a.rs"));
}

#[test]
fn excluded_extensions() {
    for e in ["pyd", "pyc", "pyi", "so", "dylib"] {
        assert!(is_excluded_extension(&b(e)));
    }
    for e in ["rs", "py", "toml", "", "s", "dylibs"] {
        assert!(!is_excluded_extension(&b(e)));
    }
}

#[test]
fn structural_tag_is_order_sensitive() {
    let a = b("struct T { x : u32 , y : u32 }");
    let c = b("struct T { y : u32 , x : u32 }");
    let mut h = DefaultHasher::new();
    "struct T { x : u32 , y : u32 }".hash(&mut h);
    assert_eq!(get_tag(&a), h.finish());
    assert_ne!(get_tag(&a), get_tag(&c));
    let env = b("E");
    assert_ne!(combine_type_tag(&b("m:1"), &env, get_tag(&a)), combine_type_tag(&b("m:1"), &env, get_tag(&c)));
}

#[test]
fn type_tag_hash_input() {
    let mut h = DefaultHasher::new();
    "m:12".hash(&mut h);
    "env".hash(&mut h);
    77u64.hash(&mut h);
    assert_eq!(combine_type_tag(&b("m:12"), &b("env"), 77), h.finish());
}

#[test]
fn digest_matches_default_hasher() {
    assert_eq!(digest_bytes(&b("abc")), std_digest(b"abc"));
    assert_ne!(digest_bytes(&b("abc")), digest_bytes(&b("abd")));
}

#[test]
fn module_name_is_leading_segment() {
    assert_eq!(get_module_name(&b("my_crate::sub::inner")), b("my_crate"));
    assert_eq!(get_module_name(&b("my_crate")), b("my_crate"));
    assert_eq!(get_module_name(&b("a:b::c")), b("a:b"));
    assert_eq!(get_module_name(&b("")), b(""));
    assert_eq!(get_module_name(&b("::x")), b(""));
}

#[test]
fn module_name_of_package() {
    assert_eq!(to_module_name(&b("pyo3-commonize-donor")), b("pyo3_commonize_donor"));
}

#[test]
fn decimal_digits() {
    let mut out = b("x");
    push_decimal(&mut out, 0);
    assert_eq!(out, b("x0"));
    let mut out = Vec::new();
    push_decimal(&mut out, u64::MAX);
    assert_eq!(out, b("18446744073709551615"));
}

#[test]
fn table_renders_entries_and_sentinel() {
    let t: Result<Vec<StateEntry>, Vec<u8>> =
        Ok(vec![StateEntry { name: b("a_b"), tag: 12 }, StateEntry { name: b("c"), tag: 0 }]);
    assert_eq!(render_state_table(&t), b("a_b:12,c:0"));
    let empty: Result<Vec<StateEntry>, Vec<u8>> = Ok(vec![]);
    assert_eq!(render_state_table(&empty), b(""));
    let failed: Result<Vec<StateEntry>, Vec<u8>> = Err(b("Cannot find root manifest"));
    assert_eq!(render_state_table(&failed), b("ERROR: Cannot find root manifest"));
}

#[test]
fn table_lists_dependents_of_this_library() {
    let env = b("E");
    let g = sample_graph(vec![0, 2]);
    let entries = generate_state_table(&g, &env);
    assert_eq!(entries.len(), 2);
    assert_eq!(entries[0].name, b("helper"));
    assert_eq!(entries[1].name, b("my_app"));
    assert_eq!(entries[1].tag, generate_state_tag_for_package(&g, 1, &env));
    let text = export_state_table(&Ok(sample_graph(vec![0, 2])), &env);
    let expected = format!("helper:{},my_app:{}", entries[0].tag, entries[1].tag);
    assert_eq!(text, b(&expected));
    assert_eq!(export_state_table(&Err(b("boom")), &env), b("ERROR: boom"));
}

#[test]
fn lookup_finds_exactly_one_entry() {
    let table = b("alpha:1,beta:22,alphabet:3");
    assert_eq!(lookup_state_entry(&table, &b("beta")).ok(), Some(b("beta:22")));
    assert_eq!(lookup_state_entry(&table, &b("alpha")).ok(), Some(b("alpha:1")));
    assert!(matches!(lookup_state_entry(&table, &b("gamma")), Err(TagError::UnknownPackage)));
    assert!(matches!(lookup_state_entry(&b("a:1,a:2"), &b("a")), Err(TagError::AmbiguousPackage)));
    assert!(matches!(lookup_state_entry(&b(""), &b("a")), Err(TagError::UnknownPackage)));
    match lookup_state_entry(&b("ERROR: no manifest"), &b("a")) {
        Err(TagError::BuildFailed(m)) => assert_eq!(m, b("no manifest")),
        _ => panic!("expected the build failure"),
    }
}

#[test]
fn final_tag_from_table() {
    let env = b("E");
    let table = b("donor:5,acceptor:6");
    let st = get_tag(&b("struct T ;"));
    let t = generate_final_tag(&table, &b("donor::types"), &env, st).ok().unwrap();
    assert_eq!(t, combine_type_tag(&b("donor:5"), &env, st));
    assert_eq!(t, generate_final_tag(&table, &b("donor"), &env, st).ok().unwrap());
    assert_ne!(t, generate_final_tag(&table, &b("acceptor"), &env, st).ok().unwrap());
    assert!(matches!(generate_final_tag(&table, &b("other::x"), &env, st), Err(TagError::UnknownPackage)));
}

#[test]
fn commonize_two_modules_of_one_package() {
    let env = b("E");
    let table = b("shared:9");
    let st = get_tag(&b("struct T { a : i32 }"));
    let mut slot = SharedSlot::new();
    let mut cell_a = DescriptorCell::new();
    let mut cell_b = DescriptorCell::new();
    let da = DescriptorHandle { id: 11 };
    let db = DescriptorHandle { id: 22 };
    let ra = commonize(&table, &b("shared::types"), &env, st, &mut slot, &mut cell_a, da);
    assert!(matches!(ra, Ok(UnifyOutcome::FirstWriter(d)) if d == da));
    let rb = commonize(&table, &b("shared::types"), &env, st, &mut slot, &mut cell_b, db);
    assert!(matches!(rb, Ok(UnifyOutcome::Reused(d)) if d == da));
    assert_eq!(cell_b.descriptor(), Some(da));
    let rc = commonize(&table, &b("missing::types"), &env, st, &mut slot, &mut cell_b, db);
    assert!(matches!(rc, Err(CommonizeError::Tag(TagError::UnknownPackage))));
    let failed = b("ERROR: resolver failed");
    let rd = commonize(&failed, &b("shared::types"), &env, st, &mut slot, &mut cell_b, db);
    assert!(matches!(rd, Err(CommonizeError::Tag(TagError::BuildFailed(_)))));
}

#[test]
fn lookup_ignores_entry_order() {
    let a = lookup_state_entry(&b("x:1,donor:5,y:2"), &b("donor")).ok();
    let c = lookup_state_entry(&b("y:2,x:1,donor:5"), &b("donor")).ok();
    assert_eq!(a, Some(b("donor:5")));
    assert_eq!(a, c);
}

#[test]
fn added_excluded_file_is_ignored() {
    let base = vec![file("src/lib.rs", Some("rs"), 100)];
    let more = vec![file("ext.so", Some("so"), 900), file("src/lib.rs", Some("rs"), 100), file("m.pyd", Some("pyd"), 901)];
    let (f1, f2) = (root_fingerprint(&base), root_fingerprint(&more));
    assert_eq!(f1.modified, f2.modified);
    assert_eq!(f1.path, f2.path);
}

#[test]
fn commonize_twice_is_idempotent() {
    let env = b("E");
    let table = b("shared:9");
    let st = get_tag(&b("struct T ;"));
    let mut slot = SharedSlot::new();
    let mut cell = DescriptorCell::new();
    let d = DescriptorHandle { id: 5 };
    let r1 = commonize(&table, &b("shared"), &env, st, &mut slot, &mut cell, d);
    assert!(matches!(r1, Ok(UnifyOutcome::FirstWriter(x)) if x == d));
    assert_eq!(cell.get_or_init(DescriptorHandle { id: 6 }), d);
    let r2 = commonize(&table, &b("shared"), &env, st, &mut slot, &mut cell, DescriptorHandle { id: 7 });
    assert!(matches!(r2, Ok(UnifyOutcome::Reused(x)) if x == d));
    assert_eq!(cell.descriptor(), Some(d));
}

#[test]
fn packages_may_share_a_name() {
    let env = b("E");
    let g = ResolvedGraph {
        ids: vec![b("app 0.1.0"), b("pyo3-commonize 0.1.0"), b("syn 1.0.109"), b("syn 2.0.119")],
        names: vec![b("app"), b("pyo3-commonize"), b("syn"), b("syn")],
        deps: vec![vec![1, 3], vec![2], vec![], vec![]],
        fingerprints: vec![b("fa"), b("fc"), b("s1"), b("s2")],
        source_files: vec![None, None, None, None],
    };
    let mut expected = Vec::new();
    for (n, f) in [("app", "fa"), ("pyo3-commonize", "fc"), ("syn", "s1"), ("syn", "s2")] {
        framed(&mut expected, n.as_bytes());
        framed(&mut expected, f.as_bytes());
    }
    framed(&mut expected, &env);
    assert_eq!(generate_state_tag_for_package(&g, 0, &env), std_digest(&expected));
    let text = export_state_table(&Ok(g), &env);
    assert!(text.starts_with(b"app:"));
}
