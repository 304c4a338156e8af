//! The tag of one type: read the owning package's entry from the exported
//! table and hash it with the toolchain fingerprint and the type's
//! structural tag.
use crate::bytes::{append_bytes, copy_bytes, starts_with};
use crate::digest::{digest_bytes, digest_of, lemma_le_bytes_injective, lemma_le_bytes_len, push_u64, radix, u64_bytes};
use crate::table::error_prefix;
use vstd::prelude::*;

verus! {

/// Why a type's tag could not be derived.
pub enum TagError {
    /// The table was replaced by the sentinel; this is the failure's message.
    BuildFailed(Vec<u8>),
    /// No entry names the type's package.
    UnknownPackage,
    /// More than one entry names the type's package.
    AmbiguousPackage,
}

/// A `TagError` as a value.
pub enum TagErrorModel {
    BuildFailed(Seq<u8>),
    UnknownPackage,
    AmbiguousPackage,
}

impl View for TagError {
    type V = TagErrorModel;

    open spec fn view(&self) -> TagErrorModel {
        match self {
            TagError::BuildFailed(m) => TagErrorModel::BuildFailed(m@),
            TagError::UnknownPackage => TagErrorModel::UnknownPackage,
            TagError::AmbiguousPackage => TagErrorModel::AmbiguousPackage,
        }
    }
}

/// `p` holds `::` at position `i`.
pub open spec fn path_separator_at(p: Seq<u8>, i: int) -> bool {
    0 <= i && i + 1 < p.len() && p[i] == 58u8 && p[i + 1] == 58u8
}

/// Where the first segment of `p` that starts at or after `i` ends: the
/// first `::` from `i` on, or the end.
pub open spec fn segment_end(p: Seq<u8>, i: nat) -> nat
    decreases p.len() - i,
{
    if i >= p.len() {
        p.len()
    } else if path_separator_at(p, i as int) {
        i
    } else {
        segment_end(p, i + 1)
    }
}

/// The leading segment of a module path: the package the path belongs to.
pub open spec fn leading_segment(p: Seq<u8>) -> Seq<u8> {
    p.take(segment_end(p, 0) as int)
}

/// The package part of a module path: everything before its first `::`.
pub fn get_module_name(declared_path: &Vec<u8>) -> (r: Vec<u8>)
    ensures
        r@ == leading_segment(declared_path@),
{
    let p = declared_path;
    let mut i: usize = 0;
    while i < p.len() && !(i + 1 < p.len() && p[i] == 58u8 && p[i + 1] == 58u8)
        invariant
            i <= p@.len(),
            segment_end(p@, 0) == segment_end(p@, i as nat),
        decreases p@.len() - i,
    {
        i = i + 1;
    }
    let mut r: Vec<u8> = Vec::new();
    let mut k: usize = 0;
    while k < i
        invariant
            i <= p@.len(),
            k <= i,
            r@ == p@.take(k as int),
        decreases i - k,
    {
        r.push(p[k]);
        assert(p@.take(k + 1) =~= p@.take(k as int).push(p@[k as int]));
        k = k + 1;
    }
    r
}

/// The comma-separated fields of `s`; an empty text has one empty field.
pub open spec fn split_commas(s: Seq<u8>) -> Seq<Seq<u8>>
    decreases s.len(),
{
    if s.len() == 0 {
        seq![seq![]]
    } else {
        let r = split_commas(s.drop_last());
        if s.last() == 44u8 {
            r.push(seq![])
        } else {
            r.update(r.len() - 1, r.last().push(s.last()))
        }
    }
}

/// `key` opens `s`.
pub open spec fn has_prefix(s: Seq<u8>, key: Seq<u8>) -> bool {
    key.len() <= s.len() && s.take(key.len() as int) == key
}

/// The fields that `key` opens, in order.
pub open spec fn fields_with_prefix(fields: Seq<Seq<u8>>, key: Seq<u8>) -> Seq<Seq<u8>>
    decreases fields.len(),
{
    if fields.len() == 0 {
        seq![]
    } else {
        let rest = fields_with_prefix(fields.drop_last(), key);
        if has_prefix(fields.last(), key) {
            rest.push(fields.last())
        } else {
            rest
        }
    }
}

/// The entry of package `module` in the exported table `text`: the one
/// field that starts with `module` and `:`.
pub open spec fn lookup_entry(text: Seq<u8>, module: Seq<u8>) -> Result<Seq<u8>, TagErrorModel> {
    if has_prefix(text, error_prefix()) {
        Err(TagErrorModel::BuildFailed(text.skip(error_prefix().len() as int)))
    } else {
        let found = fields_with_prefix(split_commas(text), module.push(58u8));
        if found.len() == 1 {
            Ok(found[0])
        } else if found.len() == 0 {
            Err(TagErrorModel::UnknownPackage)
        } else {
            Err(TagErrorModel::AmbiguousPackage)
        }
    }
}

proof fn lemma_prefix_counts(fields: Seq<Seq<u8>>, key: Seq<u8>, x: Seq<u8>)
    ensures
        fields_with_prefix(fields, key).to_multiset().count(x) == if has_prefix(x, key) {
            fields.to_multiset().count(x)
        } else {
            0
        },
    decreases fields.len(),
{
    broadcast use vstd::seq_lib::group_to_multiset_ensures;

    if fields.len() == 0 {
        assert(!fields.contains(x));
        assert(!fields_with_prefix(fields, key).contains(x));
    } else {
        let init = fields.drop_last();
        lemma_prefix_counts(init, key, x);
        assert(fields =~= init.push(fields.last()));
    }
}

/// Which entry a package gets depends on the fields of the table, never on
/// their order: tables whose fields are the same up to order give the same
/// result.
pub proof fn lemma_lookup_ignores_entry_order(t1: Seq<u8>, t2: Seq<u8>, module: Seq<u8>)
    requires
        !has_prefix(t1, error_prefix()),
        !has_prefix(t2, error_prefix()),
        split_commas(t1).to_multiset() == split_commas(t2).to_multiset(),
    ensures
        lookup_entry(t1, module) == lookup_entry(t2, module),
{
    broadcast use vstd::seq_lib::group_to_multiset_ensures;

    let key = module.push(58u8);
    let (p1, p2) = (fields_with_prefix(split_commas(t1), key), fields_with_prefix(split_commas(t2), key));
    assert forall|x: Seq<u8>| p1.to_multiset().count(x) == p2.to_multiset().count(x) by {
        lemma_prefix_counts(split_commas(t1), key, x);
        lemma_prefix_counts(split_commas(t2), key, x);
    }
    assert(p1.to_multiset() =~= p2.to_multiset());
    assert(p1.len() == p1.to_multiset().len());
    assert(p2.len() == p2.to_multiset().len());
    if p1.len() == 1 {
        assert(p1.contains(p1[0]));
        assert(p2.to_multiset().count(p1[0]) > 0);
        assert(p2.contains(p1[0]));
    }
}

/// The result as a value.
pub open spec fn entry_result_view(r: Result<Vec<u8>, TagError>) -> Result<Seq<u8>, TagErrorModel> {
    match r {
        Ok(e) => Ok(e@),
        Err(e) => Err(e@),
    }
}

/// Whether `text[start..end]` starts with `key`.
fn field_has_prefix(text: &Vec<u8>, start: usize, end: usize, key: &Vec<u8>) -> (r: bool)
    requires
        start <= end <= text@.len(),
    ensures
        r == has_prefix(text@.subrange(start as int, end as int), key@),
{
    let ghost f = text@.subrange(start as int, end as int);
    if key.len() > end - start {
        return false;
    }
    let mut i: usize = 0;
    while i < key.len()
        invariant
            start <= end <= text@.len(),
            key@.len() <= end - start,
            f == text@.subrange(start as int, end as int),
            i <= key@.len(),
            f.take(i as int) == key@.take(i as int),
        decreases key@.len() - i,
    {
        if text[start + i] != key[i] {
            assert(f.take(key@.len() as int)[i as int] != key@[i as int]);
            return false;
        }
        assert(f.take(i + 1) =~= f.take(i as int).push(f[i as int]));
        assert(key@.take(i + 1) =~= key@.take(i as int).push(key@[i as int]));
        i = i + 1;
    }
    assert(key@.take(i as int) =~= key@);
    true
}

/// A copy of `text[start..end]`.
fn copy_range(text: &Vec<u8>, start: usize, end: usize) -> (r: Vec<u8>)
    requires
        start <= end <= text@.len(),
    ensures
        r@ == text@.subrange(start as int, end as int),
{
    let mut r: Vec<u8> = Vec::new();
    let mut i: usize = start;
    while i < end
        invariant
            start <= i <= end <= text@.len(),
            r@ == text@.subrange(start as int, i as int),
        decreases end - i,
    {
        r.push(text[i]);
        assert(text@.subrange(start as int, i + 1) =~= text@.subrange(start as int, i as int).push(text@[i as int]));
        i = i + 1;
    }
    r
}

/// The entry of package `module` in the exported table `text`. Fails with
/// the table's own message where the table is the error sentinel, and where
/// no entry, or more than one, names the package.
pub fn lookup_state_entry(text: &Vec<u8>, module: &Vec<u8>) -> (r: Result<Vec<u8>, TagError>)
    ensures
        entry_result_view(r) == lookup_entry(text@, module@),
{
    let prefix: [u8; 7] = [69u8, 82u8, 82u8, 79u8, 82u8, 58u8, 32u8];
    assert(prefix@ =~= error_prefix());
    if starts_with(text.as_slice(), prefix.as_slice()) {
        return Err(TagError::BuildFailed(copy_range(text, 7, text.len())));
    }
    let mut key = copy_bytes(module);
    key.push(58u8);
    let ghost mut done: Seq<Seq<u8>> = seq![];
    let mut start: usize = 0;
    let mut count: usize = 0;
    let mut first: Option<(usize, usize)> = None;
    let mut i: usize = 0;
    proof {
        assert(text@.take(0) =~= Seq::<u8>::empty());
        assert(text@.subrange(0, 0) =~= Seq::<u8>::empty());
        assert(done.push(text@.subrange(0, 0)) =~= seq![Seq::<u8>::empty()]);
    }
    while i < text.len()
        invariant
            key@ == module@.push(58u8),
            start <= i <= text@.len(),
            split_commas(text@.take(i as int)) == done.push(text@.subrange(start as int, i as int)),
            count as int == if fields_with_prefix(done, key@).len() >= 2 {
                2
            } else {
                fields_with_prefix(done, key@).len() as int
            },
            match first {
                Some((a, b)) => count >= 1 && a <= b <= text@.len() && fields_with_prefix(done, key@)[0]
                    == text@.subrange(a as int, b as int),
                None => count == 0,
            },
        decreases text@.len() - i,
    {
        proof {
            let t = text@.take(i + 1);
            assert(t.drop_last() =~= text@.take(i as int));
            assert(t.last() == text@[i as int]);
        }
        if text[i] == 44u8 {
            let matched = field_has_prefix(text, start, i, &key);
            let ghost field = text@.subrange(start as int, i as int);
            let ghost before = fields_with_prefix(done, key@);
            let ghost old_done = done;
            proof {
                done = done.push(field);
                assert(done.drop_last() =~= old_done);
                assert(done.last() == field);
                assert(split_commas(text@.take(i + 1)) =~= old_done.push(field).push(Seq::<u8>::empty()));
            }
            if matched {
                if count == 0 {
                    first = Some((start, i));
                }
                if count < 2 {
                    count = count + 1;
                }
            }
            proof {
                assert(text@.subrange(i + 1, i + 1) =~= Seq::<u8>::empty());
                if matched {
                    assert(fields_with_prefix(done, key@) == before.push(field));
                }
            }
            start = i + 1;
        } else {
            proof {
                let cur = text@.subrange(start as int, i as int);
                assert(text@.subrange(start as int, i + 1) =~= cur.push(text@[i as int]));
                let r = done.push(cur);
                assert(r.update(r.len() - 1, r.last().push(text@[i as int])) =~= done.push(
                    cur.push(text@[i as int]),
                ));
            }
        }
        i = i + 1;
    }
    let matched = field_has_prefix(text, start, i, &key);
    let ghost field = text@.subrange(start as int, i as int);
    let ghost before = fields_with_prefix(done, key@);
    let ghost old_done = done;
    proof {
        assert(text@.take(i as int) =~= text@);
        done = done.push(field);
        assert(done.drop_last() =~= old_done);
        assert(done.last() == field);
    }
    if matched {
        if count == 0 {
            first = Some((start, i));
        }
        if count < 2 {
            count = count + 1;
        }
    }
    proof {
        if matched {
            assert(fields_with_prefix(done, key@) == before.push(field));
        }
    }
    if count == 1 {
        match first {
            Some((a, b)) => Ok(copy_range(text, a, b)),
            None => Err(TagError::UnknownPackage),
        }
    } else if count == 0 {
        Err(TagError::UnknownPackage)
    } else {
        Err(TagError::AmbiguousPackage)
    }
}

/// The byte that std's `Hash` for strings feeds after a string's bytes;
/// it never occurs in UTF-8 text.
pub open spec fn terminated(s: Seq<u8>) -> Seq<u8> {
    s.push(0xffu8)
}

/// No byte of `s` is the string terminator, as in any UTF-8 text.
pub open spec fn terminator_free(s: Seq<u8>) -> bool {
    forall|i: int| 0 <= i < s.len() ==> s[i] != 0xffu8
}

/// The structural tag of a type: the hash of its declaration's normalized
/// text, fields and variants in the order written, fed as a string.
pub open spec fn structural_tag_of(declaration: Seq<u8>) -> u64 {
    digest_of(terminated(declaration))
}

/// The structural tag of the declaration whose normalized text is `declaration`.
pub fn get_tag(declaration: &Vec<u8>) -> (r: u64)
    ensures
        r == structural_tag_of(declaration@),
{
    let mut buf = copy_bytes(declaration);
    buf.push(0xffu8);
    digest_bytes(&buf)
}

/// What a type tag is hashed from, in the order and form that std's `Hash`
/// feeds them: the package's table entry and the toolchain fingerprint as
/// strings, then the structural tag as a 64-bit little-endian `usize`.
pub open spec fn type_tag_input(entry: Seq<u8>, env: Seq<u8>, structural: u64) -> Seq<u8> {
    terminated(entry) + terminated(env) + u64_bytes(structural as nat)
}

/// The type tag.
pub open spec fn type_tag_of(entry: Seq<u8>, env: Seq<u8>, structural: u64) -> u64 {
    digest_of(type_tag_input(entry, env, structural))
}

/// Hashes a table entry, the toolchain fingerprint and a structural tag
/// into the type tag.
pub fn combine_type_tag(entry: &Vec<u8>, env: &Vec<u8>, structural: u64) -> (r: u64)
    ensures
        r == type_tag_of(entry@, env@, structural),
{
    let mut buf: Vec<u8> = Vec::new();
    append_bytes(&mut buf, entry.as_slice());
    buf.push(0xffu8);
    append_bytes(&mut buf, env.as_slice());
    buf.push(0xffu8);
    push_u64(&mut buf, structural);
    assert(buf@ =~= type_tag_input(entry@, env@, structural));
    digest_bytes(&buf)
}

/// The tag of a type declared under `declared_path`, with structural tag
/// `structural`, given the exported table `table` and the toolchain
/// fingerprint `env`; or why there is none.
pub open spec fn final_tag(table: Seq<u8>, declared_path: Seq<u8>, env: Seq<u8>, structural: u64) -> Result<
    u64,
    TagErrorModel,
> {
    match lookup_entry(table, leading_segment(declared_path)) {
        Ok(e) => Ok(type_tag_of(e, env, structural)),
        Err(x) => Err(x),
    }
}

/// The tag of a type declared under `declared_path`: its package's entry
/// in `table`, hashed with `env` and the structural tag.
pub fn generate_final_tag(table: &Vec<u8>, declared_path: &Vec<u8>, env: &Vec<u8>, structural: u64) -> (r:
    Result<u64, TagError>)
    ensures
        match r {
            Ok(t) => final_tag(table@, declared_path@, env@, structural) == Ok::<u64, TagErrorModel>(t),
            Err(e) => final_tag(table@, declared_path@, env@, structural) == Err::<u64, TagErrorModel>(e@),
        },
{
    let module = get_module_name(declared_path);
    match lookup_state_entry(table, &module) {
        Ok(entry) => Ok(combine_type_tag(&entry, env, structural)),
        Err(e) => Err(e),
    }
}

/// Terminator-free text followed by the terminator can be told apart from
/// what follows it.
pub proof fn lemma_terminated_prefix(a: Seq<u8>, b: Seq<u8>, ra: Seq<u8>, rb: Seq<u8>)
    requires
        terminator_free(a),
        terminator_free(b),
        terminated(a) + ra == terminated(b) + rb,
    ensures
        a == b,
        ra == rb,
{
    let (x, y) = (terminated(a) + ra, terminated(b) + rb);
    if a.len() < b.len() {
        assert(x[a.len() as int] == 0xffu8);
        assert(y[a.len() as int] == b[a.len() as int]);
    }
    if b.len() < a.len() {
        assert(y[b.len() as int] == 0xffu8);
        assert(x[b.len() as int] == a[b.len() as int]);
    }
    assert(x.subrange(0, a.len() as int) =~= a);
    assert(y.subrange(0, b.len() as int) =~= b);
    assert(x.subrange(a.len() as int + 1, x.len() as int) =~= ra);
    assert(y.subrange(b.len() as int + 1, y.len() as int) =~= rb);
}

/// The input of a type tag's hash determines entry, toolchain fingerprint
/// and structural tag, for entries and fingerprints that are text: a change
/// of any of them changes what is hashed.
pub proof fn lemma_type_tag_input_injective(
    e1: Seq<u8>,
    v1: Seq<u8>,
    s1: u64,
    e2: Seq<u8>,
    v2: Seq<u8>,
    s2: u64,
)
    requires
        terminator_free(e1),
        terminator_free(v1),
        terminator_free(e2),
        terminator_free(v2),
        type_tag_input(e1, v1, s1) == type_tag_input(e2, v2, s2),
    ensures
        e1 == e2,
        v1 == v2,
        s1 == s2,
{
    let (t1, t2) = (terminated(v1) + u64_bytes(s1 as nat), terminated(v2) + u64_bytes(s2 as nat));
    assert(type_tag_input(e1, v1, s1) =~= terminated(e1) + t1);
    assert(type_tag_input(e2, v2, s2) =~= terminated(e2) + t2);
    lemma_terminated_prefix(e1, e2, t1, t2);
    lemma_terminated_prefix(v1, v2, u64_bytes(s1 as nat), u64_bytes(s2 as nat));
    reveal_with_fuel(radix, 9);
    lemma_le_bytes_injective(s1 as nat, s2 as nat, 8);
}

/// A declaration whose structural tag differs (a field or variant
/// reordered, renamed or added) gives a different input to the type tag's
/// hash, under the same table entry and toolchain fingerprint.
pub proof fn lemma_structural_change_changes_type_tag_input(
    old_declaration: Seq<u8>,
    new_declaration: Seq<u8>,
    entry: Seq<u8>,
    env: Seq<u8>,
)
    requires
        structural_tag_of(old_declaration) != structural_tag_of(new_declaration),
    ensures
        type_tag_input(entry, env, structural_tag_of(old_declaration)) != type_tag_input(
            entry,
            env,
            structural_tag_of(new_declaration),
        ),
{
    let (s1, s2) = (structural_tag_of(old_declaration), structural_tag_of(new_declaration));
    let (x, y) = (type_tag_input(entry, env, s1), type_tag_input(entry, env, s2));
    lemma_le_bytes_len(s1 as nat, 8);
    lemma_le_bytes_len(s2 as nat, 8);
    let k: int = entry.len() as int + env.len() as int + 2;
    if x == y {
        assert(x.subrange(k, k + 8) =~= u64_bytes(s1 as nat));
        assert(y.subrange(k, k + 8) =~= u64_bytes(s2 as nat));
        reveal_with_fuel(radix, 9);
        lemma_le_bytes_injective(s1 as nat, s2 as nat, 8);
    }
}

} // verus!
