//! The process-wide registry of canonical descriptors, the per-type
//! descriptor cell, and the `unify` protocol that ties them together.
use std::collections::HashMap;
use vstd::prelude::*;

verus! {

broadcast use vstd::std_specs::hash::group_hash_axioms;

/// An owned reference to one of the host's type descriptors.
#[derive(Clone, Copy, Debug, PartialEq, Eq, Structural)]
pub struct DescriptorHandle {
    pub id: u64,
}

/// What a descriptor cell holds.
pub struct CellState {
    /// The descriptor written into the cell, if any.
    pub descriptor: Option<DescriptorHandle>,
    /// Runtime records the host attaches beside the descriptor.
    pub auxiliary: Seq<u64>,
    /// Whether the descriptor has been handed out through the normal path.
    pub exposed: bool,
}

/// A type's lazily built descriptor storage: a write-once cell together with
/// the auxiliary records that accompany the descriptor.
pub struct DescriptorCell {
    descriptor: Option<DescriptorHandle>,
    auxiliary: Vec<u64>,
    exposed: bool,
}

impl View for DescriptorCell {
    type V = CellState;

    closed spec fn view(&self) -> CellState {
        CellState { descriptor: self.descriptor, auxiliary: self.auxiliary@, exposed: self.exposed }
    }
}

impl DescriptorCell {
    /// An empty cell.
    pub fn new() -> (r: Self)
        ensures
            r@ == (CellState { descriptor: None, auxiliary: seq![], exposed: false }),
    {
        DescriptorCell { descriptor: None, auxiliary: Vec::new(), exposed: false }
    }

    /// The normal one-time write: succeeds only on an empty cell.
    pub fn try_initialize(&mut self, value: DescriptorHandle) -> (r: bool)
        ensures
            r == old(self)@.descriptor.is_none(),
            final(self)@ == (if r {
                CellState { descriptor: Some(value), ..old(self)@ }
            } else {
                old(self)@
            }),
    {
        if self.descriptor.is_none() {
            self.descriptor = Some(value);
            true
        } else {
            false
        }
    }

    /// Records one more auxiliary entry beside the descriptor.
    pub fn attach_auxiliary(&mut self, record: u64)
        ensures
            final(self)@ == (CellState { auxiliary: old(self)@.auxiliary.push(record), ..old(self)@ }),
    {
        self.auxiliary.push(record);
    }

    /// The host's normal path: builds the descriptor from `build` if the cell
    /// is empty, and hands the cell's descriptor out.
    pub fn get_or_init(&mut self, build: DescriptorHandle) -> (r: DescriptorHandle)
        ensures
            r == own_descriptor(old(self)@, build),
            final(self)@ == (CellState { descriptor: Some(r), exposed: true, ..old(self)@ }),
    {
        let d = match self.descriptor {
            Some(d) => d,
            None => build,
        };
        self.descriptor = Some(d);
        self.exposed = true;
        d
    }

    /// The privileged overwrite: replaces whatever the cell holds with
    /// `value` and drops the auxiliary records of the replaced descriptor.
    pub fn force_rebind(&mut self, value: DescriptorHandle)
        ensures
            final(self)@ == (CellState {
                descriptor: Some(value),
                auxiliary: seq![],
                exposed: old(self)@.exposed,
            }),
    {
        self.descriptor = Some(value);
        self.auxiliary = Vec::new();
    }

    /// The descriptor currently in the cell.
    pub fn descriptor(&self) -> (r: Option<DescriptorHandle>)
        ensures
            r == self@.descriptor,
    {
        self.descriptor
    }
}

/// The canonical descriptor of each type tag seen so far.
pub struct Registry {
    entries: HashMap<u64, DescriptorHandle>,
}

impl View for Registry {
    type V = Map<u64, DescriptorHandle>;

    closed spec fn view(&self) -> Map<u64, DescriptorHandle> {
        self.entries@
    }
}

impl Registry {
    /// A registry with no entry.
    pub fn new() -> (r: Self)
        ensures
            r@ == Map::<u64, DescriptorHandle>::empty(),
    {
        Registry { entries: HashMap::new() }
    }

    /// The canonical descriptor registered under `tag`.
    pub fn lookup(&self, tag: u64) -> (r: Option<DescriptorHandle>)
        ensures
            r == (if self@.contains_key(tag) {
                Some(self@[tag])
            } else {
                None
            }),
    {
        match self.entries.get(&tag) {
            Some(d) => Some(*d),
            None => None,
        }
    }

    /// Makes `d` canonical for a tag that has none yet.
    fn register(&mut self, tag: u64, d: DescriptorHandle)
        requires
            !old(self)@.contains_key(tag),
        ensures
            final(self)@ == old(self)@.insert(tag, d),
    {
        self.entries.insert(tag, d);
    }
}

/// The slot, shared by every module of the process, that holds the registry
/// once some module has created it.
pub struct SharedSlot {
    registry: Option<Registry>,
}

impl View for SharedSlot {
    type V = Option<Map<u64, DescriptorHandle>>;

    closed spec fn view(&self) -> Option<Map<u64, DescriptorHandle>> {
        match self.registry {
            Some(r) => Some(r@),
            None => None,
        }
    }
}

impl SharedSlot {
    /// A slot in which no registry was created yet.
    pub fn new() -> (r: Self)
        ensures
            r@ == Option::<Map<u64, DescriptorHandle>>::None,
    {
        SharedSlot { registry: None }
    }

    /// The canonical descriptor registered under `tag`, if the registry exists.
    pub fn lookup(&self, tag: u64) -> (r: Option<DescriptorHandle>)
        ensures
            r == (if registry_of(self@).contains_key(tag) {
                Some(registry_of(self@)[tag])
            } else {
                None
            }),
    {
        match &self.registry {
            Some(reg) => reg.lookup(tag),
            None => None,
        }
    }
}

/// How `unify` settled a type's descriptor.
#[derive(Clone, Copy, Debug, PartialEq, Eq, Structural)]
pub enum UnifyOutcome {
    /// No module had registered the tag: the caller's descriptor became canonical.
    FirstWriter(DescriptorHandle),
    /// The tag was registered: the caller's cell now aliases this descriptor.
    Reused(DescriptorHandle),
}

/// Why `unify` refused to rebind a cell.
#[derive(Clone, Copy, Debug, PartialEq, Eq, Structural)]
pub enum UnifyError {
    /// The cell's own descriptor was already handed out, so replacing it
    /// would leave some code with a stale descriptor.
    DescriptorAlreadyExposed,
}

impl UnifyOutcome {
    /// The canonical descriptor.
    pub fn handle(&self) -> (r: DescriptorHandle)
        ensures
            r == self.handle_spec(),
    {
        match self {
            UnifyOutcome::FirstWriter(d) => *d,
            UnifyOutcome::Reused(d) => *d,
        }
    }

    pub open spec fn handle_spec(&self) -> DescriptorHandle {
        match *self {
            UnifyOutcome::FirstWriter(d) => d,
            UnifyOutcome::Reused(d) => d,
        }
    }
}

/// The registry held by a slot; an absent registry counts as empty.
pub open spec fn registry_of(slot: Option<Map<u64, DescriptorHandle>>) -> Map<
    u64,
    DescriptorHandle,
> {
    match slot {
        Some(m) => m,
        None => Map::empty(),
    }
}

/// The descriptor that a cell yields on its normal path, built from `build`
/// if the cell is still empty.
pub open spec fn own_descriptor(cell: CellState, build: DescriptorHandle) -> DescriptorHandle {
    match cell.descriptor {
        Some(d) => d,
        None => build,
    }
}

/// Whether the cell must be refused a rebind to `canonical`.
pub open spec fn rebind_refused(cell: CellState, canonical: DescriptorHandle) -> bool {
    cell.exposed && cell.descriptor != Some(canonical)
}

/// What `unify` returns for a registry `reg` and a cell in state `cell`.
pub open spec fn unify_result(
    reg: Map<u64, DescriptorHandle>,
    cell: CellState,
    tag: u64,
    build: DescriptorHandle,
) -> Result<UnifyOutcome, UnifyError> {
    if reg.contains_key(tag) {
        if rebind_refused(cell, reg[tag]) {
            Err(UnifyError::DescriptorAlreadyExposed)
        } else {
            Ok(UnifyOutcome::Reused(reg[tag]))
        }
    } else {
        Ok(UnifyOutcome::FirstWriter(own_descriptor(cell, build)))
    }
}

/// The registry after `unify`: only the first caller of a tag inserts.
pub open spec fn registry_after(
    reg: Map<u64, DescriptorHandle>,
    cell: CellState,
    tag: u64,
    build: DescriptorHandle,
) -> Map<u64, DescriptorHandle> {
    if reg.contains_key(tag) {
        reg
    } else {
        reg.insert(tag, own_descriptor(cell, build))
    }
}

/// The cell after `unify`.
pub open spec fn cell_after(
    reg: Map<u64, DescriptorHandle>,
    cell: CellState,
    tag: u64,
    build: DescriptorHandle,
) -> CellState {
    if reg.contains_key(tag) {
        if cell.descriptor == Some(reg[tag]) || cell.exposed {
            cell
        } else {
            CellState { descriptor: Some(reg[tag]), auxiliary: seq![], exposed: false }
        }
    } else {
        CellState { descriptor: Some(own_descriptor(cell, build)), ..cell }
    }
}

/// What to do with a type's cell, given what the registry holds for its tag.
#[derive(Clone, Copy, Debug, PartialEq, Eq, Structural)]
pub enum RegistryAction {
    /// No descriptor is registered: register the cell's own.
    Register,
    /// The cell already holds the registered descriptor: change nothing.
    Keep(DescriptorHandle),
    /// Overwrite the cell with the registered descriptor.
    Rebind(DescriptorHandle),
    /// The cell's other descriptor was handed out: fail.
    Refuse,
}

/// The action for a type whose tag has `registered` in the registry, whose
/// cell holds `cell`, and whose descriptor was handed out if `exposed`.
pub open spec fn action_for(
    registered: Option<DescriptorHandle>,
    cell: Option<DescriptorHandle>,
    exposed: bool,
) -> RegistryAction {
    match registered {
        None => RegistryAction::Register,
        Some(c) => if cell == Some(c) {
            RegistryAction::Keep(c)
        } else if exposed {
            RegistryAction::Refuse
        } else {
            RegistryAction::Rebind(c)
        },
    }
}

/// The decision step of `unify`, on plain values: a host that keeps the
/// registry and the cell in its own storage performs the action returned.
pub fn registry_action(registered: Option<DescriptorHandle>, cell: Option<DescriptorHandle>, exposed: bool) -> (r:
    RegistryAction)
    ensures
        r == action_for(registered, cell, exposed),
{
    match registered {
        None => RegistryAction::Register,
        Some(c) => if cell == Some(c) {
            RegistryAction::Keep(c)
        } else if exposed {
            RegistryAction::Refuse
        } else {
            RegistryAction::Rebind(c)
        },
    }
}

/// `unify` follows the decision step: its result and new state are those of
/// the action for the registered descriptor and the cell.
pub proof fn lemma_unify_follows_action(
    reg: Map<u64, DescriptorHandle>,
    cell: CellState,
    tag: u64,
    build: DescriptorHandle,
)
    ensures
        ({
            let registered = if reg.contains_key(tag) {
                Some(reg[tag])
            } else {
                None
            };
            match action_for(registered, cell.descriptor, cell.exposed) {
                RegistryAction::Register => unify_result(reg, cell, tag, build) == Ok::<
                    UnifyOutcome,
                    UnifyError,
                >(UnifyOutcome::FirstWriter(own_descriptor(cell, build))) && registry_after(
                    reg,
                    cell,
                    tag,
                    build,
                ) == reg.insert(tag, own_descriptor(cell, build)),
                RegistryAction::Keep(c) => unify_result(reg, cell, tag, build) == Ok::<
                    UnifyOutcome,
                    UnifyError,
                >(UnifyOutcome::Reused(c)) && registry_after(reg, cell, tag, build) == reg
                    && cell_after(reg, cell, tag, build) == cell,
                RegistryAction::Rebind(c) => unify_result(reg, cell, tag, build) == Ok::<
                    UnifyOutcome,
                    UnifyError,
                >(UnifyOutcome::Reused(c)) && registry_after(reg, cell, tag, build) == reg
                    && cell_after(reg, cell, tag, build).descriptor == Some(c),
                RegistryAction::Refuse => unify_result(reg, cell, tag, build) == Err::<
                    UnifyOutcome,
                    UnifyError,
                >(UnifyError::DescriptorAlreadyExposed) && registry_after(reg, cell, tag, build)
                    == reg && cell_after(reg, cell, tag, build) == cell,
            }
        }),
{
}

/// Settles the descriptor of the type tagged `tag`, whose cell is `cell` and
/// whose normal path would build `build`. Creates the registry in `slot` if
/// absent. The first caller of a tag registers its own descriptor; every
/// later caller gets its cell rebound to that one.
pub fn unify(slot: &mut SharedSlot, cell: &mut DescriptorCell, tag: u64, build: DescriptorHandle) -> (r:
    Result<UnifyOutcome, UnifyError>)
    ensures
        r == unify_result(registry_of(old(slot)@), old(cell)@, tag, build),
        final(slot)@ == Some(registry_after(registry_of(old(slot)@), old(cell)@, tag, build)),
        final(cell)@ == cell_after(registry_of(old(slot)@), old(cell)@, tag, build),
{
    let mut reg = match slot.registry.take() {
        Some(reg) => reg,
        None => Registry::new(),
    };
    let r = match registry_action(reg.lookup(tag), cell.descriptor, cell.exposed) {
        RegistryAction::Keep(canonical) => Ok(UnifyOutcome::Reused(canonical)),
        RegistryAction::Refuse => Err(UnifyError::DescriptorAlreadyExposed),
        RegistryAction::Rebind(canonical) => {
            cell.force_rebind(canonical);
            Ok(UnifyOutcome::Reused(canonical))
        },
        RegistryAction::Register => {
            cell.try_initialize(build);
            let d = match cell.descriptor {
                Some(d) => d,
                None => build,
            };
            reg.register(tag, d);
            Ok(UnifyOutcome::FirstWriter(d))
        },
    };
    slot.registry = Some(reg);
    r
}

/// The registry after the modules whose cells are `cells`, and whose normal
/// paths would build `builds`, have each unified `tag`, in order.
pub open spec fn registry_after_all(
    reg: Map<u64, DescriptorHandle>,
    cells: Seq<CellState>,
    tag: u64,
    builds: Seq<DescriptorHandle>,
) -> Map<u64, DescriptorHandle>
    decreases cells.len(),
{
    if cells.len() == 0 {
        reg
    } else {
        registry_after(
            registry_after_all(reg, cells.drop_last(), tag, builds.drop_last()),
            cells.last(),
            tag,
            builds.last(),
        )
    }
}

proof fn lemma_registry_after_prefix(
    reg: Map<u64, DescriptorHandle>,
    cells: Seq<CellState>,
    tag: u64,
    builds: Seq<DescriptorHandle>,
    n: int,
)
    requires
        !reg.contains_key(tag),
        cells.len() == builds.len(),
        1 <= n <= cells.len(),
    ensures
        registry_after_all(reg, cells.take(n), tag, builds.take(n)) == reg.insert(
            tag,
            own_descriptor(cells[0], builds[0]),
        ),
    decreases n,
{
    let (c, b) = (cells.take(n), builds.take(n));
    assert(c.drop_last() =~= cells.take(n - 1));
    assert(b.drop_last() =~= builds.take(n - 1));
    if n == 1 {
        assert(cells.take(0) =~= Seq::<CellState>::empty());
        assert(registry_after_all(reg, cells.take(0), tag, builds.take(0)) == reg);
    } else {
        lemma_registry_after_prefix(reg, cells, tag, builds, n - 1);
    }
}

/// Modules that unify one tag, each once and before exposing it, all end up
/// with the descriptor of the first of them: the first registers it, every
/// later one is rebound to it, and the registry keeps that one entry.
pub proof fn lemma_single_canonical(
    reg: Map<u64, DescriptorHandle>,
    cells: Seq<CellState>,
    tag: u64,
    builds: Seq<DescriptorHandle>,
)
    requires
        !reg.contains_key(tag),
        cells.len() == builds.len(),
        cells.len() > 0,
        forall|i: int| 0 <= i < cells.len() ==> !cells[i].exposed,
    ensures
        ({
            let first = own_descriptor(cells[0], builds[0]);
            &&& registry_after_all(reg, cells, tag, builds) == reg.insert(tag, first)
            &&& forall|i: int|
                0 <= i < cells.len() ==> {
                    let before = registry_after_all(reg, cells.take(i), tag, builds.take(i));
                    &&& unify_result(before, #[trigger] cells[i], tag, builds[i]) == (if i == 0 {
                        Ok::<UnifyOutcome, UnifyError>(UnifyOutcome::FirstWriter(first))
                    } else {
                        Ok(UnifyOutcome::Reused(first))
                    })
                    &&& cell_after(before, cells[i], tag, builds[i]).descriptor == Some(first)
                }
        }),
{
    let first = own_descriptor(cells[0], builds[0]);
    lemma_registry_after_prefix(reg, cells, tag, builds, cells.len() as int);
    assert(cells.take(cells.len() as int) =~= cells);
    assert(builds.take(builds.len() as int) =~= builds);
    assert forall|i: int| 0 <= i < cells.len() implies {
        let before = registry_after_all(reg, cells.take(i), tag, builds.take(i));
        &&& unify_result(before, #[trigger] cells[i], tag, builds[i]) == (if i == 0 {
            Ok::<UnifyOutcome, UnifyError>(UnifyOutcome::FirstWriter(first))
        } else {
            Ok(UnifyOutcome::Reused(first))
        })
        &&& cell_after(before, cells[i], tag, builds[i]).descriptor == Some(first)
    } by {
        if i == 0 {
            assert(cells.take(0) =~= Seq::<CellState>::empty());
        } else {
            lemma_registry_after_prefix(reg, cells, tag, builds, i);
        }
    }
}

/// Unifying a type a second time, after a first call succeeded, returns the
/// same canonical descriptor and leaves registry and cell as they were.
pub proof fn lemma_unify_idempotent(
    reg: Map<u64, DescriptorHandle>,
    cell: CellState,
    tag: u64,
    build: DescriptorHandle,
    rebuild: DescriptorHandle,
)
    requires
        unify_result(reg, cell, tag, build) is Ok,
    ensures
        ({
            let reg1 = registry_after(reg, cell, tag, build);
            let cell1 = cell_after(reg, cell, tag, build);
            let canonical = unify_result(reg, cell, tag, build)->Ok_0.handle_spec();
            &&& unify_result(reg1, cell1, tag, rebuild) == Ok::<UnifyOutcome, UnifyError>(
                UnifyOutcome::Reused(canonical),
            )
            &&& registry_after(reg1, cell1, tag, rebuild) == reg1
            &&& cell_after(reg1, cell1, tag, rebuild) == cell1
        }),
{
}

/// Types with different tags never alias: each of two modules that unify
/// distinct fresh tags keeps its own descriptor as canonical.
pub proof fn lemma_distinct_tags_independent(
    reg: Map<u64, DescriptorHandle>,
    tag_a: u64,
    cell_a: CellState,
    build_a: DescriptorHandle,
    tag_b: u64,
    cell_b: CellState,
    build_b: DescriptorHandle,
)
    requires
        tag_a != tag_b,
        !reg.contains_key(tag_a),
        !reg.contains_key(tag_b),
    ensures
        ({
            let (own_a, own_b) = (own_descriptor(cell_a, build_a), own_descriptor(cell_b, build_b));
            let reg1 = registry_after(reg, cell_a, tag_a, build_a);
            &&& unify_result(reg, cell_a, tag_a, build_a) == Ok::<UnifyOutcome, UnifyError>(
                UnifyOutcome::FirstWriter(own_a),
            )
            &&& unify_result(reg1, cell_b, tag_b, build_b) == Ok::<UnifyOutcome, UnifyError>(
                UnifyOutcome::FirstWriter(own_b),
            )
            &&& registry_after(reg1, cell_b, tag_b, build_b) == reg.insert(tag_a, own_a).insert(
                tag_b,
                own_b,
            )
            &&& cell_after(reg1, cell_b, tag_b, build_b).descriptor == Some(own_b)
        }),
{
}

} // verus!
