//! Projects on disk: the list of recordings, schema versions, and where a
//! project is saved.

use vstd::prelude::*;
use crate::export_job::{resolve_project_file, ProjectFile};
use crate::models::{EVENTS_SCHEMA_VERSION, PROJECT_SCHEMA_VERSION};
use crate::order::{before, is_stable_order, stable_order};
use crate::text::{decimal, push_decimal, push_str, string_from_chars, trim};

verus! {

broadcast use vstd::string::group_string_axioms;

/// A project as the project list shows it.
#[derive(Debug)]
pub struct ProjectListItem {
    pub id: String,
    pub name: String,
    pub created_at: u64,
    pub duration_ms: u64,
    pub video_width: u32,
    pub video_height: u32,
    pub project_path: String,
    pub folder_path: String,
    pub modified_time_ms: u64,
}

impl ProjectListItem {
    /// A copy of the item.
    pub fn duplicate(&self) -> (r: ProjectListItem)
        ensures
            r == *self,
    {
        ProjectListItem {
            id: self.id.clone(),
            name: self.name.clone(),
            created_at: self.created_at,
            duration_ms: self.duration_ms,
            video_width: self.video_width,
            video_height: self.video_height,
            project_path: self.project_path.clone(),
            folder_path: self.folder_path.clone(),
            modified_time_ms: self.modified_time_ms,
        }
    }
}

/// Sort key of an item: the newest first, by creation and then by last
/// modification.
pub open spec fn list_key(item: ProjectListItem) -> u128 {
    ((u64::MAX - item.created_at) * 0x1_0000_0000_0000_0000 + (u64::MAX - item.modified_time_ms)) as u128
}

pub open spec fn list_keys(items: Seq<ProjectListItem>) -> Seq<u128> {
    Seq::new(items.len(), |i: int| list_key(items[i]))
}

/// `a` is listed before `b`: it was created later, or at the same time and
/// modified no earlier.
pub open spec fn listed_before(a: ProjectListItem, b: ProjectListItem) -> bool {
    a.created_at > b.created_at || (a.created_at == b.created_at && a.modified_time_ms >= b.modified_time_ms)
}

proof fn lemma_list_key_order(a: ProjectListItem, b: ProjectListItem)
    requires
        list_key(a) <= list_key(b),
    ensures
        listed_before(a, b),
{
    let ha: int = u64::MAX - a.created_at;
    let la: int = u64::MAX - a.modified_time_ms;
    let hb: int = u64::MAX - b.created_at;
    let lb: int = u64::MAX - b.modified_time_ms;
    let base: int = 0x1_0000_0000_0000_0000;
    assert(0 <= ha * base + la <= u128::MAX && 0 <= hb * base + lb <= u128::MAX) by (nonlinear_arith)
        requires 0 <= ha <= u64::MAX, 0 <= la <= u64::MAX, 0 <= hb <= u64::MAX, 0 <= lb <= u64::MAX, base == 0x1_0000_0000_0000_0000int;
    assert(list_key(a) == ha * base + la);
    assert(list_key(b) == hb * base + lb);
    assert(ha < hb || (ha == hb && la <= lb)) by (nonlinear_arith)
        requires
            ha * base + la <= hb * base + lb,
            0 <= la < base,
            0 <= lb < base,
            base > 0,
    ;
}

/// The project list, newest first: by creation time, then by modification
/// time, both descending; items that tie keep their order.
pub fn sort_project_list(items: &Vec<ProjectListItem>) -> (r: Vec<ProjectListItem>)
    ensures
        exists|order: Seq<usize>| #![trigger is_stable_order(order, list_keys(items@))]
            is_stable_order(order, list_keys(items@)) && r@.len() == order.len()
                && forall|i: int| 0 <= i < order.len() ==> #[trigger] r@[i] == items@[order[i] as int],
        forall|i: int, j: int| 0 <= i < j < r@.len() ==> listed_before(#[trigger] r@[i], #[trigger] r@[j]),
{
    let mut keys: Vec<u128> = Vec::new();
    let mut i: usize = 0;
    while i < items.len()
        invariant
            i <= items@.len(),
            keys@.len() == i,
            forall|j: int| 0 <= j < i ==> #[trigger] keys@[j] == list_key(items@[j]),
        decreases items.len() - i,
    {
        let it = &items[i];
        let hi = (u64::MAX - it.created_at) as u128;
        let lo = (u64::MAX - it.modified_time_ms) as u128;
        assert(hi * 0x1_0000_0000_0000_0000 + lo <= u128::MAX) by (nonlinear_arith)
            requires hi <= u64::MAX, lo <= u64::MAX;
        keys.push(hi * 0x1_0000_0000_0000_0000 + lo);
        i += 1;
    }
    assert(keys@ =~= list_keys(items@));
    let order = stable_order(&keys);
    let mut r: Vec<ProjectListItem> = Vec::new();
    let mut k: usize = 0;
    while k < order.len()
        invariant
            is_stable_order(order@, keys@),
            keys@.len() == items@.len(),
            k <= order.len(),
            r@.len() == k,
            forall|j: int| 0 <= j < k ==> #[trigger] r@[j] == items@[order@[j] as int],
        decreases order.len() - k,
    {
        r.push(items[order[k]].duplicate());
        k += 1;
    }
    assert forall|i: int, j: int| 0 <= i < j < r@.len() implies listed_before(#[trigger] r@[i], #[trigger] r@[j]) by {
        let (a, b) = (order@[i] as int, order@[j] as int);
        assert(before(keys@, a, b));
        lemma_list_key_order(items@[a], items@[b]);
    }
    r
}

/// The modification time of a project file, or its creation time when the
/// file system gives none.
pub fn modified_or_created(modified_ms: Option<u64>, created_at: u64) -> (t: u64)
    ensures
        t == match modified_ms { Some(m) => m, None => created_at },
{
    match modified_ms {
        Some(m) => m,
        None => created_at,
    }
}

/// A file's schema version this build does not support.
#[derive(Clone, Copy, Debug, PartialEq, Eq, Structural)]
pub enum SchemaError {
    UnsupportedProject(u32),
    UnsupportedEvents(u32),
    RefuseToSave(u32),
}

impl SchemaError {
    pub fn message(&self) -> (m: String)
        ensures
            m@ == match *self {
                SchemaError::UnsupportedProject(v) => "Unsupported project schemaVersion: expected 1, got "@ + decimal(v as nat),
                SchemaError::UnsupportedEvents(v) => "Unsupported events schemaVersion: expected 1, got "@ + decimal(v as nat),
                SchemaError::RefuseToSave(v) => "Refusing to save unsupported schemaVersion: "@ + decimal(v as nat),
            },
    {
        let mut out: Vec<char> = Vec::new();
        match self {
            SchemaError::UnsupportedProject(v) => {
                push_str(&mut out, "Unsupported project schemaVersion: expected 1, got ");
                push_decimal(&mut out, *v as u64);
            },
            SchemaError::UnsupportedEvents(v) => {
                push_str(&mut out, "Unsupported events schemaVersion: expected 1, got ");
                push_decimal(&mut out, *v as u64);
            },
            SchemaError::RefuseToSave(v) => {
                push_str(&mut out, "Refusing to save unsupported schemaVersion: ");
                push_decimal(&mut out, *v as u64);
            },
        }
        string_from_chars(out.as_slice())
    }
}

/// A loaded project must have the supported schema version.
pub fn check_project_schema(version: u32) -> (r: Result<(), SchemaError>)
    ensures
        version == PROJECT_SCHEMA_VERSION ==> r is Ok,
        version != PROJECT_SCHEMA_VERSION ==> r == Err::<(), SchemaError>(SchemaError::UnsupportedProject(version)),
{
    if version == PROJECT_SCHEMA_VERSION { Ok(()) } else { Err(SchemaError::UnsupportedProject(version)) }
}

/// A loaded events file must have the supported schema version.
pub fn check_events_schema(version: u32) -> (r: Result<(), SchemaError>)
    ensures
        version == EVENTS_SCHEMA_VERSION ==> r is Ok,
        version != EVENTS_SCHEMA_VERSION ==> r == Err::<(), SchemaError>(SchemaError::UnsupportedEvents(version)),
{
    if version == EVENTS_SCHEMA_VERSION { Ok(()) } else { Err(SchemaError::UnsupportedEvents(version)) }
}

/// Only projects of the supported schema version are saved.
pub fn check_project_schema_for_save(version: u32) -> (r: Result<(), SchemaError>)
    ensures
        version == PROJECT_SCHEMA_VERSION ==> r is Ok,
        version != PROJECT_SCHEMA_VERSION ==> r == Err::<(), SchemaError>(SchemaError::RefuseToSave(version)),
{
    if version == PROJECT_SCHEMA_VERSION { Ok(()) } else { Err(SchemaError::RefuseToSave(version)) }
}

/// Where a project is saved.
pub enum SaveTarget {
    /// The file the caller named.
    Given(ProjectFile),
    /// The project's file in the default projects folder.
    Default,
}

/// The file a project is saved to: the given path unless it is missing or
/// blank.
pub fn save_target(project_path: Option<String>) -> (t: SaveTarget)
    ensures
        match project_path {
            Some(p) => if trim(p@).len() > 0 {
                t matches SaveTarget::Given(f) && f.path@ == trim(p@)
            } else {
                t is Default
            },
            None => t is Default,
        },
{
    match project_path {
        Some(p) => {
            match resolve_project_file(p.as_str()) {
                Ok(f) => SaveTarget::Given(f),
                Err(_) => SaveTarget::Default,
            }
        },
        None => SaveTarget::Default,
    }
}

} // verus!
