//! Module graph: a dependency-ordered bundle of modules with resolved
//! imports.
//!
//! The builder accumulates modules in dependency order. A direct dependency
//! is recorded only when it names a module that already stands earlier in
//! the ordering, so the built graph carries the ordering invariant by
//! construction: every dependency of a module precedes it.

use vstd::prelude::*;

use crate::text::Text;

verus! {

/// Opaque module identifier: the module's path string.
///
/// Identity is the path's content: adding a second module under the same
/// path shadows the first in every lookup.
pub struct ModuleId {
    pub path: String,
}

/// A module: its identity and its source text.
pub struct Module {
    pub id: ModuleId,
    pub source: Text,
}

/// Resolved import: a local alias bound to an export of a source module.
pub struct ResolvedImport {
    pub local_name: String,
    pub source_module: ModuleId,
    pub export_name: String,
}

/// The module graph: modules in dependency order, the imports of each, and
/// the indices of each module's direct dependencies.
pub struct ModuleGraph {
    pub modules: Vec<Module>,
    pub imports: Vec<Vec<ResolvedImport>>,
    pub dependencies: Vec<Vec<usize>>,
}

impl ModuleGraph {
    /// The three vectors run in parallel, and every recorded dependency
    /// points at an earlier module.
    pub open spec fn wf(&self) -> bool {
        &&& self.imports@.len() == self.modules@.len()
        &&& self.dependencies@.len() == self.modules@.len()
        &&& forall|j: int, d: int|
            0 <= j < self.dependencies@.len() && 0 <= d < self.dependencies@[j].len() ==> (
            #[trigger] self.dependencies@[j][d]) < j
    }

    /// Index of the module with the given path, preferring the latest.
    pub open spec fn index_of(&self, path: Seq<char>) -> Option<int> {
        last_index_with_path(self.modules@, path)
    }

    /// Index of the latest module with this identifier.
    fn find_index(&self, id: &ModuleId) -> (r: Option<usize>)
        ensures
            r is Some <==> last_index_with_path(self.modules@, id.path@) is Some,
            r matches Some(j) ==> Some(j as int) == last_index_with_path(self.modules@, id.path@)
                && j < self.modules@.len(),
    {
        find_index_in(&self.modules, id)
    }

    /// Look up a module by its identifier.
    pub fn get_module(&self, id: &ModuleId) -> (r: Option<&Module>)
        ensures
            r is Some <==> self.index_of(id.path@) is Some,
            r matches Some(m) ==> Some(m) == match self.index_of(id.path@) {
                Some(j) => Some(&self.modules@[j]),
                None => None,
            },
    {
        match self.find_index(id) {
            Some(j) => Some(&self.modules[j]),
            None => None,
        }
    }

    /// The resolved imports of a module, when the identifier is known;
    /// `None` names an unknown identifier, which a caller may read as an
    /// empty import list.
    pub fn get_imports(&self, id: &ModuleId) -> (r: Option<&Vec<ResolvedImport>>)
        requires
            self.wf(),
        ensures
            r is Some <==> self.index_of(id.path@) is Some,
            r matches Some(v) ==> Some(v) == match self.index_of(id.path@) {
                Some(j) => Some(&self.imports@[j]),
                None => None,
            },
    {
        match self.find_index(id) {
            Some(j) => Some(&self.imports[j]),
            None => None,
        }
    }

    /// The modules in dependency order.
    pub fn iter_modules(&self) -> (r: &Vec<Module>)
        ensures
            r == &self.modules,
    {
        &self.modules
    }
}

/// Index of the last module whose path equals `path`.
pub open spec fn last_index_with_path(l: Seq<Module>, path: Seq<char>) -> Option<int>
    decreases l.len(),
{
    if l.len() == 0 {
        None
    } else {
        match last_index_with_path(l.skip(1), path) {
            Some(j) => Some(j + 1),
            None => if l[0].id.path@ == path {
                Some(0)
            } else {
                None
            },
        }
    }
}

pub proof fn lemma_last_index_bound(l: Seq<Module>, path: Seq<char>)
    ensures
        last_index_with_path(l, path) matches Some(j) ==> 0 <= j < l.len() && l[j].id.path@
            == path,
    decreases l.len(),
{
    if l.len() > 0 {
        lemma_last_index_bound(l.skip(1), path);
    }
}

/// Index of the latest module in the list with this identifier.
fn find_index_in(modules: &Vec<Module>, id: &ModuleId) -> (r: Option<usize>)
    ensures
        r is Some <==> last_index_with_path(modules@, id.path@) is Some,
        r matches Some(j) ==> Some(j as int) == last_index_with_path(modules@, id.path@) && j
            < modules@.len(),
{
    proof {
        assert(modules@.skip(0) =~= modules@);
    }
    let mut best: Option<usize> = None;
    let mut k: usize = 0;
    while k < modules.len()
        invariant
            0 <= k <= modules@.len(),
            ({
                let whole = last_index_with_path(modules@, id.path@);
                let rest = last_index_with_path(modules@.skip(k as int), id.path@);
                match rest {
                    Some(j) => whole == Some(j + k),
                    None => match best {
                        Some(b) => b < k && whole == Some(b as int),
                        None => whole is None,
                    },
                }
            }),
        decreases modules@.len() - k,
    {
        proof {
            assert(modules@.skip(k as int)[0] == modules@[k as int]);
            assert(modules@.skip(k as int).skip(1) =~= modules@.skip(k as int + 1));
            lemma_last_index_bound(modules@.skip(k as int + 1), id.path@);
        }
        if modules[k].id.path == id.path {
            best = Some(k);
        }
        k = k + 1;
    }
    proof {
        assert(modules@.skip(modules@.len() as int) =~= Seq::<Module>::empty());
        lemma_last_index_bound(modules@, id.path@);
    }
    best
}

/// Whether the list already holds this index.
fn contains_index(l: &Vec<usize>, x: usize) -> (r: bool)
    ensures
        r == l@.contains(x),
{
    let mut k: usize = 0;
    while k < l.len()
        invariant
            0 <= k <= l@.len(),
            forall|j: int| 0 <= j < k ==> l@[j] != x,
        decreases l@.len() - k,
    {
        if l[k] == x {
            return true;
        }
        k = k + 1;
    }
    false
}

/// Duplicate a string with its contents known.
fn clone_string(s: &String) -> (r: String)
    ensures
        r@ == s@,
{
    s.clone()
}

/// Builder for a module graph: add modules in dependency order, then their
/// imports, then build.
pub struct ModuleGraphBuilder {
    pub modules: Vec<Module>,
    pub imports: Vec<Vec<ResolvedImport>>,
    pub dependencies: Vec<Vec<usize>>,
}

impl ModuleGraphBuilder {
    /// The builder state is a well-formed graph at every point.
    pub open spec fn wf(&self) -> bool {
        &&& self.imports@.len() == self.modules@.len()
        &&& self.dependencies@.len() == self.modules@.len()
        &&& forall|j: int, d: int|
            0 <= j < self.dependencies@.len() && 0 <= d < self.dependencies@[j].len() ==> (
            #[trigger] self.dependencies@[j][d]) < j
    }

    /// An empty builder.
    pub fn new() -> (r: ModuleGraphBuilder)
        ensures
            r.wf(),
            r.modules@.len() == 0,
    {
        ModuleGraphBuilder { modules: Vec::new(), imports: Vec::new(), dependencies: Vec::new() }
    }

    /// Add a module; modules must be added in dependency order.
    pub fn add_module(&mut self, path: String, source: Text) -> (r: ModuleId)
        requires
            old(self).wf(),
        ensures
            final(self).wf(),
            r.path@ == path@,
            final(self).modules@.len() == old(self).modules@.len() + 1,
            final(self).modules@.last().id.path@ == path@,
            final(self).modules@.last().source@ == source@,
            final(self).modules@.drop_last() == old(self).modules@,
            final(self).imports@.drop_last() == old(self).imports@,
            final(self).dependencies@.drop_last() == old(self).dependencies@,
            final(self).imports@.last()@.len() == 0,
            final(self).dependencies@.last()@.len() == 0,
    {
        let id_copy = ModuleId { path: clone_string(&path) };
        self.modules.push(Module { id: ModuleId { path }, source });
        self.imports.push(Vec::new());
        self.dependencies.push(Vec::new());
        proof {
            assert(self.modules@.drop_last() =~= old(self).modules@);
            assert(self.imports@.drop_last() =~= old(self).imports@);
            assert(self.dependencies@.drop_last() =~= old(self).dependencies@);
            assert forall|j: int, d: int|
                0 <= j < self.dependencies@.len() && 0 <= d < self.dependencies@[j].len() implies (
            #[trigger] self.dependencies@[j][d]) < j by {
                if j < old(self).dependencies@.len() {
                    assert(self.dependencies@[j] == old(self).dependencies@[j]);
                }
            }
        }
        id_copy
    }

    /// Record an import of `module_id`. The import is kept when the module
    /// is known; the dependency edge is kept only when the source module is
    /// known and stands earlier in the ordering, which preserves the
    /// ordering invariant.
    /// Record an import of `module_id`: the import is appended to the
    /// module's list when the module is known, and nothing changes when it
    /// is not. The dependency edge is recorded only when the source module
    /// is known, stands earlier in the ordering, and is not yet recorded,
    /// which keeps the ordering invariant and the edges distinct.
    pub fn add_import(
        &mut self,
        module_id: &ModuleId,
        local_name: String,
        source_module: &ModuleId,
        export_name: String,
    )
        requires
            old(self).wf(),
        ensures
            final(self).wf(),
            final(self).modules@ == old(self).modules@,
            ({
                match last_index_with_path(old(self).modules@, module_id.path@) {
                    None => final(self).imports@ == old(self).imports@ && final(self).dependencies@
                        == old(self).dependencies@,
                    Some(j) => {
                        &&& final(self).imports@.len() == old(self).imports@.len()
                        &&& forall|k: int|
                            0 <= k < old(self).imports@.len() && k != j ==> final(self).imports@[k]
                                == old(self).imports@[k]
                        &&& final(self).imports@[j]@.len() == old(self).imports@[j]@.len() + 1
                        &&& final(self).imports@[j]@.drop_last() == old(self).imports@[j]@
                        &&& final(self).imports@[j]@.last().local_name@ == local_name@
                        &&& final(self).imports@[j]@.last().source_module.path@
                            == source_module.path@
                        &&& final(self).imports@[j]@.last().export_name@ == export_name@
                        &&& final(self).dependencies@.len() == old(self).dependencies@.len()
                        &&& forall|k: int|
                            0 <= k < old(self).dependencies@.len() && k != j
                                ==> final(self).dependencies@[k] == old(self).dependencies@[k]
                        &&& final(self).dependencies@[j]@ == match last_index_with_path(
                            old(self).modules@,
                            source_module.path@,
                        ) {
                            Some(d) => if d < j && !old(self).dependencies@[j]@.contains(
                                d as usize,
                            ) {
                                old(self).dependencies@[j]@.push(d as usize)
                            } else {
                                old(self).dependencies@[j]@
                            },
                            None => old(self).dependencies@[j]@,
                        }
                    },
                }
            }),
    {
        let target = self.find_index(module_id);
        let j = match target {
            Some(j) => j,
            None => {
                return ;
            },
        };
        let source_ix = self.find_index(source_module);
        let import = ResolvedImport {
            local_name,
            source_module: ModuleId { path: clone_string(&source_module.path) },
            export_name,
        };
        let mut entry = self.imports.remove(j);
        entry.push(import);
        self.imports.insert(j, entry);
        proof {
            assert(self.imports@.len() == old(self).imports@.len());
            assert(forall|k: int|
                0 <= k < old(self).imports@.len() && k != j ==> self.imports@[k] == old(
                    self,
                ).imports@[k]);
            assert(self.imports@[j as int]@.drop_last() =~= old(self).imports@[j as int]@);
        }
        if let Some(d) = source_ix {
            if d < j && !contains_index(&self.dependencies[j], d) {
                let mut dentry = self.dependencies.remove(j);
                dentry.push(d);
                self.dependencies.insert(j, dentry);
                proof {
                    assert(self.dependencies@.len() == old(self).dependencies@.len());
                    assert(forall|k: int|
                        0 <= k < old(self).dependencies@.len() && k != j ==> self.dependencies@[k]
                            == old(self).dependencies@[k]);
                    assert(self.dependencies@[j as int]@ =~= old(self).dependencies@[j as int]@.push(
                        d,
                    ));
                    assert forall|j2: int, d2: int|
                        0 <= j2 < self.dependencies@.len() && 0 <= d2
                            < self.dependencies@[j2].len() implies (
                    #[trigger] self.dependencies@[j2][d2]) < j2 by {
                        if j2 != j {
                            assert(self.dependencies@[j2] == old(self).dependencies@[j2]);
                        } else {
                            if d2 < old(self).dependencies@[j2].len() {
                                assert(self.dependencies@[j2][d2] == old(
                                    self,
                                ).dependencies@[j2][d2]);
                            }
                        }
                    }
                }
            }
        }
    }

    /// Index of the latest module with this identifier.
    fn find_index(&self, id: &ModuleId) -> (r: Option<usize>)
        ensures
            r is Some <==> last_index_with_path(self.modules@, id.path@) is Some,
            r matches Some(j) ==> Some(j as int) == last_index_with_path(self.modules@, id.path@)
                && j < self.modules@.len(),
    {
        find_index_in(&self.modules, id)
    }

    /// Build the final graph; the ordering invariant holds of it.
    pub fn build(self) -> (r: ModuleGraph)
        requires
            self.wf(),
        ensures
            r.wf(),
            r.modules@ == self.modules@,
            r.imports@ == self.imports@,
            r.dependencies@ == self.dependencies@,
    {
        ModuleGraph {
            modules: self.modules,
            imports: self.imports,
            dependencies: self.dependencies,
        }
    }
}

} // verus!
