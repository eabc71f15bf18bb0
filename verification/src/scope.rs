//! The scope tree: an arena of scope records owned by one root registry,
//! addressed through lightweight `Scope` handles.
//!
//! All scope records live contiguously inside the `RootScope` arena, and
//! every structural mutation goes through the arena, so handles stay small
//! and cheap to copy. The arena only grows: an index, once handed out, is
//! never reused, and index 0 always denotes the root scope.

use vstd::prelude::*;
use vstd::pervasive::VecAdditionalExecFns;
use vstd::std_specs::cmp::PartialEqSpec;

use crate::intern::{intern, ustr_eq, ustr_text};
use crate::name::{AnonName, GivenName, InputName, Name};
use ustr::Ustr;

verus! {

/// Hands out identity numbers for root registries: starts at zero and grows
/// by one for each registry created through it, so no two registries made
/// from the same counter ever share a number.
pub struct RootCounter {
    pub next: u64,
}

impl RootCounter {
    /// A counter that has handed out no number yet.
    pub fn new() -> (c: RootCounter)
        ensures
            c.next == 0,
    {
        RootCounter { next: 0 }
    }
}

/// A handle to one scope: the owning registry's identity number and the
/// index of the scope's record in that registry's arena.
///
/// Two handles are equal exactly when they name the same registry and the
/// same record.
#[derive(Debug, Clone, Copy, PartialEq, Eq, Hash, Structural)]
pub struct Scope {
    pub root_id: u64,
    pub index: usize,
}

/// One scope record: its position in the tree and the names registered in it.
#[derive(Debug)]
pub struct ScopeData {
    /// Arena index of the enclosing scope; `None` only for the root record.
    pub parent: Option<usize>,
    /// Arena indices of the child scopes, in creation order.
    pub children: Vec<usize>,
    /// The given names registered here; their texts are pairwise distinct.
    pub given_names: Vec<GivenName>,
    /// The anonymous names registered here, in creation order; duplicates
    /// are expected and allowed.
    pub anon_names: Vec<AnonName>,
}

/// The arena: owns every scope record of one compilation unit, together
/// with the registry's identity number.
#[derive(Debug)]
pub struct RootScope {
    /// Identity number; names and handles of two registries are comparable
    /// precisely through this number.
    pub id: u64,
    /// The scope records; index 0 is the root scope and the arena only grows.
    pub scopes: Vec<ScopeData>,
}

/// Registries are compared by their identity number alone: two registries
/// made from one counter are never equal, whatever they hold, and a
/// registry always equals itself.
impl PartialEq for RootScope {
    fn eq(&self, other: &Self) -> bool {
        self.id == other.id
    }
}

impl vstd::std_specs::cmp::PartialEqSpecImpl for RootScope {
    open spec fn obeys_eq_spec() -> bool {
        true
    }

    open spec fn eq_spec(&self, other: &RootScope) -> bool {
        self.id == other.id
    }
}

impl Eq for RootScope {}

/// The one recoverable failure: the text is already registered as a given
/// name in this very scope.
#[derive(Debug)]
pub struct AlreadyExists();

/// Whether a given name with text `t` is registered in the record.
pub open spec fn has_given_text(rec: ScopeData, t: Seq<char>) -> bool {
    exists|j: int|
        0 <= j < rec.given_names@.len() && ustr_text(#[trigger] rec.given_names@[j].name) == t
}

/// The texts of the record's given names are pairwise distinct.
pub open spec fn givens_unique(rec: ScopeData) -> bool {
    forall|j: int, k: int|
        0 <= j < k < rec.given_names@.len() ==> ustr_text(
            #[trigger] rec.given_names@[j].name,
        ) != ustr_text(#[trigger] rec.given_names@[k].name)
}

/// Every child index in record `i` lies inside the arena, is larger than
/// `i` itself, and its record points back to `i` as its parent.
pub open spec fn children_linked(s: Seq<ScopeData>, i: int) -> bool {
    forall|j: int|
        0 <= j < s[i].children@.len() ==> i < #[trigger] s[i].children@[j] < s.len()
            && s[s[i].children@[j] as int].parent == Some(i as usize)
}

/// The child list of record `i` is strictly increasing, so no child is
/// listed twice.
pub open spec fn children_increasing(s: Seq<ScopeData>, i: int) -> bool {
    forall|j: int, k: int|
        0 <= j < k < s[i].children@.len() ==> #[trigger] s[i].children@[j]
            < #[trigger] s[i].children@[k]
}

/// Every record but the root is listed among its parent's children.
pub open spec fn parent_links_back(s: Seq<ScopeData>, c: int) -> bool {
    s[c].parent matches Some(p) ==> 0 <= p < s.len() && s[p as int].children@.contains(
        c as usize,
    )
}

impl RootScope {
    /// Well-formedness of the arena: record 0 is the root and has no parent,
    /// every other record has a parent with a smaller index, parent and
    /// child lists agree and form a tree, and each record's given names
    /// carry pairwise distinct texts.
    pub open spec fn wf(self) -> bool {
        let s = self.scopes@;
        &&& s.len() >= 1
        &&& s[0].parent is None
        &&& (forall|i: int|
            1 <= i < s.len() ==> ((#[trigger] s[i].parent) matches Some(p) && p < i))
        &&& (forall|i: int| 0 <= i < s.len() ==> #[trigger] children_linked(s, i))
        &&& (forall|i: int| 0 <= i < s.len() ==> #[trigger] children_increasing(s, i))
        &&& (forall|i: int| 0 <= i < s.len() ==> givens_unique(#[trigger] s[i]))
        &&& (forall|i: int| 1 <= i < s.len() ==> #[trigger] parent_links_back(s, i))
    }
}

impl Scope {
    /// The handle belongs to `root` and points at an existing record.
    pub open spec fn valid_in(self, root: RootScope) -> bool {
        self.root_id == root.id && self.index < root.scopes@.len()
    }
}

/// The records of `post` agree with those of `pre`, except possibly at
/// `idx`; the identity number and the arena length are unchanged.
pub open spec fn same_records_except(pre: RootScope, post: RootScope, idx: int) -> bool {
    &&& post.id == pre.id
    &&& post.scopes@.len() == pre.scopes@.len()
    &&& (forall|i: int|
        0 <= i < pre.scopes@.len() && i != idx ==> post.scopes@[i] == #[trigger] pre.scopes@[i])
}

/// Record `idx` of `post` is record `idx` of `pre` with `g` appended to its
/// given names, and nothing else in the registry changed.
pub open spec fn given_added(pre: RootScope, post: RootScope, idx: int, g: GivenName) -> bool {
    &&& 0 <= idx < pre.scopes@.len()
    &&& same_records_except(pre, post, idx)
    &&& post.scopes@[idx].parent == pre.scopes@[idx].parent
    &&& post.scopes@[idx].children@ == pre.scopes@[idx].children@
    &&& post.scopes@[idx].given_names@ == pre.scopes@[idx].given_names@.push(g)
    &&& post.scopes@[idx].anon_names@ == pre.scopes@[idx].anon_names@
}

/// Record `idx` of `post` is record `idx` of `pre` with `a` appended to its
/// anonymous names, and nothing else in the registry changed.
pub open spec fn anon_added(pre: RootScope, post: RootScope, idx: int, a: AnonName) -> bool {
    &&& 0 <= idx < pre.scopes@.len()
    &&& same_records_except(pre, post, idx)
    &&& post.scopes@[idx].parent == pre.scopes@[idx].parent
    &&& post.scopes@[idx].children@ == pre.scopes@[idx].children@
    &&& post.scopes@[idx].given_names@ == pre.scopes@[idx].given_names@
    &&& post.scopes@[idx].anon_names@ == pre.scopes@[idx].anon_names@.push(a)
}

/// The children of `s` as handles, in registration order.
pub open spec fn child_scopes(root: RootScope, s: Scope) -> Seq<Scope> {
    root.scopes@[s.index as int].children@.map_values(
        |ci: usize| Scope { root_id: root.id, index: ci },
    )
}

impl RootScope {
    /// Return a new `Scope`, that refers to the root record of a newly
    /// created registry. The registry takes the counter's current number as
    /// its identity, so registries made from one counter are pairwise
    /// distinguishable. Never fails.
    pub fn new_root(counter: &mut RootCounter) -> (r: (RootScope, Scope))
        requires
            old(counter).next < u64::MAX,
        ensures
            final(counter).next == old(counter).next + 1,
            r.0.wf(),
            r.0.id == old(counter).next,
            r.0.scopes@.len() == 1,
            r.0.scopes@[0].parent is None,
            r.0.scopes@[0].children@.len() == 0,
            r.0.scopes@[0].given_names@.len() == 0,
            r.0.scopes@[0].anon_names@.len() == 0,
            r.1 == (Scope { root_id: r.0.id, index: 0 }),
            r.1.valid_in(r.0),
    {
        let nr = counter.next;
        counter.next = counter.next + 1;
        let mut scopes: Vec<ScopeData> = Vec::new();
        scopes.push(
            ScopeData {
                parent: None,
                children: Vec::new(),
                given_names: Vec::new(),
                anon_names: Vec::new(),
            },
        );
        let root = RootScope { id: nr, scopes };
        let scope = Scope { root_id: nr, index: 0 };
        (root, scope)
    }

    /// Add new scope data, returning a new scope handle that refers to it.
    /// The record is appended; its index is the arena's previous length.
    fn add_scope(&mut self, scope_data: ScopeData) -> (s: Scope)
        ensures
            final(self).id == old(self).id,
            final(self).scopes@ == old(self).scopes@.push(scope_data),
            s.root_id == final(self).id,
            s.index == old(self).scopes@.len(),
    {
        let index = self.scopes.len();
        self.scopes.push(scope_data);
        Scope { root_id: self.id, index }
    }
}

/// Whether the text of `u` is already among the given names of `rec`.
fn rec_has_given(rec: &ScopeData, u: &Ustr) -> (b: bool)
    ensures
        b == has_given_text(*rec, ustr_text(*u)),
{
    let n = rec.given_names.len();
    let mut j: usize = 0;
    while j < n
        invariant
            j <= n,
            n == rec.given_names@.len(),
            forall|k: int|
                0 <= k < j ==> ustr_text(#[trigger] rec.given_names@[k].name) != ustr_text(*u),
        decreases n - j,
    {
        if ustr_eq(&rec.given_names[j].name, u) {
            assert(ustr_text(rec.given_names@[j as int].name) == ustr_text(*u));
            return true;
        }
        j = j + 1;
    }
    false
}

/// A dummy record used to swap a real record out of the arena while it is
/// being changed, and back in afterwards.
fn empty_record() -> (rec: ScopeData)
    ensures
        rec.parent is None,
        rec.children@.len() == 0,
        rec.given_names@.len() == 0,
        rec.anon_names@.len() == 0,
{
    ScopeData {
        parent: None,
        children: Vec::new(),
        given_names: Vec::new(),
        anon_names: Vec::new(),
    }
}

impl Scope {
    /// A fresh pass over this scope's children; the child list is read from
    /// the arena at each step, never snapshotted.
    pub fn children(&self) -> (it: ScopeChildrenIterator)
        ensures
            it.scope == *self,
            it.child_nr == 0,
    {
        ScopeChildrenIterator { scope: *self, child_nr: 0 }
    }

    /// Connect a child scope to this one. The new scope starts empty, its
    /// record names this scope as its parent, and it is visible at the end
    /// of this scope's child list as soon as the call returns.
    pub fn add_child(&self, root: &mut RootScope) -> (c: Scope)
        requires
            old(root).wf(),
            self.valid_in(*old(root)),
        ensures
            final(root).wf(),
            self.valid_in(*final(root)),
            c.valid_in(*final(root)),
            final(root).id == old(root).id,
            c.root_id == final(root).id,
            c.index == old(root).scopes@.len(),
            final(root).scopes@.len() == old(root).scopes@.len() + 1,
            final(root).scopes@[c.index as int].parent == Some(self.index),
            final(root).scopes@[c.index as int].children@.len() == 0,
            final(root).scopes@[c.index as int].given_names@.len() == 0,
            final(root).scopes@[c.index as int].anon_names@.len() == 0,
            final(root).scopes@[self.index as int].parent == old(root).scopes@[self.index as int].parent,
            final(root).scopes@[self.index as int].children@ == old(root).scopes@[self.index as int].children@.push(c.index),
            final(root).scopes@[self.index as int].given_names@ == old(root).scopes@[self.index as int].given_names@,
            final(root).scopes@[self.index as int].anon_names@ == old(root).scopes@[self.index as int].anon_names@,
            forall|i: int|
                0 <= i < old(root).scopes@.len() && i != self.index ==> final(root).scopes@[i]
                    == #[trigger] old(root).scopes@[i],
            child_scopes(*final(root), *self) == child_scopes(*old(root), *self).push(c),
    {
        // Step 1: add the new scope data to the root arena.
        let child_scope = root.add_scope(
            ScopeData {
                parent: Some(self.index),
                children: Vec::new(),
                given_names: Vec::new(),
                anon_names: Vec::new(),
            },
        );
        // Step 2: register on this scope's record that this is a child.
        let mut rec = empty_record();
        root.scopes.set_and_swap(self.index, &mut rec);
        rec.children.push(child_scope.index);
        root.scopes.set(self.index, rec);
        proof {
            lemma_add_child_wf(*old(root), *root, *self, child_scope);
            assert(child_scopes(*root, *self) =~= child_scopes(*old(root), *self).push(
                child_scope,
            ));
        }
        child_scope
    }

    /// Register a named identifier in this scope, failing if it is already
    /// registered. The call fails exactly when a given name with the same
    /// text is already present in this very scope — the same text in a
    /// parent, child or sibling scope never conflicts — and a failed call
    /// leaves the registry untouched.
    pub fn add_named(&self, root: &mut RootScope, name: &str) -> (r: Result<Name, AlreadyExists>)
        requires
            old(root).wf(),
            self.valid_in(*old(root)),
        ensures
            final(root).wf(),
            self.valid_in(*final(root)),
            r is Ok <==> !has_given_text(old(root).scopes@[self.index as int], name@),
            r is Err ==> *final(root) == *old(root),
            r matches Ok(n) ==> {
                &&& n.scope == *self
                &&& n.data is Given
                &&& ustr_text(n.data->Given_0.name) == name@
                &&& given_added(*old(root), *final(root), self.index as int, n.data->Given_0)
            },
    {
        // Create the name instance.
        let u = intern(name);
        // Check whether this scope already holds the text.
        let duplicate = rec_has_given(&root.scopes[self.index], &u);
        if duplicate {
            return Err(AlreadyExists());
        }
        // Register this name on the scope.
        let mut rec = empty_record();
        root.scopes.set_and_swap(self.index, &mut rec);
        rec.given_names.push(GivenName { name: u });
        root.scopes.set(self.index, rec);
        proof {
            lemma_add_given_wf(*old(root), *root, *self, GivenName { name: u });
        }
        Ok(Name { scope: *self, data: InputName::Given(GivenName { name: u }) })
    }

    /// Register an anonymous identifier with a prefix in this scope. Always
    /// succeeds: duplicates are expected and allowed, and the returned name
    /// equals no other name, nor itself.
    pub fn add_prefixed(&self, root: &mut RootScope, prefix: &str) -> (n: Name)
        requires
            old(root).wf(),
            self.valid_in(*old(root)),
        ensures
            final(root).wf(),
            self.valid_in(*final(root)),
            n.scope == *self,
            n.data is Anonymous,
            ustr_text(n.data->Anonymous_0.name) == prefix@,
            anon_added(*old(root), *final(root), self.index as int, n.data->Anonymous_0),
    {
        // Create the name instance.
        let u = intern(prefix);
        // Register this name on the scope.
        let mut rec = empty_record();
        root.scopes.set_and_swap(self.index, &mut rec);
        rec.anon_names.push(AnonName { name: u });
        root.scopes.set(self.index, rec);
        proof {
            lemma_add_anon_wf(*old(root), *root, *self, AnonName { name: u });
        }
        // Wrap into Name and return.
        Name { scope: *self, data: InputName::Anonymous(AnonName { name: u }) }
    }

    /// Register an anonymous identifier without a prefix in this scope:
    /// the same as `add_prefixed` with the empty prefix.
    pub fn add_anonymous(&self, root: &mut RootScope) -> (n: Name)
        requires
            old(root).wf(),
            self.valid_in(*old(root)),
        ensures
            final(root).wf(),
            self.valid_in(*final(root)),
            n.scope == *self,
            n.data is Anonymous,
            ustr_text(n.data->Anonymous_0.name) == Seq::<char>::empty(),
            anon_added(*old(root), *final(root), self.index as int, n.data->Anonymous_0),
    {
        let n = self.add_prefixed(root, "");
        proof {
            reveal_strlit("");
            assert(""@ =~= Seq::<char>::empty());
        }
        n
    }
}

/// A pass over the children of one scope. `child_nr` is the position within
/// the scope's child list, not an arena index; each step reads the child
/// list as it is at that moment, so children added elsewhere in the arena,
/// or appended to this scope, are tolerated mid-pass.
#[derive(Debug)]
pub struct ScopeChildrenIterator {
    pub scope: Scope,
    pub child_nr: usize,
}

impl ScopeChildrenIterator {
    /// The next child handle, or `None` once the pass has reached the end
    /// of the child list.
    pub fn next(&mut self, root: &RootScope) -> (r: Option<Scope>)
        requires
            root.wf(),
            old(self).scope.valid_in(*root),
        ensures
            final(self).scope == old(self).scope,
            old(self).child_nr < child_scopes(*root, old(self).scope).len() ==> {
                &&& r == Some(child_scopes(*root, old(self).scope)[old(self).child_nr as int])
                &&& (r matches Some(c) && c.valid_in(*root))
                &&& final(self).child_nr == old(self).child_nr + 1
            },
            old(self).child_nr >= child_scopes(*root, old(self).scope).len() ==> {
                &&& r is None
                &&& final(self).child_nr == old(self).child_nr
            },
    {
        // Convert the child-list position into an arena index.
        let rec = &root.scopes[self.scope.index];
        if self.child_nr < rec.children.len() {
            let child_index = rec.children[self.child_nr];
            proof {
                assert(children_linked(root.scopes@, self.scope.index as int));
            }
            // Create a Scope for that index.
            let scope = Scope { root_id: self.scope.root_id, index: child_index };
            // Make sure the next step returns the next child.
            self.child_nr = self.child_nr + 1;
            Some(scope)
        } else {
            None
        }
    }
}

/// Well-formedness is kept when a child record is appended and linked.
proof fn lemma_add_child_wf(pre: RootScope, post: RootScope, s: Scope, c: Scope)
    requires
        pre.wf(),
        s.valid_in(pre),
        c.index == pre.scopes@.len(),
        post.id == pre.id,
        post.scopes@.len() == pre.scopes@.len() + 1,
        post.scopes@[c.index as int].parent == Some(s.index),
        post.scopes@[c.index as int].children@.len() == 0,
        post.scopes@[c.index as int].given_names@.len() == 0,
        post.scopes@[c.index as int].anon_names@.len() == 0,
        post.scopes@[s.index as int].parent == pre.scopes@[s.index as int].parent,
        post.scopes@[s.index as int].children@ == pre.scopes@[s.index as int].children@.push(
            c.index,
        ),
        post.scopes@[s.index as int].given_names@ == pre.scopes@[s.index as int].given_names@,
        post.scopes@[s.index as int].anon_names@ == pre.scopes@[s.index as int].anon_names@,
        forall|i: int|
            0 <= i < pre.scopes@.len() && i != s.index ==> post.scopes@[i] == #[trigger] pre.scopes@[i],
    ensures
        post.wf(),
{
    let sp = pre.scopes@;
    let so = post.scopes@;
    let si = s.index as int;
    let ci = c.index as int;
    assert forall|i: int| 0 <= i < so.len() implies children_linked(so, i) by {
        if i == ci {
            assert(so[i].children@.len() == 0);
        } else if i == si {
            assert(children_linked(sp, i));
            assert forall|j: int| 0 <= j < so[i].children@.len() implies i
                < #[trigger] so[i].children@[j] < so.len() && so[so[i].children@[j] as int].parent
                == Some(i as usize) by {
                if j < sp[i].children@.len() {
                    assert(so[i].children@[j] == sp[i].children@[j]);
                    assert(i < sp[i].children@[j] < sp.len());
                } else {
                    assert(so[i].children@[j] == c.index);
                }
            }
        } else {
            assert(children_linked(sp, i));
            assert(so[i] == sp[i]);
            assert forall|j: int| 0 <= j < so[i].children@.len() implies i
                < #[trigger] so[i].children@[j] < so.len() && so[so[i].children@[j] as int].parent
                == Some(i as usize) by {
                assert(i < sp[i].children@[j] < sp.len());
                assert(sp[sp[i].children@[j] as int].parent == Some(i as usize));
                assert(so[i].children@[j] != ci);
            }
        }
    }
    assert forall|i: int| 0 <= i < so.len() implies children_increasing(so, i) by {
        if i == si {
            assert(children_increasing(sp, i));
            assert(children_linked(sp, i));
            assert forall|j: int, k: int| 0 <= j < k < so[i].children@.len() implies
                #[trigger] so[i].children@[j] < #[trigger] so[i].children@[k] by {
                if k < sp[i].children@.len() {
                    assert(so[i].children@[j] == sp[i].children@[j]);
                    assert(so[i].children@[k] == sp[i].children@[k]);
                } else {
                    assert(so[i].children@[k] == c.index);
                    assert(so[i].children@[j] == sp[i].children@[j]);
                    assert(sp[i].children@[j] < sp.len());
                }
            }
        } else if i == ci {
            assert(so[i].children@.len() == 0);
        } else {
            assert(children_increasing(sp, i));
            assert(so[i] == sp[i]);
        }
    }
    assert forall|i: int| 0 <= i < so.len() implies givens_unique(#[trigger] so[i]) by {
        if i == ci {
            assert(so[i].given_names@.len() == 0);
        } else if i == si {
            assert(givens_unique(sp[i]));
            assert(so[i].given_names@ == sp[i].given_names@);
        } else {
            assert(givens_unique(sp[i]));
            assert(so[i] == sp[i]);
        }
    }
    assert forall|i: int| 1 <= i < so.len() implies parent_links_back(so, i) by {
        if i == ci {
            assert(so[si].children@[so[si].children@.len() - 1] == c.index);
            assert(so[si].children@.contains(c.index));
        } else {
            assert(parent_links_back(sp, i));
            if so[i].parent is Some {
            let p = so[i].parent->Some_0;
                assert(sp[i].parent == so[i].parent);
                assert(sp[p as int].children@.contains(i as usize));
                let w = choose|w: int|
                    0 <= w < sp[p as int].children@.len() && sp[p as int].children@[w] == i as usize;
                if p as int == si {
                    assert(so[si].children@[w] == i as usize);
                    assert(so[si].children@.contains(i as usize));
                } else {
                    assert(so[p as int] == sp[p as int]);
                }
            }
        }
    }
    assert forall|i: int| 1 <= i < so.len() implies ((#[trigger] so[i].parent) matches Some(p)
        && p < i) by {
        if i == ci {
            assert(so[i].parent == Some(s.index));
        } else if i == si {
            assert(so[i].parent == sp[i].parent);
        } else {
            assert(so[i] == sp[i]);
        }
    }
}

/// Well-formedness is kept when one record gains a given name whose text it
/// did not hold yet.
proof fn lemma_add_given_wf(pre: RootScope, post: RootScope, s: Scope, g: GivenName)
    requires
        pre.wf(),
        s.valid_in(pre),
        !has_given_text(pre.scopes@[s.index as int], ustr_text(g.name)),
        given_added(pre, post, s.index as int, g),
    ensures
        post.wf(),
{
    let sp = pre.scopes@;
    let so = post.scopes@;
    let si = s.index as int;
    assert forall|i: int| 0 <= i < so.len() implies children_linked(so, i) by {
        assert(children_linked(sp, i));
        assert forall|j: int| 0 <= j < so[i].children@.len() implies i
            < #[trigger] so[i].children@[j] < so.len() && so[so[i].children@[j] as int].parent
            == Some(i as usize) by {
            if i == si {
                assert(so[i].children@ == sp[i].children@);
            } else {
                assert(so[i] == sp[i]);
            }
            assert(i < sp[i].children@[j] < sp.len());
            let chi = sp[i].children@[j] as int;
            if chi == si {
                assert(so[chi].parent == sp[chi].parent);
            } else {
                assert(so[chi] == sp[chi]);
            }
        }
    }
    assert forall|i: int| 0 <= i < so.len() implies children_increasing(so, i) by {
        assert(children_increasing(sp, i));
        if i == si {
            assert(so[i].children@ == sp[i].children@);
        } else {
            assert(so[i] == sp[i]);
        }
    }
    assert forall|i: int| 0 <= i < so.len() implies givens_unique(#[trigger] so[i]) by {
        assert(givens_unique(sp[i]));
        if i == si {
            let pg = sp[si].given_names@;
            assert forall|j: int, k: int| 0 <= j < k < so[i].given_names@.len() implies ustr_text(
                #[trigger] so[i].given_names@[j].name,
            ) != ustr_text(#[trigger] so[i].given_names@[k].name) by {
                if k < pg.len() {
                    assert(so[i].given_names@[j] == pg[j]);
                    assert(so[i].given_names@[k] == pg[k]);
                } else {
                    assert(so[i].given_names@[k] == g);
                    assert(so[i].given_names@[j] == pg[j]);
                    assert(ustr_text(pg[j].name) != ustr_text(g.name));
                }
            }
        } else {
            assert(so[i] == sp[i]);
        }
    }
    assert forall|i: int| 1 <= i < so.len() implies parent_links_back(so, i) by {
        assert(parent_links_back(sp, i));
        if so[i].parent is Some {
            let p = so[i].parent->Some_0;
            if i == si {
                assert(so[i].parent == sp[i].parent);
            } else {
                assert(so[i] == sp[i]);
            }
            assert(sp[p as int].children@.contains(i as usize));
            let w = choose|w: int|
                0 <= w < sp[p as int].children@.len() && sp[p as int].children@[w] == i as usize;
            if p as int == si {
                assert(so[si].children@ == sp[si].children@);
                assert(so[si].children@[w] == i as usize);
                assert(so[si].children@.contains(i as usize));
            } else {
                assert(so[p as int] == sp[p as int]);
            }
        }
    }
    assert forall|i: int| 1 <= i < so.len() implies ((#[trigger] so[i].parent) matches Some(p)
        && p < i) by {
        if i == si {
            assert(so[i].parent == sp[i].parent);
        } else {
            assert(so[i] == sp[i]);
        }
    }
    assert(so[0].parent is None) by {
        if si == 0 {
            assert(so[0].parent == sp[0].parent);
        } else {
            assert(so[0] == sp[0]);
        }
    }
}

/// Well-formedness is kept when one record gains an anonymous name.
proof fn lemma_add_anon_wf(pre: RootScope, post: RootScope, s: Scope, a: AnonName)
    requires
        pre.wf(),
        s.valid_in(pre),
        anon_added(pre, post, s.index as int, a),
    ensures
        post.wf(),
{
    let sp = pre.scopes@;
    let so = post.scopes@;
    let si = s.index as int;
    assert forall|i: int| 0 <= i < so.len() implies children_linked(so, i) by {
        assert(children_linked(sp, i));
        assert forall|j: int| 0 <= j < so[i].children@.len() implies i
            < #[trigger] so[i].children@[j] < so.len() && so[so[i].children@[j] as int].parent
            == Some(i as usize) by {
            if i == si {
                assert(so[i].children@ == sp[i].children@);
            } else {
                assert(so[i] == sp[i]);
            }
            assert(i < sp[i].children@[j] < sp.len());
            let chi = sp[i].children@[j] as int;
            if chi == si {
                assert(so[chi].parent == sp[chi].parent);
            } else {
                assert(so[chi] == sp[chi]);
            }
        }
    }
    assert forall|i: int| 0 <= i < so.len() implies children_increasing(so, i) by {
        assert(children_increasing(sp, i));
        if i == si {
            assert(so[i].children@ == sp[i].children@);
        } else {
            assert(so[i] == sp[i]);
        }
    }
    assert forall|i: int| 0 <= i < so.len() implies givens_unique(#[trigger] so[i]) by {
        assert(givens_unique(sp[i]));
        if i == si {
            assert(so[i].given_names@ == sp[i].given_names@);
        } else {
            assert(so[i] == sp[i]);
        }
    }
    assert forall|i: int| 1 <= i < so.len() implies parent_links_back(so, i) by {
        assert(parent_links_back(sp, i));
        if so[i].parent is Some {
            let p = so[i].parent->Some_0;
            if i == si {
                assert(so[i].parent == sp[i].parent);
            } else {
                assert(so[i] == sp[i]);
            }
            assert(sp[p as int].children@.contains(i as usize));
            let w = choose|w: int|
                0 <= w < sp[p as int].children@.len() && sp[p as int].children@[w] == i as usize;
            if p as int == si {
                assert(so[si].children@ == sp[si].children@);
                assert(so[si].children@[w] == i as usize);
                assert(so[si].children@.contains(i as usize));
            } else {
                assert(so[p as int] == sp[p as int]);
            }
        }
    }
    assert forall|i: int| 1 <= i < so.len() implies ((#[trigger] so[i].parent) matches Some(p)
        && p < i) by {
        if i == si {
            assert(so[i].parent == sp[i].parent);
        } else {
            assert(so[i] == sp[i]);
        }
    }
    assert(so[0].parent is None) by {
        if si == 0 {
            assert(so[0].parent == sp[0].parent);
        } else {
            assert(so[0] == sp[0]);
        }
    }
}

/// Law: after a successful registration of given text `t` in scope record
/// `idx`, that record holds `t` — so, by the contract of `add_named`, an
/// identical registration on the same scope is refused and leaves the
/// registry untouched — and the record's given-name count rose by exactly
/// one, not two.
pub proof fn lemma_duplicate_given_rejected(
    pre: RootScope,
    post: RootScope,
    idx: int,
    g: GivenName,
    t: Seq<char>,
)
    requires
        0 <= idx < pre.scopes@.len(),
        !has_given_text(pre.scopes@[idx], t),
        ustr_text(g.name) == t,
        given_added(pre, post, idx, g),
    ensures
        has_given_text(post.scopes@[idx], t),
        post.scopes@[idx].given_names@.len() == pre.scopes@[idx].given_names@.len() + 1,
{
    let last = pre.scopes@[idx].given_names@.len() as int;
    assert(post.scopes@[idx].given_names@[last] == g);
    assert(ustr_text(post.scopes@[idx].given_names@[last].name) == t);
}

/// Law: registering a given name in one scope never affects what another
/// scope holds — a text absent from a second scope before the registration
/// is absent after it, and one present stays present — so the same text can
/// be registered in a parent, child or sibling scope independently
/// (shadowing is always permitted).
pub proof fn lemma_shadowing_unaffected(
    pre: RootScope,
    post: RootScope,
    idx: int,
    other: int,
    g: GivenName,
    t: Seq<char>,
)
    requires
        given_added(pre, post, idx, g),
        0 <= other < pre.scopes@.len(),
        other != idx,
    ensures
        has_given_text(post.scopes@[other], t) == has_given_text(pre.scopes@[other], t),
{
    assert(post.scopes@[other] == pre.scopes@[other]);
}

/// Law: two root registries created one after the other from the same
/// counter carry distinct identity numbers, so the registries compare
/// unequal even when both were built with identical sequences of
/// operations (and, by `lemma_distinct_roots_never_equal`, so do their
/// names).
pub proof fn lemma_successive_roots_distinct(
    c0: RootCounter,
    c1: RootCounter,
    r1: RootScope,
    r2: RootScope,
)
    requires
        r1.id == c0.next,
        c1.next == c0.next + 1,
        r2.id == c1.next,
    ensures
        r1.id != r2.id,
        !r1.eq_spec(&r2),
{
}

/// Law: a scope that has no children yields an empty child sequence, so a
/// fresh pass over its children reports the end at once, with no error.
pub proof fn lemma_no_children_empty(root: RootScope, s: Scope)
    requires
        s.valid_in(root),
        root.scopes@[s.index as int].children@.len() == 0,
    ensures
        child_scopes(root, s).len() == 0,
{
}

} // verus!
