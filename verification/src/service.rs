//! Services: names under which processes can be found.

use std::sync::Arc;
use vstd::prelude::*;
use crate::pid::PidHandle;

verus! {

/// A service: a name, and the services below it.
pub struct Service {
    pub path: String,
    pub parent: Option<Arc<Service>>,
    pub child: Vec<Arc<Service>>,
}

impl Service {
    /// The service with the name `path`, without parent or children.
    pub fn new(path: String) -> (r: Self)
        ensures
            r.path == path,
            r.parent is None,
            r.child@.len() == 0,
    {
        Service { path, parent: None, child: Vec::new() }
    }

    /// Adds `another` as the last child.
    pub fn add_child(&mut self, another: Arc<Service>)
        ensures
            final(self).child@ == old(self).child@.push(another),
            final(self).path == old(self).path,
            final(self).parent == old(self).parent,
    {
        self.child.push(another);
    }

    /// The position of the last child with the name `path`, or -1 when no
    /// child has that name.
    pub open spec fn last_named(&self, path: Seq<char>) -> int {
        if exists|i: int| 0 <= i < self.child@.len() && (#[trigger] self.child@[i]).path@ == path {
            choose|i: int|
                0 <= i < self.child@.len() && (#[trigger] self.child@[i]).path@ == path && forall|j: int|
                    i < j < self.child@.len() ==> (#[trigger] self.child@[j]).path@ != path
        } else {
            -1
        }
    }

    /// Takes out the last child that has the name of `another`, if there is
    /// one.
    pub fn remove_child(&mut self, another: Arc<Service>)
        ensures
            final(self).path == old(self).path,
            final(self).parent == old(self).parent,
            final(self).child@ == if old(self).last_named(another.path@) >= 0 {
                old(self).child@.remove(old(self).last_named(another.path@))
            } else {
                old(self).child@
            },
    {
        let mut index: Option<usize> = None;
        let mut i: usize = 0;
        while i < self.child.len()
            invariant
                i <= self.child@.len(),
                *self == *old(self),
                index matches Some(k) ==> k < i && self.child@[k as int].path@ == another.path@ && forall|
                    j: int,
                |
                    k < j < i ==> (#[trigger] self.child@[j]).path@ != another.path@,
                index is None ==> forall|j: int|
                    0 <= j < i ==> (#[trigger] self.child@[j]).path@ != another.path@,
            decreases self.child@.len() - i,
        {
            if self.child[i].path == another.path {
                index = Some(i);
            }
            i = i + 1;
        }
        match index {
            None => {},
            Some(k) => {
                proof {
                    let c = old(self).last_named(another.path@);
                    assert(old(self).child@[k as int].path@ == another.path@);
                    if c < k {
                        assert(old(self).child@[k as int].path@ != another.path@);
                    }
                    if k < c {
                        assert(old(self).child@[c].path@ != another.path@);
                    }
                }
                self.child.remove(k);
            },
        }
    }
}

/// A table from names to process identifiers.
#[verifier::external_body]
pub struct ServiceTable {
    map: hashbrown::HashMap<String, usize>,
}

/// The entries of a table from names to process identifiers.
pub uninterp spec fn table_entries(table: ServiceTable) -> Map<Seq<char>, usize>;

/// No entries.
pub open spec fn no_entries() -> Map<Seq<char>, usize> {
    Map::empty()
}

/// `hashbrown::HashMap::new`: a table without entries.
#[verifier::external_body]
fn table_new() -> (r: ServiceTable)
    ensures
        table_entries(r) == no_entries(),
{
    ServiceTable { map: hashbrown::HashMap::new() }
}

/// `hashbrown::HashMap::insert`: the table gets the entry from `key` to
/// `value`, in place of an entry that it had for `key`; the value of that
/// former entry is returned.
#[verifier::external_body]
fn table_insert(table: &mut ServiceTable, key: String, value: usize) -> (r: Option<usize>)
    ensures
        table_entries(*final(table)) == table_entries(*old(table)).insert(key@, value),
        r == entry_of(table_entries(*old(table)), key@),
{
    table.map.insert(key, value)
}

/// `hashbrown::HashMap::remove`: the table loses its entry for `key`; the
/// value of that entry is returned.
#[verifier::external_body]
fn table_remove(table: &mut ServiceTable, key: &String) -> (r: Option<usize>)
    ensures
        table_entries(*final(table)) == table_entries(*old(table)).remove(key@),
        r == entry_of(table_entries(*old(table)), key@),
{
    table.map.remove(key)
}

/// `hashbrown::HashMap::get`: the value of the entry for `key`.
#[verifier::external_body]
fn table_get(table: &ServiceTable, key: &String) -> (r: Option<usize>)
    ensures
        r == entry_of(table_entries(*table), key@),
{
    table.map.get(key).copied()
}

/// The value that `entries` has for `key`, if it has one.
pub open spec fn entry_of(entries: Map<Seq<char>, usize>, key: Seq<char>) -> Option<usize> {
    if entries.dom().contains(key) {
        Some(entries[key])
    } else {
        None
    }
}

/// The registry of services: which process serves under which name.
pub struct Registry {
    table: ServiceTable,
}

impl View for Registry {
    type V = Map<Seq<char>, usize>;

    /// The process identifier for each name.
    closed spec fn view(&self) -> Map<Seq<char>, usize> {
        table_entries(self.table)
    }
}

impl Registry {
    /// A registry without services.
    pub fn new() -> (r: Self)
        ensures
            r@ == no_entries(),
    {
        Registry { table: table_new() }
    }

    /// Enters the process `pid` under the name of `service`, in place of a
    /// process that was entered under that name.
    pub fn register(&mut self, pid: &PidHandle, service: &Service)
        ensures
            final(self)@ == old(self)@.insert(service.path@, pid.0),
    {
        let key = service.path.clone();
        let _ = table_insert(&mut self.table, key, pid.0);
    }

    /// Takes out what is entered under the name of `service`.
    pub fn remove(&mut self, service: &Service)
        ensures
            final(self)@ == old(self)@.remove(service.path@),
    {
        let _ = table_remove(&mut self.table, &service.path);
    }

    /// The process that is entered under the name of `service`, if there is
    /// one.
    pub fn lookup(&self, service: &Service) -> (r: Option<usize>)
        ensures
            r == entry_of(self@, service.path@),
    {
        table_get(&self.table, &service.path)
    }

    /// The process that is entered under the name of `service`. One must be
    /// entered: asking for a service that nobody serves is a fault of the
    /// caller.
    pub fn find_task(&self, service: &Service) -> (r: usize)
        requires
            self@.dom().contains(service.path@),
        ensures
            r == self@[service.path@],
    {
        table_get(&self.table, &service.path).unwrap()
    }
}

} // verus!
