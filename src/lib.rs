//! A pluggable preprocessing pipeline for tabular records: parsing, dataset
//! statistics, min-max scaling, chunking and a keyed sample store.
use vstd::prelude::*;
use vstd::std_specs::slice::into_iter_elts;
use crate::text::same_text;

pub mod config;
pub mod dataset;
pub mod decimal;
pub mod domain;
pub mod model;
pub mod pattern;
pub mod preprocess;
pub mod sample;
pub mod text;

verus! {

/// Every stored entity has a unique string identifier.
pub trait Identifiable {
    spec fn id_view(&self) -> Seq<char>;

    fn id(&self) -> (r: &str)
        ensures
            r@ == self.id_view(),
    ;
}

/// Errors of the keyed store.
#[derive(Debug)]
pub enum DbError {
    /// An entry with this id is already stored.
    Duplicate(String),
    /// No entry has this id.
    NotFound(String),
    /// A stored number could not be read; holds the text.
    ParseFloat(String),
}

/// Keys are pairwise distinct.
pub open spec fn distinct_keys(keys: Seq<Seq<char>>) -> bool {
    forall|i: int, j: int|
        0 <= i < keys.len() && 0 <= j < keys.len() && i != j ==> #[trigger] keys[i] != #[trigger] keys[j]
}

/// Whether `key` occurs in `keys`.
pub open spec fn has_key(keys: Seq<Seq<char>>, key: Seq<char>) -> bool {
    exists|i: int| 0 <= i < keys.len() && #[trigger] keys[i] == key
}

/// An in-memory store of entities keyed by their id at the time they were
/// stored, in the order of first insertion.
pub struct LibDB<T: Identifiable> {
    keys: Vec<String>,
    values: Vec<T>,
}

impl<T: Identifiable> LibDB<T> {
    /// The stored keys.
    pub closed spec fn keys(&self) -> Seq<Seq<char>> {
        self.keys@.map_values(|k: String| k@)
    }

    /// The stored entities; entity `i` is stored under key `i`.
    pub closed spec fn values(&self) -> Seq<T> {
        self.values@
    }

    pub closed spec fn wf(&self) -> bool {
        &&& self.keys@.len() == self.values@.len()
        &&& distinct_keys(self.keys())
    }

    pub fn new() -> (r: Self)
        ensures
            r.wf(),
            r.keys() == Seq::<Seq<char>>::empty(),
            r.values() == Seq::<T>::empty(),
    {
        let r = LibDB { keys: Vec::new(), values: Vec::new() };
        assert(r.keys() =~= Seq::<Seq<char>>::empty());
        r
    }

    fn find(&self, id: &str) -> (r: Option<usize>)
        requires
            self.wf(),
        ensures
            match r {
                Some(i) => i < self.keys().len() && self.keys()[i as int] == id@,
                None => !has_key(self.keys(), id@),
            },
    {
        let mut i: usize = 0;
        while i < self.keys.len()
            invariant
                self.wf(),
                i <= self.keys@.len(),
                forall|j: int| 0 <= j < i ==> self.keys()[j] != id@,
            decreases self.keys@.len() - i,
        {
            if same_text(self.keys[i].as_str(), id) {
                return Some(i);
            }
            i = i + 1;
        }
        None
    }

    /// Stores `item` unless an entry with its id exists.
    pub fn insert(&mut self, item: T) -> (r: Result<(), DbError>)
        requires
            old(self).wf(),
        ensures
            final(self).wf(),
            has_key(old(self).keys(), item.id_view()) ==> {
                &&& r matches Err(DbError::Duplicate(k)) && k@ == item.id_view()
                &&& final(self).keys() == old(self).keys()
                &&& final(self).values() == old(self).values()
            },
            !has_key(old(self).keys(), item.id_view()) ==> {
                &&& r is Ok
                &&& final(self).keys() == old(self).keys().push(item.id_view())
                &&& final(self).values() == old(self).values().push(item)
            },
    {
        let key = item.id().to_owned();
        match self.find(key.as_str()) {
            Some(_) => Err(DbError::Duplicate(key)),
            None => {
                self.push_new(key, item);
                Ok(())
            },
        }
    }

    fn push_new(&mut self, key: String, item: T)
        requires
            old(self).wf(),
            !has_key(old(self).keys(), key@),
        ensures
            final(self).wf(),
            final(self).keys() == old(self).keys().push(key@),
            final(self).values() == old(self).values().push(item),
    {
        let ghost old_keys = self.keys();
        self.keys.push(key);
        self.values.push(item);
        assert(self.keys() =~= old_keys.push(key@));
        assert forall|i: int, j: int|
            0 <= i < self.keys().len() && 0 <= j < self.keys().len() && i != j implies #[trigger] self.keys()[i]
            != #[trigger] self.keys()[j] by {
            if i < old_keys.len() && j < old_keys.len() {
                assert(old_keys[i] != old_keys[j]);
            } else if i < old_keys.len() {
                assert(old_keys[i] != key@);
            } else if j < old_keys.len() {
                assert(old_keys[j] != key@);
            }
        }
    }

    /// Stores `item`, replacing the entry with its id if there is one.
    pub fn upsert(&mut self, item: T)
        requires
            old(self).wf(),
        ensures
            final(self).wf(),
            forall|i: int|
                0 <= i < old(self).keys().len() && old(self).keys()[i] == item.id_view() ==> {
                    &&& final(self).keys() == old(self).keys()
                    &&& final(self).values() == old(self).values().update(i, item)
                },
            !has_key(old(self).keys(), item.id_view()) ==> {
                &&& final(self).keys() == old(self).keys().push(item.id_view())
                &&& final(self).values() == old(self).values().push(item)
            },
    {
        let key = item.id().to_owned();
        match self.find(key.as_str()) {
            Some(i) => {
                self.values.set(i, item);
                proof {
                    assert forall|j: int|
                        0 <= j < old(self).keys().len() && old(self).keys()[j] == key@ implies j
                        == i by {}
                }
            },
            None => {
                self.push_new(key, item);
            },
        }
    }

    /// The entry stored under `id`.
    pub fn get(&self, id: &str) -> (r: Option<&T>)
        requires
            self.wf(),
        ensures
            match r {
                Some(x) => exists|i: int|
                    0 <= i < self.keys().len() && #[trigger] self.keys()[i] == id@ && self.values()[i]
                        == *x,
                None => !has_key(self.keys(), id@),
            },
    {
        match self.find(id) {
            Some(i) => Some(&self.values[i]),
            None => None,
        }
    }

    /// The entry stored under `id`, for update in place; its key stays.
    pub fn get_mut(&mut self, id: &str) -> (r: Option<&mut T>)
        requires
            old(self).wf(),
        ensures
            final(self).keys() == old(self).keys(),
            final(self).wf(),
            match r {
                Some(x) => exists|i: int|
                    0 <= i < old(self).keys().len() && #[trigger] old(self).keys()[i] == id@
                        && old(self).values()[i] == *x && final(self).values() == old(
                        self,
                    ).values().update(i, *final(x)),
                None => !has_key(old(self).keys(), id@) && final(self).values() == old(
                    self,
                ).values(),
            },
    {
        match self.find(id) {
            Some(i) => Some(&mut self.values[i]),
            None => None,
        }
    }

    /// Takes out the entry stored under `id`.
    pub fn remove(&mut self, id: &str) -> (r: Option<T>)
        requires
            old(self).wf(),
        ensures
            final(self).wf(),
            match r {
                Some(x) => exists|i: int|
                    0 <= i < old(self).keys().len() && #[trigger] old(self).keys()[i] == id@
                        && old(self).values()[i] == x && final(self).keys() == old(
                        self,
                    ).keys().remove(i) && final(self).values() == old(self).values().remove(i),
                None => !has_key(old(self).keys(), id@) && final(self).keys() == old(self).keys()
                    && final(self).values() == old(self).values(),
            },
    {
        match self.find(id) {
            Some(i) => {
                let ghost old_keys = self.keys();
                let _ = self.keys.remove(i);
                let x = self.values.remove(i);
                assert(self.keys() =~= old_keys.remove(i as int));
                assert forall|a: int, b: int|
                    0 <= a < self.keys().len() && 0 <= b < self.keys().len() && a != b implies #[trigger] self.keys()[a]
                    != #[trigger] self.keys()[b] by {
                    let oa = if a < i {
                        a
                    } else {
                        a + 1
                    };
                    let ob = if b < i {
                        b
                    } else {
                        b + 1
                    };
                    assert(old_keys[oa] != old_keys[ob]);
                }
                Some(x)
            },
            None => None,
        }
    }

    pub fn len(&self) -> (r: usize)
        requires
            self.wf(),
        ensures
            r == self.values().len(),
    {
        self.values.len()
    }

    pub fn is_empty(&self) -> (r: bool)
        requires
            self.wf(),
        ensures
            r == (self.values().len() == 0),
    {
        self.values.len() == 0
    }

    /// The stored entities, in store order.
    pub fn iter(&self) -> (r: std::slice::Iter<'_, T>)
        ensures
            into_iter_elts(r) == self.values(),
    {
        self.values.as_slice().iter()
    }
}

} // verus!
