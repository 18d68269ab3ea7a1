//! The records that the server sends: people and the links between them.
use vstd::prelude::*;
use crate::date::Date;

verus! {

/// A person of the family tree. `id` is `None` for a person not yet stored.
#[derive(Clone, Debug)]
pub struct Person {
    pub id: Option<u32>,
    pub name: String,
    pub last_name: String,
    pub birth_dt: Date,
    pub death_dt: Option<Date>,
    pub country: String,
}

/// A relation `relation` from person `id_src` to person `id_tgt`.
#[derive(Clone, Debug)]
pub struct Link {
    pub id_src: u32,
    pub relation: String,
    pub id_tgt: u32,
}

/// Two people hold the same values.
pub open spec fn same_person(a: Person, b: Person) -> bool {
    &&& a.id == b.id
    &&& a.name@ == b.name@
    &&& a.last_name@ == b.last_name@
    &&& a.birth_dt == b.birth_dt
    &&& a.death_dt == b.death_dt
    &&& a.country@ == b.country@
}

impl Person {
    /// A copy of this person.
    pub fn duplicate(&self) -> (r: Person)
        ensures
            same_person(r, *self),
    {
        Person {
            id: self.id,
            name: self.name.clone(),
            last_name: self.last_name.clone(),
            birth_dt: self.birth_dt,
            death_dt: self.death_dt,
            country: self.country.clone(),
        }
    }

    /// A person with no id, empty names and country, born on `birth_dt`,
    /// with no death date.
    pub fn blank(birth_dt: Date) -> (p: Person)
        ensures
            p.id is None,
            p.name@.len() == 0,
            p.last_name@.len() == 0,
            p.country@.len() == 0,
            p.birth_dt == birth_dt,
            p.death_dt is None,
    {
        Person {
            id: None,
            name: String::new(),
            last_name: String::new(),
            birth_dt,
            death_dt: None,
            country: String::new(),
        }
    }
}

} // verus!
