//! Cities and the transport links between them.
use vstd::prelude::*;
use crate::types::Price;

verus! {

pub type CityId = usize;

/// A city: its identifier and its name.
#[derive(Clone, Debug)]
pub struct City {
    pub id: CityId,
    pub name: String,
}

impl City {
    pub fn new(id: CityId, name: String) -> (r: City)
        ensures
            r.id == id,
            r.name@ == name@,
    {
        City { id, name }
    }

    pub fn get_id(&self) -> (r: CityId)
        ensures
            r == self.id,
    {
        self.id
    }

    pub fn get_name(&self) -> (r: &String)
        ensures
            r@ == self.name@,
    {
        &self.name
    }
}

/// A transport link from one city to another, with the cost of carrying
/// one unit of goods along it.
#[derive(Clone, Copy, Debug)]
pub struct Connection {
    pub id_from: CityId,
    pub id_to: CityId,
    pub cost: Price,
}

impl Connection {
    pub fn new(id_from: CityId, id_to: CityId, cost: Price) -> (r: Connection)
        ensures
            r.id_from == id_from,
            r.id_to == id_to,
            r.cost == cost,
    {
        Connection { id_from, id_to, cost }
    }

    pub fn get_from_id(&self) -> (r: CityId)
        ensures
            r == self.id_from,
    {
        self.id_from
    }

    pub fn get_to_id(&self) -> (r: CityId)
        ensures
            r == self.id_to,
    {
        self.id_to
    }

    pub fn get_cost(&self) -> (r: Price)
        ensures
            r == self.cost,
    {
        self.cost
    }
}

/// The position of the city with identifier `id`.
pub open spec fn index_of(cities: Seq<City>, id: CityId) -> int {
    choose|j: int| 0 <= j < cities.len() && cities[j].id == id
}

/// No two cities share an identifier.
pub open spec fn ids_unique(cities: Seq<City>) -> bool {
    forall|i: int, j: int|
        #![trigger cities[i], cities[j]]
        0 <= i < cities.len() && 0 <= j < cities.len() && i != j ==> cities[i].id != cities[j].id
}

/// Some city has identifier `id`.
pub open spec fn has_city(cities: Seq<City>, id: CityId) -> bool {
    exists|j: int| 0 <= j < cities.len() && cities[j].id == id
}

/// The cities and, for each of them in the same order, the links that
/// leave it.
#[derive(Clone, Debug)]
pub struct Geography {
    cities: Vec<City>,
    connections: Vec<Vec<Connection>>,
}

impl Geography {
    pub closed spec fn cities_spec(&self) -> Seq<City> {
        self.cities@
    }

    /// The links leaving the city at position `i`.
    pub closed spec fn links(&self, i: int) -> Seq<Connection> {
        self.connections@[i]@
    }

    /// The number of link lists.
    pub closed spec fn link_lists(&self) -> int {
        self.connections@.len() as int
    }

    /// There is one link list per city, identifiers are unique, every link leaves the city it is listed
    /// under and reaches a known city, and every link has a reverse link of
    /// the same cost.
    pub open spec fn wf(&self) -> bool {
        let cs = self.cities_spec();
        &&& self.link_lists() == cs.len()
        &&& ids_unique(cs)
        &&& forall|i: int, k: int|
            0 <= i < cs.len() && 0 <= k < self.links(i).len() ==> {
                let c = #[trigger] self.links(i)[k];
                &&& c.id_from == cs[i].id
                &&& has_city(cs, c.id_to)
                &&& exists|m: int|
                    0 <= m < self.links(index_of(cs, c.id_to)).len() && #[trigger] self.links(
                        index_of(cs, c.id_to),
                    )[m] == Connection { id_from: c.id_to, id_to: c.id_from, cost: c.cost }
            }
    }

    pub fn new() -> (r: Geography)
        ensures
            r.wf(),
            r.cities_spec().len() == 0,
    {
        Geography { cities: Vec::new(), connections: Vec::new() }
    }

    /// The position of the city with identifier `id`, if there is one.
    pub fn position(&self, id: CityId) -> (r: Option<usize>)
        requires
            self.wf(),
        ensures
            r.is_none() <==> !has_city(self.cities_spec(), id),
            r.is_some() ==> r.unwrap() == index_of(self.cities_spec(), id),
            r.is_some() ==> r.unwrap() < self.cities_spec().len(),
            r.is_some() ==> self.cities_spec()[r.unwrap() as int].id == id,
    {
        let mut i: usize = 0;
        while i < self.cities.len()
            invariant
                self.wf(),
                i <= self.cities@.len(),
                forall|j: int| 0 <= j < i ==> self.cities@[j].id != id,
            decreases self.cities@.len() - i,
        {
            if self.cities[i].id == id {
                proof {
                    assert(self.cities@[i as int].id == id);
                    assert(has_city(self.cities_spec(), id));
                    let c = index_of(self.cities_spec(), id);
                    assert(0 <= c < self.cities@.len() && self.cities_spec()[c].id == id);
                    if c != i as int {
                        assert(self.cities_spec()[c].id != self.cities_spec()[i as int].id);
                    }
                }
                return Some(i);
            }
            i = i + 1;
        }
        None
    }

    /// Adds a city; a city with the same identifier is replaced and keeps
    /// its links.
    pub fn add_city(&mut self, city: City)
        requires
            old(self).wf(),
        ensures
            final(self).wf(),
            has_city(old(self).cities_spec(), city.id) ==> final(self).cities_spec() == old(
                self,
            ).cities_spec().update(index_of(old(self).cities_spec(), city.id), city),
            !has_city(old(self).cities_spec(), city.id) ==> final(self).cities_spec() == old(
                self,
            ).cities_spec().push(city),
            forall|i: int| 0 <= i < old(self).cities_spec().len() ==> #[trigger] final(self).links(i) == old(self).links(i),
            !has_city(old(self).cities_spec(), city.id) ==> final(self).links(old(self).cities_spec().len() as int)
                == Seq::<Connection>::empty(),
    {
        match self.position(city.id) {
            Some(i) => {
                let ghost before = *self;
                self.cities.set(i, city);
                assert forall|i2: int, k: int|
                    0 <= i2 < self.cities@.len() && 0 <= k < self.links(i2).len() implies {
                        let c = #[trigger] self.links(i2)[k];
                        &&& c.id_from == self.cities@[i2].id
                        &&& has_city(self.cities@, c.id_to)
                        &&& exists|m: int|
                            0 <= m < self.links(index_of(self.cities@, c.id_to)).len()
                                && #[trigger] self.links(index_of(self.cities@, c.id_to))[m]
                                == Connection { id_from: c.id_to, id_to: c.id_from, cost: c.cost }
                    } by {
                    let c = self.links(i2)[k];
                    assert(before.links(i2)[k] == c);
                    assert(c.id_from == before.cities@[i2].id);
                    let t = index_of(before.cities@, c.id_to);
                    assert(before.cities@[t].id == c.id_to);
                    assert(self.cities@[t].id == c.id_to);
                    let t2 = index_of(self.cities@, c.id_to);
                    assert(self.cities@[t2].id == c.id_to);
                    assert(t2 == t);
                    assert(self.links(t) == before.links(t));
                    let m = choose|m: int|
                        0 <= m < before.links(t).len() && before.links(t)[m] == Connection {
                            id_from: c.id_to,
                            id_to: c.id_from,
                            cost: c.cost,
                        };
                    assert(self.links(t)[m] == before.links(t)[m]);
                }
            },
            None => {
                let ghost before = *self;
                self.cities.push(city);
                self.connections.push(Vec::new());
                assert forall|i2: int, k: int|
                    0 <= i2 < self.cities@.len() && 0 <= k < self.links(i2).len() implies {
                        let c = #[trigger] self.links(i2)[k];
                        &&& c.id_from == self.cities@[i2].id
                        &&& has_city(self.cities@, c.id_to)
                        &&& exists|m: int|
                            0 <= m < self.links(index_of(self.cities@, c.id_to)).len()
                                && #[trigger] self.links(index_of(self.cities@, c.id_to))[m]
                                == Connection { id_from: c.id_to, id_to: c.id_from, cost: c.cost }
                    } by {
                    assert(i2 < before.cities@.len());
                    let c = self.links(i2)[k];
                    assert(before.links(i2)[k] == c);
                    let t = index_of(before.cities@, c.id_to);
                    assert(self.cities@[t].id == c.id_to);
                    assert(index_of(self.cities@, c.id_to) == t);
                    assert(self.links(t) == before.links(t));
                }
            },
        }
    }

    /// Adds a link and its reverse link of the same cost.
    pub fn add_connection(&mut self, connection: Connection)
        requires
            old(self).wf(),
            has_city(old(self).cities_spec(), connection.id_from),
            has_city(old(self).cities_spec(), connection.id_to),
        ensures
            final(self).wf(),
            final(self).cities_spec() == old(self).cities_spec(),
            ({
                let f = index_of(old(self).cities_spec(), connection.id_from);
                let t = index_of(old(self).cities_spec(), connection.id_to);
                let rev = Connection { id_from: connection.id_to, id_to: connection.id_from, cost: connection.cost };
                &&& f != t ==> final(self).links(f) == old(self).links(f).push(connection)
                    && final(self).links(t) == old(self).links(t).push(rev)
                &&& f == t ==> final(self).links(f) == old(self).links(f).push(connection).push(rev)
                &&& forall|i: int|
                    0 <= i < old(self).cities_spec().len() && i != f && i != t ==> #[trigger] final(self).links(i)
                        == old(self).links(i)
            }),
    {
        let from = self.position(connection.id_from).unwrap();
        let to = self.position(connection.id_to).unwrap();
        let rev = Connection::new(connection.id_to, connection.id_from, connection.cost);
        let ghost before = *self;
        self.connections[from].push(connection);
        self.connections[to].push(rev);
        assert forall|i: int, k: int|
            0 <= i < self.cities@.len() && 0 <= k < self.links(i).len() implies {
                let c = #[trigger] self.links(i)[k];
                &&& c.id_from == self.cities@[i].id
                &&& has_city(self.cities@, c.id_to)
                &&& exists|m: int|
                    0 <= m < self.links(index_of(self.cities@, c.id_to)).len() && #[trigger] self.links(
                        index_of(self.cities@, c.id_to),
                    )[m] == Connection { id_from: c.id_to, id_to: c.id_from, cost: c.cost }
            } by {
            let c = self.links(i)[k];
            let t = index_of(self.cities@, c.id_to);
            if k < before.links(i).len() {
                assert(before.links(i)[k] == c);
                let m = choose|m: int|
                    0 <= m < before.links(t).len() && before.links(t)[m] == Connection {
                        id_from: c.id_to,
                        id_to: c.id_from,
                        cost: c.cost,
                    };
                assert(self.links(t)[m] == before.links(t)[m]);
            } else if i == from && k == before.links(i).len() && (i != to || k == before.links(i).len()) {
                assert(c == connection || c == rev);
                if c == connection {
                    assert(t == to);
                    if to == from {
                        assert(self.links(t)[k + 1] == rev);
                    } else {
                        assert(self.links(t)[before.links(t).len() as int] == rev);
                    }
                } else {
                    assert(t == from);
                    assert(self.links(t)[k] == connection);
                }
            } else {
                assert(c == rev);
                assert(t == from);
                assert(self.links(t)[before.links(from as int).len() as int] == connection);
            }
        }
    }

    pub fn get_cities(&self) -> (r: &Vec<City>)
        ensures
            r@ == self.cities_spec(),
    {
        &self.cities
    }

    /// The links leaving each city, in the order of the cities.
    pub fn get_connections(&self) -> (r: &Vec<Vec<Connection>>)
        ensures
            r@.len() == self.link_lists(),
            forall|i: int| 0 <= i < r@.len() ==> #[trigger] r@[i]@ == self.links(i),
    {
        &self.connections
    }
}

} // verus!
