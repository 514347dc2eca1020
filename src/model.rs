use vstd::prelude::*;

verus! {

/// A stop of the transit network. Two stops with the same `id` are the same
/// physical place, whatever their names.
#[derive(Debug, Clone)]
pub struct GitStop {
    pub id: String,
    pub name: String,
}

/// A route: an ordered sequence of stops.
#[derive(Debug, Clone)]
pub struct GitRoute {
    pub id: String,
    pub name: String,
    pub stops: Vec<GitStop>,
}

/// The stop ids of a sequence of stops, in order.
pub open spec fn stop_ids(stops: Seq<GitStop>) -> Seq<Seq<char>> {
    Seq::new(stops.len(), |i: int| stops[i].id@)
}

/// The character sequences of a sequence of strings.
pub open spec fn string_views(v: Seq<String>) -> Seq<Seq<char>> {
    Seq::new(v.len(), |i: int| v[i]@)
}

/// The stop sequences of a sequence of routes.
pub open spec fn stops_of(rs: Seq<GitRoute>) -> Seq<Seq<GitStop>> {
    Seq::new(rs.len(), |i: int| rs[i].stops@)
}

/// A sequence in the opposite order.
pub open spec fn reversed<T>(s: Seq<T>) -> Seq<T> {
    Seq::new(s.len(), |i: int| s[s.len() - 1 - i])
}

/// Reversing twice gives back the sequence.
pub proof fn lemma_reversed_twice<T>(s: Seq<T>)
    ensures
        reversed(reversed(s)) == s,
{
    assert(reversed(reversed(s)) =~= s);
}

impl GitStop {
    /// A copy of the stop, field for field.
    pub fn duplicate(&self) -> (r: GitStop)
        ensures
            r == *self,
    {
        GitStop { id: self.id.clone(), name: self.name.clone() }
    }
}

impl GitRoute {
    /// A copy of the route, field for field.
    pub fn duplicate(&self) -> (r: GitRoute)
        ensures
            r.id == self.id,
            r.name == self.name,
            r.stops@ == self.stops@,
    {
        let mut stops: Vec<GitStop> = Vec::new();
        let mut i: usize = 0;
        while i < self.stops.len()
            invariant
                i <= self.stops@.len(),
                stops@ == self.stops@.take(i as int),
            decreases self.stops@.len() - i,
        {
            stops.push(self.stops[i].duplicate());
            assert(stops@ =~= self.stops@.take(i + 1));
            i += 1;
        }
        assert(stops@ =~= self.stops@);
        GitRoute { id: self.id.clone(), name: self.name.clone(), stops }
    }

    /// The same route travelled in the opposite direction.
    pub fn reversed(&self) -> (r: GitRoute)
        ensures
            r.id == self.id,
            r.name == self.name,
            r.stops@ == reversed(self.stops@),
    {
        let mut stops: Vec<GitStop> = Vec::new();
        let n = self.stops.len();
        let mut i: usize = 0;
        while i < n
            invariant
                n == self.stops@.len(),
                i <= n,
                stops@ == reversed(self.stops@).take(i as int),
            decreases n - i,
        {
            stops.push(self.stops[n - 1 - i].duplicate());
            assert(stops@ =~= reversed(self.stops@).take(i + 1));
            i += 1;
        }
        assert(stops@ =~= reversed(self.stops@));
        GitRoute { id: self.id.clone(), name: self.name.clone(), stops }
    }

    /// The stops of the route, in order.
    pub fn stops(&self) -> (r: &Vec<GitStop>)
        ensures
            r@ == self.stops@,
    {
        &self.stops
    }

    /// The stop at `idx`, if the route has that many stops.
    pub fn stop(&self, idx: usize) -> (r: Option<&GitStop>)
        ensures
            idx < self.stops@.len() ==> (r matches Some(s) && *s == self.stops@[idx as int]),
            idx >= self.stops@.len() ==> r is None,
    {
        if idx < self.stops.len() {
            Some(&self.stops[idx])
        } else {
            None
        }
    }
}

/// Whether some stop of `stops` has the id `id`.
pub fn has_stop_id(stops: &Vec<GitStop>, id: &String) -> (r: bool)
    ensures
        r == stop_ids(stops@).contains(id@),
{
    let mut i: usize = 0;
    while i < stops.len()
        invariant
            i <= stops@.len(),
            forall|k: int| 0 <= k < i ==> stops@[k].id@ != id@,
        decreases stops@.len() - i,
    {
        if stops[i].id == *id {
            assert(stop_ids(stops@)[i as int] == id@);
            return true;
        }
        i += 1;
    }
    proof {
        if stop_ids(stops@).contains(id@) {
            let k = choose|k: int| 0 <= k < stop_ids(stops@).len() && stop_ids(stops@)[k] == id@;
            assert(stops@[k].id@ == id@);
        }
    }
    false
}

} // verus!
