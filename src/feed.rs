use vstd::prelude::*;
use vstd::string::StrSliceExecFns;
use crate::model::GitStop;

verus! {

/// The index of the first ':' in `s` from `from` on, or the length of `s`.
pub open spec fn colon_at(s: Seq<char>, from: int) -> int
    decreases s.len() - from,
{
    if from >= s.len() {
        s.len() as int
    } else if s[from] == ':' {
        from
    } else {
        colon_at(s, from + 1)
    }
}

/// The station part of a stop id: what comes before its first ':'.
pub open spec fn station_part(s: Seq<char>) -> Seq<char> {
    s.take(colon_at(s, 0))
}

/// The station part of a stop id: what comes before its first ':', or the
/// whole id if it has none.
pub fn station_id(raw: &str) -> (r: String)
    ensures
        r@ == station_part(raw@),
{
    let n = raw.unicode_len();
    let mut i: usize = 0;
    while i < n && raw.get_char(i) != ':'
        invariant
            n == raw@.len(),
            i <= n,
            colon_at(raw@, 0) == colon_at(raw@, i as int),
        decreases n - i,
    {
        i += 1;
    }
    let part = raw.substring_char(0, i);
    part.to_owned()
}

/// A stop as the feed gives it: its id is the station part of the feed's
/// id, and its name is the feed's name, or the feed's whole id if it has none.
pub fn stop_from_feed(raw_id: &str, name: Option<String>) -> (r: GitStop)
    ensures
        r.id@ == station_part(raw_id@),
        r.name@ == match name {
            Some(n) => n@,
            None => raw_id@,
        },
{
    let id = station_id(raw_id);
    let name = match name {
        Some(n) => n,
        None => raw_id.to_owned(),
    };
    GitStop { id, name }
}

/// The name of a route: its long name, else its short name, else its id.
pub fn route_name(long_name: Option<String>, short_name: Option<String>, id: String) -> (r: String)
    ensures
        r == match long_name {
            Some(l) => l,
            None => match short_name {
                Some(s) => s,
                None => id,
            },
        },
{
    match long_name {
        Some(l) => l,
        None => match short_name {
            Some(s) => s,
            None => id,
        },
    }
}

/// Whether `name` is one of `names`.
fn listed(names: &Vec<String>, name: &String) -> (r: bool)
    ensures
        r == exists|k: int| 0 <= k < names@.len() && #[trigger] names@[k]@ == name@,
{
    let mut k: usize = 0;
    while k < names.len()
        invariant
            k <= names@.len(),
            forall|x: int| 0 <= x < k ==> #[trigger] names@[x]@ != name@,
        decreases names@.len() - k,
    {
        if names[k] == *name {
            return true;
        }
        k += 1;
    }
    false
}

/// A name that the prefilter lets through: any, with no filter; else one of
/// the filter's names, or a name that the route does not have.
pub open spec fn name_passes(filter: Seq<String>, name: Option<String>) -> bool {
    match name {
        None => true,
        Some(n) => filter.len() == 0 || exists|k: int| 0 <= k < filter.len() && #[trigger] filter[k]@ == n@,
    }
}

/// Whether a route with these names passes the prefilter `filter`: each name
/// the route has must be in the filter, unless the filter is empty.
pub fn passes_prefilter(filter: &Vec<String>, long_name: &Option<String>, short_name: &Option<String>) -> (r: bool)
    ensures
        r == (name_passes(filter@, *long_name) && name_passes(filter@, *short_name)),
{
    if filter.len() == 0 {
        return true;
    }
    let long_ok = match long_name {
        Some(n) => listed(filter, n),
        None => true,
    };
    let short_ok = match short_name {
        Some(n) => listed(filter, n),
        None => true,
    };
    long_ok && short_ok
}

} // verus!
