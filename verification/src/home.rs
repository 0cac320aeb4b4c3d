//! Reconciling the user's systemd units when a new generation of home
//! files replaces the old one: which units to stop before the daemon
//! reload and which to start after it.
use vstd::prelude::*;
use crate::lcs::views;
use crate::text::{chars_of, ends_with, has_suffix, string_from};

verus! {

/// A unit file of a generation: its name, and its contents when they
/// could be read.
pub struct UnitFile {
    pub name: String,
    pub content: Option<Vec<u8>>,
}

/// What to do with the user's units.
pub struct SystemdPlan {
    /// Units to stop before the reload: removed or changed.
    pub stop: Vec<String>,
    /// Units to start after the reload: added or changed services and
    /// sockets.
    pub start: Vec<String>,
}

/// Each unit name appears once.
pub open spec fn unique_names(us: Seq<UnitFile>) -> bool {
    forall|i: int, j: int| 0 <= i < j < us.len() ==> us[i].name@ != us[j].name@
}

/// The generation has a unit named `n`.
pub open spec fn has_unit(us: Seq<UnitFile>, n: Seq<char>) -> bool {
    exists|i: int| 0 <= i < us.len() && us[i].name@ == n
}

/// The contents of the unit named `n`, as bytes.
pub open spec fn unit_bytes(us: Seq<UnitFile>, n: Seq<char>) -> Option<Seq<u8>>
    decreases us.len(),
{
    if us.len() == 0 {
        None
    } else if us[0].name@ == n {
        bytes_of(us[0].content)
    } else {
        unit_bytes(us.drop_first(), n)
    }
}

/// A unit in both generations whose contents differ (an unreadable file
/// counts as different from a readable one).
pub open spec fn unit_changed(old: Seq<UnitFile>, new: Seq<UnitFile>, n: Seq<char>) -> bool {
    has_unit(old, n) && has_unit(new, n) && unit_bytes(old, n) != unit_bytes(new, n)
}

/// A unit to stop: removed, or changed.
pub open spec fn unit_stops(old: Seq<UnitFile>, new: Seq<UnitFile>, n: Seq<char>) -> bool {
    has_unit(old, n) && (!has_unit(new, n) || unit_changed(old, new, n))
}

/// A unit that can be started: a service or a socket.
pub open spec fn startable(n: Seq<char>) -> bool {
    has_suffix(n, ".service"@) || has_suffix(n, ".socket"@)
}

/// A unit to start: added or changed, and startable.
pub open spec fn unit_starts(old: Seq<UnitFile>, new: Seq<UnitFile>, n: Seq<char>) -> bool {
    ((has_unit(new, n) && !has_unit(old, n)) || unit_changed(old, new, n)) && startable(n)
}

/// Finds the unit named `n`.
fn find_unit(us: &Vec<UnitFile>, n: &String) -> (r: Option<usize>)
    ensures
        match r {
            Some(i) => i < us.len() && us@[i as int].name@ == n@ && unit_bytes(us@, n@) == bytes_of(
                us@[i as int].content,
            ),
            None => !has_unit(us@, n@) && unit_bytes(us@, n@) is None,
        },
{
    let mut i: usize = 0;
    assert(us@.skip(0) =~= us@);
    while i < us.len()
        invariant
            i <= us.len(),
            forall|j: int| 0 <= j < i ==> us@[j].name@ != n@,
            unit_bytes(us@.skip(i as int), n@) == unit_bytes(us@, n@),
        decreases us.len() - i,
    {
        assert(us@.skip(i as int)[0] == us@[i as int]);
        assert(us@.skip(i as int).drop_first() =~= us@.skip(i + 1));
        if us[i].name == *n {
            return Some(i);
        }
        i += 1;
    }
    assert(us@.skip(i as int).len() == 0);
    None
}

/// The bytes held, if any.
pub open spec fn bytes_of(o: Option<Vec<u8>>) -> Option<Seq<u8>> {
    match o {
        Some(x) => Some(x@),
        None => None,
    }
}

/// Whether two byte strings are the same.
fn same_bytes(x: &Vec<u8>, y: &Vec<u8>) -> (r: bool)
    ensures
        r == (x@ == y@),
{
    if x.len() != y.len() {
        return false;
    }
    let mut i: usize = 0;
    while i < x.len()
        invariant
            i <= x.len() == y.len(),
            forall|j: int| 0 <= j < i ==> x@[j] == y@[j],
        decreases x.len() - i,
    {
        if x[i] != y[i] {
            assert(x@[i as int] != y@[i as int]);
            return false;
        }
        i += 1;
    }
    assert(x@ =~= y@);
    true
}

/// Whether two unit contents are the same.
fn same_content(a: &Option<Vec<u8>>, b: &Option<Vec<u8>>) -> (r: bool)
    ensures
        r == (bytes_of(*a) == bytes_of(*b)),
{
    match a {
        Some(x) => match b {
            Some(y) => same_bytes(x, y),
            None => false,
        },
        None => match b {
            Some(_) => false,
            None => true,
        },
    }
}

/// Whether the name is a service or a socket.
fn is_startable(n: &String) -> (b: bool)
    ensures
        b == startable(n@),
{
    let nc = chars_of(n.as_str());
    let service = chars_of(".service");
    let socket = chars_of(".socket");
    ends_with(&nc, &service) || ends_with(&nc, &socket)
}

/// Plans the unit changes between two generations: stop the removed and
/// changed units, reload, start the added and changed services and
/// sockets. Each list names a unit once.
pub fn plan_systemd(old: &Vec<UnitFile>, new: &Vec<UnitFile>) -> (plan: SystemdPlan)
    requires
        unique_names(old@),
        unique_names(new@),
    ensures
        forall|n: Seq<char>| views(plan.stop@).contains(n) <==> unit_stops(old@, new@, n),
        forall|n: Seq<char>| views(plan.start@).contains(n) <==> unit_starts(old@, new@, n),
        views(plan.stop@).no_duplicates(),
        views(plan.start@).no_duplicates(),
{
    let mut stop: Vec<String> = Vec::new();
    let mut i: usize = 0;
    while i < old.len()
        invariant
            i <= old.len(),
            unique_names(old@),
            forall|n: Seq<char>| views(stop@).contains(n) <==> (exists|j: int| 0 <= j < i && old@[j].name@ == n && unit_stops(old@, new@, n)),
            views(stop@).no_duplicates(),
            forall|k: int| #![trigger stop@[k]] 0 <= k < stop@.len() ==> exists|j: int| 0 <= j < i && #[trigger] old@[j].name@ == stop@[k]@,
        decreases old.len() - i,
    {
        let name = &old[i].name;
        let ghost nv = name@;
        proof {
            assert(has_unit(old@, nv)) by {
                assert(old@[i as int].name@ == nv);
            }
        }
        let stops = match find_unit(new, name) {
            None => true,
            Some(j) => {
                let o = find_unit(old, name);
                match o {
                    Some(oi) => !same_content(&old[oi].content, &new[j].content),
                    None => false,
                }
            },
        };
        assert(stops == unit_stops(old@, new@, nv)) by {
            assert(has_unit(old@, nv)) by {
                assert(old@[i as int].name@ == nv);
            }
        }
        let ghost before = views(stop@);
        if stops {
            stop.push(name.clone());
            proof {
                assert(views(stop@) =~= before.push(nv));
                assert(!before.contains(nv)) by {
                    if before.contains(nv) {
                        let k = choose|k: int| 0 <= k < before.len() && before[k] == nv;
                        assert(before[k] == stop@[k]@);
                        let j = choose|j: int| 0 <= j < i && #[trigger] old@[j].name@ == stop@[k]@;
                        assert(old@[j].name@ == old@[i as int].name@);
                    }
                }
            }
        }
        assert forall|n: Seq<char>| views(stop@).contains(n) <==> (exists|j: int| 0 <= j < i + 1 && old@[j].name@ == n && unit_stops(old@, new@, n)) by {
            if views(stop@).contains(n) && !before.contains(n) {
                assert(n == nv);
                assert(old@[i as int].name@ == n);
            }
            if exists|j: int| 0 <= j < i + 1 && old@[j].name@ == n && unit_stops(old@, new@, n) {
                let j = choose|j: int| 0 <= j < i + 1 && old@[j].name@ == n && unit_stops(old@, new@, n);
                if j == i {
                    assert(views(stop@).contains(n)) by {
                        assert(views(stop@)[views(stop@).len() - 1] == nv);
                    }
                } else {
                    assert(before.contains(n));
                    let k = choose|k: int| 0 <= k < before.len() && before[k] == n;
                    assert(views(stop@)[k] == n);
                }
            }
        }
        assert forall|k: int| #![trigger stop@[k]] 0 <= k < stop@.len() implies exists|j: int| 0 <= j < i + 1 && #[trigger] old@[j].name@ == stop@[k]@ by {
            if k < before.len() {
                assert(stop@[k]@ == before[k]);
            } else {
                assert(old@[i as int].name@ == stop@[k]@);
            }
        }
        i += 1;
    }
    let mut start: Vec<String> = Vec::new();
    let mut i: usize = 0;
    while i < new.len()
        invariant
            i <= new.len(),
            unique_names(new@),
            forall|n: Seq<char>| views(start@).contains(n) <==> (exists|j: int| 0 <= j < i && new@[j].name@ == n && unit_starts(old@, new@, n)),
            views(start@).no_duplicates(),
            forall|k: int| #![trigger start@[k]] 0 <= k < start@.len() ==> exists|j: int| 0 <= j < i && #[trigger] new@[j].name@ == start@[k]@,
        decreases new.len() - i,
    {
        let name = &new[i].name;
        let ghost nv = name@;
        let starts = is_startable(name) && match find_unit(old, name) {
            None => true,
            Some(oi) => !same_content(&old[oi].content, &new[i].content),
        };
        proof {
            assert(has_unit(new@, nv)) by {
                assert(new@[i as int].name@ == nv);
            }
        }
        let ghost expect = unit_starts(old@, new@, nv);
        assert(starts == expect) by {
            assert(has_unit(new@, nv)) by {
                assert(new@[i as int].name@ == nv);
            }
            let o = unit_bytes(new@, nv);
            assert(new@.skip(0) =~= new@);
            lemma_unit_bytes_at(new@, i as int);
        }
        let ghost before = views(start@);
        if starts {
            start.push(name.clone());
            proof {
                assert(views(start@) =~= before.push(nv));
                assert(!before.contains(nv)) by {
                    if before.contains(nv) {
                        let k = choose|k: int| 0 <= k < before.len() && before[k] == nv;
                        assert(before[k] == start@[k]@);
                        let j = choose|j: int| 0 <= j < i && #[trigger] new@[j].name@ == start@[k]@;
                        assert(new@[j].name@ == new@[i as int].name@);
                    }
                }
            }
        }
        assert forall|n: Seq<char>| views(start@).contains(n) <==> (exists|j: int| 0 <= j < i + 1 && new@[j].name@ == n && unit_starts(old@, new@, n)) by {
            if views(start@).contains(n) && !before.contains(n) {
                assert(n == nv);
                assert(new@[i as int].name@ == n);
            }
            if exists|j: int| 0 <= j < i + 1 && new@[j].name@ == n && unit_starts(old@, new@, n) {
                let j = choose|j: int| 0 <= j < i + 1 && new@[j].name@ == n && unit_starts(old@, new@, n);
                if j == i {
                    assert(views(start@).contains(n)) by {
                        assert(views(start@)[views(start@).len() - 1] == nv);
                    }
                } else {
                    assert(before.contains(n));
                    let k = choose|k: int| 0 <= k < before.len() && before[k] == n;
                    assert(views(start@)[k] == n);
                }
            }
        }
        assert forall|k: int| #![trigger start@[k]] 0 <= k < start@.len() implies exists|j: int| 0 <= j < i + 1 && #[trigger] new@[j].name@ == start@[k]@ by {
            if k < before.len() {
                assert(start@[k]@ == before[k]);
            } else {
                assert(new@[i as int].name@ == start@[k]@);
            }
        }
        i += 1;
    }
    proof {
        assert forall|n: Seq<char>| views(stop@).contains(n) <==> unit_stops(old@, new@, n) by {
            if unit_stops(old@, new@, n) {
                let j = choose|j: int| 0 <= j < old@.len() && old@[j].name@ == n;
            }
        }
        assert forall|n: Seq<char>| views(start@).contains(n) <==> unit_starts(old@, new@, n) by {
            if unit_starts(old@, new@, n) {
                let j = choose|j: int| 0 <= j < new@.len() && new@[j].name@ == n;
            }
        }
    }
    SystemdPlan { stop, start }
}

/// With unique names, the contents found for a unit's name are that unit's.
proof fn lemma_unit_bytes_at(us: Seq<UnitFile>, i: int)
    requires
        unique_names(us),
        0 <= i < us.len(),
    ensures
        unit_bytes(us, us[i].name@) == bytes_of(us[i].content),
    decreases us.len(),
{
    if i > 0 {
        assert(us[0].name@ != us[i].name@);
        assert(us.drop_first()[i - 1] == us[i]);
        lemma_unit_bytes_at(us.drop_first(), i - 1);
    }
}

/// Applying the same generation again stops and starts nothing.
pub proof fn lemma_reapply_is_noop(units: Seq<UnitFile>, n: Seq<char>)
    ensures
        !unit_stops(units, units, n),
        !unit_starts(units, units, n),
{
}

/// A unit started that was there before is stopped first: a changed
/// service or socket is restarted.
pub proof fn lemma_restart_stops_first(old: Seq<UnitFile>, new: Seq<UnitFile>, n: Seq<char>)
    requires
        unit_starts(old, new, n),
        has_unit(old, n),
    ensures
        unit_stops(old, new, n),
{
}

} // verus!
