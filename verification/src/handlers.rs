//! Registries of user handlers keyed by tag name: one handler per name for
//! custom types, and prioritized handler lists for tags. The handler type
//! is the caller's (in the Python binding, a Python object).
use crate::registry::{entry_index, lemma_entry_index_unique, names_unique, register_spec};
use crate::text::str_equals;
use vstd::prelude::*;

verus! {

/// Position of `name` among `keys`, which are unique.
fn find_name<V>(v: &Vec<(String, V)>, name: &str, Ghost(e): Ghost<Seq<(Seq<char>, V)>>) -> (res: Option<usize>)
    requires
        e.len() == v@.len(),
        forall|j: int| 0 <= j < e.len() ==> #[trigger] e[j].0 == v@[j].0@,
        names_unique(e),
    ensures
        match res {
            Some(i) => entry_index(e, name@) == Some(i as int),
            None => entry_index(e, name@) is None,
        },
{
    proof {
        lemma_entry_index_unique(e, name@);
    }
    let mut i: usize = 0;
    while i < v.len()
        invariant
            0 <= i <= v@.len(),
            e.len() == v@.len(),
            forall|j: int| 0 <= j < e.len() ==> #[trigger] e[j].0 == v@[j].0@,
            forall|j: int| 0 <= j < i ==> e[j].0 != name@,
            forall|j: int| 0 <= j < e.len() && e[j].0 == name@ ==> entry_index(e, name@) == Some(j),
            entry_index(e, name@) is None <==> forall|j: int| 0 <= j < e.len() ==> e[j].0 != name@,
        decreases v@.len() - i,
    {
        assert(e[i as int].0 == v@[i as int].0@);
        if str_equals(v[i].0.as_str(), name) {
            return Some(i);
        }
        i = i + 1;
    }
    None
}

/// The entries without the one at `i`.
pub open spec fn remove_at<V>(e: Seq<V>, i: Option<int>) -> Seq<V> {
    match i {
        Some(k) => e.remove(k),
        None => e,
    }
}

proof fn lemma_remove_keeps_unique<V>(e: Seq<(Seq<char>, V)>, k: int)
    requires
        names_unique(e),
        0 <= k < e.len(),
    ensures
        names_unique(e.remove(k)),
{
    let r = e.remove(k);
    assert forall|a: int, b: int| 0 <= a < b < r.len() implies r[a].0 != r[b].0 by {
        let a2 = if a < k { a } else { a + 1 };
        let b2 = if b < k { b } else { b + 1 };
        assert(r[a] == e[a2]);
        assert(r[b] == e[b2]);
    }
}

/// Custom type handlers, one per tag name.
pub struct TypeRegistry<H> {
    handlers: Vec<(String, H)>,
}

impl<H> TypeRegistry<H> {
    /// The registered names and handlers, in registration order.
    pub closed spec fn entries(&self) -> Seq<(Seq<char>, H)> {
        self.handlers@.map_values(|p: (String, H)| (p.0@, p.1))
    }

    /// No name is registered twice.
    pub open spec fn wf(&self) -> bool {
        names_unique(self.entries())
    }

    /// An empty registry.
    pub fn new() -> (res: Self)
        ensures
            res.entries() == Seq::<(Seq<char>, H)>::empty(),
            res.wf(),
    {
        let res = TypeRegistry { handlers: Vec::new() };
        assert(res.entries() =~= Seq::<(Seq<char>, H)>::empty());
        res
    }

    /// Register a handler under a name, replacing any handler of that name.
    pub fn register(&mut self, name: &str, handler: H)
        requires
            old(self).wf(),
        ensures
            final(self).wf(),
            final(self).entries() == register_spec(old(self).entries(), name@, handler),
    {
        let ghost e = self.entries();
        let ghost h = handler;
        match find_name(&self.handlers, name, Ghost(e)) {
            Some(i) => {
                self.handlers.set(i, (name.to_string(), handler));
                proof {
                    assert(self.entries() =~= e.update(i as int, (name@, h)));
                    assert forall|a: int, b: int| 0 <= a < b < self.entries().len() implies self.entries()[a].0
                        != self.entries()[b].0 by {
                        lemma_entry_index_unique(e, name@);
                    }
                }
            },
            None => {
                self.handlers.push((name.to_string(), handler));
                proof {
                    lemma_entry_index_unique(e, name@);
                    assert(self.entries() =~= e.push((name@, h)));
                    assert forall|a: int, b: int| 0 <= a < b < self.entries().len() implies self.entries()[a].0
                        != self.entries()[b].0 by {
                        if b == e.len() {
                            assert(self.entries()[a] == e[a]);
                        }
                    }
                }
            },
        }
    }

    /// Remove every handler.
    pub fn clear_all(&mut self)
        ensures
            final(self).entries() == Seq::<(Seq<char>, H)>::empty(),
            final(self).wf(),
    {
        self.handlers.clear();
        assert(self.entries() =~= Seq::<(Seq<char>, H)>::empty());
    }

    /// Whether no handler is registered.
    pub fn is_empty(&self) -> (res: bool)
        ensures
            res == (self.entries().len() == 0),
    {
        self.handlers.len() == 0
    }

    /// Remove the handler registered under `name`, if any.
    pub fn remove(&mut self, name: &str)
        requires
            old(self).wf(),
        ensures
            final(self).wf(),
            final(self).entries() == remove_at(old(self).entries(), entry_index(old(self).entries(), name@)),
    {
        let ghost e = self.entries();
        match find_name(&self.handlers, name, Ghost(e)) {
            Some(i) => {
                self.handlers.remove(i);
                proof {
                    assert(self.entries() =~= e.remove(i as int));
                    lemma_remove_keeps_unique(e, i as int);
                }
            },
            None => {},
        }
    }
}

impl<H: Clone> TypeRegistry<H> {
    /// The handler registered under `name`, cloned.
    pub fn get(&self, name: &str) -> (res: Option<H>)
        requires
            self.wf(),
        ensures
            match entry_index(self.entries(), name@) {
                Some(i) => res is Some && cloned(self.entries()[i].1, res->0),
                None => res is None,
            },
    {
        match find_name(&self.handlers, name, Ghost(self.entries())) {
            Some(i) => {
                let h = self.handlers[i].1.clone();
                Some(h)
            },
            None => None,
        }
    }
}

/// `order` lists the positions `0..n` of `ps` once each, by nondecreasing
/// priority, positions of equal priority in their original order.
pub open spec fn stable_order(ps: Seq<u32>, order: Seq<usize>, n: int) -> bool {
    &&& order.len() == n
    &&& forall|k: int| 0 <= k < n ==> #[trigger] order[k] < n
    &&& forall|a: int, b: int| 0 <= a < b < n ==> order[a] != order[b]
    &&& forall|a: int, b: int| 0 <= a < b < n ==> ps[order[a] as int] <= ps[order[b] as int]
    &&& forall|a: int, b: int|
        0 <= a < b < n && ps[order[a] as int] == ps[order[b] as int] ==> order[a] < order[b]
}

/// The priorities of a handler list.
pub open spec fn priorities<H>(l: Seq<(u32, H)>) -> Seq<u32> {
    l.map_values(|p: (u32, H)| p.0)
}

/// `res` is `l` sorted stably by priority, each handler cloned.
pub open spec fn sorted_handlers<H: Clone>(l: Seq<(u32, H)>, res: Seq<(u32, H)>) -> bool {
    exists|order: Seq<usize>|
        #![trigger stable_order(priorities(l), order, l.len() as int)]
        stable_order(priorities(l), order, l.len() as int) && res.len() == l.len() && forall|k: int|
            0 <= k < l.len() ==> #[trigger] res[k].0 == l[order[k] as int].0 && cloned(
                l[order[k] as int].1,
                res[k].1,
            )
}

/// Positions `0..ps.len()` ordered stably by priority (insertion sort).
fn stable_priority_order(ps: &Vec<u32>) -> (order: Vec<usize>)
    ensures
        stable_order(ps@, order@, ps@.len() as int),
{
    let mut order: Vec<usize> = Vec::new();
    let mut i: usize = 0;
    while i < ps.len()
        invariant
            0 <= i <= ps@.len(),
            stable_order(ps@, order@, i as int),
        decreases ps@.len() - i,
    {
        let p = ps[i];
        let mut pos: usize = 0;
        while pos < order.len() && ps[order[pos]] <= p
            invariant
                0 <= pos <= order@.len(),
                order@.len() == i,
                i < ps@.len(),
                p == ps@[i as int],
                stable_order(ps@, order@, i as int),
                forall|j: int| 0 <= j < pos ==> ps@[order@[j] as int] <= p,
            decreases order@.len() - pos,
        {
            pos = pos + 1;
        }
        let ghost old_order = order@;
        proof {
            assert forall|j: int| pos <= j < i implies ps@[old_order[j] as int] > p by {
                assert(ps@[old_order[pos as int] as int] > p);
                if j > pos {
                    assert(ps@[old_order[pos as int] as int] <= ps@[old_order[j] as int]);
                }
            }
        }
        order.insert(pos, i);
        proof {
            let o = order@;
            assert(o == old_order.insert(pos as int, i));
            assert forall|k: int| 0 <= k < i + 1 implies #[trigger] o[k] < i + 1 by {
                if k < pos {
                    assert(o[k] == old_order[k]);
                } else if k > pos {
                    assert(o[k] == old_order[k - 1]);
                }
            }
            assert forall|a: int, b: int| 0 <= a < b < i + 1 implies o[a] != o[b] by {
                if a < pos && b < pos {
                    assert(o[a] == old_order[a] && o[b] == old_order[b]);
                } else if a < pos && b == pos {
                    assert(o[a] == old_order[a]);
                } else if a < pos && b > pos {
                    assert(o[a] == old_order[a] && o[b] == old_order[b - 1]);
                } else if a == pos {
                    assert(o[b] == old_order[b - 1]);
                } else {
                    assert(o[a] == old_order[a - 1] && o[b] == old_order[b - 1]);
                }
            }
            assert forall|a: int, b: int| 0 <= a < b < i + 1 implies ps@[o[a] as int] <= ps@[o[b] as int] by {
                if a < pos && b < pos {
                    assert(o[a] == old_order[a] && o[b] == old_order[b]);
                } else if a < pos && b == pos {
                    assert(o[a] == old_order[a]);
                } else if a < pos && b > pos {
                    assert(o[a] == old_order[a] && o[b] == old_order[b - 1]);
                } else if a == pos {
                    assert(o[b] == old_order[b - 1]);
                } else {
                    assert(o[a] == old_order[a - 1] && o[b] == old_order[b - 1]);
                }
            }
            assert forall|a: int, b: int|
                0 <= a < b < i + 1 && ps@[o[a] as int] == ps@[o[b] as int] implies o[a] < o[b] by {
                if a < pos && b < pos {
                    assert(o[a] == old_order[a] && o[b] == old_order[b]);
                } else if a < pos && b == pos {
                    assert(o[a] == old_order[a]);
                } else if a < pos && b > pos {
                    assert(o[a] == old_order[a] && o[b] == old_order[b - 1]);
                } else if a == pos {
                    assert(o[b] == old_order[b - 1]);
                } else {
                    assert(o[a] == old_order[a - 1] && o[b] == old_order[b - 1]);
                }
            }
        }
        i = i + 1;
    }
    order
}

/// Tag handlers: for each tag name, the handlers registered for it with
/// their priorities, in registration order.
pub struct TagRegistry<H> {
    handlers: Vec<(String, Vec<(u32, H)>)>,
}

/// The entries after registering `h` with priority `p` under `name`: it is
/// appended to that name's list, or a new entry is added.
pub open spec fn add_handler_spec<H>(
    e: Seq<(Seq<char>, Seq<(u32, H)>)>,
    name: Seq<char>,
    p: u32,
    h: H,
) -> Seq<(Seq<char>, Seq<(u32, H)>)> {
    match entry_index(e, name) {
        Some(i) => e.update(i, (name, e[i].1.push((p, h)))),
        None => e.push((name, seq![(p, h)])),
    }
}

impl<H> TagRegistry<H> {
    /// The registered names and handler lists, in registration order.
    pub closed spec fn entries(&self) -> Seq<(Seq<char>, Seq<(u32, H)>)> {
        self.handlers@.map_values(|p: (String, Vec<(u32, H)>)| (p.0@, p.1@))
    }

    /// No name occurs twice.
    pub open spec fn wf(&self) -> bool {
        names_unique(self.entries())
    }

    /// An empty registry.
    pub fn new() -> (res: Self)
        ensures
            res.entries() == Seq::<(Seq<char>, Seq<(u32, H)>)>::empty(),
            res.wf(),
    {
        let res = TagRegistry { handlers: Vec::new() };
        assert(res.entries() =~= Seq::<(Seq<char>, Seq<(u32, H)>)>::empty());
        res
    }

    /// Add a handler for `name` with the given priority.
    pub fn register(&mut self, name: &str, handler: H, priority: u32)
        requires
            old(self).wf(),
        ensures
            final(self).wf(),
            final(self).entries() == add_handler_spec(old(self).entries(), name@, priority, handler),
    {
        let ghost e = self.entries();
        let ghost h = handler;
        proof {
            lemma_entry_index_unique(e, name@);
            assert forall|j: int| 0 <= j < e.len() implies #[trigger] e[j].0 == self.handlers@[j].0@ by {}
        }
        match find_name_of_lists(&self.handlers, name, Ghost(e)) {
            Some(i) => {
                let mut entry = self.handlers.remove(i);
                entry.1.push((priority, handler));
                self.handlers.insert(i, entry);
                proof {
                    assert(self.entries() =~= e.update(i as int, (name@, e[i as int].1.push((priority, h)))));
                    assert forall|a: int, b: int| 0 <= a < b < self.entries().len() implies self.entries()[a].0
                        != self.entries()[b].0 by {}
                }
            },
            None => {
                let mut list: Vec<(u32, H)> = Vec::new();
                list.push((priority, handler));
                self.handlers.push((name.to_string(), list));
                proof {
                    assert(self.entries() =~= e.push((name@, seq![(priority, h)])));
                    assert forall|a: int, b: int| 0 <= a < b < self.entries().len() implies self.entries()[a].0
                        != self.entries()[b].0 by {
                        if b == e.len() {
                            assert(self.entries()[a] == e[a]);
                        }
                    }
                }
            },
        }
    }

    /// Remove every handler.
    pub fn clear_all(&mut self)
        ensures
            final(self).entries() == Seq::<(Seq<char>, Seq<(u32, H)>)>::empty(),
            final(self).wf(),
    {
        self.handlers.clear();
        assert(self.entries() =~= Seq::<(Seq<char>, Seq<(u32, H)>)>::empty());
    }

    /// Whether no tag has handlers.
    pub fn is_empty(&self) -> (res: bool)
        ensures
            res == (self.entries().len() == 0),
    {
        self.handlers.len() == 0
    }

    /// Remove all handlers of `name`.
    pub fn remove(&mut self, name: &str)
        requires
            old(self).wf(),
        ensures
            final(self).wf(),
            final(self).entries() == remove_at(old(self).entries(), entry_index(old(self).entries(), name@)),
    {
        let ghost e = self.entries();
        match find_name_of_lists(&self.handlers, name, Ghost(e)) {
            Some(i) => {
                self.handlers.remove(i);
                proof {
                    assert(self.entries() =~= e.remove(i as int));
                    lemma_remove_keeps_unique(e, i as int);
                }
            },
            None => {},
        }
    }
}

impl<H: Clone> TagRegistry<H> {
    /// The handlers of `name`, sorted stably by priority, cloned.
    pub fn get_handlers(&self, name: &str) -> (res: Option<Vec<(u32, H)>>)
        requires
            self.wf(),
        ensures
            match entry_index(self.entries(), name@) {
                Some(i) => res is Some && sorted_handlers(self.entries()[i].1, res->0@),
                None => res is None,
            },
    {
        let i = match find_name_of_lists(&self.handlers, name, Ghost(self.entries())) {
            Some(i) => i,
            None => {
                return None;
            },
        };
        let list = &self.handlers[i].1;
        let ghost l = list@;
        assert(l == self.entries()[i as int].1);
        let mut ps: Vec<u32> = Vec::new();
        let mut k: usize = 0;
        while k < list.len()
            invariant
                0 <= k <= list@.len(),
                l == list@,
                ps@ == priorities(l).take(k as int),
            decreases list@.len() - k,
        {
            ps.push(list[k].0);
            assert(ps@ =~= priorities(l).take(k + 1));
            k = k + 1;
        }
        assert(ps@ =~= priorities(l));
        let order = stable_priority_order(&ps);
        let mut out: Vec<(u32, H)> = Vec::new();
        let mut k: usize = 0;
        while k < order.len()
            invariant
                0 <= k <= order@.len(),
                l == list@,
                ps@ == priorities(l),
                stable_order(ps@, order@, l.len() as int),
                out@.len() == k,
                forall|j: int|
                    0 <= j < k ==> #[trigger] out@[j].0 == l[order@[j] as int].0 && cloned(
                        l[order@[j] as int].1,
                        out@[j].1,
                    ),
            decreases order@.len() - k,
        {
            let at = order[k];
            assert(at < l.len());
            let h = list[at].1.clone();
            out.push((list[at].0, h));
            k = k + 1;
        }
        assert(stable_order(priorities(l), order@, l.len() as int));
        Some(out)
    }
}

/// Position of `name` among the names of handler lists, which are unique.
fn find_name_of_lists<H>(
    v: &Vec<(String, Vec<(u32, H)>)>,
    name: &str,
    Ghost(e): Ghost<Seq<(Seq<char>, Seq<(u32, H)>)>>,
) -> (res: Option<usize>)
    requires
        e == v@.map_values(|p: (String, Vec<(u32, H)>)| (p.0@, p.1@)),
        names_unique(e),
    ensures
        match res {
            Some(i) => entry_index(e, name@) == Some(i as int),
            None => entry_index(e, name@) is None,
        },
{
    proof {
        lemma_entry_index_unique(e, name@);
    }
    let mut i: usize = 0;
    while i < v.len()
        invariant
            0 <= i <= v@.len(),
            e == v@.map_values(|p: (String, Vec<(u32, H)>)| (p.0@, p.1@)),
            forall|j: int| 0 <= j < i ==> e[j].0 != name@,
            forall|j: int| 0 <= j < e.len() && e[j].0 == name@ ==> entry_index(e, name@) == Some(j),
            entry_index(e, name@) is None <==> forall|j: int| 0 <= j < e.len() ==> e[j].0 != name@,
        decreases v@.len() - i,
    {
        assert(e[i as int].0 == v@[i as int].0@);
        if str_equals(v[i].0.as_str(), name) {
            return Some(i);
        }
        i = i + 1;
    }
    None
}

/// A handler list sorted by `get_handlers` is in nondecreasing priority and
/// keeps registration order among equal priorities.
pub proof fn law_handlers_sorted_stably<H: Clone>(l: Seq<(u32, H)>, res: Seq<(u32, H)>)
    requires
        sorted_handlers(l, res),
    ensures
        res.len() == l.len(),
        forall|a: int, b: int| 0 <= a < b < res.len() ==> res[a].0 <= res[b].0,
        exists|order: Seq<usize>|
            stable_order(priorities(l), order, l.len() as int) && forall|k: int|
                0 <= k < l.len() ==> #[trigger] res[k].0 == l[order[k] as int].0,
{
    let order = choose|order: Seq<usize>|
        stable_order(priorities(l), order, l.len() as int) && res.len() == l.len() && forall|k: int|
            0 <= k < l.len() ==> #[trigger] res[k].0 == l[order[k] as int].0 && cloned(
                l[order[k] as int].1,
                res[k].1,
            );
    assert forall|a: int, b: int| 0 <= a < b < res.len() implies res[a].0 <= res[b].0 by {
        assert(res[a].0 == l[order[a] as int].0);
        assert(res[b].0 == l[order[b] as int].0);
        assert(priorities(l)[order[a] as int] == l[order[a] as int].0);
        assert(priorities(l)[order[b] as int] == l[order[b] as int].0);
    }
    assert(stable_order(priorities(l), order, l.len() as int));
}

} // verus!
