//! The children of an actor: each registered under its own name, as the
//! actor makes them and as they terminate.

use vstd::prelude::*;
use crate::text::{compare_text, Order3};
use crate::actor_path::{ActorPath, ActorPathView, ChildActorPath, valid_child_name, spec_undefined_uid};
use crate::provider::{child_uid, check_child_name_free};

verus! {

/// No name is registered twice.
pub open spec fn names_unique(c: Seq<(Seq<char>, u64)>) -> bool {
    forall|i: int, j: int| 0 <= i < j < c.len() ==> #[trigger] c[i].0 != #[trigger] c[j].0
}

/// `name` is registered.
pub open spec fn has_child(c: Seq<(Seq<char>, u64)>, name: Seq<char>) -> bool {
    exists|i: int| 0 <= i < c.len() && c[i].0 == name
}

/// The children of an actor, each a name and the id of the child actor.
pub struct ChildRegistry {
    children: Vec<(String, u64)>,
}

impl View for ChildRegistry {
    type V = Seq<(Seq<char>, u64)>;

    closed spec fn view(&self) -> Seq<(Seq<char>, u64)> {
        self.children@.map_values(|e: (String, u64)| (e.0@, e.1))
    }
}

impl ChildRegistry {
    #[verifier::type_invariant]
    closed spec fn wf(self) -> bool {
        names_unique(self@)
    }

    /// No children.
    pub fn new() -> (r: Self)
        ensures
            r@ == Seq::<(Seq<char>, u64)>::empty(),
    {
        let r = ChildRegistry { children: Vec::new() };
        assert(r@ =~= Seq::<(Seq<char>, u64)>::empty());
        r
    }

    /// The names of the children, in order.
    pub fn names(&self) -> (r: Vec<String>)
        ensures
            r@.map_values(|s: String| s@) == self@.map_values(|e: (Seq<char>, u64)| e.0),
    {
        let ghost c = self@;
        let mut r: Vec<String> = Vec::new();
        let mut i: usize = 0;
        while i < self.children.len()
            invariant
                0 <= i <= self.children.len(),
                c == self@,
                r@.map_values(|s: String| s@) == c.take(i as int).map_values(|e: (Seq<char>, u64)| e.0),
            decreases self.children.len() - i,
        {
            let ghost prev = r@;
            let n = self.children[i].0.clone();
            r.push(n);
            proof {
                assert(c[i as int] == (self.children@[i as int].0@, self.children@[i as int].1));
                assert(n@ == c[i as int].0);
                assert(c.take(i + 1).map_values(|e: (Seq<char>, u64)| e.0) =~= c.take(i as int).map_values(
                    |e: (Seq<char>, u64)| e.0,
                ).push(c[i as int].0));
                assert(r@.map_values(|s: String| s@) =~= prev.map_values(|s: String| s@).push(n@));
            }
            i = i + 1;
        }
        assert(c.take(i as int) =~= c);
        r
    }

    /// The position of the child of `name`.
    fn position(&self, name: &str) -> (r: Option<usize>)
        ensures
            r is None <==> !has_child(self@, name@),
            r matches Some(i) ==> i < self@.len() && self@[i as int].0 == name@,
    {
        let ghost c = self@;
        let mut i: usize = 0;
        while i < self.children.len()
            invariant
                0 <= i <= self.children.len(),
                c == self@,
                forall|j: int| 0 <= j < i ==> #[trigger] c[j].0 != name@,
            decreases self.children.len() - i,
        {
            assert(c[i as int] == (self.children@[i as int].0@, self.children@[i as int].1));
            if compare_text(self.children[i].0.as_str(), name) == Order3::Equal {
                return Some(i);
            }
            i = i + 1;
        }
        proof {
            if has_child(c, name@) {
                let j = choose|j: int| 0 <= j < c.len() && c[j].0 == name@;
                assert(c[j].0 != name@);
            }
        }
        None
    }

    /// The id of the child of `name`, if there is one.
    pub fn child(&self, name: &str) -> (r: Option<u64>)
        ensures
            r is None <==> !has_child(self@, name@),
            r matches Some(id) ==> exists|i: int| 0 <= i < self@.len() && self@[i] == (name@, id),
    {
        match self.position(name) {
            None => None,
            Some(i) => {
                assert(self@[i as int] == (self.children@[i as int].0@, self.children@[i as int].1));
                Some(self.children[i].1)
            },
        }
    }

    /// The number of children.
    pub fn len(&self) -> (r: usize)
        ensures
            r == self@.len(),
    {
        self.children.len()
    }

    /// Makes a child of `parent` of the given name (which holds neither '/'
    /// nor '#') for the actor `id`: refused, with the registry unchanged,
    /// where a child of that name exists; otherwise the child is registered
    /// last and its path returned, with the undefined uid for the guardians
    /// "system" and "user" and a random one for any other.
    pub fn make_child(&mut self, parent: &ActorPath, name: &str, id: u64) -> (r: Result<ActorPath, String>)
        requires
            valid_child_name(name@),
        ensures
            r is Err <==> has_child(old(self)@, name@),
            r matches Err(m) ==> m@ == "duplicate actor name "@ + name@ && final(self)@ == old(self)@,
            r is Ok ==> final(self)@ == old(self)@.push((name@, id)),
            r matches Ok(p) ==> p@.address == parent@.address && p@.root_name == parent@.root_name
                && p@.children.drop_last() == parent@.children && p@.children.last().0 == name@
                && ((name@ == "system"@ || name@ == "user"@) <==> p@.children.last().1 == spec_undefined_uid()),
    {
        proof { use_type_invariant(&*self); }
        let ghost c = self@;
        let names = self.names();
        let ghost nv = names@.map_values(|s: String| s@);
        proof {
            assert(nv == c.map_values(|e: (Seq<char>, u64)| e.0));
            assert(nv.contains(name@) <==> has_child(c, name@)) by {
                if nv.contains(name@) {
                    let k = choose|k: int| 0 <= k < nv.len() && nv[k] == name@;
                    assert(c[k].0 == name@);
                }
                if has_child(c, name@) {
                    let k = choose|k: int| 0 <= k < c.len() && c[k].0 == name@;
                    assert(nv[k] == name@);
                }
            }
        }
        match check_child_name_free(name, &names) {
            Err(m) => {
                return Err(m);
            },
            Ok(()) => {},
        }
        let uid = child_uid(name);
        let child = ChildActorPath::new(parent.clone(), name.to_owned(), uid);
        let path = ActorPath::ChildActorPath(child);
        let mut entries: Vec<(String, u64)> = Vec::new();
        std::mem::swap(&mut entries, &mut self.children);
        entries.push((name.to_owned(), id));
        proof {
            let ev = entries@.map_values(|e: (String, u64)| (e.0@, e.1));
            assert(ev =~= c.push((name@, id)));
            assert(path@.children =~= parent@.children.push((name@, uid)));
            assert(path@.children.drop_last() =~= parent@.children);
            assert forall|i: int, j: int| 0 <= i < j < ev.len() implies #[trigger] ev[i].0 != #[trigger] ev[j].0 by {
                if j == c.len() {
                    assert(ev[i] == c[i]);
                } else {
                    assert(ev[i] == c[i] && ev[j] == c[j]);
                }
            }
        }
        self.children = entries;
        Ok(path)
    }

    /// Removes the child of `name` (as it terminates), giving its id; `None`
    /// where there is none.
    pub fn remove_child(&mut self, name: &str) -> (r: Option<u64>)
        ensures
            r is None <==> !has_child(old(self)@, name@),
            r is None ==> final(self)@ == old(self)@,
            r matches Some(id) ==> exists|i: int| 0 <= i < old(self)@.len() && old(self)@[i] == (name@, id)
                && final(self)@ == old(self)@.remove(i),
    {
        proof { use_type_invariant(&*self); }
        let ghost c = self@;
        match self.position(name) {
            None => None,
            Some(i) => {
                let ghost ci = c[i as int];
                assert(ci == (self.children@[i as int].0@, self.children@[i as int].1));
                let ghost before = self.children@;
                let mut entries: Vec<(String, u64)> = Vec::new();
                std::mem::swap(&mut entries, &mut self.children);
                let (_, id) = entries.remove(i);
                proof {
                    let ev = entries@.map_values(|e: (String, u64)| (e.0@, e.1));
                    assert(ev =~= c.remove(i as int));
                    assert forall|a: int, b: int| 0 <= a < b < ev.len() implies #[trigger] ev[a].0 != #[trigger] ev[b].0 by {
                        let a2 = if a < i { a } else { a + 1 };
                        let b2 = if b < i { b } else { b + 1 };
                        assert(ev[a] == c[a2] && ev[b] == c[b2]);
                    }
                }
                self.children = entries;
                Some(id)
            },
        }
    }
}

} // verus!
