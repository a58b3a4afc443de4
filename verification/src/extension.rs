//! Extensions of an actor system: values registered once under a name and
//! initialised when registered.

use vstd::prelude::*;

verus! {

/// An extension of an actor system.
pub trait Extension {
    /// Initialises the extension when it is registered.
    fn init(&self) -> (r: Result<(), String>)
        default_ensures
            r == Ok::<(), String>(()),
    {
        Ok(())
    }
}

/// Why an extension could not be registered.
#[derive(Debug)]
pub enum ExtensionError {
    /// An extension is registered under the name already.
    AlreadyRegistered { name: String },
    /// The extension's initialisation failed.
    InitFailed { message: String },
}

/// The extensions of an actor system, each under its own name.
pub struct SystemExtension<E> {
    extensions: Vec<(String, E)>,
}

impl<E: Extension> SystemExtension<E> {
    /// The names of the registered extensions, in order of registration.
    pub closed spec fn names(&self) -> Seq<Seq<char>> {
        self.extensions@.map_values(|e: (String, E)| e.0@)
    }

    /// The registered extensions, in order of registration.
    pub closed spec fn values(&self) -> Seq<E> {
        self.extensions@.map_values(|e: (String, E)| e.1)
    }

    /// No extensions.
    pub fn new() -> (r: Self)
        ensures
            r.names().len() == 0,
    {
        let r = SystemExtension { extensions: Vec::new() };
        assert(r.names() =~= Seq::<Seq<char>>::empty());
        r
    }

    /// The position of the extension of the given name.
    fn position(&self, name: &str) -> (r: Option<usize>)
        ensures
            r is None <==> !self.names().contains(name@),
            r matches Some(i) ==> i < self.names().len() && self.names()[i as int] == name@,
    {
        let mut i: usize = 0;
        while i < self.extensions.len()
            invariant
                0 <= i <= self.extensions.len(),
                forall|j: int| 0 <= j < i ==> #[trigger] self.names()[j] != name@,
            decreases self.extensions.len() - i,
        {
            assert(self.names()[i as int] == self.extensions@[i as int].0@);
            if crate::text::compare_text(self.extensions[i].0.as_str(), name) == crate::text::Order3::Equal {
                return Some(i);
            }
            i = i + 1;
        }
        proof {
            if self.names().contains(name@) {
                let j = choose|j: int| 0 <= j < self.names().len() && self.names()[j] == name@;
                assert(self.names()[j] != name@);
            }
        }
        None
    }

    /// Whether an extension is registered under the name.
    pub fn contains(&self, name: &str) -> (r: bool)
        ensures
            r == self.names().contains(name@),
    {
        self.position(name).is_some()
    }

    /// Registers the extension under the name and initialises it; refused
    /// where the name is taken.  Where initialisation fails the extension
    /// stays registered and the failure is returned.
    pub fn register(&mut self, name: String, extension: E) -> (r: Result<(), ExtensionError>)
        ensures
            old(self).names().contains(name@) ==> (r matches Err(ExtensionError::AlreadyRegistered { .. }))
                && final(self).names() == old(self).names() && final(self).values() == old(self).values(),
            !old(self).names().contains(name@) ==> final(self).names() == old(self).names().push(name@)
                && final(self).values() == old(self).values().push(extension) && !(r matches Err(
                ExtensionError::AlreadyRegistered { .. },
            )),
            !old(self).names().contains(name@) ==> (r is Ok ==> call_ensures(E::init, (&extension,), Ok::<(), String>(()))),
            !old(self).names().contains(name@) ==> (r matches Err(ExtensionError::InitFailed { message })
                ==> call_ensures(E::init, (&extension,), Err::<(), String>(message))),
    {
        if self.position(name.as_str()).is_some() {
            return Err(ExtensionError::AlreadyRegistered { name });
        }
        let ghost names0 = self.names();
        let ghost values0 = self.values();
        self.extensions.push((name, extension));
        assert(self.names() =~= names0.push(name@));
        assert(self.values() =~= values0.push(extension));
        let n = self.extensions.len();
        assert(self.extensions@[n - 1].1 == extension);
        let outcome = self.extensions[n - 1].1.init();
        match outcome {
            Ok(u) => {
                assert(u == ());
                assert(outcome == Ok::<(), String>(()));
                Ok(())
            },
            Err(message) => Err(ExtensionError::InitFailed { message }),
        }
    }

    /// The extension registered under the name, to change in place.
    pub fn get_mut(&mut self, name: &str) -> (r: Option<&mut E>)
        ensures
            r is None <==> !old(self).names().contains(name@),
            final(self).names() == old(self).names(),
            r is None ==> final(self).values() == old(self).values(),
            r matches Some(e) ==> exists|i: int| 0 <= i < old(self).names().len() && old(self).names()[i] == name@
                && *e == old(self).values()[i] && final(self).values() == old(self).values().update(i, *final(e)),
    {
        match self.position(name) {
            None => None,
            Some(i) => {
                let entry = &mut self.extensions[i];
                Some(&mut entry.1)
            },
        }
    }

    /// The extension registered under the name.
    pub fn get(&self, name: &str) -> (r: Option<&E>)
        ensures
            r is None <==> !self.names().contains(name@),
            r matches Some(e) ==> exists|i: int| 0 <= i < self.names().len() && self.names()[i] == name@ && *e == self.values()[i],
    {
        match self.position(name) {
            None => None,
            Some(i) => {
                assert(self.values()[i as int] == self.extensions@[i as int].1);
                Some(&self.extensions[i].1)
            },
        }
    }
}

} // verus!
