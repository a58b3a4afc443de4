//! Actor selections: a path of child names, name patterns and parent steps
//! below an anchor actor, and the walk that delivers a message along it.
//!
//! The walk runs over live actors, which only the runtime can look up; it
//! is written here as decisions that take what each lookup found and say
//! what to do next.

use vstd::prelude::*;
use crate::text::text_chars;
use crate::hashing::push_char;
use crate::decimal::push_text;
use crate::actor_path::{ActorPath, ActorPathView, join, descend, uid_suffix_valid};

verus! {

/// Whether the `regex` crate accepts the text as a pattern.
pub uninterp spec fn regex_compiles(p: Seq<char>) -> bool;

/// Whether the pattern (compiled by the `regex` crate) matches somewhere in
/// the text.
pub uninterp spec fn regex_matches(p: Seq<char>, text: Seq<char>) -> bool;

/// Calls `regex::Regex::new`.  Trusted: it succeeds exactly where the
/// crate accepts the pattern, which depends on the pattern alone.
#[verifier::external_body]
fn regex_is_valid(p: &str) -> (r: bool)
    ensures
        r == regex_compiles(p@),
{
    regex::Regex::new(p).is_ok()
}

/// Calls `regex::Regex::new` on an accepted pattern and `Regex::is_match`
/// on the text.  Trusted: the answer depends on the pattern and text alone.
#[verifier::external_body]
fn regex_is_match(p: &str, text: &str) -> (r: bool)
    requires
        regex_compiles(p@),
    ensures
        r == regex_matches(p@, text@),
{
    regex::Regex::new(p).unwrap().is_match(text)
}

/// A child name to select.
#[derive(Debug)]
pub struct SelectChildName {
    pub name: String,
}

impl SelectChildName {
    pub fn new(name: String) -> (r: SelectChildName)
        ensures
            r.name@ == name@,
    {
        SelectChildName { name }
    }
}

/// A pattern that selects the children whose names it matches.
#[derive(Debug)]
pub struct SelectChildPattern {
    pattern: String,
}

impl SelectChildPattern {
    /// The pattern's text.
    pub closed spec fn source(&self) -> Seq<char> {
        self.pattern@
    }

    #[verifier::type_invariant]
    closed spec fn wf(self) -> bool {
        regex_compiles(self.pattern@)
    }

    /// A pattern of the given text; `None` where the `regex` crate refuses
    /// the text.
    pub fn new(pattern: &str) -> (r: Option<SelectChildPattern>)
        ensures
            r is Some <==> regex_compiles(pattern@),
            r matches Some(p) ==> p.source() == pattern@,
    {
        if regex_is_valid(pattern) {
            Some(SelectChildPattern { pattern: pattern.to_owned() })
        } else {
            None
        }
    }

    /// The pattern's text.
    pub fn as_str(&self) -> (r: &str)
        ensures
            r@ == self.source(),
            regex_compiles(r@),
    {
        proof {
            use_type_invariant(self);
        }
        self.pattern.as_str()
    }

    /// Whether the pattern matches the name.
    pub fn is_match(&self, name: &str) -> (r: bool)
        ensures
            r == regex_matches(self.source(), name@),
    {
        proof {
            use_type_invariant(self);
        }
        regex_is_match(self.pattern.as_str(), name)
    }
}

/// A step to the parent.
#[derive(Debug)]
pub struct SelectParent;

/// One element of a selection path.
#[derive(Debug)]
pub enum SelectionPathElement {
    SelectChildName(SelectChildName),
    SelectChildPattern(SelectChildPattern),
    SelectParent(SelectParent),
}

/// What an element stands for.
pub enum ElementView {
    ChildName(Seq<char>),
    Pattern(Seq<char>),
    Parent,
}

impl View for SelectionPathElement {
    type V = ElementView;

    open spec fn view(&self) -> ElementView {
        match self {
            SelectionPathElement::SelectChildName(c) => ElementView::ChildName(c.name@),
            SelectionPathElement::SelectChildPattern(p) => ElementView::Pattern(p.source()),
            SelectionPathElement::SelectParent(_) => ElementView::Parent,
        }
    }
}

/// The views of a sequence of elements.
pub open spec fn element_views(v: Seq<SelectionPathElement>) -> Seq<ElementView> {
    v.map_values(|e: SelectionPathElement| e@)
}

/// The text of an element: the name, the pattern, or "..".
pub open spec fn element_text(e: ElementView) -> Seq<char> {
    match e {
        ElementView::ChildName(n) => n,
        ElementView::Pattern(p) => p,
        ElementView::Parent => seq!['.', '.'],
    }
}

impl SelectionPathElement {
    /// The element's text, as `Display` writes it.
    pub fn to_display_string(&self) -> (r: String)
        ensures
            r@ == element_text(self@),
    {
        match self {
            SelectionPathElement::SelectChildName(c) => c.name.clone(),
            SelectionPathElement::SelectChildPattern(p) => p.as_str().to_owned(),
            SelectionPathElement::SelectParent(_) => {
                let mut s = String::new();
                push_char(&mut s, '.');
                push_char(&mut s, '.');
                assert(s@ =~= seq!['.', '.']);
                s
            },
        }
    }
}

impl Clone for SelectionPathElement {
    fn clone(&self) -> (r: Self)
        ensures
            r@ == self@,
    {
        match self {
            SelectionPathElement::SelectChildName(c) => SelectionPathElement::SelectChildName(
                SelectChildName { name: c.name.clone() },
            ),
            SelectionPathElement::SelectChildPattern(p) => {
                let source = p.as_str();
                SelectionPathElement::SelectChildPattern(SelectChildPattern { pattern: source.to_owned() })
            },
            SelectionPathElement::SelectParent(_) => SelectionPathElement::SelectParent(SelectParent),
        }
    }
}

/// A copy of elements `from..` of the path.
pub fn clone_elements(v: &Vec<SelectionPathElement>, from: usize) -> (r: Vec<SelectionPathElement>)
    requires
        from <= v.len(),
    ensures
        element_views(r@) == element_views(v@).skip(from as int),
{
    let mut r: Vec<SelectionPathElement> = Vec::new();
    let mut i = from;
    while i < v.len()
        invariant
            from <= i <= v.len(),
            r.len() == i - from,
            forall|j: int| 0 <= j < r.len() ==> #[trigger] r@[j]@ == v@[from + j]@,
        decreases v.len() - i,
    {
        r.push(v[i].clone());
        i = i + 1;
    }
    assert(element_views(r@) =~= element_views(v@).skip(from as int));
    r
}

/// The element that a non-empty path text stands for: a pattern where it
/// holds '?' or '*', a parent step for "..", a child name otherwise.
pub open spec fn element_of(e: Seq<char>) -> ElementView {
    if e.contains('?') || e.contains('*') {
        ElementView::Pattern(e)
    } else if e == seq!['.', '.'] {
        ElementView::Parent
    } else {
        ElementView::ChildName(e)
    }
}

/// The first text, if any, that is a pattern the `regex` crate refuses.
pub open spec fn bad_pattern(elements: Seq<Seq<char>>) -> Option<Seq<char>>
    decreases elements.len(),
{
    if elements.len() == 0 {
        None
    } else {
        let e = elements[0];
        if e.len() > 0 && (e.contains('?') || e.contains('*')) && !regex_compiles(e) {
            Some(e)
        } else {
            bad_pattern(elements.drop_first())
        }
    }
}

/// The elements of a selection path given as texts; empty texts are
/// skipped.
pub open spec fn selection_elements(elements: Seq<Seq<char>>) -> Seq<ElementView>
    decreases elements.len(),
{
    if elements.len() == 0 {
        Seq::empty()
    } else {
        let rest = selection_elements(elements.drop_last());
        if elements.last().len() == 0 {
            rest
        } else {
            rest.push(element_of(elements.last()))
        }
    }
}

/// Why a selection could not be made.
#[derive(Debug)]
pub enum SelectionError {
    /// The `regex` crate refuses the pattern.
    InvalidPattern { pattern: String },
    /// The message cannot be cloned, as a selection needs.
    NotCloneable,
}

proof fn lemma_bad_pattern_step(elements: Seq<Seq<char>>, i: int)
    requires
        0 <= i < elements.len(),
        bad_pattern(elements.take(i)) is None,
    ensures
        bad_pattern(elements.take(i + 1)) == (if elements[i].len() > 0 && (elements[i].contains('?')
            || elements[i].contains('*')) && !regex_compiles(elements[i]) {
            Some(elements[i])
        } else {
            None::<Seq<char>>
        }),
    decreases i,
{
    let t = elements.take(i + 1);
    assert(t[0] == elements[0]);
    if i > 0 {
        assert(elements.drop_first()[i - 1] == elements[i]);
        assert(t.drop_first() =~= elements.drop_first().take(i));
        assert(elements.take(i).drop_first() =~= elements.drop_first().take(i - 1));
        if !(elements[0].len() > 0 && (elements[0].contains('?') || elements[0].contains('*'))
            && !regex_compiles(elements[0])) {
            assert(elements.take(i)[0] == elements[0]);
            lemma_bad_pattern_step(elements.drop_first(), i - 1);
        } else {
            assert(elements.take(i)[0] == elements[0]);
        }
    } else {
        assert(t.drop_first() =~= Seq::<Seq<char>>::empty());
    }
}

proof fn lemma_bad_pattern_prefix(elements: Seq<Seq<char>>, i: int)
    requires
        0 <= i <= elements.len(),
        bad_pattern(elements.take(i)) is Some,
    ensures
        bad_pattern(elements) == bad_pattern(elements.take(i)),
    decreases i,
{
    if i == 0 {
        assert(elements.take(0) =~= Seq::<Seq<char>>::empty());
    } else {
        let t = elements.take(i);
        assert(t[0] == elements[0]);
        if !(elements[0].len() > 0 && (elements[0].contains('?') || elements[0].contains('*'))
            && !regex_compiles(elements[0])) {
            assert(t.drop_first() =~= elements.drop_first().take(i - 1));
            lemma_bad_pattern_prefix(elements.drop_first(), i - 1);
        }
    }
}

/// The elements of a selection path given as texts, as
/// `selection_elements` says; refused with the first pattern the `regex`
/// crate refuses.
pub fn selection_path(elements: &Vec<String>) -> (r: Result<Vec<SelectionPathElement>, SelectionError>)
    ensures
        bad_pattern(elements@.map_values(|s: String| s@)) is None <==> r is Ok,
        r matches Ok(p) ==> element_views(p@) == selection_elements(elements@.map_values(|s: String| s@)),
        r matches Err(e) ==> e matches SelectionError::InvalidPattern { pattern } && Some(pattern@) == bad_pattern(
            elements@.map_values(|s: String| s@),
        ),
{
    let ghost ev = elements@.map_values(|s: String| s@);
    let mut path: Vec<SelectionPathElement> = Vec::new();
    let mut i: usize = 0;
    assert(ev.take(0) =~= Seq::<Seq<char>>::empty());
    assert(element_views(path@) =~= Seq::<ElementView>::empty());
    while i < elements.len()
        invariant
            0 <= i <= elements.len(),
            ev == elements@.map_values(|s: String| s@),
            bad_pattern(ev.take(i as int)) is None,
            element_views(path@) == selection_elements(ev.take(i as int)),
        decreases elements.len() - i,
    {
        let e = elements[i].as_str();
        assert(ev[i as int] == e@);
        assert(ev.take(i + 1).drop_last() =~= ev.take(i as int));
        proof {
            lemma_bad_pattern_step(ev, i as int);
        }
        if !e.is_empty() {
            let chars = text_chars(e);
            let mut wild = false;
            let mut k: usize = 0;
            while k < chars.len()
                invariant
                    0 <= k <= chars.len(),
                    chars@ == e@,
                    wild <==> exists|j: int| 0 <= j < k && (chars@[j] == '?' || chars@[j] == '*'),
                decreases chars.len() - k,
            {
                if chars[k] == '?' || chars[k] == '*' {
                    wild = true;
                }
                k = k + 1;
            }
            proof {
                if wild {
                    let j = choose|j: int| 0 <= j < k && (chars@[j] == '?' || chars@[j] == '*');
                    if chars@[j] == '?' {
                        assert(e@.contains('?'));
                    } else {
                        assert(e@.contains('*'));
                    }
                }
                if e@.contains('?') {
                    let j = choose|j: int| 0 <= j < e@.len() && e@[j] == '?';
                    assert(chars@[j] == '?');
                }
                if e@.contains('*') {
                    let j = choose|j: int| 0 <= j < e@.len() && e@[j] == '*';
                    assert(chars@[j] == '*');
                }
            }
            let ghost before = element_views(path@);
            if wild {
                match SelectChildPattern::new(e) {
                    Some(p) => {
                        path.push(SelectionPathElement::SelectChildPattern(p));
                    },
                    None => {
                        proof {
                            lemma_bad_pattern_prefix(ev, i + 1);
                        }
                        return Err(SelectionError::InvalidPattern { pattern: e.to_owned() });
                    },
                }
            } else if chars.len() == 2 && chars[0] == '.' && chars[1] == '.' {
                assert(e@ =~= seq!['.', '.']);
                path.push(SelectionPathElement::SelectParent(SelectParent));
            } else {
                assert(e@ != seq!['.', '.']) by {
                    if e@ == seq!['.', '.'] {
                        assert(chars@[0] == '.' && chars@[1] == '.');
                    }
                }
                path.push(SelectionPathElement::SelectChildName(SelectChildName::new(e.to_owned())));
            }
            assert(element_views(path@) =~= before.push(element_of(e@)));
        }
        i = i + 1;
    }
    assert(ev.take(i as int) =~= ev);
    Ok(path)
}

/// A selection: an anchor actor and a path below it.
#[derive(Debug)]
pub struct ActorSelection<A> {
    pub anchor: A,
    pub path: Vec<SelectionPathElement>,
}

impl<A> ActorSelection<A> {
    /// The selection of the given path texts below the anchor, as
    /// `selection_path` reads them.
    pub fn new(anchor: A, elements: &Vec<String>) -> (r: Result<Self, SelectionError>)
        ensures
            bad_pattern(elements@.map_values(|s: String| s@)) is None <==> r is Ok,
            r matches Ok(s) ==> s.anchor == anchor && element_views(s.path@) == selection_elements(
                elements@.map_values(|s: String| s@),
            ),
    {
        match selection_path(elements) {
            Ok(path) => Ok(ActorSelection { anchor, path }),
            Err(e) => Err(e),
        }
    }

    /// The path's elements joined with '/'.
    pub fn path_str(&self) -> (r: String)
        ensures
            r@ == join(element_views(self.path@).map_values(|e: ElementView| element_text(e)), seq!['/']),
    {
        let ghost tv = element_views(self.path@).map_values(|e: ElementView| element_text(e));
        let mut s = String::new();
        let mut i: usize = 0;
        while i < self.path.len()
            invariant
                0 <= i <= self.path.len(),
                tv == element_views(self.path@).map_values(|e: ElementView| element_text(e)),
                s@ == join(tv.take(i as int), seq!['/']),
            decreases self.path.len() - i,
        {
            if i > 0 {
                push_char(&mut s, '/');
            }
            let t = self.path[i].to_display_string();
            push_text(&mut s, t.as_str());
            proof {
                let u = tv.take(i + 1);
                assert(u.drop_last() =~= tv.take(i as int));
                assert(u.last() == t@);
                if i == 0 {
                    assert(s@ =~= join(u, seq!['/']));
                } else {
                    assert(s@ =~= join(u, seq!['/']));
                }
            }
            i = i + 1;
        }
        assert(tv.take(i as int) =~= tv);
        s
    }
}

/// The different kinds of path that a selection may be asked for.
#[derive(Debug)]
pub enum ActorSelectionPath {
    RelativePath(String),
    FullPath(ActorPath),
}

/// A message on its way along a selection: the message, the elements still
/// to walk, and whether it fans out over several actors.
#[derive(Debug)]
pub struct ActorSelectionMessage<M> {
    pub message: M,
    pub elements: Vec<SelectionPathElement>,
    pub wildcard_fan_out: bool,
}

impl<M> ActorSelectionMessage<M> {
    /// A selection message; refused where the message cannot be cloned, as
    /// delivery to several actors needs.
    pub fn new(message: M, elements: Vec<SelectionPathElement>, wildcard_fan_out: bool, cloneable: bool) -> (r:
        Result<Self, SelectionError>)
        ensures
            r is Ok <==> cloneable,
            r matches Ok(m) ==> m.message == message && element_views(m.elements@) == element_views(elements@)
                && m.wildcard_fan_out == wildcard_fan_out,
            r matches Err(e) ==> e is NotCloneable,
    {
        if cloneable {
            Ok(ActorSelectionMessage { message, elements, wildcard_fan_out })
        } else {
            Err(SelectionError::NotCloneable)
        }
    }
}

impl<M: Clone> ActorSelectionMessage<M> {
    /// The same message with other elements and fan-out.
    pub fn copy_with_elements(&self, elements: Vec<SelectionPathElement>, wildcard_fan_out: bool) -> (r: Self)
        ensures
            cloned::<M>(self.message, r.message),
            element_views(r.elements@) == element_views(elements@),
            r.wildcard_fan_out == wildcard_fan_out,
    {
        ActorSelectionMessage { message: self.message.clone(), elements, wildcard_fan_out }
    }
}

/// What the delivery asks of the runtime next.
#[derive(Debug)]
pub enum DeliveryAction {
    /// Tell the message to the current actor; the delivery is done.
    TellCurrent,
    /// The current actor is not local: tell it the selection message with
    /// the elements still to walk; the delivery is done.
    Forward { elements: Vec<SelectionPathElement>, wildcard_fan_out: bool },
    /// Look up the current actor's child of this name and report it with
    /// `child_found`.
    LookupChild { name: String },
    /// List the names of the current actor's children and report them with
    /// `children_listed`.
    ListChildren,
    /// Look up the current actor's parent and report it with
    /// `parent_found`.
    LookupParent,
    /// Move to the actor just found and ask `next` again.
    Continue,
    /// Tell the message to the actor just found; the delivery is done.
    TellFound,
    /// Tell the selection message to the empty actor at the selected path;
    /// the delivery is done.
    TellEmpty,
    /// Tell the message to each listed child (by position); done.
    TellChildren { children: Vec<usize> },
    /// Deliver a selection of the remaining elements, with this fan-out, to
    /// each listed child (by position); done.
    FanOut { children: Vec<usize>, elements: Vec<SelectionPathElement>, wildcard_fan_out: bool },
    /// Nothing more is delivered.
    Stop,
}

/// The walk of a selection message from its anchor.
#[derive(Debug)]
pub struct Delivery {
    elements: Vec<SelectionPathElement>,
    pos: usize,
    wildcard_fan_out: bool,
}

impl Delivery {
    /// The elements to walk.
    pub closed spec fn path(&self) -> Seq<ElementView> {
        element_views(self.elements@)
    }

    /// How many elements have been walked.
    pub closed spec fn walked(&self) -> nat {
        self.pos as nat
    }

    /// Whether the delivery fans out.
    pub closed spec fn fans_out(&self) -> bool {
        self.wildcard_fan_out
    }

    #[verifier::type_invariant]
    closed spec fn wf(self) -> bool {
        self.pos <= self.elements.len()
    }

    /// The walk of a selection message's elements; with none, the message
    /// goes to the anchor itself.
    pub fn start(elements: Vec<SelectionPathElement>, wildcard_fan_out: bool) -> (r: (Delivery, Option<DeliveryAction>))
        ensures
            r.0.path() == element_views(elements@),
            r.0.walked() == 0,
            r.0.fans_out() == wildcard_fan_out,
            elements.len() == 0 <==> r.1 matches Some(DeliveryAction::TellCurrent),
            elements.len() > 0 ==> r.1 is None,
    {
        let empty = elements.len() == 0;
        let d = Delivery { elements, pos: 0, wildcard_fan_out };
        if empty {
            (d, Some(DeliveryAction::TellCurrent))
        } else {
            (d, None)
        }
    }

    /// The next request, given whether the current actor is local: a
    /// non-local actor gets the rest of the walk forwarded; at the end of
    /// the path nothing is left to do; otherwise the current element asks
    /// for a child, the children or the parent.
    pub fn next(&self, current_is_local: bool) -> (r: DeliveryAction)
        ensures
            !current_is_local ==> (r matches DeliveryAction::Forward { elements, wildcard_fan_out }
                && element_views(elements@) == self.path().skip(self.walked() as int) && wildcard_fan_out == self.fans_out()),
            current_is_local && self.walked() == self.path().len() ==> r is Stop,
            current_is_local && self.walked() < self.path().len() ==> match self.path()[self.walked() as int] {
                ElementView::ChildName(n) => (r matches DeliveryAction::LookupChild { name } && name@ == n),
                ElementView::Pattern(_) => r is ListChildren,
                ElementView::Parent => r is LookupParent,
            },
    {
        proof {
            use_type_invariant(self);
        }
        if !current_is_local {
            return DeliveryAction::Forward {
                elements: clone_elements(&self.elements, self.pos),
                wildcard_fan_out: self.wildcard_fan_out,
            };
        }
        if self.pos == self.elements.len() {
            return DeliveryAction::Stop;
        }
        match &self.elements[self.pos] {
            SelectionPathElement::SelectChildName(c) => DeliveryAction::LookupChild { name: c.name.clone() },
            SelectionPathElement::SelectChildPattern(_) => DeliveryAction::ListChildren,
            SelectionPathElement::SelectParent(_) => DeliveryAction::LookupParent,
        }
    }

    /// After a child lookup: a found child gets the message at the end of
    /// the path, or becomes the current actor; a missing one sends the
    /// selection to the empty actor unless the delivery fans out.
    pub fn child_found(&mut self, found: bool) -> (r: DeliveryAction)
        requires
            old(self).walked() < old(self).path().len(),
        ensures
            final(self).path() == old(self).path(),
            final(self).fans_out() == old(self).fans_out(),
            found && old(self).walked() + 1 == old(self).path().len() ==> r is TellFound,
            found && old(self).walked() + 1 < old(self).path().len() ==> r is Continue && final(self).walked() == old(self).walked() + 1,
            !found && !old(self).fans_out() ==> r is TellEmpty,
            !found && old(self).fans_out() ==> r is Stop,
    {
        proof {
            use_type_invariant(&*self);
        }
        if found {
            if self.pos + 1 == self.elements.len() {
                DeliveryAction::TellFound
            } else {
                self.pos = self.pos + 1;
                DeliveryAction::Continue
            }
        } else if !self.wildcard_fan_out {
            DeliveryAction::TellEmpty
        } else {
            DeliveryAction::Stop
        }
    }

    /// After a parent lookup: a found parent gets the message at the end of
    /// the path, or becomes the current actor; without one nothing more is
    /// delivered.
    pub fn parent_found(&mut self, found: bool) -> (r: DeliveryAction)
        requires
            old(self).walked() < old(self).path().len(),
        ensures
            final(self).path() == old(self).path(),
            final(self).fans_out() == old(self).fans_out(),
            found && old(self).walked() + 1 == old(self).path().len() ==> r is TellFound,
            found && old(self).walked() + 1 < old(self).path().len() ==> r is Continue && final(self).walked() == old(self).walked() + 1,
            !found ==> r is Stop,
    {
        proof {
            use_type_invariant(&*self);
        }
        if found {
            if self.pos + 1 == self.elements.len() {
                DeliveryAction::TellFound
            } else {
                self.pos = self.pos + 1;
                DeliveryAction::Continue
            }
        } else {
            DeliveryAction::Stop
        }
    }

    /// After listing the children for the current pattern element: the
    /// children whose names it matches get the message at the end of the
    /// path, or the rest of the walk, fanning out where the delivery already
    /// does or more than one matched; with none matched, the selection goes
    /// to the empty actor unless the delivery fans out.
    pub fn children_listed(&self, names: &Vec<String>) -> (r: DeliveryAction)
        requires
            self.walked() < self.path().len(),
            self.path()[self.walked() as int] is Pattern,
        ensures
            ({
                let p = self.path()[self.walked() as int]->Pattern_0;
                let matched = matching(p, names@.map_values(|s: String| s@));
                let last = self.walked() + 1 == self.path().len();
                &&& matched.len() == 0 && !self.fans_out() ==> r is TellEmpty
                &&& !(matched.len() == 0 && !self.fans_out()) && last ==> (r matches DeliveryAction::TellChildren {
                    children } && children@ == matched)
                &&& !(matched.len() == 0 && !self.fans_out()) && !last ==> (r matches DeliveryAction::FanOut {
                    children,
                    elements,
                    wildcard_fan_out,
                } && children@ == matched && element_views(elements@) == self.path().skip(self.walked() + 1int)
                    && wildcard_fan_out == (self.fans_out() || matched.len() > 1))
            }),
    {
        proof {
            use_type_invariant(self);
        }
        let ghost nv = names@.map_values(|s: String| s@);
        let pattern = match &self.elements[self.pos] {
            SelectionPathElement::SelectChildPattern(p) => p,
            _ => {
                return DeliveryAction::Stop;
            },
        };
        let mut matched: Vec<usize> = Vec::new();
        let mut i: usize = 0;
        while i < names.len()
            invariant
                0 <= i <= names.len(),
                nv == names@.map_values(|s: String| s@),
                matched@ == matching(pattern.source(), nv.take(i as int)),
            decreases names.len() - i,
        {
            assert(nv[i as int] == names@[i as int]@);
            assert(nv.take(i + 1).drop_last() =~= nv.take(i as int));
            if pattern.is_match(names[i].as_str()) {
                matched.push(i);
            }
            i = i + 1;
        }
        assert(nv.take(i as int) =~= nv);
        if matched.len() == 0 && !self.wildcard_fan_out {
            DeliveryAction::TellEmpty
        } else if self.pos + 1 == self.elements.len() {
            DeliveryAction::TellChildren { children: matched }
        } else {
            let fan = self.wildcard_fan_out || matched.len() > 1;
            DeliveryAction::FanOut { children: matched, elements: clone_elements(&self.elements, self.pos + 1), wildcard_fan_out: fan }
        }
    }
}

/// The positions of the names that the pattern matches, in order.
pub open spec fn matching(p: Seq<char>, names: Seq<Seq<char>>) -> Seq<usize>
    decreases names.len(),
{
    if names.len() == 0 {
        Seq::empty()
    } else {
        let rest = matching(p, names.drop_last());
        if regex_matches(p, names.last()) {
            rest.push((names.len() - 1) as usize)
        } else {
            rest
        }
    }
}

/// The path of the empty actor that a selection reaching no actor is told
/// to: the anchor's path with the texts of the elements below it.
pub fn empty_ref_path(anchor: &ActorPath, elements: &Vec<SelectionPathElement>) -> (r: ActorPath)
    requires
        forall|i: int| 0 <= i < elements.len() ==> uid_suffix_valid(element_text(#[trigger] elements@[i]@)),
    ensures
        r@ == (ActorPathView {
            children: anchor@.children + descend(element_views(elements@).map_values(|e: ElementView| element_text(e))),
            ..anchor@
        }),
{
    let ghost texts = element_views(elements@).map_values(|e: ElementView| element_text(e));
    let mut names: Vec<String> = Vec::new();
    let mut i: usize = 0;
    while i < elements.len()
        invariant
            0 <= i <= elements.len(),
            texts == element_views(elements@).map_values(|e: ElementView| element_text(e)),
            names@.map_values(|s: String| s@) == texts.take(i as int),
        decreases elements.len() - i,
    {
        let t = elements[i].to_display_string();
        names.push(t);
        assert(texts.take(i + 1) =~= texts.take(i as int).push(texts[i as int]));
        assert(names@.map_values(|s: String| s@) =~= texts.take(i as int).push(texts[i as int]));
        i = i + 1;
    }
    assert(texts.take(i as int) =~= texts);
    proof {
        assert forall|k: int| 0 <= k < names.len() implies uid_suffix_valid(#[trigger] names@[k]@) by {
            assert(names@[k]@ == names@.map_values(|s: String| s@)[k]);
            assert(texts[k] == element_text(elements@[k]@));
        }
    }
    anchor.descendant(&names)
}

} // verus!
