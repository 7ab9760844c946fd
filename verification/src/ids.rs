//! The identifiers of the protocol: of actors, of objects, of the fields of a
//! map and of the elements of a list.

use vstd::prelude::*;

use crate::text::{
    chars_of, counter_of, decimal, decimal_text, join, owned, parse_counter, quoted, quoted_text,
    text_less, text_lt,
};
use crate::text::{lemma_text_lt_irreflexive, lemma_text_lt_total, lemma_text_lt_transitive};

verus! {

/// A value that can be looked up: two of them are the same when their views
/// are equal.
pub trait Ident: DeepView + Sized {
    /// Whether the two denote the same thing.
    fn same(&self, other: &Self) -> (r: bool)
        ensures
            r == (self.deep_view() == other.deep_view()),
    ;
}

/// A value that can be copied: the copy has the same view.
pub trait Twin: DeepView + Sized {
    /// A copy.
    fn twin(&self) -> (r: Self)
        ensures
            r.deep_view() == self.deep_view(),
    ;
}

impl Twin for String {
    fn twin(&self) -> (r: Self) {
        self.clone()
    }
}

impl<T: Twin> Twin for Vec<T> {
    fn twin(&self) -> (r: Self) {
        let mut r: Vec<T> = Vec::new();
        let mut i: usize = 0;
        assert(r.deep_view() =~= self.deep_view().take(0));
        while i < self.len()
            invariant
                i <= self@.len(),
                r.deep_view() == self.deep_view().take(i as int),
            decreases self@.len() - i,
        {
            let ghost before = r.deep_view();
            let x = self[i].twin();
            r.push(x);
            assert(r.deep_view() =~= before.push(x.deep_view()));
            assert(r.deep_view() =~= self.deep_view().take(i + 1));
            i += 1;
        }
        assert(r.deep_view() =~= self.deep_view());
        r
    }
}

impl Ident for String {
    fn same(&self, other: &Self) -> (r: bool) {
        *self == *other
    }
}

impl<T: Ident> Ident for Vec<T> {
    fn same(&self, other: &Self) -> (r: bool) {
        if self.len() != other.len() {
            assert(self.deep_view().len() != other.deep_view().len());
            return false;
        }
        let mut i: usize = 0;
        while i < self.len()
            invariant
                i <= self@.len(),
                self@.len() == other@.len(),
                forall|j: int| 0 <= j < i ==> self.deep_view()[j] == other.deep_view()[j],
            decreases self@.len() - i,
        {
            if !self[i].same(&other[i]) {
                assert(self.deep_view()[i as int] != other.deep_view()[i as int]);
                return false;
            }
            i += 1;
        }
        assert(self.deep_view() =~= other.deep_view());
        true
    }
}

/// An actor: one replica of the document.
#[derive(Debug)]
pub struct ActorID(pub String);

impl DeepView for ActorID {
    type V = Seq<char>;

    open spec fn deep_view(&self) -> Seq<char> {
        self.0@
    }
}

impl Clone for ActorID {
    fn clone(&self) -> (r: Self)
        ensures
            r == *self,
    {
        ActorID(self.0.clone())
    }
}

impl Twin for ActorID {
    fn twin(&self) -> (r: Self) {
        self.clone()
    }
}

impl Ident for ActorID {
    fn same(&self, other: &Self) -> (r: bool) {
        self.0 == other.0
    }
}

impl PartialEq for ActorID {
    fn eq(&self, other: &Self) -> (r: bool) {
        self.same(other)
    }
}

impl vstd::std_specs::cmp::PartialEqSpecImpl for ActorID {
    open spec fn obeys_eq_spec() -> bool {
        true
    }

    open spec fn eq_spec(&self, other: &Self) -> bool {
        self.deep_view() == other.deep_view()
    }
}

/// The key of a field: the name of a field of a map, or, in a list, the text
/// form of an element ID.
#[derive(Debug)]
pub struct Key(pub String);

impl DeepView for Key {
    type V = Seq<char>;

    open spec fn deep_view(&self) -> Seq<char> {
        self.0@
    }
}

impl Clone for Key {
    fn clone(&self) -> (r: Self)
        ensures
            r == *self,
    {
        Key(self.0.clone())
    }
}

impl Ident for Key {
    fn same(&self, other: &Self) -> (r: bool) {
        self.0 == other.0
    }
}

impl PartialEq for Key {
    fn eq(&self, other: &Self) -> (r: bool) {
        self.same(other)
    }
}

impl vstd::std_specs::cmp::PartialEqSpecImpl for Key {
    open spec fn obeys_eq_spec() -> bool {
        true
    }

    open spec fn eq_spec(&self, other: &Self) -> bool {
        self.deep_view() == other.deep_view()
    }
}

/// An object of the document: the root map, or one that an operation made.
#[derive(Debug)]
pub enum ObjectID {
    ID(String),
    Root,
}

/// The view of an [`ObjectID`].
pub enum ObjectIDView {
    ID(Seq<char>),
    Root,
}

impl DeepView for ObjectID {
    type V = ObjectIDView;

    open spec fn deep_view(&self) -> ObjectIDView {
        match self {
            ObjectID::ID(s) => ObjectIDView::ID(s@),
            ObjectID::Root => ObjectIDView::Root,
        }
    }
}

impl Clone for ObjectID {
    fn clone(&self) -> (r: Self)
        ensures
            r == *self,
    {
        match self {
            ObjectID::ID(s) => ObjectID::ID(s.clone()),
            ObjectID::Root => ObjectID::Root,
        }
    }
}

impl Twin for ObjectID {
    fn twin(&self) -> (r: Self) {
        self.clone()
    }
}

impl Ident for ObjectID {
    fn same(&self, other: &Self) -> (r: bool) {
        match (self, other) {
            (ObjectID::ID(a), ObjectID::ID(b)) => *a == *b,
            (ObjectID::Root, ObjectID::Root) => true,
            _ => false,
        }
    }
}

impl PartialEq for ObjectID {
    fn eq(&self, other: &Self) -> (r: bool) {
        self.same(other)
    }
}

impl vstd::std_specs::cmp::PartialEqSpecImpl for ObjectID {
    open spec fn obeys_eq_spec() -> bool {
        true
    }

    open spec fn eq_spec(&self, other: &Self) -> bool {
        self.deep_view() == other.deep_view()
    }
}

impl ObjectIDView {
    /// An object ID as an error message shows it, where `text` is the quoted form
    /// of the text in it.
    pub open spec fn shown_with(self, text: Seq<char>) -> Seq<char> {
        match self {
            ObjectIDView::ID(_) => "ID("@ + text + ")"@,
            ObjectIDView::Root => "Root"@,
        }
    }

    /// An object ID as an error message shows it.
    pub open spec fn shown(self) -> Seq<char> {
        match self {
            ObjectIDView::ID(s) => self.shown_with(quoted(s)),
            ObjectIDView::Root => self.shown_with(Seq::empty()),
        }
    }
}

impl ObjectID {
    /// The object ID as an error message shows it, where `text` is the quoted
    /// form of the text in it.
    pub fn shown_with(&self, text: &str) -> (r: String)
        ensures
            r@ == self.deep_view().shown_with(text@),
    {
        match self {
            ObjectID::ID(_) => join(join(owned("ID("), text), ")"),
            ObjectID::Root => owned("Root"),
        }
    }

    /// The object ID as an error message shows it.
    pub fn shown(&self) -> (r: String)
        ensures
            r@ == self.deep_view().shown(),
    {
        match self {
            ObjectID::ID(s) => {
                let text = quoted_text(s.as_str());
                self.shown_with(text.as_str())
            },
            ObjectID::Root => self.shown_with(""),
        }
    }
}

/// Whether a list of objects has `id`.
pub fn has_object(ids: &Vec<ObjectID>, id: &ObjectID) -> (r: bool)
    ensures
        r == ids.deep_view().to_set().contains(id.deep_view()),
{
    let mut i: usize = 0;
    while i < ids.len()
        invariant
            i <= ids@.len(),
            forall|j: int| 0 <= j < i ==> ids.deep_view()[j] != id.deep_view(),
        decreases ids@.len() - i,
    {
        if ids[i].same(id) {
            assert(ids.deep_view()[i as int] == id.deep_view());
            return true;
        }
        i += 1;
    }
    false
}

/// A place in a list: its head, or the element that an actor inserted with the
/// given counter.
#[derive(Debug)]
pub enum ElementID {
    Head,
    SpecificElementID(ActorID, u32),
}

/// The view of an [`ElementID`].
pub enum ElementIDView {
    Head,
    SpecificElementID(Seq<char>, u32),
}

impl DeepView for ElementID {
    type V = ElementIDView;

    open spec fn deep_view(&self) -> ElementIDView {
        match self {
            ElementID::Head => ElementIDView::Head,
            ElementID::SpecificElementID(actor, elem) => ElementIDView::SpecificElementID(
                actor.deep_view(),
                *elem,
            ),
        }
    }
}

impl Clone for ElementID {
    fn clone(&self) -> (r: Self)
        ensures
            r == *self,
    {
        match self {
            ElementID::Head => ElementID::Head,
            ElementID::SpecificElementID(actor, elem) => ElementID::SpecificElementID(
                actor.clone(),
                *elem,
            ),
        }
    }
}

impl Twin for ElementID {
    fn twin(&self) -> (r: Self) {
        self.clone()
    }
}

impl Ident for ElementID {
    fn same(&self, other: &Self) -> (r: bool) {
        match (self, other) {
            (ElementID::Head, ElementID::Head) => true,
            (
                ElementID::SpecificElementID(a, m),
                ElementID::SpecificElementID(b, n),
            ) => *m == *n && a.same(b),
            _ => false,
        }
    }
}

impl PartialEq for ElementID {
    fn eq(&self, other: &Self) -> (r: bool) {
        self.same(other)
    }
}

impl vstd::std_specs::cmp::PartialEqSpecImpl for ElementID {
    open spec fn obeys_eq_spec() -> bool {
        true
    }

    open spec fn eq_spec(&self, other: &Self) -> bool {
        self.deep_view() == other.deep_view()
    }
}

impl ElementIDView {
    /// The order of element IDs: the head first, then by counter, and by actor
    /// where the counters are equal.
    pub open spec fn before(self, other: ElementIDView) -> bool {
        match (self, other) {
            (_, ElementIDView::Head) => false,
            (ElementIDView::Head, _) => true,
            (
                ElementIDView::SpecificElementID(a, m),
                ElementIDView::SpecificElementID(b, n),
            ) => m < n || (m == n && text_lt(a, b)),
        }
    }

    /// An element ID as an error message shows it, where `text` is the quoted
    /// form of the actor in it.
    pub open spec fn shown_with(self, text: Seq<char>) -> Seq<char> {
        match self {
            ElementIDView::Head => "Head"@,
            ElementIDView::SpecificElementID(_, elem) => "SpecificElementID(ActorID("@ + text
                + "), "@ + decimal(elem as nat) + ")"@,
        }
    }

    /// An element ID as an error message shows it.
    pub open spec fn shown(self) -> Seq<char> {
        match self {
            ElementIDView::Head => self.shown_with(Seq::empty()),
            ElementIDView::SpecificElementID(actor, _) => self.shown_with(quoted(actor)),
        }
    }
}

/// `before` or equal.
pub open spec fn element_le(a: ElementIDView, b: ElementIDView) -> bool {
    a == b || a.before(b)
}

/// The order of element IDs is total.
pub proof fn lemma_element_order(a: ElementIDView, b: ElementIDView, c: ElementIDView)
    ensures
        !a.before(a),
        a.before(b) ==> !b.before(a),
        a.before(b) && b.before(c) ==> a.before(c),
        a == b || a.before(b) || b.before(a),
{
    if let ElementIDView::SpecificElementID(x, _) = a {
        lemma_text_lt_irreflexive(x);
        if let ElementIDView::SpecificElementID(y, _) = b {
            lemma_text_lt_total(x, y);
            if text_lt(x, y) && text_lt(y, x) {
                lemma_text_lt_transitive(x, y, x);
            }
            if let ElementIDView::SpecificElementID(z, _) = c {
                if text_lt(x, y) && text_lt(y, z) {
                    lemma_text_lt_transitive(x, y, z);
                }
            }
        }
    }
}

/// `s` has a single colon, at `i`.
pub open spec fn sole_colon(s: Seq<char>, i: int) -> bool {
    &&& 0 <= i < s.len()
    &&& s[i] == ':'
    &&& forall|j: int| 0 <= j < s.len() && j != i ==> s[j] != ':'
}

/// The element that a text names: `_head` is the head of the list, and an
/// actor, a colon and a counter name the element that the actor inserted with
/// that counter. The actor's name holds no colon. Other texts name no element.
pub open spec fn element_named(s: Seq<char>) -> Option<ElementIDView> {
    if s == "_head"@ {
        Some(ElementIDView::Head)
    } else if exists|i: int| sole_colon(s, i) {
        let i = choose|i: int| sole_colon(s, i);
        match counter_of(s.skip(i + 1)) {
            Some(elem) => Some(ElementIDView::SpecificElementID(s.take(i), elem)),
            None => None,
        }
    } else {
        None
    }
}

impl ElementID {
    /// Whether `self` comes before `other` in the order of element IDs.
    pub fn is_before(&self, other: &ElementID) -> (r: bool)
        ensures
            r == self.deep_view().before(other.deep_view()),
    {
        match (self, other) {
            (_, ElementID::Head) => false,
            (ElementID::Head, _) => true,
            (
                ElementID::SpecificElementID(a, m),
                ElementID::SpecificElementID(b, n),
            ) => *m < *n || (*m == *n && text_less(a.0.as_str(), b.0.as_str())),
        }
    }

    /// The element ID as an error message shows it, where `text` is the quoted
    /// form of the actor in it.
    pub fn shown_with(&self, text: &str) -> (r: String)
        ensures
            r@ == self.deep_view().shown_with(text@),
    {
        match self {
            ElementID::Head => owned("Head"),
            ElementID::SpecificElementID(_, elem) => {
                let d = decimal_text(*elem);
                let r = join(owned("SpecificElementID(ActorID("), text);
                join(join(join(r, "), "), d.as_str()), ")")
            },
        }
    }

    /// The element ID as an error message shows it.
    pub fn shown(&self) -> (r: String)
        ensures
            r@ == self.deep_view().shown(),
    {
        match self {
            ElementID::Head => self.shown_with(""),
            ElementID::SpecificElementID(actor, _) => {
                let text = quoted_text(actor.0.as_str());
                self.shown_with(text.as_str())
            },
        }
    }
}

impl Key {
    /// The element of a list that this key names, if it names one.
    pub fn as_element_id(&self) -> (r: Option<ElementID>)
        ensures
            r.deep_view() == element_named(self.deep_view()),
    {
        let head = owned("_head");
        if self.0 == head {
            return Some(ElementID::Head);
        }
        let v = chars_of(self.0.as_str());
        let mut i: usize = 0;
        while i < v.len() && v[i] != ':'
            invariant
                i <= v@.len(),
                forall|j: int| 0 <= j < i ==> v@[j] != ':',
            decreases v@.len() - i,
        {
            i += 1;
        }
        if i == v.len() {
            return None;
        }
        let mut k: usize = i + 1;
        while k < v.len()
            invariant
                i < k <= v@.len(),
                v@ == self.0@,
                v@[i as int] == ':',
                self.0@ != "_head"@,
                forall|j: int| 0 <= j < k && j != i ==> v@[j] != ':',
            decreases v@.len() - k,
        {
            if v[k] == ':' {
                assert forall|j: int| !sole_colon(v@, j) by {
                    if sole_colon(v@, j) {
                        assert(v@[i as int] == ':' && v@[k as int] == ':');
                    }
                }
                return None;
            }
            k += 1;
        }
        assert(sole_colon(v@, i as int));
        assert forall|j: int| sole_colon(v@, j) implies j == i by {}
        match parse_counter(&v, i + 1) {
            Some(elem) => {
                let actor = owned(self.0.as_str().substring_char(0, i));
                assert(actor@ =~= v@.take(i as int));
                Some(ElementID::SpecificElementID(ActorID(actor), elem))
            },
            None => None,
        }
    }
}

} // verus!
