//! Who a record belongs to: robot, session and number, in one total order.
use crate::multi_robot::error::{refused_for, Error};
use crate::text::{
    text_before, text_before_is_total, text_before_is_transitive, text_order, Relation,
};
use vstd::prelude::*;

verus! {

/// The identity of a record.
#[derive(Debug, PartialEq, Eq, PartialOrd, Ord, Hash)]
pub struct Key {
    pub robot: String,
    pub session: String,
    pub id: u64,
}

/// An identity without the strings that hold its names.
#[verifier::ext_equal]
pub ghost struct KeyModel {
    pub robot: Seq<char>,
    pub session: Seq<char>,
    pub id: u64,
}

impl View for Key {
    type V = KeyModel;

    open spec fn view(&self) -> KeyModel {
        KeyModel { robot: self.robot@, session: self.session@, id: self.id }
    }
}

impl Clone for Key {
    fn clone(&self) -> (key: Self)
        ensures
            key == *self,
    {
        Key { robot: self.robot.clone(), session: self.session.clone(), id: self.id }
    }
}

impl Default for Key {
    fn default() -> (key: Self)
        ensures
            key@ == (KeyModel { robot: Seq::empty(), session: Seq::empty(), id: 0 }),
    {
        Key { robot: String::new(), session: String::new(), id: 0 }
    }
}

/// Whether two identities are of one session.
pub open spec fn same_session(a: KeyModel, b: KeyModel) -> bool {
    a.robot == b.robot && a.session == b.session
}

/// Whether a name may stand in an identity: up to 128 letters, digits and underscores.
pub open spec fn valid_name(name: Seq<char>) -> bool {
    &&& 1 <= name.len() <= 128
    &&& forall|i: int| 0 <= i < name.len() ==> word_char(#[trigger] name[i])
}

/// A letter, a digit or an underscore.
pub open spec fn word_char(c: char) -> bool {
    ||| 'a' <= c <= 'z'
    ||| 'A' <= c <= 'Z'
    ||| '0' <= c <= '9'
    ||| c == '_'
}

/// Why an identity is refused.
pub open spec fn key_fault(key: KeyModel) -> Option<Seq<char>> {
    if valid_name(key.robot) && valid_name(key.session) {
        None
    } else {
        Some("invalid robot/session identity"@)
    }
}

/// The order of identities: by robot, then by session, then by number.
pub open spec fn key_before(a: KeyModel, b: KeyModel) -> bool {
    ||| text_before(a.robot, b.robot)
    ||| a.robot == b.robot && text_before(a.session, b.session)
    ||| a.robot == b.robot && a.session == b.session && a.id < b.id
}

fn is_valid_name(name: &String) -> (valid: bool)
    ensures
        valid == valid_name(name@),
{
    let text = name.as_str();
    let n: usize = text.unicode_len();
    if n == 0 || n > 128 {
        return false;
    }
    for i in 0..n
        invariant
            text@ == name@,
            n == name@.len(),
            forall|j: int| 0 <= j < i ==> word_char(#[trigger] name@[j]),
    {
        let c: char = text.get_char(i);
        if !((c >= 'a' && c <= 'z') || (c >= 'A' && c <= 'Z') || (c >= '0' && c <= '9') || c
            == '_') {
            assert(!word_char(name@[i as int]));
            return false;
        }
    }
    true
}

impl Key {
    /// Names a record.
    pub fn new(robot: &str, session: &str, id: u64) -> (key: Self)
        ensures
            key@ == (KeyModel { robot: robot@, session: session@, id }),
    {
        Key { robot: robot.to_owned(), session: session.to_owned(), id }
    }

    /// Whether two identities are of one session.
    pub fn same_session(&self, other: &Self) -> (same: bool)
        ensures
            same == same_session(self@, other@),
    {
        self.robot == other.robot && self.session == other.session
    }

    /// Checks the names of the identity.
    pub fn validate(&self) -> (result: Result<(), Error>)
        ensures
            refused_for(result, key_fault(self@)),
    {
        if !is_valid_name(&self.robot) || !is_valid_name(&self.session) {
            return Err(Error::of("invalid robot/session identity"));
        }
        Ok(())
    }

    /// Whether two identities are the same.
    pub fn same(&self, other: &Self) -> (same: bool)
        ensures
            same == (self@ == other@),
    {
        self.robot == other.robot && self.session == other.session && self.id == other.id
    }
}

/// The canonical name of two sequences that are held against each other. The first robot is the one
/// that does the work, whatever came first.
#[derive(Debug, PartialEq, Eq, PartialOrd, Ord, Hash)]
pub struct Pair(pub Key, pub Key);

/// A pair without the strings that hold its names.
#[verifier::ext_equal]
pub ghost struct PairModel {
    pub first: KeyModel,
    pub second: KeyModel,
}

impl View for Pair {
    type V = PairModel;

    open spec fn view(&self) -> PairModel {
        PairModel { first: self.0@, second: self.1@ }
    }
}

impl Clone for Pair {
    fn clone(&self) -> (pair: Self)
        ensures
            pair == *self,
    {
        Pair(self.0.clone(), self.1.clone())
    }
}

/// The pair of two identities: the earlier one first.
pub open spec fn pair_of(a: KeyModel, b: KeyModel) -> PairModel {
    if key_before(b, a) {
        PairModel { first: b, second: a }
    } else {
        PairModel { first: a, second: b }
    }
}

/// The order of pairs: by their first identities, then by their second ones.
pub open spec fn pair_before(a: PairModel, b: PairModel) -> bool {
    ||| key_before(a.first, b.first)
    ||| a.first == b.first && key_before(a.second, b.second)
}

impl Pair {
    /// Pairs two identities.
    pub fn new(a: Key, b: Key) -> (pair: Self)
        ensures
            pair@ == pair_of(a@, b@),
    {
        match a.order(&b) {
            Relation::After => Pair(b, a),
            Relation::Before => Pair(a, b),
            Relation::Same => Pair(a, b),
        }
    }
}

/// Which of two sequences comes first does not change their pair, and so not who does the work.
pub proof fn pairs_do_not_depend_on_arrival(a: KeyModel, b: KeyModel)
    ensures
        pair_of(a, b) == pair_of(b, a),
        a != b ==> key_before(pair_of(a, b).first, pair_of(a, b).second),
{
    key_order_is_total(a, b);
    key_order_is_total(b, a);
}

/// Of two identities exactly one holds: the first comes before, they are the same, or it comes after.
pub proof fn key_order_is_total(a: KeyModel, b: KeyModel)
    ensures
        !(key_before(a, b) && key_before(b, a)),
        !(key_before(a, b) && a == b),
        key_before(a, b) || a == b || key_before(b, a),
{
    text_before_is_total(a.robot, b.robot);
    text_before_is_total(b.robot, a.robot);
    text_before_is_total(a.session, b.session);
    text_before_is_total(b.session, a.session);
}

/// The order of identities is transitive.
pub proof fn key_order_is_transitive(a: KeyModel, b: KeyModel, c: KeyModel)
    requires
        key_before(a, b),
        key_before(b, c),
    ensures
        key_before(a, c),
{
    if text_before(a.robot, b.robot) && text_before(b.robot, c.robot) {
        text_before_is_transitive(a.robot, b.robot, c.robot);
    }
    if text_before(a.session, b.session) && text_before(b.session, c.session) {
        text_before_is_transitive(a.session, b.session, c.session);
    }
}

/// A name with a total order.
pub trait Ordered: Sized {
    /// What the name is, without its strings.
    type Model;

    /// The name without its strings.
    spec fn model(&self) -> Self::Model;

    /// Whether one name comes before another.
    spec fn before(a: Self::Model, b: Self::Model) -> bool;

    /// Exactly one of three holds.
    proof fn is_total(a: Self::Model, b: Self::Model)
        ensures
            !(Self::before(a, b) && Self::before(b, a)),
            !(Self::before(a, b) && a == b),
            Self::before(a, b) || a == b || Self::before(b, a),
    ;

    /// The order carries over.
    proof fn is_transitive(a: Self::Model, b: Self::Model, c: Self::Model)
        requires
            Self::before(a, b),
            Self::before(b, c),
        ensures
            Self::before(a, c),
    ;

    /// Compares two names.
    fn order(&self, other: &Self) -> (relation: Relation)
        ensures
            relation is Before <==> Self::before(self.model(), other.model()),
            relation is After <==> Self::before(other.model(), self.model()),
            relation is Same <==> self.model() == other.model(),
    ;
}

impl Ordered for Key {
    type Model = KeyModel;

    open spec fn model(&self) -> KeyModel {
        self@
    }

    open spec fn before(a: KeyModel, b: KeyModel) -> bool {
        key_before(a, b)
    }

    proof fn is_total(a: KeyModel, b: KeyModel) {
        key_order_is_total(a, b);
        key_order_is_total(b, a);
    }

    proof fn is_transitive(a: KeyModel, b: KeyModel, c: KeyModel) {
        key_order_is_transitive(a, b, c);
    }

    fn order(&self, other: &Self) -> (relation: Relation) {
        proof {
            key_order_is_total(self@, other@);
            text_before_is_total(self.robot@, other.robot@);
            text_before_is_total(self.session@, other.session@);
        }
        match text_order(&self.robot, &other.robot) {
            Relation::Before => Relation::Before,
            Relation::After => Relation::After,
            Relation::Same => match text_order(&self.session, &other.session) {
                Relation::Before => Relation::Before,
                Relation::After => Relation::After,
                Relation::Same => if self.id < other.id {
                    Relation::Before
                } else if self.id == other.id {
                    Relation::Same
                } else {
                    Relation::After
                },
            },
        }
    }
}

impl Ordered for Pair {
    type Model = PairModel;

    open spec fn model(&self) -> PairModel {
        self@
    }

    open spec fn before(a: PairModel, b: PairModel) -> bool {
        pair_before(a, b)
    }

    proof fn is_total(a: PairModel, b: PairModel) {
        key_order_is_total(a.first, b.first);
        key_order_is_total(b.first, a.first);
        key_order_is_total(a.second, b.second);
        key_order_is_total(b.second, a.second);
    }

    proof fn is_transitive(a: PairModel, b: PairModel, c: PairModel) {
        if key_before(a.first, b.first) && key_before(b.first, c.first) {
            key_order_is_transitive(a.first, b.first, c.first);
        }
        if key_before(a.second, b.second) && key_before(b.second, c.second) {
            key_order_is_transitive(a.second, b.second, c.second);
        }
    }

    fn order(&self, other: &Self) -> (relation: Relation) {
        proof {
            Pair::is_total(self@, other@);
            key_order_is_total(self.0@, other.0@);
        }
        match self.0.order(&other.0) {
            Relation::Before => Relation::Before,
            Relation::After => Relation::After,
            Relation::Same => self.1.order(&other.1),
        }
    }
}

/// A name is accepted exactly where it has one to 128 characters, each a letter, a digit or an underscore,
/// and an identity where the names of its robot and its session are.
pub proof fn identities_have_plain_names(key: KeyModel)
    ensures
        key_fault(key) is None <==> {
            &&& 0 < key.robot.len() < 129
            &&& 0 < key.session.len() < 129
            &&& forall|i: int|
                0 <= i < key.robot.len() ==> ({
                    let c = #[trigger] key.robot[i];
                    ('a' <= c && c <= 'z') || ('A' <= c && c <= 'Z') || ('0' <= c && c <= '9') || c
                        == '_'
                })
            &&& forall|i: int|
                0 <= i < key.session.len() ==> ({
                    let c = #[trigger] key.session[i];
                    ('a' <= c && c <= 'z') || ('A' <= c && c <= 'Z') || ('0' <= c && c <= '9') || c
                        == '_'
                })
        },
{
    if key_fault(key) is None {
        assert forall|i: int| 0 <= i < key.robot.len() implies word_char(#[trigger] key.robot[i]) by {}
        assert forall|i: int| 0 <= i < key.session.len() implies word_char(
            #[trigger] key.session[i],
        ) by {}
    }
}

/// Identities go by robot, then by session, then by number; a pair holds its two members, the earlier one
/// first.
pub proof fn identities_go_by_robot_session_and_number(a: KeyModel, b: KeyModel)
    ensures
        a.robot != b.robot ==> (key_before(a, b) <==> text_before(a.robot, b.robot)),
        a.robot == b.robot && a.session != b.session ==> (key_before(a, b) <==> text_before(
            a.session,
            b.session,
        )),
        a.robot == b.robot && a.session == b.session ==> (key_before(a, b) <==> a.id < b.id),
        same_session(a, b) <==> a.robot == b.robot && a.session == b.session,
        pair_of(a, b).first == a && pair_of(a, b).second == b || pair_of(a, b).first == b && pair_of(
            a,
            b,
        ).second == a,
        !key_before(pair_of(a, b).second, pair_of(a, b).first),
{
    text_before_is_total(a.robot, b.robot);
    text_before_is_total(a.session, b.session);
    key_order_is_total(a, b);
}

} // verus!
