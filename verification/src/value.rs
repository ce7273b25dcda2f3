//! The tree of values that a document denotes.
//!
//! [`JSONTYPE`] is the value a program holds; [`Json`] is its mathematical
//! counterpart, in which an object is a map from keys to values and an array
//! is a sequence. An object is stored as a list of members in which no key
//! occurs twice.

use vstd::prelude::*;
use crate::number::decimal_literal;

verus! {

/// A value as mathematics sees it. A number is the text of its literal.
pub enum Json {
    Null,
    Bool(bool),
    String(Seq<char>),
    Number(Seq<char>),
    Object(Map<Seq<char>, Json>),
    Array(Seq<Json>),
}

impl Json {
    /// The member of an object that `key` names, if this is an object and
    /// has such a member.
    pub open spec fn member(self, key: Seq<char>) -> Option<Json> {
        match self {
            Json::Object(members) => if members.contains_key(key) {
                Some(members[key])
            } else {
                None
            },
            _ => None,
        }
    }
}

/// A value: exactly one of six kinds. A number holds the text of its literal,
/// an object its members in the order in which their keys first appeared.
#[derive(Debug)]
pub enum JSONTYPE {
    Null,
    Bool(bool),
    String(String),
    Number(String),
    Object(Vec<(String, JSONTYPE)>),
    Array(Vec<JSONTYPE>),
}

/// `eq` on `str`, which is what `==` calls, answers `true` exactly if the
/// two slices hold the same characters in the same order.
pub assume_specification[ <str as PartialEq>::eq ](s: &str, other: &str) -> (r: bool)
    ensures
        r == (s@ == other@),
;

/// The map that a list of members stands for: where a key occurs more than
/// once, the last occurrence counts.
pub open spec fn members_view(entries: Seq<(String, JSONTYPE)>) -> Map<Seq<char>, Json>
    decreases entries, 0int,
{
    if entries.len() == 0 {
        Map::empty()
    } else {
        members_view(entries.drop_last()).insert(entries.last().0@, entries.last().1.view())
    }
}

/// The sequence of values that a list of elements stands for.
pub open spec fn elements_view(items: Seq<JSONTYPE>) -> Seq<Json>
    decreases items, 0int,
{
    if items.len() == 0 {
        Seq::empty()
    } else {
        elements_view(items.drop_last()).push(items.last().view())
    }
}

/// No key occurs twice among the members.
pub open spec fn distinct_keys(entries: Seq<(String, JSONTYPE)>) -> bool {
    forall|i: int, j: int| 0 <= i < j < entries.len() ==> entries[i].0@ != entries[j].0@
}

impl View for JSONTYPE {
    type V = Json;

    open spec fn view(&self) -> Json
        decreases self, 1int,
    {
        match self {
            JSONTYPE::Null => Json::Null,
            JSONTYPE::Bool(b) => Json::Bool(*b),
            JSONTYPE::String(s) => Json::String(s@),
            JSONTYPE::Number(t) => Json::Number(t@),
            JSONTYPE::Object(entries) => Json::Object(members_view(entries@)),
            JSONTYPE::Array(items) => Json::Array(elements_view(items@)),
        }
    }
}

impl JSONTYPE {
    /// The invariant of a tree: every number is a decimal literal, and no
    /// object holds a key twice.
    pub open spec fn well_formed(&self) -> bool
        decreases self,
    {
        match self {
            JSONTYPE::Number(t) => decimal_literal(t@),
            JSONTYPE::Object(entries) => {
                &&& distinct_keys(entries@)
                &&& forall|i: int| 0 <= i < entries@.len() ==> (#[trigger] entries@[i]).1.well_formed()
            },
            JSONTYPE::Array(items) => forall|i: int|
                0 <= i < items@.len() ==> (#[trigger] items@[i]).well_formed(),
            _ => true,
        }
    }

    /// The member of an object that `key` names: the value of the last
    /// member that has the key. A value that is no object has no members.
    pub fn get(&self, key: &str) -> (r: Option<&JSONTYPE>)
        ensures
            match self@.member(key@) {
                Some(value) => r matches Some(found) && found@ == value,
                None => r is None,
            },
            self matches JSONTYPE::Object(entries) ==> match last_key_index(entries@, key@) {
                Some(at) => r == Some(&entries@[at].1),
                None => r is None,
            },
    {
        match self {
            JSONTYPE::Object(entries) => {
                let mut i: usize = entries.len();
                while i > 0
                    invariant
                        self@ == Json::Object(members_view(entries@)),
                        *self == JSONTYPE::Object(*entries),
                        i <= entries@.len(),
                        forall|j: int| i <= j < entries@.len() ==> (#[trigger] entries@[j]).0@ != key@,
                    decreases i,
                {
                    i = i - 1;
                    if entries[i].0.as_str().eq(key) {
                        proof {
                            lemma_members_view_last_match(entries@, i as int);
                            lemma_last_key_index(entries@, key@, i as int);
                        }
                        return Some(&entries[i].1);
                    }
                }
                proof {
                    lemma_members_view_domain(entries@, key@);
                    lemma_last_key_index_none(entries@, key@);
                }
                None
            },
            _ => None,
        }
    }
}

/// The place of the last member that has `key`, if there is one.
pub open spec fn last_key_index(entries: Seq<(String, JSONTYPE)>, key: Seq<char>) -> Option<int>
    decreases entries.len(),
{
    if entries.len() == 0 {
        None
    } else if entries.last().0@ == key {
        Some(entries.len() - 1)
    } else {
        last_key_index(entries.drop_last(), key)
    }
}

/// Gives `key` the value `value` among the members: the last member that
/// has the key gets the new value and keeps its place; where there is none,
/// a new member goes to the end. Members with distinct keys stay so.
pub fn insert_member(entries: &mut Vec<(String, JSONTYPE)>, key: String, value: JSONTYPE)
    ensures
        members_view(final(entries)@) == members_view(old(entries)@).insert(key@, value@),
        match last_key_index(old(entries)@, key@) {
            Some(at) => final(entries)@ == old(entries)@.update(at, (key, value)),
            None => final(entries)@ == old(entries)@.push((key, value)),
        },
        distinct_keys(old(entries)@) ==> distinct_keys(final(entries)@),
{
    let mut i: usize = entries.len();
    while i > 0
        invariant
            entries@ == old(entries)@,
            i <= entries@.len(),
            forall|j: int| i <= j < entries@.len() ==> (#[trigger] entries@[j]).0@ != key@,
        decreases i,
    {
        i = i - 1;
        if entries[i].0 == key {
            proof {
                lemma_last_key_index(entries@, key@, i as int);
                lemma_members_view_update(entries@, i as int, (key, value));
            }
            entries.set(i, (key, value));
            return ;
        }
    }
    proof {
        lemma_last_key_index_none(entries@, key@);
        lemma_members_view_unfold(entries@.push((key, value)));
        assert(entries@.push((key, value)).drop_last() =~= entries@);
    }
    entries.push((key, value));
}

/// The place of a key is the place of a member that has the key, and no
/// later member has it.
pub proof fn lemma_last_key_index_is_last(entries: Seq<(String, JSONTYPE)>, key: Seq<char>)
    ensures
        last_key_index(entries, key) matches Some(at) ==> {
            &&& 0 <= at < entries.len()
            &&& entries[at].0@ == key
            &&& forall|j: int| at < j < entries.len() ==> (#[trigger] entries[j]).0@ != key
        },
    decreases entries.len(),
{
    if entries.len() > 0 && entries.last().0@ != key {
        let front = entries.drop_last();
        lemma_last_key_index_is_last(front, key);
        if let Some(at) = last_key_index(front, key) {
            assert forall|j: int| at < j < entries.len() implies (#[trigger] entries[j]).0@
                != key by {
                if j < front.len() {
                    assert(front[j].0@ != key);
                }
            }
        }
    }
}

/// The last member that has a key stands at the place of that key.
pub proof fn lemma_last_key_index(entries: Seq<(String, JSONTYPE)>, key: Seq<char>, at: int)
    requires
        0 <= at < entries.len(),
        entries[at].0@ == key,
        forall|j: int| at < j < entries.len() ==> (#[trigger] entries[j]).0@ != key,
    ensures
        last_key_index(entries, key) == Some(at),
    decreases entries.len(),
{
    if at < entries.len() - 1 {
        let front = entries.drop_last();
        assert(entries[entries.len() - 1].0@ != key);
        assert forall|j: int| at < j < front.len() implies (#[trigger] front[j]).0@ != key by {
            assert(entries[j].0@ != key);
        }
        lemma_last_key_index(front, key, at);
    }
}

/// A key that no member has stands at no place.
pub proof fn lemma_last_key_index_none(entries: Seq<(String, JSONTYPE)>, key: Seq<char>)
    requires
        forall|j: int| 0 <= j < entries.len() ==> (#[trigger] entries[j]).0@ != key,
    ensures
        last_key_index(entries, key) is None,
    decreases entries.len(),
{
    if entries.len() > 0 {
        let front = entries.drop_last();
        assert(entries[entries.len() - 1].0@ != key);
        assert forall|j: int| 0 <= j < front.len() implies (#[trigger] front[j]).0@ != key by {
            assert(entries[j].0@ != key);
        }
        lemma_last_key_index_none(front, key);
    }
}

/// Replacing the last member that has a key by a member with the same key
/// changes the map at that key only, and keeps distinct keys distinct.
pub proof fn lemma_members_view_update(
    entries: Seq<(String, JSONTYPE)>,
    at: int,
    member: (String, JSONTYPE),
)
    requires
        0 <= at < entries.len(),
        entries[at].0@ == member.0@,
        forall|j: int| at < j < entries.len() ==> (#[trigger] entries[j]).0@ != member.0@,
    ensures
        members_view(entries.update(at, member)) == members_view(entries).insert(
            member.0@,
            member.1@,
        ),
        distinct_keys(entries) ==> distinct_keys(entries.update(at, member)),
    decreases entries.len(),
{
    let changed = entries.update(at, member);
    let front = entries.drop_last();
    let n = entries.len() - 1;
    lemma_members_view_unfold(entries);
    lemma_members_view_unfold(changed);
    if distinct_keys(entries) {
        assert forall|i: int, j: int| 0 <= i < j < changed.len() implies changed[i].0@
            != changed[j].0@ by {
            assert(entries[i].0@ != entries[j].0@);
        }
    }
    if at == n {
        assert(changed.drop_last() =~= front);
        assert(members_view(changed) =~= members_view(entries).insert(member.0@, member.1@));
    } else {
        assert(changed.drop_last() =~= front.update(at, member));
        assert(entries[n].0@ != member.0@);
        assert forall|j: int| at < j < front.len() implies (#[trigger] front[j]).0@
            != member.0@ by {
            assert(entries[j].0@ != member.0@);
        }
        lemma_members_view_update(front, at, member);
        assert(members_view(changed) =~= members_view(entries).insert(member.0@, member.1@));
    }
}

/// What `members_view` is on a list with at least one member.
pub proof fn lemma_members_view_unfold(entries: Seq<(String, JSONTYPE)>)
    requires
        entries.len() > 0,
    ensures
        members_view(entries) == members_view(entries.drop_last()).insert(
            entries[entries.len() - 1].0@,
            entries[entries.len() - 1].1@,
        ),
{
}

/// A key is in the map of a list of members exactly if one of them has it.
pub proof fn lemma_members_view_domain(entries: Seq<(String, JSONTYPE)>, key: Seq<char>)
    ensures
        members_view(entries).contains_key(key) <==> exists|i: int|
            0 <= i < entries.len() && (#[trigger] entries[i]).0@ == key,
    decreases entries.len(),
{
    if entries.len() > 0 {
        let front = entries.drop_last();
        let n = entries.len() - 1;
        lemma_members_view_domain(front, key);
        lemma_members_view_unfold(entries);
        if members_view(entries).contains_key(key) {
            if entries[n].0@ == key {
            } else {
                assert(members_view(front).contains_key(key));
                let i = choose|i: int| 0 <= i < front.len() && (#[trigger] front[i]).0@ == key;
                assert(entries[i].0@ == key);
            }
        }
        if exists|i: int| 0 <= i < entries.len() && (#[trigger] entries[i]).0@ == key {
            let i = choose|i: int| 0 <= i < entries.len() && (#[trigger] entries[i]).0@ == key;
            if i < n {
                assert(front[i].0@ == key);
            }
        }
    }
}

/// The map sends a key to the value of the last member that has it.
pub proof fn lemma_members_view_last_match(entries: Seq<(String, JSONTYPE)>, at: int)
    requires
        0 <= at < entries.len(),
        forall|j: int| at < j < entries.len() ==> (#[trigger] entries[j]).0@ != entries[at].0@,
    ensures
        members_view(entries).contains_key(entries[at].0@),
        members_view(entries)[entries[at].0@] == entries[at].1@,
    decreases entries.len(),
{
    lemma_members_view_unfold(entries);
    if at < entries.len() - 1 {
        let front = entries.drop_last();
        assert(entries[entries.len() - 1].0@ != entries[at].0@);
        assert forall|j: int| at < j < front.len() implies (#[trigger] front[j]).0@
            != front[at].0@ by {
            assert(entries[j].0@ != entries[at].0@);
        }
        lemma_members_view_last_match(front, at);
    }
}

} // verus!
