//! The staging index: repository-relative path to object hash.
use crate::error::FluxError;
use crate::textmap::TextMap;
use vstd::prelude::*;

verus! {

/// The text that the json crate writes for an object with these string
/// members, in this order.
pub uninterp spec fn json_object_text(members: Seq<(Seq<char>, Seq<char>)>) -> Seq<char>;

/// What a JSON text holds: `None` when it is not JSON, `Some(None)` when it is
/// not an object, else the object's members in order, each with its value when
/// that value is a string.
pub uninterp spec fn json_members(text: Seq<char>) -> Option<Option<Seq<(Seq<char>, Option<Seq<char>>)>>>;

pub open spec fn members_view(s: Seq<(String, String)>) -> Seq<(Seq<char>, Seq<char>)> {
    s.map_values(|m: (String, String)| (m.0@, m.1@))
}

pub open spec fn loaded_members_view(s: Seq<(String, Option<String>)>) -> Seq<(Seq<char>, Option<Seq<char>>)> {
    s.map_values(
        |m: (String, Option<String>)|
            (
                m.0@,
                match m.1 {
                    Some(v) => Some(v@),
                    None => None,
                },
            ),
    )
}

/// The path to hash map that members with string values give; a later member
/// of the same name wins.
pub open spec fn string_members(ms: Seq<(Seq<char>, Option<Seq<char>>)>) -> Map<Seq<char>, Seq<char>>
    decreases ms.len(),
{
    if ms.len() == 0 {
        Map::empty()
    } else {
        let before = string_members(ms.drop_last());
        match ms.last().1 {
            Some(v) => before.insert(ms.last().0, v),
            None => before,
        }
    }
}

/// The index as texts.
pub open spec fn text_values(m: Map<Seq<char>, String>) -> Map<Seq<char>, Seq<char>> {
    m.map_values(|v: String| v@)
}

/// Relies on the json crate: `JsonValue::new_object`, each member set in turn
/// (`obj[key] = value`), then `JsonValue::dump`.
#[verifier::external_body]
fn dump_members(members: &Vec<(String, String)>) -> (r: String)
    ensures
        r@ == json_object_text(members_view(members@)),
{
    let mut obj = json::JsonValue::new_object();
    for (k, v) in members.iter() {
        obj[k.as_str()] = json::JsonValue::from(v.as_str());
    }
    obj.dump()
}

/// Relies on `json::parse`, and on `Object::iter` and `JsonValue::as_str` for
/// the members of an object.
#[verifier::external_body]
fn parse_members(text: &str) -> (r: Option<Option<Vec<(String, Option<String>)>>>)
    ensures
        match r {
            None => json_members(text@) is None,
            Some(None) => json_members(text@) == Some(None::<Seq<(Seq<char>, Option<Seq<char>>)>>),
            Some(Some(v)) => json_members(text@) == Some(Some(loaded_members_view(v@))),
        },
{
    match json::parse(text) {
        Ok(json::JsonValue::Object(obj)) => Some(Some(
            obj.iter().map(|(k, v)| (k.to_string(), v.as_str().map(|s| s.to_string()))).collect(),
        )),
        Ok(_) => Some(None),
        Err(_) => None,
    }
}

/// Staged paths and the hashes of their content.
pub struct Index {
    pub map: TextMap<String>,
}

impl View for Index {
    type V = Map<Seq<char>, String>;

    open spec fn view(&self) -> Map<Seq<char>, String> {
        self.map@
    }
}

impl Index {
    pub open spec fn wf(&self) -> bool {
        self.map.wf()
    }

    /// An index with nothing staged.
    pub fn empty() -> (r: Index)
        ensures
            r.wf(),
            r@ == Map::<Seq<char>, String>::empty(),
    {
        Index { map: TextMap::new() }
    }

    /// Stages `hash` under `path`, replacing what was staged there.
    pub fn add(&mut self, path: String, hash: String)
        requires
            old(self).wf(),
        ensures
            final(self).wf(),
            final(self)@ == old(self)@.insert(path@, hash),
    {
        self.map.insert(path, hash);
    }

    /// Unstages `path`.
    pub fn remove(&mut self, path: String)
        requires
            old(self).wf(),
        ensures
            final(self).wf(),
            final(self)@ == old(self)@.remove(path@),
    {
        self.map.remove(path.as_str());
    }

    /// Unstages everything.
    pub fn clear(&mut self)
        ensures
            final(self).wf(),
            final(self)@ == Map::<Seq<char>, String>::empty(),
    {
        self.map.clear();
    }

    /// Whether nothing is staged.
    pub fn is_empty(&self) -> (r: bool)
        requires
            self.wf(),
        ensures
            r == (self@ == Map::<Seq<char>, String>::empty()),
    {
        self.map.is_empty()
    }

    /// The index as the JSON object `{ "<path>": "<hash>", ... }`.
    pub fn to_json(&self) -> (r: String)
        requires
            self.wf(),
        ensures
            r@ == json_object_text(members_view(self.map.pairs())),
    {
        let mut members: Vec<(String, String)> = Vec::new();
        let n = self.map.len();
        let mut i: usize = 0;
        while i < n
            invariant
                n == self.map.pairs().len(),
                i <= n,
                members@ == self.map.pairs().subrange(0, i as int),
            decreases n - i,
        {
            members.push((self.map.key_at(i).clone(), self.map.value_at(i).clone()));
            proof {
                assert(members@ =~= self.map.pairs().subrange(0, i + 1));
            }
            i = i + 1;
        }
        proof {
            assert(members@ =~= self.map.pairs());
        }
        dump_members(&members)
    }

    /// An index from its JSON text: each member with a string value is staged;
    /// a text that is JSON but not an object gives an empty index.
    pub fn from_json(text: &str) -> (r: Result<Index, FluxError>)
        ensures
            json_members(text@) is None ==> r == Err::<Index, FluxError>(FluxError::MalformedIndex),
            json_members(text@) is Some ==> r is Ok && r->Ok_0.wf(),
            json_members(text@) == Some(None::<Seq<(Seq<char>, Option<Seq<char>>)>>) ==> r is Ok && r->Ok_0@ == Map::<Seq<char>, String>::empty(),
            json_members(text@) matches Some(Some(ms)) ==> r is Ok && text_values(r->Ok_0@) == string_members(ms),
    {
        let members = match parse_members(text) {
            None => return Err(FluxError::MalformedIndex),
            Some(None) => return Ok(Index::empty()),
            Some(Some(v)) => v,
        };
        let ghost ms = loaded_members_view(members@);
        let mut index = Index::empty();
        let mut i: usize = 0;
        proof {
            assert(ms.subrange(0, 0) =~= Seq::<(Seq<char>, Option<Seq<char>>)>::empty());
            assert(text_values(index@) =~= Map::<Seq<char>, Seq<char>>::empty());
        }
        while i < members.len()
            invariant
                ms == loaded_members_view(members@),
                i <= members@.len(),
                index.wf(),
                text_values(index@) == string_members(ms.subrange(0, i as int)),
            decreases members@.len() - i,
        {
            let ghost before = index@;
            proof {
                assert(ms.subrange(0, i + 1).drop_last() =~= ms.subrange(0, i as int));
                assert(ms.subrange(0, i + 1).last() == ms[i as int]);
            }
            match &members[i].1 {
                Some(v) => {
                    index.add(members[i].0.clone(), v.clone());
                    proof {
                        assert(text_values(index@) =~= text_values(before).insert(members@[i as int].0@, v@));
                    }
                },
                None => {},
            }
            i = i + 1;
        }
        proof {
            assert(ms.subrange(0, members@.len() as int) =~= ms);
        }
        Ok(index)
    }
}

} // verus!
