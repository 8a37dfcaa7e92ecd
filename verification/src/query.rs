//! What a query asks for.

use vstd::prelude::*;
use vstd::string::*;
use crate::index::AttrKind;
use crate::util::text_pairs;

verus! {

/// Tags an object must carry, each with the given value.
#[derive(Debug, Default)]
pub struct TagFilter(pub Vec<(String, String)>);

/// Values an object must hold under registered JSON paths.
#[derive(Debug, Default)]
pub struct JsonPathFilter {
    /// Path and the compact JSON text of the value required under it.
    pub equals: Vec<(String, String)>,
}

/// A query over the current versions of one namespace.
#[derive(Debug, Default)]
pub struct QueryRequest {
    pub tag_filter: Option<TagFilter>,
    pub jsonpath: Option<JsonPathFilter>,
    /// The most objects to return.
    pub limit: Option<usize>,
    /// The body fields a caller wants projected; the engine returns whole
    /// objects.
    pub fields: Option<Vec<String>>,
}

/// One condition of a query: an attribute the object must carry.
pub struct Condition {
    pub kind: AttrKind,
    pub key: Seq<char>,
    pub value: Seq<char>,
}

/// One condition of a query, as the engine holds it while answering.
#[derive(Debug)]
pub struct Cond {
    pub kind: AttrKind,
    pub key: String,
    pub value: String,
}

impl View for Cond {
    type V = Condition;

    open spec fn view(&self) -> Condition {
        Condition { kind: self.kind, key: self.key@, value: self.value@ }
    }
}

/// The views of a list of conditions.
pub open spec fn cond_views(v: Seq<Cond>) -> Seq<Condition> {
    v.map_values(|c: Cond| c@)
}

/// The pairs `pairs` as conditions of the kind `kind`.
pub open spec fn conditions_from(kind: AttrKind, pairs: Seq<(Seq<char>, Seq<char>)>) -> Seq<
    Condition,
> {
    pairs.map_values(|p: (Seq<char>, Seq<char>)| Condition { kind, key: p.0, value: p.1 })
}

impl QueryRequest {
    /// The tag pairs the request asks for.
    pub open spec fn tag_pairs(&self) -> Seq<(Seq<char>, Seq<char>)> {
        match self.tag_filter {
            Some(f) => text_pairs(f.0@),
            None => Seq::empty(),
        }
    }

    /// The path and value pairs the request asks for.
    pub open spec fn json_pairs(&self) -> Seq<(Seq<char>, Seq<char>)> {
        match self.jsonpath {
            Some(f) => text_pairs(f.equals@),
            None => Seq::empty(),
        }
    }

    /// Every condition of the request: the tags, then the JSON paths.
    pub open spec fn conditions(&self) -> Seq<Condition> {
        conditions_from(AttrKind::Tag, self.tag_pairs()) + conditions_from(
            AttrKind::Json,
            self.json_pairs(),
        )
    }
}

/// Appends `pairs`, as conditions of the kind `kind`, to `out`.
fn push_conditions(out: &mut Vec<Cond>, kind: AttrKind, pairs: &Vec<(String, String)>)
    ensures
        cond_views(final(out)@) == cond_views(old(out)@) + conditions_from(
            kind,
            text_pairs(pairs@),
        ),
{
    let ghost start = cond_views(out@);
    let ghost all = conditions_from(kind, text_pairs(pairs@));
    let mut i: usize = 0;
    assert(cond_views(out@) =~= start + all.take(0));
    while i < pairs.len()
        invariant
            i <= pairs@.len(),
            all == conditions_from(kind, text_pairs(pairs@)),
            cond_views(out@) == start + all.take(i as int),
        decreases pairs@.len() - i,
    {
        let ghost before = out@;
        let c = Cond { kind, key: pairs[i].0.clone(), value: pairs[i].1.clone() };
        assert(c@ == all[i as int]);
        out.push(c);
        proof {
            assert(cond_views(before.push(c)) =~= cond_views(before).push(c@));
            assert(start + all.take(i + 1) =~= (start + all.take(i as int)).push(all[i as int]));
        }
        i += 1;
    }
    assert(all.take(i as int) =~= all);
}

impl QueryRequest {
    /// Every condition of the request: the tags, then the JSON paths.
    pub fn gather(&self) -> (out: Vec<Cond>)
        ensures
            cond_views(out@) == self.conditions(),
    {
        let mut out: Vec<Cond> = Vec::new();
        assert(cond_views(out@) =~= Seq::<Condition>::empty());
        match &self.tag_filter {
            Some(f) => {
                push_conditions(&mut out, AttrKind::Tag, &f.0);
            },
            None => {
                assert(cond_views(out@) =~= cond_views(out@) + conditions_from(
                    AttrKind::Tag,
                    self.tag_pairs(),
                ));
            },
        }
        let ghost mid = cond_views(out@);
        assert(mid =~= conditions_from(AttrKind::Tag, self.tag_pairs()));
        match &self.jsonpath {
            Some(f) => {
                push_conditions(&mut out, AttrKind::Json, &f.equals);
            },
            None => {
                assert(cond_views(out@) =~= mid + conditions_from(
                    AttrKind::Json,
                    self.json_pairs(),
                ));
            },
        }
        out
    }
}

} // verus!
