//! The typed values a database record's fields hold, the scalar collapsing
//! rule, and the unique-key field list that backs a record's name-to-value
//! map.

use vstd::prelude::*;

verus! {

/// One decoded field value. Floating-point entries are kept bit-for-bit as
/// the stored 32-bit words, exactly as the format defines them; turning
/// them into machine floats is the caller's concern.
#[derive(Debug, Clone, PartialEq)]
pub enum DatabaseValue {
    Int(u32),
    Float(u32),
    Str(String),
    Bool(bool),
    Ints(Vec<u32>),
    Floats(Vec<u32>),
    Strings(Vec<String>),
    Bools(Vec<bool>),
}

/// The mathematical shape of a field value.
pub ghost enum ValueView {
    Int(u32),
    Float(u32),
    Str(Seq<char>),
    Bool(bool),
    Ints(Seq<u32>),
    Floats(Seq<u32>),
    Strings(Seq<Seq<char>>),
    Bools(Seq<bool>),
}

impl View for DatabaseValue {
    type V = ValueView;

    open spec fn view(&self) -> ValueView {
        match self {
            DatabaseValue::Int(v) => ValueView::Int(*v),
            DatabaseValue::Float(v) => ValueView::Float(*v),
            DatabaseValue::Str(s) => ValueView::Str(s@),
            DatabaseValue::Bool(b) => ValueView::Bool(*b),
            DatabaseValue::Ints(v) => ValueView::Ints(v@),
            DatabaseValue::Floats(v) => ValueView::Floats(v@),
            DatabaseValue::Strings(v) => ValueView::Strings(v.deep_view()),
            DatabaseValue::Bools(v) => ValueView::Bools(v@),
        }
    }
}

/// A list of one integer collapses to the scalar; any other length stays a
/// sequence.
pub open spec fn collapse_ints(ws: Seq<u32>) -> ValueView {
    if ws.len() == 1 {
        ValueView::Int(ws[0])
    } else {
        ValueView::Ints(ws)
    }
}

/// A list of one float word collapses to the scalar; any other length stays
/// a sequence.
pub open spec fn collapse_floats(ws: Seq<u32>) -> ValueView {
    if ws.len() == 1 {
        ValueView::Float(ws[0])
    } else {
        ValueView::Floats(ws)
    }
}

/// A list of one string collapses to the scalar; any other length stays a
/// sequence.
pub open spec fn collapse_strings(ss: Seq<Seq<char>>) -> ValueView {
    if ss.len() == 1 {
        ValueView::Str(ss[0])
    } else {
        ValueView::Strings(ss)
    }
}

/// A list of one boolean collapses to the scalar; any other length stays a
/// sequence.
pub open spec fn collapse_bools(bs: Seq<bool>) -> ValueView {
    if bs.len() == 1 {
        ValueView::Bool(bs[0])
    } else {
        ValueView::Bools(bs)
    }
}

impl DatabaseValue {
    /// Wraps decoded integers, applying the collapsing rule.
    pub fn of_ints(ws: Vec<u32>) -> (r: DatabaseValue)
        ensures
            r@ == collapse_ints(ws@),
    {
        if ws.len() == 1 {
            DatabaseValue::Int(ws[0])
        } else {
            DatabaseValue::Ints(ws)
        }
    }

    /// Wraps decoded float words, applying the collapsing rule.
    pub fn of_floats(ws: Vec<u32>) -> (r: DatabaseValue)
        ensures
            r@ == collapse_floats(ws@),
    {
        if ws.len() == 1 {
            DatabaseValue::Float(ws[0])
        } else {
            DatabaseValue::Floats(ws)
        }
    }

    /// Wraps decoded strings, applying the collapsing rule.
    pub fn of_strings(ss: Vec<String>) -> (r: DatabaseValue)
        ensures
            r@ == collapse_strings(ss.deep_view()),
    {
        if ss.len() == 1 {
            let mut ss = ss;
            let s = ss.pop().unwrap();
            DatabaseValue::Str(s)
        } else {
            DatabaseValue::Strings(ss)
        }
    }

    /// Wraps decoded booleans, applying the collapsing rule.
    pub fn of_bools(bs: Vec<bool>) -> (r: DatabaseValue)
        ensures
            r@ == collapse_bools(bs@),
    {
        if bs.len() == 1 {
            DatabaseValue::Bool(bs[0])
        } else {
            DatabaseValue::Bools(bs)
        }
    }

    /// The scalar string this value holds, if it is one.
    pub fn as_string(&self) -> (r: Option<String>)
        ensures
            match r {
                Some(s) => self@ matches ValueView::Str(t) && s@ == t,
                None => !(self@ is Str),
            },
    {
        match self {
            DatabaseValue::Str(s) => Some(s.clone()),
            _ => None,
        }
    }
}

/// No two entries share a name.
pub open spec fn unique_keys<V>(s: Seq<(String, V)>) -> bool {
    forall|i: int, j: int| 0 <= i < j < s.len() ==> s[i].0@ != s[j].0@
}

/// The name-to-value map an entry list denotes; a later entry for the same
/// name wins.
pub open spec fn assoc_map<V: View>(s: Seq<(String, V)>) -> Map<Seq<char>, V::V>
    decreases s.len(),
{
    if s.len() == 0 {
        Map::empty()
    } else {
        assoc_map(s.drop_last()).insert(s.last().0@, s.last().1@)
    }
}

/// A name is in the map exactly when some entry carries it.
pub proof fn lemma_assoc_map_dom<V: View>(s: Seq<(String, V)>, k: Seq<char>)
    ensures
        assoc_map(s).contains_key(k) <==> exists|i: int| 0 <= i < s.len() && s[i].0@ == k,
    decreases s.len(),
{
    if s.len() > 0 {
        lemma_assoc_map_dom(s.drop_last(), k);
        if s.last().0@ != k && assoc_map(s).contains_key(k) {
            let i = choose|i: int| 0 <= i < s.drop_last().len() && s.drop_last()[i].0@ == k;
            assert(s[i].0@ == k);
        }
        if exists|i: int| 0 <= i < s.len() && s[i].0@ == k {
            let i = choose|i: int| 0 <= i < s.len() && s[i].0@ == k;
            if i < s.len() - 1 {
                assert(s.drop_last()[i].0@ == k);
            }
        }
    }
}

/// With unique names, each entry is the one its name maps to.
pub proof fn lemma_assoc_map_get<V: View>(s: Seq<(String, V)>, i: int)
    requires
        unique_keys(s),
        0 <= i < s.len(),
    ensures
        assoc_map(s).contains_key(s[i].0@),
        assoc_map(s)[s[i].0@] == s[i].1@,
    decreases s.len(),
{
    lemma_assoc_map_dom(s, s[i].0@);
    if i < s.len() - 1 {
        assert(s.drop_last()[i] == s[i]);
        lemma_assoc_map_get(s.drop_last(), i);
        assert(s[i].0@ != s.last().0@);
    }
}

/// Removing an entry removes exactly its name from the map.
pub proof fn lemma_assoc_map_remove<V: View>(s: Seq<(String, V)>, i: int)
    requires
        unique_keys(s),
        0 <= i < s.len(),
    ensures
        assoc_map(s.remove(i)) == assoc_map(s).remove(s[i].0@),
    decreases s.len(),
{
    if i == s.len() - 1 {
        assert(s.remove(i) =~= s.drop_last());
        lemma_assoc_map_dom(s.drop_last(), s[i].0@);
        assert(!assoc_map(s.drop_last()).contains_key(s[i].0@));
        assert(assoc_map(s.drop_last()) =~= assoc_map(s).remove(s[i].0@));
    } else {
        assert(s.remove(i).drop_last() =~= s.drop_last().remove(i));
        assert(s.remove(i).last() == s.last());
        assert(s.drop_last()[i] == s[i]);
        lemma_assoc_map_remove(s.drop_last(), i);
        assert(s[i].0@ != s.last().0@);
        assert(assoc_map(s.drop_last().remove(i)).insert(s.last().0@, s.last().1@) =~= assoc_map(
            s,
        ).remove(s[i].0@));
    }
}

/// Merging one decoded entry into the accumulated map commutes with
/// merging in the whole remainder, which wins on a shared name.
pub proof fn lemma_merge_step<V>(
    acc: Map<Seq<char>, V>,
    rest: Map<Seq<char>, V>,
    name: Seq<char>,
    v: V,
)
    ensures
        acc.union_prefer_right(
            if rest.contains_key(name) {
                rest
            } else {
                rest.insert(name, v)
            },
        ) == acc.insert(name, v).union_prefer_right(rest),
{
    if rest.contains_key(name) {
        assert(acc.union_prefer_right(rest) =~= acc.insert(name, v).union_prefer_right(rest));
    } else {
        assert(acc.union_prefer_right(rest.insert(name, v)) =~= acc.insert(
            name,
            v,
        ).union_prefer_right(rest));
    }
}

/// Inserts an entry, overwriting any entry that already carries the name.
pub fn assoc_insert<V: View>(data: &mut Vec<(String, V)>, name: String, value: V)
    requires
        unique_keys(old(data)@),
    ensures
        unique_keys(final(data)@),
        assoc_map(final(data)@) == assoc_map(old(data)@).insert(name@, value@),
{
    let mut i: usize = 0;
    while i < data.len()
        invariant
            unique_keys(data@),
            data@ == old(data)@,
            i <= data.len(),
            forall|k: int| 0 <= k < i ==> data@[k].0@ != name@,
        decreases data.len() - i,
    {
        if data[i].0 == name {
            let ghost gname = name@;
            let ghost gval = value@;
            let ghost olds = data@;
            proof {
                lemma_assoc_map_remove(olds, i as int);
            }
            data.remove(i);
            let ghost removed = data@;
            proof {
                assert(removed =~= olds.remove(i as int));
                assert forall|k: int| 0 <= k < removed.len() implies removed[k].0@ != gname by {
                    if k < i {
                        assert(removed[k] == olds[k]);
                    } else {
                        assert(removed[k] == olds[k + 1]);
                    }
                }
                assert(unique_keys(removed)) by {
                    assert forall|a: int, b: int|
                        0 <= a < b < removed.len() implies removed[a].0@ != removed[b].0@ by {
                        let a0: int = if a < i {
                            a
                        } else {
                            a + 1
                        };
                        let b0: int = if b < i {
                            b
                        } else {
                            b + 1
                        };
                        assert(removed[a] == olds[a0] && removed[b] == olds[b0]);
                    }
                }
            }
            data.push((name, value));
            proof {
                assert(data@.drop_last() =~= removed);
                assert(assoc_map(data@) == assoc_map(removed).insert(gname, gval));
                assert(assoc_map(data@) =~= assoc_map(olds).insert(gname, gval));
            }
            return ;
        }
        i = i + 1;
    }
    let ghost gname = name@;
    let ghost gval = value@;
    let ghost olds = data@;
    proof {
        lemma_assoc_map_dom(olds, gname);
    }
    data.push((name, value));
    proof {
        assert(data@.drop_last() =~= olds);
        assert(assoc_map(data@) == assoc_map(olds).insert(gname, gval));
    }
}

/// Looks an entry up by name.
pub fn assoc_get<'a, V: View>(data: &'a Vec<(String, V)>, name: &str) -> (r: Option<&'a V>)
    requires
        unique_keys(data@),
    ensures
        match r {
            Some(v) => assoc_map(data@).contains_key(name@) && v@ == assoc_map(data@)[name@],
            None => !assoc_map(data@).contains_key(name@),
        },
{
    let key = name.to_owned();
    let mut i: usize = 0;
    while i < data.len()
        invariant
            key@ == name@,
            unique_keys(data@),
            i <= data.len(),
            forall|k: int| 0 <= k < i ==> data@[k].0@ != name@,
        decreases data.len() - i,
    {
        if data[i].0 == key {
            proof {
                lemma_assoc_map_get(data@, i as int);
            }
            return Some(&data[i].1);
        }
        i = i + 1;
    }
    proof {
        lemma_assoc_map_dom(data@, name@);
    }
    None
}

} // verus!

