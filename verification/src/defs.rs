//! Definitions — location-tagged text fragments with their owning class —
//! the ordered index that groups them, and the per-class parent lookup.

use vstd::prelude::*;
use crate::bytesutil::{append_bytes, bytes_eq};
use crate::loc::{LocMap, Location, loc_push_spec};

verus! {

/// The abstract content of a definition: its owning class (empty for the
/// global scope), its text fragment, and whether it is a doc comment.
pub ghost struct DefSpec {
    pub class: Seq<u8>,
    pub bit: Seq<u8>,
    pub comment: bool,
}

/// One location-tagged text fragment, owned by a class context.
pub struct Definition {
    pub class: Vec<u8>,
    pub bit: Vec<u8>,
    pub comment: bool,
}

impl View for Definition {
    type V = DefSpec;

    open spec fn view(&self) -> DefSpec {
        DefSpec { class: self.class@, bit: self.bit@, comment: self.comment }
    }
}

impl Definition {
    /// A non-comment fragment `bit` owned by `class`.
    pub fn new(class: &Vec<u8>, bit: Vec<u8>) -> (d: Definition)
        ensures
            d@ == (DefSpec { class: class@, bit: bit@, comment: false }),
    {
        let mut c: Vec<u8> = Vec::new();
        append_bytes(&mut c, class);
        proof {
            assert(Seq::<u8>::empty() + class@ =~= class@);
        }
        Definition { class: c, bit, comment: false }
    }

    /// A doc-comment fragment, always in the global (empty) class context.
    pub fn new_comment(text: Vec<u8>) -> (d: Definition)
        ensures
            d@ == (DefSpec { class: Seq::<u8>::empty(), bit: text@, comment: true }),
    {
        let d = Definition { class: Vec::new(), bit: text, comment: true };
        d
    }
}

/// The full definition index: per location, the fragments produced there in
/// production order; locations ordered by file, then line.
pub struct Definitions {
    pub map: LocMap<Definition>,
}

impl View for Definitions {
    type V = Seq<(Location, Seq<DefSpec>)>;

    open spec fn view(&self) -> Seq<(Location, Seq<DefSpec>)> {
        self.map@
    }
}

impl Definitions {
    pub open spec fn wf(&self) -> bool {
        self.map.wf()
    }

    /// An empty index.
    pub fn new() -> (d: Definitions)
        ensures
            d@ == Seq::<(Location, Seq<DefSpec>)>::empty(),
            d.wf(),
    {
        Definitions { map: LocMap::new() }
    }

    /// Record `def` at `loc`, after everything already recorded there.
    ///
    /// Within one location, pushes keep production order; across locations
    /// the index keeps (file, line) order.
    pub fn push(&mut self, loc: Location, def: Definition)
        requires
            old(self).wf(),
        ensures
            final(self).wf(),
            final(self)@ == loc_push_spec(old(self)@, loc, def@),
    {
        self.map.push(loc, def);
    }
}

impl Default for Definitions {
    /// Same as `new`: an empty index.
    fn default() -> (d: Definitions)
        ensures
            d@ == Seq::<(Location, Seq<DefSpec>)>::empty(),
            d.wf(),
    {
        Definitions::new()
    }
}

/// The map built by inserting each association in turn, later writes
/// overriding earlier ones.
pub open spec fn assoc_map(s: Seq<(Vec<u8>, Vec<u8>)>) -> Map<Seq<u8>, Seq<u8>>
    decreases s.len(),
{
    if s.len() == 0 {
        Map::<Seq<u8>, Seq<u8>>::empty()
    } else {
        assoc_map(s.drop_last()).insert(s.last().0@, s.last().1@)
    }
}

/// A key is in the map exactly when some entry carries it.
pub proof fn lemma_assoc_contains(s: Seq<(Vec<u8>, Vec<u8>)>, k: Seq<u8>)
    ensures
        assoc_map(s).contains_key(k) <==> exists|i: int| 0 <= i < s.len() && #[trigger] s[i].0@ == k,
    decreases s.len(),
{
    if s.len() > 0 {
        lemma_assoc_contains(s.drop_last(), k);
        if s.last().0@ == k {
            assert(s[s.len() - 1].0@ == k);
        } else if assoc_map(s).contains_key(k) {
            let i = choose|i: int| 0 <= i < s.drop_last().len() && #[trigger] s.drop_last()[i].0@ == k;
            assert(s[i].0@ == k);
        } else {
            assert(forall|i: int| 0 <= i < s.len() - 1 ==> s.drop_last()[i] == #[trigger] s[i]);
        }
    }
}

/// With pairwise-distinct keys, each entry's value is the map's value.
pub proof fn lemma_assoc_value(s: Seq<(Vec<u8>, Vec<u8>)>, i: int)
    requires
        0 <= i < s.len(),
        forall|p: int, q: int| 0 <= p < q < s.len() ==> (#[trigger] s[p].0)@ != (#[trigger] s[q].0)@,
    ensures
        assoc_map(s).contains_key(s[i].0@),
        assoc_map(s)[s[i].0@] == s[i].1@,
    decreases s.len(),
{
    if i == s.len() - 1 {
    } else {
        assert(forall|p: int, q: int| 0 <= p < q < s.len() - 1
            ==> (#[trigger] s.drop_last()[p].0)@ != (#[trigger] s.drop_last()[q].0)@);
        lemma_assoc_value(s.drop_last(), i);
        assert(s[i].0@ != s.last().0@);
    }
}

/// With pairwise-distinct keys, removing an entry removes its key.
pub proof fn lemma_assoc_remove(s: Seq<(Vec<u8>, Vec<u8>)>, i: int)
    requires
        0 <= i < s.len(),
        forall|p: int, q: int| 0 <= p < q < s.len() ==> (#[trigger] s[p].0)@ != (#[trigger] s[q].0)@,
    ensures
        assoc_map(s.remove(i)) == assoc_map(s).remove(s[i].0@),
    decreases s.len(),
{
    if i == s.len() - 1 {
        assert(s.remove(i) =~= s.drop_last());
        lemma_assoc_contains(s.drop_last(), s[i].0@);
        assert(forall|p: int| 0 <= p < s.len() - 1 ==> s.drop_last()[p] == #[trigger] s[p]);
        assert(!assoc_map(s.drop_last()).contains_key(s[i].0@));
        assert(assoc_map(s.drop_last()).insert(s.last().0@, s.last().1@).remove(s[i].0@)
            =~= assoc_map(s.drop_last()));
        assert(assoc_map(s.remove(i)) =~= assoc_map(s).remove(s[i].0@));
    } else {
        assert(forall|p: int, q: int| 0 <= p < q < s.len() - 1
            ==> (#[trigger] s.drop_last()[p].0)@ != (#[trigger] s.drop_last()[q].0)@);
        lemma_assoc_remove(s.drop_last(), i);
        assert(s.remove(i).drop_last() =~= s.drop_last().remove(i));
        assert(s.remove(i).last() == s.last());
        assert(s[i].0@ != s.last().0@);
        assert(assoc_map(s.drop_last()).remove(s[i].0@).insert(s.last().0@, s.last().1@)
            =~= assoc_map(s.drop_last()).insert(s.last().0@, s.last().1@).remove(s[i].0@));
    }
}

/// Class-to-parent lookup: written during collection (last write wins),
/// drained during boundary tracking so each class's extends annotation is
/// emitted at most once.
pub struct ExtendsMap {
    pub entries: Vec<(Vec<u8>, Vec<u8>)>,
}

impl View for ExtendsMap {
    type V = Map<Seq<u8>, Seq<u8>>;

    open spec fn view(&self) -> Map<Seq<u8>, Seq<u8>> {
        assoc_map(self.entries@)
    }
}

impl ExtendsMap {
    /// Entries carry pairwise-distinct keys.
    pub open spec fn wf(&self) -> bool {
        forall|p: int, q: int| 0 <= p < q < self.entries@.len()
            ==> (#[trigger] self.entries@[p].0)@ != (#[trigger] self.entries@[q].0)@
    }

    /// An empty lookup.
    pub fn new() -> (r: ExtendsMap)
        ensures
            r@ == Map::<Seq<u8>, Seq<u8>>::empty(),
            r.wf(),
    {
        ExtendsMap { entries: Vec::new() }
    }

    /// Takes the entry for `key` out of the map, if one is there.
    #[verifier::loop_isolation(false)]
    pub fn remove(&mut self, key: &Vec<u8>) -> (r: Option<Vec<u8>>)
        requires
            old(self).wf(),
        ensures
            final(self).wf(),
            final(self)@ == old(self)@.remove(key@),
            r matches Some(v) ==> old(self)@.contains_key(key@) && v@ == old(self)@[key@],
            r is None ==> !old(self)@.contains_key(key@),
            forall|p: int| 0 <= p < final(self).entries@.len()
                ==> (#[trigger] final(self).entries@[p].0)@ != key@,
    {
        let ghost s = self.entries@;
        let mut i: usize = 0;
        while i < self.entries.len()
            invariant
                i <= s.len(),
                self.entries@ == s,
                forall|k: int| 0 <= k < i ==> (#[trigger] s[k].0)@ != key@,
            decreases s.len() - i,
        {
            if bytes_eq(&self.entries[i].0, key) {
                proof {
                    lemma_assoc_value(s, i as int);
                    lemma_assoc_remove(s, i as int);
                }
                let e = self.entries.remove(i);
                proof {
                    assert(forall|p: int, q: int| 0 <= p < q < self.entries@.len()
                        ==> (#[trigger] self.entries@[p].0)@ != (#[trigger] self.entries@[q].0)@);
                    assert(forall|p: int| 0 <= p < self.entries@.len()
                        ==> (#[trigger] self.entries@[p].0)@ != key@);
                }
                return Some(e.1);
            }
            i = i + 1;
        }
        proof {
            lemma_assoc_contains(s, key@);
            assert(self@.remove(key@) =~= self@);
        }
        None
    }

    /// Records `key -> val`, overriding any earlier entry for `key`.
    pub fn insert(&mut self, key: Vec<u8>, val: Vec<u8>)
        requires
            old(self).wf(),
        ensures
            final(self).wf(),
            final(self)@ == old(self)@.insert(key@, val@),
    {
        let ghost m0 = self@;
        let ghost kv = key@;
        let ghost vv = val@;
        let _ = self.remove(&key);
        let ghost s1 = self.entries@;
        let ghost v1 = self@;
        self.entries.push((key, val));
        proof {
            assert(self.entries@.drop_last() =~= s1);
            assert(self.entries@.last().0@ == kv && self.entries@.last().1@ == vv);
            assert(self@ == v1.insert(kv, vv));
            assert(v1.insert(kv, vv) =~= m0.insert(kv, vv));
            assert(forall|p: int| 0 <= p < s1.len() ==> (#[trigger] self.entries@[p]) == s1[p]);
        }
    }
}

} // verus!
