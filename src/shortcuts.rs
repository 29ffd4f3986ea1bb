//! The whole collection: entries keyed by index, read from and written to the
//! bytes of a `shortcuts.vdf` file, and edited one property at a time.
use vstd::prelude::*;
use crate::error::VdfError;
use crate::schema::{
    prop_info, same_kind, slot_by_switchname, slot_of_switch, spec_default, PropVal, ShortcutProp,
    PROP_COUNT,
};
use crate::shortcut::{empty_entry, enc_entry, entry_of, entry_wf, Entry, Shortcut};
use crate::text::{enc_str, parse_u32, u32_of_text, write_string};
use crate::tree::{
    consume_map, dict_tree, find_item, find_key, lemma_dict_tree, map_at, Tree, Value, VdfMap,
    VdfMapItemType, MAX_DEPTH,
};
use crate::shortcut::write_type;

verus! {

/// The key of the root map's only item.
pub open spec fn shortcuts_key() -> Seq<char> {
    seq!['s', 'h', 'o', 'r', 't', 'c', 'u', 't', 's']
}

/// Keys in strictly ascending order.
pub open spec fn sorted(s: Seq<(u32, Entry)>) -> bool {
    forall|i: int, j: int| 0 <= i < j < s.len() ==> (#[trigger] s[i]).0 < (#[trigger] s[j]).0
}

/// Where the entry with key `k` stands.
pub open spec fn key_index(s: Seq<(u32, Entry)>, k: u32) -> Option<int>
    decreases s.len(),
{
    if s.len() == 0 {
        None
    } else if s.last().0 == k {
        Some(s.len() - 1)
    } else {
        key_index(s.drop_last(), k)
    }
}

/// The entry with key `k`, if any.
pub open spec fn entry_at(s: Seq<(u32, Entry)>, k: u32) -> Option<Entry> {
    match key_index(s, k) {
        Some(i) => Some(s[i].1),
        None => None,
    }
}

/// `s` with `e` under `k`: it takes the place of an entry with that key, or
/// goes where the ascending order puts it.
pub open spec fn insert_entry(s: Seq<(u32, Entry)>, k: u32, e: Entry) -> Seq<(u32, Entry)>
    decreases s.len(),
{
    if s.len() == 0 {
        seq![(k, e)]
    } else if s.last().0 == k {
        s.drop_last().push((k, e))
    } else if s.last().0 < k {
        s.push((k, e))
    } else {
        insert_entry(s.drop_last(), k, e).push(s.last())
    }
}

/// The entries that the items of the `shortcuts` map give, in order; the
/// first failing item decides the error.
pub open spec fn entries_fold(m: Seq<(Seq<char>, Tree)>) -> Result<Seq<(u32, Entry)>, VdfError>
    decreases m.len(),
{
    if m.len() == 0 {
        Ok(Seq::empty())
    } else {
        match entries_fold(m.drop_last()) {
            Err(x) => Err(x),
            Ok(s) => match u32_of_text(m.last().0) {
                None => Err(VdfError::MalformedInput),
                Some(k) => match m.last().1 {
                    Tree::Dict(em) => match entry_of(em, k) {
                        None => Err(VdfError::TypeMismatch),
                        Some(e) => Ok(insert_entry(s, k, e)),
                    },
                    _ => Err(VdfError::MalformedInput),
                },
            },
        }
    }
}

/// The collection stored at `pos`, and the position after the root map.
pub open spec fn decode(buf: Seq<u8>, pos: int) -> Result<(Seq<(u32, Entry)>, int), VdfError> {
    match map_at(buf, pos, MAX_DEPTH as nat) {
        None => Err(VdfError::MalformedInput),
        Some((root, end)) => match find_key(root, shortcuts_key()) {
            None => Err(VdfError::MalformedInput),
            Some(i) => match root[i].1 {
                Tree::Dict(m) => match entries_fold(m) {
                    Ok(s) => Ok((s, end)),
                    Err(x) => Err(x),
                },
                _ => Err(VdfError::MalformedInput),
            },
        },
    }
}

/// The bytes of the entries, in order.
pub open spec fn enc_entries(s: Seq<(u32, Entry)>) -> Seq<u8>
    decreases s.len(),
{
    if s.len() == 0 {
        Seq::empty()
    } else {
        enc_entries(s.drop_last()) + enc_entry(s.last().0, s.last().1)
    }
}

/// The bytes of a whole file: a root map whose one item is the map of the
/// entries, closed by two end tags.
pub open spec fn encode(s: Seq<(u32, Entry)>) -> Seq<u8> {
    seq![0u8] + enc_str(shortcuts_key()) + enc_entries(s) + seq![8u8, 8u8]
}

/// The collection of entries.
#[derive(Debug)]
pub struct Shortcuts {
    /// The entries with their indices, in ascending order of index.
    pub shortcuts: Vec<(u32, Shortcut)>,
}

impl Shortcuts {
    pub open spec fn model(&self) -> Seq<(u32, Entry)> {
        self.shortcuts@.map_values(|p: (u32, Shortcut)| (p.0, p.1.model()))
    }

    pub open spec fn wf(&self) -> bool {
        &&& sorted(self.model())
        &&& forall|i: int| 0 <= i < self.model().len() ==> entry_wf(#[trigger] self.model()[i].1)
    }

    /// A collection with no entry.
    pub fn empty() -> (r: Self)
        ensures
            r.model() == Seq::<(u32, Entry)>::empty(),
            r.wf(),
    {
        let r = Self { shortcuts: Vec::new() };
        assert(r.model() =~= Seq::<(u32, Entry)>::empty());
        r
    }

    /// How many entries there are.
    pub fn len(&self) -> (r: usize)
        ensures
            r == self.model().len(),
    {
        self.shortcuts.len()
    }

    /// Where the entry with index `index` stands in the storage.
    pub fn position(&self, index: u32) -> (r: Option<usize>)
        ensures
            r matches Some(p) ==> key_index(self.model(), index) == Some(p as int) && p
                < self.model().len(),
            r is None ==> key_index(self.model(), index) is None,
    {
        let ghost s = self.model();
        let mut i: usize = self.shortcuts.len();
        assert(s.subrange(0, i as int) =~= s);
        while i > 0
            invariant
                s == self.model(),
                i <= s.len(),
                key_index(s, index) == key_index(s.subrange(0, i as int), index),
            decreases i,
        {
            assert(s.subrange(0, i as int).drop_last() =~= s.subrange(0, i - 1));
            if self.shortcuts[i - 1].0 == index {
                return Some(i - 1);
            }
            i -= 1;
        }
        None
    }

    /// The entry with index `index`, if any.
    pub fn at(&self, index: &u32) -> (r: Option<&Shortcut>)
        ensures
            match entry_at(self.model(), *index) {
                Some(e) => r matches Some(sc) && sc.model() == e,
                None => r is None,
            },
    {
        match self.position(*index) {
            Some(p) => {
                assert(self.model()[p as int].1 == self.shortcuts@[p as int].1.model());
                Some(&self.shortcuts[p].1)
            },
            None => None,
        }
    }

    /// Puts `sc` under `index` (see `insert_entry`).
    pub fn insert(&mut self, index: u32, sc: Shortcut)
        requires
            old(self).wf(),
            sc.wf(),
        ensures
            final(self).model() == insert_entry(old(self).model(), index, sc.model()),
            final(self).wf(),
    {
        let ghost s = self.model();
        let ghost e = sc.model();
        let n = self.shortcuts.len();
        let mut i: usize = n;
        assert(s.subrange(0, i as int) =~= s);
        assert(s.subrange(i as int, n as int) =~= Seq::<(u32, Entry)>::empty());
        while i > 0
            invariant_except_break
                forall|j: int| i <= j < n ==> (#[trigger] s[j]).0 > index,
            invariant
                s == self.model(),
                n == s.len(),
                i <= n,
                insert_entry(s, index, e) == insert_entry(s.subrange(0, i as int), index, e)
                    + s.subrange(i as int, n as int),
            ensures
                forall|j: int| i <= j < n ==> (#[trigger] s[j]).0 > index,
                i > 0 ==> s[i - 1].0 <= index,
            decreases i,
        {
            if self.shortcuts[i - 1].0 <= index {
                break ;
            }
            proof {
                lemma_insert_step(s, index, e, i as int);
            }
            i -= 1;
        }
        proof {
            lemma_insert_at(s, index, e, i as int);
        }
        if i > 0 && self.shortcuts[i - 1].0 == index {
            self.shortcuts.set(i - 1, (index, sc));
            assert(self.model() =~= s.update(i - 1, (index, e)));
        } else {
            self.shortcuts.insert(i, (index, sc));
            assert(self.model() =~= s.insert(i as int, (index, e)));
        }
    }
}

/// The entry that an edit of index `k` starts from: the one there, or an empty
/// one.
pub open spec fn base_entry(s: Seq<(u32, Entry)>, k: u32) -> Entry {
    match entry_at(s, k) {
        Some(e) => e,
        None => empty_entry(),
    }
}

/// The list of strings that serde_json reads from `text`; `None` where it
/// fails.
pub uninterp spec fn strings_of_json(text: Seq<char>) -> Option<Seq<Seq<char>>>;

/// Relies on serde_json::from_str::<Vec<String>>: whether it reads a list of
/// strings, and which, depends on the text alone.
#[verifier::external_body]
fn json_to_strings(text: &str) -> (r: Option<Vec<String>>)
    ensures
        match strings_of_json(text@) {
            Some(l) => r matches Some(v) && v.deep_view() == l,
            None => r is None,
        },
{
    serde_json::from_str::<Vec<String>>(text).ok()
}

/// The value that the text of an edit gives a property of `kind`'s kind: a
/// decimal `u32`, the text itself, or a JSON array of strings.
pub open spec fn prop_of_text(kind: PropVal, text: Seq<char>) -> Option<PropVal> {
    match kind {
        PropVal::UInt32(_) => match u32_of_text(text) {
            Some(n) => Some(PropVal::UInt32(n)),
            None => None,
        },
        PropVal::Text(_) => Some(PropVal::Text(text)),
        PropVal::List(_) => match strings_of_json(text) {
            Some(l) => Some(PropVal::List(l)),
            None => None,
        },
    }
}

/// Reads the text of an edit as a value of `kind`'s kind (see `prop_of_text`).
pub fn parse_prop(kind: &ShortcutProp, text: &str) -> (r: Option<ShortcutProp>)
    ensures
        match prop_of_text(kind.model(), text@) {
            Some(v) => r matches Some(x) && x.model() == v,
            None => r is None,
        },
{
    match kind {
        ShortcutProp::UInt32(_) => match parse_u32(text) {
            Some(n) => Some(ShortcutProp::UInt32(n)),
            None => None,
        },
        ShortcutProp::String(_) => Some(ShortcutProp::String(text.to_owned())),
        ShortcutProp::Strings(_) => match json_to_strings(text) {
            Some(l) => Some(ShortcutProp::Strings(l)),
            None => None,
        },
    }
}

proof fn lemma_entries_fail_on(m: Seq<(Seq<char>, Tree)>, k: int, x: VdfError)
    requires
        0 <= k <= m.len(),
        entries_fold(m.subrange(0, k)) == Err::<Seq<(u32, Entry)>, VdfError>(x),
    ensures
        entries_fold(m) == Err::<Seq<(u32, Entry)>, VdfError>(x),
    decreases m.len() - k,
{
    if k == m.len() {
        assert(m.subrange(0, k) =~= m);
    } else {
        assert(m.drop_last().subrange(0, k) =~= m.subrange(0, k));
        lemma_entries_fail_on(m.drop_last(), k, x);
    }
}

proof fn lemma_insert_existing(s: Seq<(u32, Entry)>, k: u32, e: Entry, p: int)
    requires
        sorted(s),
        key_index(s, k) == Some(p),
        0 <= p < s.len(),
    ensures
        insert_entry(s, k, e) == s.update(p, (k, e)),
        s[p].0 == k,
    decreases s.len(),
{
    if s.last().0 == k {
        assert(s.drop_last().push((k, e)) =~= s.update(p, (k, e)));
    } else {
        lemma_key_index_range(s.drop_last(), k);
        lemma_insert_existing(s.drop_last(), k, e, p);
        assert(s[p].0 == k);
        assert(s.last().0 > k);
        assert(s.drop_last().update(p, (k, e)).push(s.last()) =~= s.update(p, (k, e)));
    }
}

proof fn lemma_key_index_range(s: Seq<(u32, Entry)>, k: u32)
    ensures
        key_index(s, k) matches Some(p) ==> 0 <= p < s.len() && s[p].0 == k,
    decreases s.len(),
{
    if s.len() > 0 && s.last().0 != k {
        lemma_key_index_range(s.drop_last(), k);
    }
}

impl Shortcuts {
    /// The collection that the items of a decoded `shortcuts` map give (see
    /// `entries_fold`): each key must be an index and each value a map.
    pub fn from_dict(map: &VdfMap) -> (r: Result<Shortcuts, VdfError>)
        ensures
            match entries_fold(dict_tree(map@)) {
                Ok(s) => r matches Ok(x) && x.model() == s && x.wf(),
                Err(e) => r == Err::<Shortcuts, VdfError>(e),
            },
    {
        let ghost m = dict_tree(map@);
        let mut scs = Shortcuts::empty();
        let mut i: usize = 0;
        assert(m.subrange(0, 0) =~= Seq::<(Seq<char>, Tree)>::empty());
        while i < map.len()
            invariant
                m == dict_tree(map@),
                i <= map@.len(),
                entries_fold(m.subrange(0, i as int)) == Ok::<Seq<(u32, Entry)>, VdfError>(scs.model()),
                scs.wf(),
            decreases map@.len() - i,
        {
            assert(m.subrange(0, i + 1).drop_last() =~= m.subrange(0, i as int));
            assert(m.subrange(0, i + 1).last() == m[i as int]);
            let index = match parse_u32(map[i].0.as_str()) {
                Some(n) => n,
                None => {
                    proof {
                        lemma_entries_fail_on(m, i + 1, VdfError::MalformedInput);
                    }
                    return Err(VdfError::MalformedInput);
                },
            };
            let sc = match &map[i].1 {
                Value::Dict(em) => {
                    proof {
                        lemma_dict_tree(*em);
                    }
                    match Shortcut::from_vdf(index, em) {
                        Ok(sc) => sc,
                        Err(e) => {
                            proof {
                                lemma_entries_fail_on(m, i + 1, e);
                            }
                            return Err(e);
                        },
                    }
                },
                _ => {
                    proof {
                        lemma_entries_fail_on(m, i + 1, VdfError::MalformedInput);
                    }
                    return Err(VdfError::MalformedInput);
                },
            };
            scs.insert(index, sc);
            i += 1;
        }
        assert(m.subrange(0, i as int) =~= m);
        Ok(scs)
    }

    /// Reads the collection stored at `*index` (see `decode`) and steps past
    /// the root map.
    pub fn from(buffer: &[u8], index: &mut usize) -> (r: Result<Self, VdfError>)
        ensures
            match decode(buffer@, *old(index) as int) {
                Ok((s, end)) => r matches Ok(x) && x.model() == s && x.wf() && *final(index)
                    == end,
                Err(e) => r == Err::<Shortcuts, VdfError>(e),
            },
    {
        let root = match consume_map(buffer, index, MAX_DEPTH) {
            Ok(m) => m,
            Err(e) => return Err(e),
        };
        proof {
            reveal_strlit("shortcuts");
        }
        let key = "shortcuts".to_owned();
        assert(key@ =~= shortcuts_key());
        match find_item(&root, &key) {
            None => Err(VdfError::MalformedInput),
            Some(p) => {
                assert(dict_tree(root@)[p as int].1 == root@[p as int].1.tree());
                match &root[p].1 {
                    Value::Dict(m) => {
                        proof {
                            lemma_dict_tree(*m);
                        }
                        Shortcuts::from_dict(m)
                    },
                    _ => Err(VdfError::MalformedInput),
                }
            },
        }
    }

    /// Appends the bytes of the whole collection (see `encode`).
    pub fn store_into(&self, out: &mut Vec<u8>)
        requires
            self.wf(),
        ensures
            final(out)@ == old(out)@ + encode(self.model()),
    {
        let ghost start = out@;
        let ghost s = self.model();
        write_type(out, VdfMapItemType::MapStart);
        proof {
            reveal_strlit("shortcuts");
        }
        assert("shortcuts"@ =~= shortcuts_key());
        write_string(out, "shortcuts");
        let ghost head = out@;
        let mut i: usize = 0;
        while i < self.shortcuts.len()
            invariant
                s == self.model(),
                self.wf(),
                i <= s.len(),
                out@ == head + enc_entries(s.subrange(0, i as int)),
            decreases s.len() - i,
        {
            let ghost before = out@;
            assert(s[i as int] == (self.shortcuts@[i as int].0, self.shortcuts@[i as int].1.model()));
            assert(entry_wf(s[i as int].1));
            self.shortcuts[i].1.write_into(self.shortcuts[i].0, out);
            assert(s.subrange(0, i + 1).drop_last() =~= s.subrange(0, i as int));
            i += 1;
            assert(out@ =~= head + enc_entries(s.subrange(0, i as int)));
        }
        write_type(out, VdfMapItemType::MapEnd);
        write_type(out, VdfMapItemType::MapEnd);
        assert(s.subrange(0, i as int) =~= s);
        assert(out@ =~= start + encode(s));
    }

    /// Makes sure that an entry stands under `index`, adding an empty one if
    /// none does; tells whether it added one.
    pub fn at_or_new(&mut self, index: &u32) -> (new: bool)
        requires
            old(self).wf(),
        ensures
            new == (entry_at(old(self).model(), *index) is None),
            final(self).model() == if new {
                insert_entry(old(self).model(), *index, empty_entry())
            } else {
                old(self).model()
            },
            final(self).wf(),
    {
        match self.position(*index) {
            Some(_) => false,
            None => {
                self.insert(*index, Shortcut::empty());
                true
            },
        }
    }

    /// Stores `value` at place `slot` of the entry with index `index`, which is
    /// added if absent; tells whether it was added.
    pub fn set_prop(&mut self, index: u32, slot: usize, value: ShortcutProp) -> (new: bool)
        requires
            old(self).wf(),
            slot < PROP_COUNT,
            same_kind(value.model(), spec_default(slot as int)),
        ensures
            new == (entry_at(old(self).model(), index) is None),
            final(self).model() == insert_entry(
                old(self).model(),
                index,
                base_entry(old(self).model(), index).update(slot as int, Some(value.model())),
            ),
            final(self).wf(),
    {
        let ghost s = self.model();
        let ghost v = value.model();
        match self.position(index) {
            Some(p) => {
                let ghost e = s[p as int].1;
                proof {
                    lemma_insert_existing(s, index, e.update(slot as int, Some(v)), p as int);
                }
                let (k, mut sc) = self.shortcuts.remove(p);
                sc.props.set(slot, Some(value));
                assert(sc.model() =~= e.update(slot as int, Some(v)));
                self.shortcuts.insert(p, (k, sc));
                assert(self.model() =~= s.update(p as int, (index, e.update(slot as int, Some(v)))));
                false
            },
            None => {
                let mut sc = Shortcut::empty();
                sc.props.set(slot, Some(value));
                assert(sc.model() =~= empty_entry().update(slot as int, Some(v)));
                self.insert(index, sc);
                true
            },
        }
    }

    /// Sets the property with switch name `key` of the entry with index
    /// `index` from the text of an edit, adding the entry if absent. The text
    /// is read as the property's kind, which every value held at that place
    /// has (see `prop_of_text`). Tells whether the entry was added; on an
    /// error nothing changes.
    pub fn set_field(&mut self, index: &u32, key: &str, text: &str) -> (r: Result<bool, VdfError>)
        requires
            old(self).wf(),
        ensures
            final(self).wf(),
            match slot_of_switch(key@) {
                None => r == Err::<bool, VdfError>(VdfError::UnknownSchemaKey) && final(self).model()
                    == old(self).model(),
                Some(j) => match prop_of_text(spec_default(j), text@) {
                    None => r == Err::<bool, VdfError>(VdfError::TypeMismatch) && final(self).model()
                        == old(self).model(),
                    Some(v) => r == Ok::<bool, VdfError>(entry_at(old(self).model(), *index) is None)
                        && final(self).model() == insert_entry(
                        old(self).model(),
                        *index,
                        base_entry(old(self).model(), *index).update(j, Some(v)),
                    ),
                },
            },
    {
        let slot = match slot_by_switchname(key) {
            Some(s) => s,
            None => return Err(VdfError::UnknownSchemaKey),
        };
        let info = prop_info(slot);
        let value = match parse_prop(&info.type_default, text) {
            Some(v) => v,
            None => return Err(VdfError::TypeMismatch),
        };
        Ok(self.set_prop(*index, slot, value))
    }

    /// A cursor over the entries in ascending order of index.
    pub fn iter(&self) -> (r: ShortcutIter<'_>)
        ensures
            r.shortcuts == self,
            r.index == 0,
    {
        ShortcutIter { shortcuts: self, index: 0 }
    }
}

/// A cursor over the entries of a collection, in ascending order of index.
pub struct ShortcutIter<'a> {
    pub shortcuts: &'a Shortcuts,
    /// The position of the next entry.
    pub index: usize,
}

impl<'a> ShortcutIter<'a> {
    /// The next entry, if any.
    pub fn next(&mut self) -> (r: Option<&'a Shortcut>)
        ensures
            final(self).shortcuts == old(self).shortcuts,
            old(self).index < old(self).shortcuts.model().len() ==> (r matches Some(sc)
                && sc.model() == old(self).shortcuts.model()[old(self).index as int].1
                && final(self).index == old(self).index + 1),
            old(self).index >= old(self).shortcuts.model().len() ==> r is None && final(self).index
                == old(self).index,
    {
        if self.index >= self.shortcuts.len() {
            return None;
        }
        let act = self.index;
        self.index = act + 1;
        assert(self.shortcuts.model()[act as int].1 == self.shortcuts.shortcuts@[act as int].1.model());
        Some(&self.shortcuts.shortcuts[act].1)
    }
}

proof fn lemma_insert_step(s: Seq<(u32, Entry)>, k: u32, e: Entry, i: int)
    requires
        0 < i <= s.len(),
        s[i - 1].0 > k,
        insert_entry(s, k, e) == insert_entry(s.subrange(0, i), k, e) + s.subrange(i, s.len() as int),
    ensures
        insert_entry(s, k, e) == insert_entry(s.subrange(0, i - 1), k, e) + s.subrange(i - 1, s.len() as int),
{
    let sub = s.subrange(0, i);
    assert(sub.drop_last() =~= s.subrange(0, i - 1));
    assert(insert_entry(sub, k, e) == insert_entry(s.subrange(0, i - 1), k, e).push(s[i - 1]));
    assert(insert_entry(s.subrange(0, i - 1), k, e).push(s[i - 1]) + s.subrange(i, s.len() as int)
        =~= insert_entry(s.subrange(0, i - 1), k, e) + s.subrange(i - 1, s.len() as int));
}

proof fn lemma_insert_at(s: Seq<(u32, Entry)>, k: u32, e: Entry, i: int)
    requires
        0 <= i <= s.len(),
        forall|j: int| i <= j < s.len() ==> (#[trigger] s[j]).0 > k,
        i > 0 ==> s[i - 1].0 <= k,
        insert_entry(s, k, e) == insert_entry(s.subrange(0, i), k, e) + s.subrange(i, s.len() as int),
    ensures
        i > 0 && s[i - 1].0 == k ==> insert_entry(s, k, e) == s.update(i - 1, (k, e)),
        !(i > 0 && s[i - 1].0 == k) ==> insert_entry(s, k, e) == s.insert(i, (k, e)),
{
    let sub = s.subrange(0, i);
    let rest = s.subrange(i, s.len() as int);
    if i == 0 {
        assert(insert_entry(s, k, e) =~= s.insert(i, (k, e)));
    } else if s[i - 1].0 == k {
        assert(sub.drop_last() =~= s.subrange(0, i - 1));
        assert(insert_entry(s, k, e) =~= s.update(i - 1, (k, e)));
    } else {
        assert(insert_entry(s, k, e) =~= s.insert(i, (k, e)));
    }
}

} // verus!
