//! One entry of the collection: the values of the schema's properties that it
//! holds, read from a decoded map and written back in the schema's order.
use vstd::prelude::*;
use crate::cursor::u32_le_bytes;
use crate::error::VdfError;
use crate::schema::{
    prop_info, same_kind, slot_by_name, slot_by_switchname, slot_of_name, slot_of_switch,
    spec_default, spec_wire_name, PropVal, ShortcutProp, PROP_COUNT,
};
use crate::text::{dec_str, decimal, enc_str, escape_json_string, escaped, write_string};
use crate::tree::{dict_tree, lemma_dict_tree, Tree, Value, VdfMap, VdfMapItemType};
use byteorder::{LittleEndian, WriteBytesExt};

verus! {

/// The properties of an entry by schema place; `None` where it holds none.
pub type Entry = Seq<Option<PropVal>>;

/// An entry with no property.
pub open spec fn empty_entry() -> Entry {
    Seq::new(PROP_COUNT as nat, |i: int| None)
}

/// Each place of the schema, holding nothing or a value of its kind.
pub open spec fn entry_wf(e: Entry) -> bool {
    &&& e.len() == PROP_COUNT
    &&& forall|i: int|
        0 <= i < PROP_COUNT && (#[trigger] e[i]) is Some ==> same_kind(e[i]->0, spec_default(i))
}

/// The value that counts for place `i`: the one held, or the default.
pub open spec fn effective(e: Entry, i: int) -> PropVal {
    match e[i] {
        Some(v) => v,
        None => spec_default(i),
    }
}

/// The items of a string list read from a map: its string values in order,
/// an empty string for any other value.
pub open spec fn list_items(m: Seq<(Seq<char>, Tree)>) -> Seq<Seq<char>> {
    Seq::new(
        m.len(),
        |i: int|
            match m[i].1 {
                Tree::Str(s) => s,
                _ => Seq::empty(),
            },
    )
}

/// A decoded value taken as a value of `kind`'s kind; `None` where the kinds
/// differ. A map becomes a string list.
pub open spec fn coerce(kind: PropVal, t: Tree) -> Option<PropVal> {
    match (kind, t) {
        (PropVal::UInt32(_), Tree::U32(n)) => Some(PropVal::UInt32(n)),
        (PropVal::Text(_), Tree::Str(s)) => Some(PropVal::Text(s)),
        (PropVal::List(_), Tree::Dict(m)) => Some(PropVal::List(list_items(m))),
        _ => None,
    }
}

/// The properties that the items of `m` give, in order: an unknown key is
/// passed over, a value of the wrong kind fails.
pub open spec fn entry_fold(m: Seq<(Seq<char>, Tree)>) -> Option<Entry>
    decreases m.len(),
{
    if m.len() == 0 {
        Some(empty_entry())
    } else {
        match entry_fold(m.drop_last()) {
            None => None,
            Some(e) => match slot_of_name(m.last().0) {
                None => Some(e),
                Some(j) => match coerce(spec_default(j), m.last().1) {
                    None => None,
                    Some(v) => Some(e.update(j, Some(v))),
                },
            },
        }
    }
}

/// The entry that the map `m` found under `index` gives.
pub open spec fn entry_of(m: Seq<(Seq<char>, Tree)>, index: u32) -> Option<Entry> {
    match entry_fold(m) {
        None => None,
        Some(e) => Some(e.update(0, Some(PropVal::UInt32(index)))),
    }
}

/// The type tag written in front of a value of `v`'s kind.
pub open spec fn kind_tag(v: PropVal) -> u8 {
    match v {
        PropVal::UInt32(_) => 2,
        PropVal::Text(_) => 1,
        PropVal::List(_) => 0,
    }
}

/// The items of a string list: a string item keyed by its position in
/// decimal, its text escaped.
pub open spec fn enc_list(l: Seq<Seq<char>>) -> Seq<u8>
    decreases l.len(),
{
    if l.len() == 0 {
        Seq::empty()
    } else {
        enc_list(l.drop_last()) + seq![1u8] + enc_str(dec_str((l.len() - 1) as nat)) + enc_str(
            escaped(l.last()),
        )
    }
}

/// The bytes of a value after its key.
pub open spec fn enc_value(v: PropVal) -> Seq<u8> {
    match v {
        PropVal::UInt32(n) => u32_le_bytes(n),
        PropVal::Text(s) => enc_str(s),
        PropVal::List(l) => enc_list(l).push(8u8),
    }
}

/// The bytes of the property at place `i`.
pub open spec fn enc_field(e: Entry, i: int) -> Seq<u8> {
    seq![kind_tag(spec_default(i))] + enc_str(spec_wire_name(i)) + enc_value(effective(e, i))
}

/// The bytes of the properties at places 1 up to `n - 1`.
pub open spec fn enc_fields(e: Entry, n: int) -> Seq<u8>
    decreases n,
{
    if n <= 1 {
        Seq::empty()
    } else {
        enc_fields(e, n - 1) + enc_field(e, n - 1)
    }
}

/// The bytes of an entry: a map keyed by its index in decimal, holding every
/// property but the index in the schema's order.
pub open spec fn enc_entry(index: u32, e: Entry) -> Seq<u8> {
    seq![0u8] + enc_str(dec_str(index as nat)) + enc_fields(e, PROP_COUNT as int) + seq![8u8]
}

/// The text that serde_json makes of a list of strings; `None` where it
/// fails.
pub uninterp spec fn json_of_strings(items: Seq<Seq<char>>) -> Option<Seq<char>>;

/// Relies on serde_json::to_string on a `Vec<String>`: its outcome depends on
/// the strings alone.
#[verifier::external_body]
fn strings_to_json(items: &Vec<String>) -> (r: Option<String>)
    ensures
        match json_of_strings(items.deep_view()) {
            Some(t) => r matches Some(s) && s@ == t,
            None => r is None,
        },
{
    serde_json::to_string(items).ok()
}

/// Relies on byteorder's WriteBytesExt::write_u32::<LittleEndian>, which
/// appends the four bytes of `n`, least significant first; writing to a `Vec`
/// does not fail.
#[verifier::external_body]
fn write_u32(out: &mut Vec<u8>, n: u32)
    ensures
        final(out)@ == old(out)@ + u32_le_bytes(n),
{
    let _ = out.write_u32::<LittleEndian>(n);
}

/// Appends the tag of `t`.
pub fn write_type(out: &mut Vec<u8>, t: VdfMapItemType)
    ensures
        final(out)@ == old(out)@.push(t.spec_tag()),
{
    out.push(t.tag());
}

/// The text that `prop_to_string` gives for `v`.
pub open spec fn prop_text(v: PropVal) -> Option<Seq<char>> {
    match v {
        PropVal::UInt32(n) => Some(dec_str(n as nat)),
        PropVal::Text(s) => Some(s),
        PropVal::List(l) => json_of_strings(l),
    }
}

proof fn lemma_fold_fails_on(m: Seq<(Seq<char>, Tree)>, k: int)
    requires
        0 <= k <= m.len(),
        entry_fold(m.subrange(0, k)) is None,
    ensures
        entry_fold(m) is None,
    decreases m.len() - k,
{
    if k == m.len() {
        assert(m.subrange(0, k) =~= m);
    } else {
        assert(m.drop_last().subrange(0, k) =~= m.subrange(0, k));
        lemma_fold_fails_on(m.drop_last(), k);
    }
}

/// The items of a string list read from a map (see `list_items`).
pub fn strings_from_dict(map: &VdfMap) -> (r: Vec<String>)
    ensures
        r.deep_view() == list_items(dict_tree(map@)),
{
    let mut r: Vec<String> = Vec::new();
    let mut i: usize = 0;
    while i < map.len()
        invariant
            i <= map@.len(),
            r.deep_view() == list_items(dict_tree(map@)).subrange(0, i as int),
        decreases map@.len() - i,
    {
        let item = match &map[i].1 {
            Value::String(s) => s.clone(),
            _ => String::new(),
        };
        assert(dict_tree(map@)[i as int].1 == map@[i as int].1.tree());
        assert(item@ == list_items(dict_tree(map@))[i as int]);
        let ghost before = r.deep_view();
        r.push(item);
        assert(r.deep_view() =~= before.push(item@));
        i += 1;
        assert(r.deep_view() =~= list_items(dict_tree(map@)).subrange(0, i as int));
    }
    assert(list_items(dict_tree(map@)).subrange(0, i as int) =~= list_items(dict_tree(map@)));
    r
}

/// A decoded value taken as a value of `kind`'s kind (see `coerce`).
pub fn prop_from_value(kind: &ShortcutProp, value: &Value) -> (r: Option<ShortcutProp>)
    ensures
        match coerce(kind.model(), value.tree()) {
            Some(p) => r matches Some(x) && x.model() == p,
            None => r is None,
        },
{
    match (kind, value) {
        (ShortcutProp::UInt32(_), Value::UInt32(n)) => Some(ShortcutProp::UInt32(*n)),
        (ShortcutProp::String(_), Value::String(s)) => Some(ShortcutProp::String(s.clone())),
        (ShortcutProp::Strings(_), Value::Dict(m)) => {
            proof {
                lemma_dict_tree(*m);
            }
            Some(ShortcutProp::Strings(strings_from_dict(m)))
        },
        _ => None,
    }
}

/// Appends the items of a string list and the tag that closes it.
pub fn write_list(out: &mut Vec<u8>, arr: &Vec<String>)
    ensures
        final(out)@ == old(out)@ + enc_list(arr.deep_view()).push(8u8),
{
    let ghost start = out@;
    let ghost l = arr.deep_view();
    let mut n: usize = 0;
    while n < arr.len()
        invariant
            l == arr.deep_view(),
            n <= arr@.len(),
            out@ == start + enc_list(l.subrange(0, n as int)),
        decreases arr@.len() - n,
    {
        let ghost before = out@;
        write_type(out, VdfMapItemType::String);
        let key = decimal(n as u64);
        write_string(out, key.as_str());
        let item = escape_json_string(arr[n].as_str());
        write_string(out, item.as_str());
        proof {
            let sub = l.subrange(0, n + 1);
            assert(sub.drop_last() =~= l.subrange(0, n as int));
            assert(sub.last() == l[n as int]);
            assert(out@ =~= start + enc_list(sub));
        }
        n += 1;
    }
    write_type(out, VdfMapItemType::MapEnd);
    assert(l.subrange(0, n as int) =~= l);
    assert(out@ =~= start + enc_list(l).push(8u8));
}

/// One entry.
#[derive(Debug)]
pub struct Shortcut {
    /// The value held at each place of the schema.
    pub props: Vec<Option<ShortcutProp>>,
}

impl Shortcut {
    pub open spec fn model(&self) -> Entry {
        self.props@.map_values(
            |p: Option<ShortcutProp>|
                match p {
                    Some(v) => Some(v.model()),
                    None => None,
                },
        )
    }

    pub open spec fn wf(&self) -> bool {
        entry_wf(self.model())
    }

    /// An entry that holds no property.
    pub fn empty() -> (r: Self)
        ensures
            r.model() == empty_entry(),
            r.wf(),
    {
        let mut props: Vec<Option<ShortcutProp>> = Vec::new();
        let mut i: usize = 0;
        while i < PROP_COUNT
            invariant
                i <= PROP_COUNT,
                props@.len() == i,
                forall|j: int| 0 <= j < i ==> props@[j] is None,
            decreases PROP_COUNT - i,
        {
            props.push(None);
            i += 1;
        }
        let r = Self { props };
        assert(r.model() =~= empty_entry());
        r
    }

    /// The value of the property with switch name `key`, if the entry holds
    /// one.
    pub fn prop(&self, key: &str) -> (r: Option<&ShortcutProp>)
        requires
            self.wf(),
        ensures
            match slot_of_switch(key@) {
                Some(i) => match self.model()[i] {
                    Some(v) => r matches Some(p) && p.model() == v,
                    None => r is None,
                },
                None => r is None,
            },
    {
        match slot_by_switchname(key) {
            Some(i) => {
                assert(self.model()[i as int] == match self.props@[i as int] {
                    Some(v) => Some(v.model()),
                    None => None,
                });
                match &self.props[i] {
                    Some(p) => Some(p),
                    None => None,
                }
            },
            None => None,
        }
    }

    /// The value of the property with switch name `key` as text: an integer in
    /// decimal, a string as it is, a string list as JSON.
    pub fn prop_to_string(&self, key: &str) -> (r: Option<String>)
        requires
            self.wf(),
        ensures
            match slot_of_switch(key@) {
                Some(i) => match self.model()[i] {
                    Some(v) => match prop_text(v) {
                        Some(t) => r matches Some(s) && s@ == t,
                        None => r is None,
                    },
                    None => r is None,
                },
                None => r is None,
            },
    {
        match self.prop(key) {
            Some(ShortcutProp::UInt32(n)) => Some(decimal(*n as u64)),
            Some(ShortcutProp::String(s)) => Some(s.clone()),
            Some(ShortcutProp::Strings(l)) => strings_to_json(l),
            None => None,
        }
    }

    /// The value of the property with switch name `key`, where it is an
    /// integer that the entry holds.
    pub fn prop_to_u32(&self, key: &str) -> (r: Option<u32>)
        requires
            self.wf(),
        ensures
            r == match slot_of_switch(key@) {
                Some(i) => match self.model()[i] {
                    Some(PropVal::UInt32(n)) => Some(n),
                    _ => None,
                },
                None => None,
            },
    {
        match self.prop(key) {
            Some(ShortcutProp::UInt32(n)) => Some(*n),
            _ => None,
        }
    }
}

impl Shortcut {
    /// The entry that a decoded map gives under `index` (see `entry_of`):
    /// unknown keys are passed over, and a known property of the wrong kind
    /// fails with `TypeMismatch`.
    pub fn from_vdf(index: u32, map: &VdfMap) -> (r: Result<Shortcut, VdfError>)
        ensures
            match entry_of(dict_tree(map@), index) {
                Some(e) => r matches Ok(sc) && sc.model() == e && sc.wf(),
                None => r == Err::<Shortcut, VdfError>(VdfError::TypeMismatch),
            },
    {
        let ghost m = dict_tree(map@);
        let mut sc = Shortcut::empty();
        let mut i: usize = 0;
        assert(m.subrange(0, 0) =~= Seq::<(Seq<char>, Tree)>::empty());
        while i < map.len()
            invariant
                m == dict_tree(map@),
                i <= map@.len(),
                entry_fold(m.subrange(0, i as int)) == Some(sc.model()),
                sc.wf(),
            decreases map@.len() - i,
        {
            assert(m.subrange(0, i + 1).drop_last() =~= m.subrange(0, i as int));
            assert(m.subrange(0, i + 1).last() == m[i as int]);
            let key = &map[i].0;
            let value = &map[i].1;
            match slot_by_name(key) {
                None => {},
                Some(j) => {
                    let info = prop_info(j);
                    match prop_from_value(&info.type_default, value) {
                        None => {
                            proof {
                                lemma_fold_fails_on(m, i + 1);
                            }
                            return Err(VdfError::TypeMismatch);
                        },
                        Some(v) => {
                            let ghost before = sc.model();
                            sc.props.set(j, Some(v));
                            assert(sc.model() =~= before.update(j as int, Some(v.model())));
                        },
                    }
                },
            }
            i += 1;
        }
        assert(m.subrange(0, i as int) =~= m);
        let ghost before = sc.model();
        sc.props.set(0, Some(ShortcutProp::UInt32(index)));
        assert(sc.model() =~= before.update(0, Some(PropVal::UInt32(index))));
        Ok(sc)
    }

    /// Appends the bytes of this entry under `index` (see `enc_entry`).
    pub fn write_into(&self, index: u32, out: &mut Vec<u8>)
        requires
            self.wf(),
        ensures
            final(out)@ == old(out)@ + enc_entry(index, self.model()),
    {
        let ghost start = out@;
        let ghost e = self.model();
        write_type(out, VdfMapItemType::MapStart);
        let key = decimal(index as u64);
        write_string(out, key.as_str());
        let ghost head = out@;
        let mut i: usize = 1;
        while i < PROP_COUNT
            invariant
                e == self.model(),
                self.wf(),
                1 <= i <= PROP_COUNT,
                out@ == head + enc_fields(e, i as int),
            decreases PROP_COUNT - i,
        {
            let ghost before = out@;
            let info = prop_info(i);
            assert(e[i as int] == match self.props@[i as int] {
                Some(v) => Some(v.model()),
                None => None,
            });
            match &info.type_default {
                ShortcutProp::UInt32(def) => {
                    write_type(out, VdfMapItemType::UInt32);
                    write_string(out, info.pascalcase);
                    let n = match &self.props[i] {
                        Some(ShortcutProp::UInt32(n)) => *n,
                        _ => *def,
                    };
                    write_u32(out, n);
                },
                ShortcutProp::String(def) => {
                    write_type(out, VdfMapItemType::String);
                    write_string(out, info.pascalcase);
                    match &self.props[i] {
                        Some(ShortcutProp::String(s)) => write_string(out, s.as_str()),
                        _ => write_string(out, def.as_str()),
                    }
                },
                ShortcutProp::Strings(def) => {
                    write_type(out, VdfMapItemType::MapStart);
                    write_string(out, info.pascalcase);
                    match &self.props[i] {
                        Some(ShortcutProp::Strings(arr)) => write_list(out, arr),
                        _ => write_list(out, def),
                    }
                },
            }
            assert(out@ =~= before + enc_field(e, i as int));
            i += 1;
        }
        write_type(out, VdfMapItemType::MapEnd);
        assert(out@ =~= start + enc_entry(index, e));
    }
}

} // verus!
