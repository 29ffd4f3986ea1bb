//! The generic tree of the format: maps of strings, integers and nested maps,
//! and its recursive-descent reader.
use vstd::prelude::*;
use crate::cursor::{byte_at, consume_byte, consume_u32, u32_at};
use crate::error::VdfError;
use crate::text::{ascii_lower, consume_string, fold_case, lemma_str_advances, str_at};

verus! {

/// The maximal nesting of maps below the root; the format itself uses three.
pub const MAX_DEPTH: usize = 8;

/// A decoded node, as a mathematical value.
pub enum Tree {
    Str(Seq<char>),
    U32(u32),
    Dict(Seq<(Seq<char>, Tree)>),
}

/// A decoded node.
#[derive(Debug)]
pub enum Value {
    String(String),
    UInt32(u32),
    Dict(VdfMap),
}

/// The items of a map, in the order of their first appearance, keys unique.
pub type VdfMap = Vec<(String, Value)>;

impl Value {
    pub open spec fn tree(&self) -> Tree
        decreases self,
    {
        match self {
            Value::String(s) => Tree::Str(s@),
            Value::UInt32(n) => Tree::U32(*n),
            Value::Dict(m) => Tree::Dict(
                Seq::new(
                    m@.len(),
                    |i: int|
                        if 0 <= i < m@.len() {
                            (m@[i].0@, m@[i].1.tree())
                        } else {
                            (Seq::empty(), Tree::U32(0))
                        },
                ),
            ),
        }
    }
}

/// The items of a map as mathematical values.
pub open spec fn dict_tree(m: Seq<(String, Value)>) -> Seq<(Seq<char>, Tree)> {
    Seq::new(m.len(), |i: int| (m[i].0@, m[i].1.tree()))
}

pub proof fn lemma_dict_tree(m: VdfMap)
    ensures
        Value::Dict(m).tree() == Tree::Dict(dict_tree(m@)),
{
    assert(Value::Dict(m).tree()->Dict_0 =~= dict_tree(m@));
}

/// Where `k` stands among the keys of `m`.
pub open spec fn find_key<V>(m: Seq<(Seq<char>, V)>, k: Seq<char>) -> Option<int>
    decreases m.len(),
{
    if m.len() == 0 {
        None
    } else if m.last().0 == k {
        Some(m.len() - 1)
    } else {
        find_key(m.drop_last(), k)
    }
}

/// `m` with `k` bound to `v`: a known key keeps its place, a new one goes last.
pub open spec fn dict_insert<V>(m: Seq<(Seq<char>, V)>, k: Seq<char>, v: V) -> Seq<
    (Seq<char>, V),
> {
    match find_key(m, k) {
        Some(i) => m.update(i, (k, v)),
        None => m.push((k, v)),
    }
}

/// What one step of a map's reader found.
pub enum ItemRead {
    Item(Seq<char>, Tree),
    End,
}

/// The item that starts at `pos` and the position after it; `None` where the
/// bytes break the format. `depth` is how many more maps may nest inside.
pub open spec fn item_at(buf: Seq<u8>, pos: int, depth: nat) -> Option<(ItemRead, int)>
    decreases depth, 0int, 0int,
{
    match byte_at(buf, pos) {
        None => None,
        Some(t) => if t == 8 {
            Some((ItemRead::End, pos + 1))
        } else if t != 0 && t != 1 && t != 2 {
            None
        } else {
            match str_at(buf, pos + 1, false) {
                None => None,
                Some((key, p)) => if t == 0 {
                    if depth == 0 {
                        None
                    } else {
                        match map_from(buf, p, (depth - 1) as nat, Seq::empty()) {
                            Some((m, e)) => Some((ItemRead::Item(key, Tree::Dict(m)), e)),
                            None => None,
                        }
                    }
                } else if t == 1 {
                    match str_at(buf, p, false) {
                        Some((s, e)) => Some((ItemRead::Item(key, Tree::Str(s)), e)),
                        None => None,
                    }
                } else {
                    match u32_at(buf, p) {
                        Some((n, e)) => Some((ItemRead::Item(key, Tree::U32(n)), e)),
                        None => None,
                    }
                },
            }
        },
    }
}

/// The map whose items start at `pos`, added to `acc`, and the position after
/// its end tag; `None` where the bytes break the format or end before it. An
/// item always ends after it starts and within the buffer (see
/// `lemma_item_advances`); the test of that here bounds the recursion.
pub open spec fn map_from(buf: Seq<u8>, pos: int, depth: nat, acc: Seq<(Seq<char>, Tree)>) -> Option<
    (Seq<(Seq<char>, Tree)>, int),
>
    decreases depth, 1int, buf.len() - pos,
{
    if pos < 0 || pos >= buf.len() {
        None
    } else {
        match item_at(buf, pos, depth) {
            None => None,
            Some((ItemRead::End, e)) => Some((acc, e)),
            Some((ItemRead::Item(k, v), e)) => if e <= pos || e > buf.len() {
                None
            } else {
                map_from(buf, e, depth, dict_insert(acc, ascii_lower(k), v))
            },
        }
    }
}

/// An item read ends within the buffer, after where it started.
pub proof fn lemma_item_advances(buf: Seq<u8>, pos: int, depth: nat)
    requires
        0 <= pos,
    ensures
        item_at(buf, pos, depth) matches Some((_, e)) ==> pos < e <= buf.len(),
    decreases depth, 0int, 0int,
{
    if pos < buf.len() {
        lemma_str_advances(buf, pos + 1, false);
        if let Some((_, p)) = str_at(buf, pos + 1, false) {
            lemma_str_advances(buf, p, false);
            if depth > 0 {
                lemma_map_advances(buf, p, (depth - 1) as nat, Seq::empty());
            }
        }
    }
}

/// A map read ends within the buffer, after where it started.
pub proof fn lemma_map_advances(buf: Seq<u8>, pos: int, depth: nat, acc: Seq<(Seq<char>, Tree)>)
    requires
        0 <= pos,
    ensures
        map_from(buf, pos, depth, acc) matches Some((_, e)) ==> pos < e <= buf.len(),
    decreases depth, 1int, buf.len() - pos,
{
    if pos < buf.len() {
        lemma_item_advances(buf, pos, depth);
        if let Some((ItemRead::Item(k, v), e)) = item_at(buf, pos, depth) {
            if pos < e <= buf.len() {
                lemma_map_advances(buf, e, depth, dict_insert(acc, ascii_lower(k), v));
            }
        }
    }
}

/// The map that starts at `pos` (see `map_from`).
pub open spec fn map_at(buf: Seq<u8>, pos: int, depth: nat) -> Option<(Seq<(Seq<char>, Tree)>, int)> {
    map_from(buf, pos, depth, Seq::empty())
}

/// The type tag in front of each item of a map.
#[derive(Debug, Clone, Copy, PartialEq, Eq, Structural)]
pub enum VdfMapItemType {
    MapStart,
    String,
    UInt32,
    MapEnd,
}

impl VdfMapItemType {
    pub open spec fn spec_tag(&self) -> u8 {
        match self {
            VdfMapItemType::MapStart => 0,
            VdfMapItemType::String => 1,
            VdfMapItemType::UInt32 => 2,
            VdfMapItemType::MapEnd => 8,
        }
    }

    /// The byte that stands for this type.
    pub fn tag(&self) -> (b: u8)
        ensures
            b == self.spec_tag(),
    {
        match self {
            VdfMapItemType::MapStart => 0,
            VdfMapItemType::String => 1,
            VdfMapItemType::UInt32 => 2,
            VdfMapItemType::MapEnd => 8,
        }
    }

    /// The type that a byte stands for, if any.
    pub fn from_tag(u: u8) -> (r: Option<VdfMapItemType>)
        ensures
            r matches Some(t) ==> t.spec_tag() == u,
            r is None <==> (u != 0 && u != 1 && u != 2 && u != 8),
    {
        match u {
            0 => Some(VdfMapItemType::MapStart),
            1 => Some(VdfMapItemType::String),
            2 => Some(VdfMapItemType::UInt32),
            8 => Some(VdfMapItemType::MapEnd),
            _ => None,
        }
    }
}

/// Binds `key` to `value` in `map` (see `dict_insert`).
pub fn vdf_insert(map: &mut VdfMap, key: String, value: Value)
    ensures
        dict_tree(final(map)@) == dict_insert(dict_tree(old(map)@), key@, value.tree()),
{
    let ghost m = dict_tree(map@);
    let mut i: usize = map.len();
    assert(m.subrange(0, i as int) =~= m);
    while i > 0
        invariant
            i <= map@.len(),
            m == dict_tree(map@),
            m == dict_tree(old(map)@),
            find_key(m, key@) == find_key(m.subrange(0, i as int), key@),
        decreases i,
    {
        assert(m.subrange(0, i as int).drop_last() =~= m.subrange(0, i - 1));
        if map[i - 1].0 == key {
            let ghost k = key@;
            let ghost t = value.tree();
            assert(m.subrange(0, i as int).last().0 == k);
            assert(find_key(m, k) == Some(i - 1));
            map[i - 1] = (key, value);
            assert(dict_tree(map@) =~= m.update(i - 1, (k, t)));
            return ;
        }
        i -= 1;
    }
    let ghost k = key@;
    let ghost t = value.tree();
    map.push((key, value));
    assert(dict_tree(map@) =~= m.push((k, t)));
}

/// Reads one item of a map (see `item_at`): `Ok(None)` at the map's end tag.
pub fn consume_map_item(buffer: &[u8], index: &mut usize, depth: usize) -> (r: Result<
    Option<(String, Value)>,
    VdfError,
>)
    ensures
        match item_at(buffer@, *old(index) as int, depth as nat) {
            None => r == Err::<Option<(String, Value)>, VdfError>(VdfError::MalformedInput),
            Some((ItemRead::End, e)) => r matches Ok(None) && *final(index) == e,
            Some((ItemRead::Item(k, v), e)) => r matches Ok(Some((s, val))) && s@ == k
                && val.tree() == v && *final(index) == e,
        },
    decreases depth, 0usize,
{
    let btype = match consume_byte(buffer, index) {
        Some(b) => b,
        None => return Err(VdfError::MalformedInput),
    };
    let btypeinto = match VdfMapItemType::from_tag(btype) {
        Some(t) => t,
        None => return Err(VdfError::MalformedInput),
    };
    if btypeinto == VdfMapItemType::MapEnd {
        return Ok(None);
    }
    let name = match consume_string(buffer, index) {
        Some(s) => s,
        None => return Err(VdfError::MalformedInput),
    };
    match btypeinto {
        VdfMapItemType::MapStart => {
            if depth == 0 {
                return Err(VdfError::MalformedInput);
            }
            match consume_map(buffer, index, depth - 1) {
                Ok(map) => {
                    proof {
                        lemma_dict_tree(map);
                    }
                    Ok(Some((name, Value::Dict(map))))
                },
                Err(e) => Err(e),
            }
        },
        VdfMapItemType::String => match consume_string(buffer, index) {
            Some(s) => Ok(Some((name, Value::String(s)))),
            None => Err(VdfError::MalformedInput),
        },
        _ => match consume_u32(buffer, index) {
            Some(n) => Ok(Some((name, Value::UInt32(n)))),
            None => Err(VdfError::MalformedInput),
        },
    }
}

/// Reads the items of a map up to its end tag (see `map_at`); keys are folded
/// to lower case, and a repeated key keeps the last value.
pub fn consume_map(buffer: &[u8], index: &mut usize, depth: usize) -> (r: Result<VdfMap, VdfError>)
    ensures
        match map_at(buffer@, *old(index) as int, depth as nat) {
            None => r == Err::<VdfMap, VdfError>(VdfError::MalformedInput),
            Some((m, e)) => r matches Ok(map) && dict_tree(map@) == m && *final(index) == e,
        },
    decreases depth, 1usize,
{
    let ghost buf = buffer@;
    let ghost start = *index as int;
    let mut map: VdfMap = Vec::new();
    assert(dict_tree(map@) =~= Seq::empty());
    let len = buffer.len();
    loop
        invariant_except_break
            map_at(buf, start, depth as nat) == map_from(buf, *index as int, depth as nat, dict_tree(map@)),
        invariant
            buf == buffer@,
            len == buffer@.len(),
            start == *old(index),
        ensures
            map_at(buf, start, depth as nat) == Some((dict_tree(map@), *index as int)),
        decreases len - *index,
    {
        let pos = *index;
        if pos >= len {
            return Err(VdfError::MalformedInput);
        }
        match consume_map_item(buffer, index, depth) {
            Err(e) => return Err(e),
            Ok(None) => break ,
            Ok(Some((key, value))) => {
                proof {
                    lemma_item_advances(buf, pos as int, depth as nat);
                }
                let lower = fold_case(key.as_str());
                vdf_insert(&mut map, lower, value);
            },
        }
    }
    Ok(map)
}

/// Where `key` stands among the keys of `map` (see `find_key`).
pub fn find_item(map: &VdfMap, key: &String) -> (r: Option<usize>)
    ensures
        r matches Some(i) ==> find_key(dict_tree(map@), key@) == Some(i as int) && i < map@.len(),
        r is None ==> find_key(dict_tree(map@), key@) is None,
{
    let ghost m = dict_tree(map@);
    let mut i: usize = map.len();
    assert(m.subrange(0, i as int) =~= m);
    while i > 0
        invariant
            i <= map@.len(),
            m == dict_tree(map@),
            find_key(m, key@) == find_key(m.subrange(0, i as int), key@),
        decreases i,
    {
        assert(m.subrange(0, i as int).drop_last() =~= m.subrange(0, i - 1));
        if map[i - 1].0 == *key {
            return Some(i - 1);
        }
        i -= 1;
    }
    None
}

} // verus!
