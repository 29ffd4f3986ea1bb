//! What holds of the reader and the writer together.
use vstd::prelude::*;
use crate::cursor::byte_at;
use crate::error::VdfError;
use crate::lemmas::{holds_at, lemma_holds_split, lemma_holds_byte, lemma_str_round_trip, no_nul};
use crate::reread::{
    canonical, canonical_all, collection_ok, entries_tree, entry_ok, lemma_dict_item,
    lemma_entries_fold, lemma_entries_map, lemma_map_end, lemma_map_step, value_ok,
};
use crate::schema::{slot_of_name, spec_default, spec_wire_name, PropVal, PROP_COUNT};
use crate::shortcut::{
    effective, enc_field, enc_fields, enc_value, entry_fold, entry_of,
    kind_tag, Entry,
};
use crate::shortcuts::{decode, enc_entries, encode, shortcuts_key, Shortcuts};
use crate::text::{ascii_lower, enc_str, str_at};
use crate::tree::{dict_insert, find_key, item_at, map_at, map_from, Tree, MAX_DEPTH};

verus! {

/// The values of a collection can be written and read back: strings hold no
/// NUL, and list items no backslash or double quote either, which the writer
/// escapes and the reader keeps.
pub open spec fn texts_ok(s: Seq<(u32, Entry)>) -> bool {
    forall|i: int, j: int|
        0 <= i < s.len() && 1 <= j < PROP_COUNT ==> value_ok(#[trigger] effective(s[i].1, j))
}

proof fn lemma_collection_ok(x: Shortcuts)
    requires
        x.wf(),
        texts_ok(x.model()),
    ensures
        collection_ok(x.model()),
{
    let s = x.model();
    assert forall|i: int| 0 <= i < s.len() implies entry_ok(#[trigger] s[i].1) by {
        assert forall|j: int| 1 <= j < PROP_COUNT implies value_ok(#[trigger] effective(s[i].1, j)) by {
            assert(value_ok(effective(s[i].1, j)));
        }
    }
}

proof fn lemma_decode_encode(s: Seq<(u32, Entry)>)
    requires
        collection_ok(s),
    ensures
        decode(encode(s), 0) == Ok::<(Seq<(u32, Entry)>, int), VdfError>(
            (canonical_all(s), encode(s).len() as int),
        ),
{
    let buf = encode(s);
    let sk = shortcuts_key();
    let body = enc_entries(s) + seq![8u8];
    assert(buf =~= (seq![0u8] + enc_str(sk) + body) + seq![8u8]);
    assert(buf.subrange(0, buf.len() as int) =~= buf);
    assert(holds_at(buf, 0, buf));
    lemma_holds_split(buf, 0, seq![0u8] + enc_str(sk) + body, seq![8u8]);
    lemma_holds_split(buf, 0, seq![0u8] + enc_str(sk), body);
    let q: int = 1 + enc_str(sk).len() as int;
    let t = entries_tree(s);
    lemma_entries_map(buf, q, (MAX_DEPTH - 1) as nat, s);
    assert(no_nul(sk));
    lemma_dict_item(buf, 0, MAX_DEPTH as nat, sk, body, t);
    let e1: int = q + body.len() as int;
    assert(e1 == buf.len() - 1);
    lemma_map_step(buf, 0, MAX_DEPTH as nat, Seq::empty(), sk, Tree::Dict(t), e1);
    assert(ascii_lower(sk) =~= sk);
    let root = seq![(sk, Tree::Dict(t))];
    assert(dict_insert(Seq::<(Seq<char>, Tree)>::empty(), sk, Tree::Dict(t)) =~= root);
    lemma_holds_byte(buf, e1, seq![8u8], 0);
    lemma_map_end(buf, e1, MAX_DEPTH as nat, root);
    assert(map_at(buf, 0, MAX_DEPTH as nat) == Some((root, buf.len() as int)));
    assert(find_key(root, sk) == Some(0int));
    lemma_entries_fold(s);
}

/// Writing a collection of well-formed entries and reading the bytes back
/// gives the same indices in the same order, and at every property but the
/// index the value that counted before, whether held or the default; the
/// index property holds the entry's index. The reader stops at the end of
/// the bytes.
pub proof fn lemma_round_trip(x: Shortcuts)
    requires
        x.wf(),
        texts_ok(x.model()),
    ensures
        decode(encode(x.model()), 0) == Ok::<(Seq<(u32, Entry)>, int), VdfError>(
            (canonical_all(x.model()), encode(x.model()).len() as int),
        ),
        canonical_all(x.model()).len() == x.model().len(),
        forall|i: int|
            0 <= i < x.model().len() ==> (#[trigger] canonical_all(x.model())[i]).0 == x.model()[i].0
                && canonical_all(x.model())[i].1[0] == Some(PropVal::UInt32(x.model()[i].0)),
        forall|i: int, j: int|
            0 <= i < x.model().len() && 1 <= j < PROP_COUNT ==> #[trigger] effective(
                canonical_all(x.model())[i].1,
                j,
            ) == effective(x.model()[i].1, j),
{
    lemma_collection_ok(x);
    lemma_decode_encode(x.model());
}

proof fn lemma_fields_same(k: u32, e: Entry, n: int)
    requires
        1 <= n <= PROP_COUNT,
        e.len() == PROP_COUNT,
    ensures
        enc_fields(canonical(k, e), n) == enc_fields(e, n),
    decreases n,
{
    if n > 1 {
        lemma_fields_same(k, e, n - 1);
        assert(effective(canonical(k, e), n - 1) == effective(e, n - 1));
    }
}

proof fn lemma_entries_same(s: Seq<(u32, Entry)>)
    requires
        forall|i: int| 0 <= i < s.len() ==> (#[trigger] s[i].1).len() == PROP_COUNT,
    ensures
        enc_entries(canonical_all(s)) == enc_entries(s),
    decreases s.len(),
{
    if s.len() > 0 {
        lemma_entries_same(s.drop_last());
        assert(canonical_all(s).drop_last() =~= canonical_all(s.drop_last()));
        let (k, e) = s.last();
        lemma_fields_same(k, e, PROP_COUNT as int);
    }
}

/// Reading back a written collection and writing it again gives the same
/// bytes.
pub proof fn lemma_resave_same_bytes(x: Shortcuts)
    requires
        x.wf(),
        texts_ok(x.model()),
    ensures
        decode(encode(x.model()), 0) matches Ok((t, _)) && encode(t) == encode(x.model()),
{
    lemma_round_trip(x);
    lemma_entries_same(x.model());
}

/// A byte at a type-tag position that is not the tag of a map, a string, an
/// integer or a map's end makes the item unreadable, and with it the map that
/// holds it; at the start of a file the whole read fails as malformed.
pub proof fn lemma_unknown_tag_fails(
    buf: Seq<u8>,
    pos: int,
    depth: nat,
    acc: Seq<(Seq<char>, Tree)>,
)
    requires
        byte_at(buf, pos) matches Some(t) && t != 0 && t != 1 && t != 2 && t != 8,
    ensures
        item_at(buf, pos, depth) is None,
        map_from(buf, pos, depth, acc) is None,
        decode(buf, pos) == Err::<(Seq<(u32, Entry)>, int), VdfError>(VdfError::MalformedInput),
{
    assert(item_at(buf, pos, depth) is None);
    assert(item_at(buf, pos, MAX_DEPTH as nat) is None);
    assert(map_at(buf, pos, MAX_DEPTH as nat) is None);
}

/// A string without NUL, written and read back, is itself, whatever mix of
/// ASCII and multi-byte characters it holds; reading stops after its NUL.
pub proof fn lemma_text_round_trip(s: Seq<char>)
    requires
        no_nul(s),
    ensures
        str_at(enc_str(s), 0, false) == Some((s, enc_str(s).len() as int)),
{
    let buf = enc_str(s);
    assert(buf.subrange(0, buf.len() as int) =~= buf);
    lemma_str_round_trip(buf, 0, s, false);
}

proof fn lemma_fold_leaves(m: Seq<(Seq<char>, Tree)>, j: int)
    requires
        0 <= j < PROP_COUNT,
        forall|i: int| 0 <= i < m.len() ==> slot_of_name((#[trigger] m[i]).0) != Some(j),
    ensures
        entry_fold(m) matches Some(e) ==> e[j] is None && e.len() == PROP_COUNT,
    decreases m.len(),
{
    if m.len() > 0 {
        let d = m.drop_last();
        assert forall|i: int| 0 <= i < d.len() implies slot_of_name((#[trigger] d[i]).0) != Some(j) by {
            assert(d[i] == m[i]);
        }
        lemma_fold_leaves(d, j);
        assert(m.last() == m[m.len() - 1]);
        assert(slot_of_name(m.last().0) != Some(j));
        crate::schema::lemma_slot_range(m.last().0, 0);
        if let Some(e) = entry_fold(d) {
            if let Some(k) = slot_of_name(m.last().0) {
                if let Some(v) = crate::shortcut::coerce(spec_default(k), m.last().1) {
                    assert(e.update(k, Some(v))[j] == e[j]);
                }
            }
        }
    }
}

/// A property that no item of an entry's map names is not held: its default
/// counts, and writing the entry writes the default.
pub proof fn lemma_missing_property_defaults(m: Seq<(Seq<char>, Tree)>, k: u32, j: int)
    requires
        1 <= j < PROP_COUNT,
        forall|i: int| 0 <= i < m.len() ==> slot_of_name((#[trigger] m[i]).0) != Some(j),
        entry_of(m, k) is Some,
    ensures
        ({
            let e = entry_of(m, k)->0;
            &&& e[j] is None
            &&& effective(e, j) == spec_default(j)
            &&& enc_field(e, j) == seq![kind_tag(spec_default(j))] + enc_str(spec_wire_name(j))
                + enc_value(spec_default(j))
        }),
{
    lemma_fold_leaves(m, j);
}

/// An item whose key names no property is passed over, wherever it stands
/// among an entry's items; the entry read, and so what is written of it, is
/// the same as without it.
pub proof fn lemma_unknown_key_ignored(
    m1: Seq<(Seq<char>, Tree)>,
    m2: Seq<(Seq<char>, Tree)>,
    key: Seq<char>,
    t: Tree,
    k: u32,
)
    requires
        slot_of_name(key) is None,
    ensures
        entry_fold(m1 + seq![(key, t)] + m2) == entry_fold(m1 + m2),
        entry_of(m1 + seq![(key, t)] + m2, k) == entry_of(m1 + m2, k),
    decreases m2.len(),
{
    let with = m1 + seq![(key, t)] + m2;
    let without = m1 + m2;
    if m2.len() == 0 {
        assert(with.drop_last() =~= without);
        assert(with.last() == (key, t));
    } else {
        lemma_unknown_key_ignored(m1, m2.drop_last(), key, t, k);
        assert(with.drop_last() =~= m1 + seq![(key, t)] + m2.drop_last());
        assert(without.drop_last() =~= m1 + m2.drop_last());
        assert(with.last() == without.last());
    }
}

/// The collection without entries is written as the root map holding an
/// empty `shortcuts` map, and reads back as itself.
pub proof fn lemma_empty_collection()
    ensures
        encode(Seq::empty()) == seq![0u8] + enc_str(shortcuts_key()) + seq![8u8, 8u8],
        decode(encode(Seq::empty()), 0) == Ok::<(Seq<(u32, Entry)>, int), VdfError>(
            (Seq::empty(), encode(Seq::empty()).len() as int),
        ),
{
    let s = Seq::<(u32, Entry)>::empty();
    assert(encode(s) =~= seq![0u8] + enc_str(shortcuts_key()) + seq![8u8, 8u8]);
    lemma_decode_encode(s);
    assert(canonical_all(s) =~= s);
}

} // verus!
