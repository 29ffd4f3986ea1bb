//! What the reader makes of the writer's bytes, one level of the tree at a
//! time: list items, a list, an entry's properties, the entries, the root.
use vstd::prelude::*;
use crate::cursor::{lemma_u32_le_round_trip, u32_le_bytes};
use crate::lemmas::{
    holds_at, lemma_dec_str, lemma_dec_str_injective, lemma_escaped_plain, lemma_holds_byte,
    lemma_holds_split, lemma_str_round_trip, no_nul,
};
use crate::schema::{
    lemma_names_differ, lemma_slot_of_name, lemma_wire_name_no_nul, same_kind,
    spec_default, spec_name, spec_wire_name, PropVal, PROP_COUNT,
};
use crate::shortcut::{
    coerce, effective, empty_entry, enc_entry, enc_field, enc_fields, enc_list, entry_fold, entry_of, entry_wf, kind_tag, list_items, Entry,
};
use crate::text::{ascii_lower, dec_str, enc_str, escaped};
use crate::shortcuts::{enc_entries, entries_fold, insert_entry, sorted};
use crate::lemmas::lemma_u32_of_dec;
use crate::tree::{dict_insert, find_key, item_at, map_at, map_from, ItemRead, Tree};

verus! {

/// Text that a list item can hold and get back: no NUL, and nothing that
/// escaping would change.
pub open spec fn plain(s: Seq<char>) -> bool {
    forall|i: int| 0 <= i < s.len() ==> #[trigger] s[i] != '\0' && s[i] != '\\' && s[i] != '"'
}

/// A value that its bytes give back.
pub open spec fn value_ok(v: PropVal) -> bool {
    match v {
        PropVal::UInt32(_) => true,
        PropVal::Text(s) => no_nul(s),
        PropVal::List(l) => forall|j: int| 0 <= j < l.len() ==> plain(#[trigger] l[j]),
    }
}

/// A well-formed entry whose values its bytes give back.
pub open spec fn entry_ok(e: Entry) -> bool {
    &&& entry_wf(e)
    &&& forall|j: int| 1 <= j < PROP_COUNT ==> value_ok(#[trigger] effective(e, j))
}

/// The map that a written list reads back as.
pub open spec fn list_tree(l: Seq<Seq<char>>) -> Seq<(Seq<char>, Tree)> {
    Seq::new(l.len(), |i: int| (dec_str(i as nat), Tree::Str(l[i])))
}

/// The node that a written value reads back as.
pub open spec fn field_tree(v: PropVal) -> Tree {
    match v {
        PropVal::UInt32(n) => Tree::U32(n),
        PropVal::Text(s) => Tree::Str(s),
        PropVal::List(l) => Tree::Dict(list_tree(l)),
    }
}

/// The map that the properties at places 1 up to `n - 1` read back as.
pub open spec fn fields_tree(e: Entry, n: int) -> Seq<(Seq<char>, Tree)> {
    Seq::new((n - 1) as nat, |i: int| (spec_name(i + 1), field_tree(effective(e, i + 1))))
}

/// The entry made of the values that count at places 1 up to `n - 1`.
pub open spec fn partial_entry(e: Entry, n: int) -> Entry {
    Seq::new(
        PROP_COUNT as nat,
        |j: int|
            if 1 <= j < n {
                Some(effective(e, j))
            } else {
                None
            },
    )
}

pub proof fn lemma_find_key_absent<V>(m: Seq<(Seq<char>, V)>, k: Seq<char>)
    requires
        forall|i: int| 0 <= i < m.len() ==> (#[trigger] m[i]).0 != k,
    ensures
        find_key(m, k) is None,
        dict_insert(m, k, arbitrary()) == m.push((k, arbitrary::<V>())),
    decreases m.len(),
{
    if m.len() > 0 {
        lemma_find_key_absent(m.drop_last(), k);
    }
}

pub proof fn lemma_insert_new<V>(m: Seq<(Seq<char>, V)>, k: Seq<char>, v: V)
    requires
        forall|i: int| 0 <= i < m.len() ==> (#[trigger] m[i]).0 != k,
    ensures
        dict_insert(m, k, v) == m.push((k, v)),
{
    lemma_find_key_absent(m, k);
}

pub proof fn lemma_text_item(buf: Seq<u8>, p: int, d: nat, key: Seq<char>, s: Seq<char>)
    requires
        no_nul(key),
        no_nul(s),
        holds_at(buf, p, seq![1u8] + enc_str(key) + enc_str(s)),
    ensures
        item_at(buf, p, d) == Some(
            (ItemRead::Item(key, Tree::Str(s)), p + 1 + enc_str(key).len() + enc_str(s).len()),
        ),
{
    lemma_holds_split(buf, p, seq![1u8] + enc_str(key), enc_str(s));
    lemma_holds_split(buf, p, seq![1u8], enc_str(key));
    lemma_holds_byte(buf, p, seq![1u8], 0);
    lemma_str_round_trip(buf, p + 1, key, false);
    lemma_str_round_trip(buf, p + 1 + enc_str(key).len(), s, false);
}

pub proof fn lemma_u32_item(buf: Seq<u8>, p: int, d: nat, key: Seq<char>, n: u32)
    requires
        no_nul(key),
        holds_at(buf, p, seq![2u8] + enc_str(key) + u32_le_bytes(n)),
    ensures
        item_at(buf, p, d) == Some(
            (ItemRead::Item(key, Tree::U32(n)), p + 1 + enc_str(key).len() + 4),
        ),
{
    lemma_holds_split(buf, p, seq![2u8] + enc_str(key), u32_le_bytes(n));
    lemma_holds_split(buf, p, seq![2u8], enc_str(key));
    lemma_holds_byte(buf, p, seq![2u8], 0);
    lemma_str_round_trip(buf, p + 1, key, false);
    let q = p + 1 + enc_str(key).len();
    lemma_holds_byte(buf, q, u32_le_bytes(n), 0);
    lemma_holds_byte(buf, q, u32_le_bytes(n), 1);
    lemma_holds_byte(buf, q, u32_le_bytes(n), 2);
    lemma_holds_byte(buf, q, u32_le_bytes(n), 3);
    lemma_u32_le_round_trip(n);
}

pub proof fn lemma_dict_item(
    buf: Seq<u8>,
    p: int,
    d: nat,
    key: Seq<char>,
    body: Seq<u8>,
    m: Seq<(Seq<char>, Tree)>,
)
    requires
        d >= 1,
        no_nul(key),
        holds_at(buf, p, seq![0u8] + enc_str(key) + body),
        map_at(buf, p + 1 + enc_str(key).len(), (d - 1) as nat) == Some(
            (m, p + 1 + enc_str(key).len() + body.len()),
        ),
    ensures
        item_at(buf, p, d) == Some(
            (ItemRead::Item(key, Tree::Dict(m)), p + 1 + enc_str(key).len() + body.len()),
        ),
{
    lemma_holds_split(buf, p, seq![0u8] + enc_str(key), body);
    lemma_holds_split(buf, p, seq![0u8], enc_str(key));
    lemma_holds_byte(buf, p, seq![0u8], 0);
    lemma_str_round_trip(buf, p + 1, key, false);
}

pub proof fn lemma_map_step(
    buf: Seq<u8>,
    p: int,
    d: nat,
    acc: Seq<(Seq<char>, Tree)>,
    key: Seq<char>,
    t: Tree,
    e: int,
)
    requires
        0 <= p < e <= buf.len(),
        item_at(buf, p, d) == Some((ItemRead::Item(key, t), e)),
    ensures
        map_from(buf, p, d, acc) == map_from(buf, e, d, dict_insert(acc, ascii_lower(key), t)),
{
}

pub proof fn lemma_map_end(buf: Seq<u8>, p: int, d: nat, acc: Seq<(Seq<char>, Tree)>)
    requires
        0 <= p < buf.len(),
        buf[p] == 8,
    ensures
        map_from(buf, p, d, acc) == Some((acc, p + 1)),
{
    assert(item_at(buf, p, d) == Some((ItemRead::End, p + 1)));
}

proof fn lemma_list_holds(buf: Seq<u8>, p: int, l: Seq<Seq<char>>, i: int)
    requires
        holds_at(buf, p, enc_list(l)),
        0 <= i <= l.len(),
    ensures
        holds_at(buf, p, enc_list(l.subrange(0, i))),
    decreases l.len() - i,
{
    if i < l.len() {
        let x = l.drop_last();
        assert(l.subrange(0, l.len() as int) =~= l);
        assert(enc_list(l) =~= enc_list(x) + (seq![1u8] + enc_str(dec_str((l.len() - 1) as nat))
            + enc_str(escaped(l.last()))));
        lemma_holds_split(
            buf,
            p,
            enc_list(x),
            seq![1u8] + enc_str(dec_str((l.len() - 1) as nat)) + enc_str(escaped(l.last())),
        );
        assert(enc_list(l) == enc_list(x) + (seq![1u8] + enc_str(dec_str((l.len() - 1) as nat))
            + enc_str(escaped(l.last()))));
        lemma_list_holds(buf, p, x, i);
        assert(x.subrange(0, i) =~= l.subrange(0, i));
    } else {
        assert(l.subrange(0, i) =~= l);
    }
}

proof fn lemma_list_prefix(buf: Seq<u8>, p: int, d: nat, l: Seq<Seq<char>>, i: int)
    requires
        forall|j: int| 0 <= j < l.len() ==> plain(#[trigger] l[j]),
        holds_at(buf, p, enc_list(l).push(8u8)),
        0 <= i <= l.len(),
    ensures
        map_from(buf, p, d, Seq::empty()) == map_from(
            buf,
            p + enc_list(l.subrange(0, i)).len(),
            d,
            list_tree(l.subrange(0, i)),
        ),
    decreases i,
{
    if i == 0 {
        assert(list_tree(l.subrange(0, 0)) =~= Seq::<(Seq<char>, Tree)>::empty());
    } else {
        lemma_list_prefix(buf, p, d, l, i - 1);
        let a = l.subrange(0, i - 1);
        let b = l.subrange(0, i);
        assert(b.drop_last() =~= a);
        assert(enc_list(l).push(8u8) =~= enc_list(l) + seq![8u8]);
        lemma_holds_split(buf, p, enc_list(l), seq![8u8]);
        lemma_list_holds(buf, p, l, i);
        let key = dec_str((i - 1) as nat);
        let item = l[i - 1];
        lemma_escaped_plain(item);
        let x = seq![1u8] + enc_str(key) + enc_str(item);
        assert(enc_list(b) == enc_list(a) + x);
        lemma_holds_split(buf, p, enc_list(a), x);
        let q = p + enc_list(a).len();
        lemma_dec_str((i - 1) as nat);
        lemma_text_item(buf, q, d, key, item);
        assert(q + x.len() <= buf.len());
        lemma_map_step(buf, q, d, list_tree(a), key, Tree::Str(item), q + x.len());
        assert forall|j: int| 0 <= j < list_tree(a).len() implies (#[trigger] list_tree(a)[j]).0
            != key by {
            lemma_dec_str_injective(j as nat, (i - 1) as nat);
        }
        lemma_insert_new(list_tree(a), key, Tree::Str(item));
        assert(list_tree(a).push((key, Tree::Str(item))) =~= list_tree(b));
    }
}

/// A written list reads back as the map of its items keyed by position.
pub proof fn lemma_list_map(buf: Seq<u8>, p: int, d: nat, l: Seq<Seq<char>>)
    requires
        forall|j: int| 0 <= j < l.len() ==> plain(#[trigger] l[j]),
        holds_at(buf, p, enc_list(l).push(8u8)),
    ensures
        map_at(buf, p, d) == Some((list_tree(l), p + enc_list(l).len() + 1)),
        list_items(list_tree(l)) == l,
{
    lemma_list_prefix(buf, p, d, l, l.len() as int);
    assert(l.subrange(0, l.len() as int) =~= l);
    assert(enc_list(l).push(8u8) =~= enc_list(l) + seq![8u8]);
    lemma_holds_split(buf, p, enc_list(l), seq![8u8]);
    lemma_holds_byte(buf, p + enc_list(l).len(), seq![8u8], 0);
    lemma_map_end(buf, p + enc_list(l).len(), d, list_tree(l));
    assert(list_items(list_tree(l)) =~= l);
}

/// The entry that a written entry reads back as under index `k`: every
/// property but the index holds the value that counted, the index holds `k`.
pub open spec fn canonical(k: u32, e: Entry) -> Entry {
    partial_entry(e, PROP_COUNT as int).update(0, Some(PropVal::UInt32(k)))
}

proof fn lemma_effective_kind(e: Entry, j: int)
    requires
        entry_wf(e),
        0 <= j < PROP_COUNT,
    ensures
        same_kind(effective(e, j), spec_default(j)),
{
    if e[j] is None {
        match spec_default(j) {
            PropVal::UInt32(_) => {},
            PropVal::Text(_) => {},
            PropVal::List(_) => {},
        }
    }
}

/// A written property reads back as an item under its wire name.
pub proof fn lemma_field_item(buf: Seq<u8>, p: int, d: nat, e: Entry, j: int)
    requires
        d >= 1,
        entry_ok(e),
        1 <= j < PROP_COUNT,
        holds_at(buf, p, enc_field(e, j)),
    ensures
        item_at(buf, p, d) == Some(
            (
                ItemRead::Item(spec_wire_name(j), field_tree(effective(e, j))),
                p + enc_field(e, j).len(),
            ),
        ),
{
    let v = effective(e, j);
    let w = spec_wire_name(j);
    lemma_effective_kind(e, j);
    lemma_wire_name_no_nul(j);
    assert(value_ok(v));
    match v {
        PropVal::UInt32(n) => {
            assert(kind_tag(spec_default(j)) == 2);
            lemma_u32_item(buf, p, d, w, n);
        },
        PropVal::Text(t) => {
            assert(kind_tag(spec_default(j)) == 1);
            lemma_text_item(buf, p, d, w, t);
        },
        PropVal::List(l) => {
            assert(kind_tag(spec_default(j)) == 0);
            let body = enc_list(l).push(8u8);
            lemma_holds_split(buf, p, seq![0u8] + enc_str(w), body);
            lemma_list_map(buf, p + 1 + enc_str(w).len(), (d - 1) as nat, l);
            lemma_dict_item(buf, p, d, w, body, list_tree(l));
        },
    }
}

proof fn lemma_fields_holds(buf: Seq<u8>, p: int, e: Entry, n: int)
    requires
        holds_at(buf, p, enc_fields(e, PROP_COUNT as int)),
        1 <= n <= PROP_COUNT,
    ensures
        holds_at(buf, p, enc_fields(e, n)),
    decreases PROP_COUNT - n,
{
    if n < PROP_COUNT {
        lemma_fields_holds(buf, p, e, n + 1);
        lemma_holds_split(buf, p, enc_fields(e, n), enc_field(e, n));
    }
}

proof fn lemma_fields_prefix(buf: Seq<u8>, p: int, d: nat, e: Entry, n: int)
    requires
        d >= 1,
        entry_ok(e),
        holds_at(buf, p, enc_fields(e, PROP_COUNT as int) + seq![8u8]),
        1 <= n <= PROP_COUNT,
    ensures
        map_from(buf, p, d, Seq::empty()) == map_from(
            buf,
            p + enc_fields(e, n).len(),
            d,
            fields_tree(e, n),
        ),
    decreases n,
{
    if n == 1 {
        assert(fields_tree(e, 1) =~= Seq::<(Seq<char>, Tree)>::empty());
    } else {
        lemma_fields_prefix(buf, p, d, e, n - 1);
        lemma_holds_split(buf, p, enc_fields(e, PROP_COUNT as int), seq![8u8]);
        lemma_fields_holds(buf, p, e, n);
        lemma_holds_split(buf, p, enc_fields(e, n - 1), enc_field(e, n - 1));
        let q = p + enc_fields(e, n - 1).len();
        lemma_field_item(buf, q, d, e, n - 1);
        let t = field_tree(effective(e, n - 1));
        let e_end = q + enc_field(e, n - 1).len();
        assert(e_end <= buf.len());
        lemma_map_step(buf, q, d, fields_tree(e, n - 1), spec_wire_name(n - 1), t, e_end);
        assert forall|i: int| 0 <= i < fields_tree(e, n - 1).len() implies (#[trigger] fields_tree(
            e,
            n - 1,
        )[i]).0 != spec_name(n - 1) by {
            lemma_names_differ(i + 1, n - 1);
        }
        lemma_insert_new(fields_tree(e, n - 1), spec_name(n - 1), t);
        assert(fields_tree(e, n - 1).push((spec_name(n - 1), t)) =~= fields_tree(e, n));
    }
}

/// A written entry's properties read back as the map of them all.
pub proof fn lemma_entry_map(buf: Seq<u8>, p: int, d: nat, e: Entry)
    requires
        d >= 1,
        entry_ok(e),
        holds_at(buf, p, enc_fields(e, PROP_COUNT as int) + seq![8u8]),
    ensures
        map_at(buf, p, d) == Some(
            (fields_tree(e, PROP_COUNT as int), p + enc_fields(e, PROP_COUNT as int).len() + 1),
        ),
{
    lemma_fields_prefix(buf, p, d, e, PROP_COUNT as int);
    lemma_holds_split(buf, p, enc_fields(e, PROP_COUNT as int), seq![8u8]);
    let q = p + enc_fields(e, PROP_COUNT as int).len();
    lemma_holds_byte(buf, q, seq![8u8], 0);
    lemma_map_end(buf, q, d, fields_tree(e, PROP_COUNT as int));
}

proof fn lemma_fields_fold(e: Entry, n: int)
    requires
        entry_ok(e),
        1 <= n <= PROP_COUNT,
    ensures
        entry_fold(fields_tree(e, n)) == Some(partial_entry(e, n)),
    decreases n,
{
    if n == 1 {
        assert(fields_tree(e, 1) =~= Seq::<(Seq<char>, Tree)>::empty());
        assert(partial_entry(e, 1) =~= empty_entry());
    } else {
        lemma_fields_fold(e, n - 1);
        let m = fields_tree(e, n);
        assert(m.drop_last() =~= fields_tree(e, n - 1));
        let v = effective(e, n - 1);
        lemma_slot_of_name(n - 1);
        lemma_effective_kind(e, n - 1);
        match v {
            PropVal::List(l) => {
                assert(list_items(list_tree(l)) =~= l);
            },
            _ => {},
        }
        assert(coerce(spec_default(n - 1), field_tree(v)) == Some(v));
        assert(partial_entry(e, n - 1).update(n - 1, Some(v)) =~= partial_entry(e, n));
    }
}

/// The map of a written entry's properties gives back the entry's values.
pub proof fn lemma_entry_of_fields(e: Entry, k: u32)
    requires
        entry_ok(e),
    ensures
        entry_of(fields_tree(e, PROP_COUNT as int), k) == Some(canonical(k, e)),
{
    lemma_fields_fold(e, PROP_COUNT as int);
}

/// Entries in ascending order of index, each well formed and holding values
/// that its bytes give back.
pub open spec fn collection_ok(s: Seq<(u32, Entry)>) -> bool {
    &&& sorted(s)
    &&& forall|i: int| 0 <= i < s.len() ==> entry_ok(#[trigger] s[i].1)
}

/// The map that written entries read back as.
pub open spec fn entries_tree(s: Seq<(u32, Entry)>) -> Seq<(Seq<char>, Tree)> {
    Seq::new(
        s.len(),
        |i: int| (dec_str(s[i].0 as nat), Tree::Dict(fields_tree(s[i].1, PROP_COUNT as int))),
    )
}

/// The collection that written entries read back as.
pub open spec fn canonical_all(s: Seq<(u32, Entry)>) -> Seq<(u32, Entry)> {
    Seq::new(s.len(), |i: int| (s[i].0, canonical(s[i].0, s[i].1)))
}

/// A written entry reads back as an item under its index in decimal.
pub proof fn lemma_entry_item(buf: Seq<u8>, p: int, d: nat, k: u32, e: Entry)
    requires
        d >= 2,
        entry_ok(e),
        holds_at(buf, p, enc_entry(k, e)),
    ensures
        item_at(buf, p, d) == Some(
            (
                ItemRead::Item(dec_str(k as nat), Tree::Dict(fields_tree(e, PROP_COUNT as int))),
                p + enc_entry(k, e).len(),
            ),
        ),
{
    let key = dec_str(k as nat);
    let body = enc_fields(e, PROP_COUNT as int) + seq![8u8];
    assert(enc_entry(k, e) =~= seq![0u8] + enc_str(key) + body);
    lemma_holds_split(buf, p, seq![0u8] + enc_str(key), body);
    lemma_entry_map(buf, p + 1 + enc_str(key).len(), (d - 1) as nat, e);
    lemma_dec_str(k as nat);
    lemma_dict_item(buf, p, d, key, body, fields_tree(e, PROP_COUNT as int));
}

proof fn lemma_entries_holds(buf: Seq<u8>, p: int, s: Seq<(u32, Entry)>, i: int)
    requires
        holds_at(buf, p, enc_entries(s)),
        0 <= i <= s.len(),
    ensures
        holds_at(buf, p, enc_entries(s.subrange(0, i))),
    decreases s.len() - i,
{
    if i < s.len() {
        let x = s.drop_last();
        lemma_holds_split(buf, p, enc_entries(x), enc_entry(s.last().0, s.last().1));
        lemma_entries_holds(buf, p, x, i);
        assert(x.subrange(0, i) =~= s.subrange(0, i));
    } else {
        assert(s.subrange(0, i) =~= s);
    }
}

proof fn lemma_entries_prefix(buf: Seq<u8>, p: int, d: nat, s: Seq<(u32, Entry)>, i: int)
    requires
        d >= 2,
        collection_ok(s),
        holds_at(buf, p, enc_entries(s) + seq![8u8]),
        0 <= i <= s.len(),
    ensures
        map_from(buf, p, d, Seq::empty()) == map_from(
            buf,
            p + enc_entries(s.subrange(0, i)).len(),
            d,
            entries_tree(s.subrange(0, i)),
        ),
    decreases i,
{
    if i == 0 {
        assert(entries_tree(s.subrange(0, 0)) =~= Seq::<(Seq<char>, Tree)>::empty());
    } else {
        lemma_entries_prefix(buf, p, d, s, i - 1);
        let a = s.subrange(0, i - 1);
        let b = s.subrange(0, i);
        assert(b.drop_last() =~= a);
        lemma_holds_split(buf, p, enc_entries(s), seq![8u8]);
        lemma_entries_holds(buf, p, s, i);
        let (k, e) = s[i - 1];
        assert(enc_entries(b) == enc_entries(a) + enc_entry(k, e));
        lemma_holds_split(buf, p, enc_entries(a), enc_entry(k, e));
        let q = p + enc_entries(a).len();
        lemma_entry_item(buf, q, d, k, e);
        let key = dec_str(k as nat);
        let t = Tree::Dict(fields_tree(e, PROP_COUNT as int));
        let q_end = q + enc_entry(k, e).len();
        assert(q_end <= buf.len());
        lemma_map_step(buf, q, d, entries_tree(a), key, t, q_end);
        lemma_dec_str(k as nat);
        assert forall|j: int| 0 <= j < entries_tree(a).len() implies (#[trigger] entries_tree(
            a,
        )[j]).0 != key by {
            assert(s[j].0 < s[i - 1].0);
            lemma_dec_str_injective(s[j].0 as nat, k as nat);
        }
        lemma_insert_new(entries_tree(a), key, t);
        assert(entries_tree(a).push((key, t)) =~= entries_tree(b));
    }
}

/// Written entries read back as the map of them all.
pub proof fn lemma_entries_map(buf: Seq<u8>, p: int, d: nat, s: Seq<(u32, Entry)>)
    requires
        d >= 2,
        collection_ok(s),
        holds_at(buf, p, enc_entries(s) + seq![8u8]),
    ensures
        map_at(buf, p, d) == Some((entries_tree(s), p + enc_entries(s).len() + 1)),
{
    lemma_entries_prefix(buf, p, d, s, s.len() as int);
    assert(s.subrange(0, s.len() as int) =~= s);
    lemma_holds_split(buf, p, enc_entries(s), seq![8u8]);
    let q = p + enc_entries(s).len();
    lemma_holds_byte(buf, q, seq![8u8], 0);
    lemma_map_end(buf, q, d, entries_tree(s));
}

proof fn lemma_entries_fold_prefix(s: Seq<(u32, Entry)>, i: int)
    requires
        collection_ok(s),
        0 <= i <= s.len(),
    ensures
        entries_fold(entries_tree(s.subrange(0, i))) == Ok::<Seq<(u32, Entry)>, crate::error::VdfError>(
            canonical_all(s.subrange(0, i)),
        ),
    decreases i,
{
    if i == 0 {
        assert(entries_tree(s.subrange(0, 0)) =~= Seq::<(Seq<char>, Tree)>::empty());
        assert(canonical_all(s.subrange(0, 0)) =~= Seq::<(u32, Entry)>::empty());
    } else {
        lemma_entries_fold_prefix(s, i - 1);
        let a = s.subrange(0, i - 1);
        let b = s.subrange(0, i);
        assert(entries_tree(b).drop_last() =~= entries_tree(a));
        let (k, e) = s[i - 1];
        lemma_u32_of_dec(k);
        lemma_entry_of_fields(e, k);
        let prev = canonical_all(a);
        if i - 1 > 0 {
            assert(s[i - 2].0 < s[i - 1].0);
            assert(prev.last().0 == s[i - 2].0);
        }
        assert(insert_entry(prev, k, canonical(k, e)) =~= prev.push((k, canonical(k, e))));
        assert(prev.push((k, canonical(k, e))) =~= canonical_all(b));
    }
}

/// The map of written entries gives back the entries' indices and values.
pub proof fn lemma_entries_fold(s: Seq<(u32, Entry)>)
    requires
        collection_ok(s),
    ensures
        entries_fold(entries_tree(s)) == Ok::<Seq<(u32, Entry)>, crate::error::VdfError>(
            canonical_all(s),
        ),
{
    lemma_entries_fold_prefix(s, s.len() as int);
    assert(s.subrange(0, s.len() as int) =~= s);
}

} // verus!
