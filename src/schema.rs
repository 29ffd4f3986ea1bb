//! The fixed table of the properties that an entry can hold: the single
//! source of their names on disk, their kinds, defaults and order.
use vstd::prelude::*;
use crate::text::{ascii_lower, fold_case};

verus! {

/// How many properties the schema knows.
pub const PROP_COUNT: usize = 18;

/// A property's value as a mathematical value.
pub enum PropVal {
    UInt32(u32),
    Text(Seq<char>),
    List(Seq<Seq<char>>),
}

/// A property's value.
#[derive(Debug)]
pub enum ShortcutProp {
    UInt32(u32),
    String(String),
    Strings(Vec<String>),
}

impl ShortcutProp {
    pub open spec fn model(&self) -> PropVal {
        match self {
            ShortcutProp::UInt32(n) => PropVal::UInt32(*n),
            ShortcutProp::String(s) => PropVal::Text(s@),
            ShortcutProp::Strings(v) => PropVal::List(v.deep_view()),
        }
    }
}

/// Whether two values are of the same kind.
pub open spec fn same_kind(a: PropVal, b: PropVal) -> bool {
    match (a, b) {
        (PropVal::UInt32(_), PropVal::UInt32(_)) => true,
        (PropVal::Text(_), PropVal::Text(_)) => true,
        (PropVal::List(_), PropVal::List(_)) => true,
        _ => false,
    }
}

/// One property of the schema.
#[derive(Debug)]
pub struct ShortcutPropInfo {
    /// The name that edits and listings use (`app_name`).
    pub switchname: &'static str,
    /// The value of an entry that does not hold the property; its variant is
    /// the property's kind.
    pub type_default: ShortcutProp,
    /// The name that keys read from a file are matched against: the wire
    /// name folded to lower case the way keys are (`appname`).
    pub name: String,
    /// The name written to a file (`AppName`).
    pub pascalcase: &'static str,
    /// The place of the property when an entry is written.
    pub order: u32,
}

impl ShortcutPropInfo {
    pub fn new(
        switchname: &'static str,
        pascalcase: &'static str,
        type_default: ShortcutProp,
        order: u32,
    ) -> (r: Self)
        ensures
            r.switchname == switchname,
            r.pascalcase == pascalcase,
            r.type_default == type_default,
            r.order == order,
            r.name@ == ascii_lower(pascalcase@),
    {
        Self { switchname, type_default, name: fold_case(pascalcase), order, pascalcase }
    }
}

/// The switch name of the property at place `i`.
pub open spec fn spec_switchname(i: int) -> Seq<char> {
    if i == 0 {
        seq!['i', 'n', 'd', 'e', 'x']
    } else if i == 1 {
        seq!['a', 'p', 'p', '_', 'i', 'd']
    } else if i == 2 {
        seq!['a', 'p', 'p', '_', 'n', 'a', 'm', 'e']
    } else if i == 3 {
        seq!['e', 'x', 'e']
    } else if i == 4 {
        seq!['s', 't', 'a', 'r', 't', '_', 'd', 'i', 'r']
    } else if i == 5 {
        seq!['i', 'c', 'o', 'n']
    } else if i == 6 {
        seq!['s', 'h', 'o', 'r', 't', 'c', 'u', 't', '_', 'p', 'a', 't', 'h']
    } else if i == 7 {
        seq!['l', 'a', 'u', 'n', 'c', 'h', '_', 'o', 'p', 't', 'i', 'o', 'n', 's']
    } else if i == 8 {
        seq!['i', 's', '_', 'h', 'i', 'd', 'd', 'e', 'n']
    } else if i == 9 {
        seq!['a', 'l', 'l', 'o', 'w', '_', 'd', 'e', 's', 'k', 't', 'o', 'p', '_', 'c', 'o', 'n', 'f', 'i', 'g']
    } else if i == 10 {
        seq!['a', 'l', 'l', 'o', 'w', '_', 'o', 'v', 'e', 'r', 'l', 'a', 'y']
    } else if i == 11 {
        seq!['o', 'p', 'e', 'n', '_', 'v', 'r']
    } else if i == 12 {
        seq!['d', 'e', 'v', 'k', 'i', 't']
    } else if i == 13 {
        seq!['d', 'e', 'v', 'k', 'i', 't', '_', 'g', 'a', 'm', 'e', '_', 'i', 'd']
    } else if i == 14 {
        seq!['d', 'e', 'v', 'k', 'i', 't', '_', 'o', 'v', 'e', 'r', 'r', 'i', 'd', 'e', '_', 'a', 'p', 'p', '_', 'i', 'd']
    } else if i == 15 {
        seq!['l', 'a', 's', 't', '_', 'p', 'l', 'a', 'y', '_', 't', 'i', 'm', 'e']
    } else if i == 16 {
        seq!['f', 'l', 'a', 't', 'p', 'a', 'k', '_', 'a', 'p', 'p', '_', 'i', 'd']
    } else {
        seq!['t', 'a', 'g', 's']
    }
}

/// The name written to a file for the property at place `i`.
pub open spec fn spec_wire_name(i: int) -> Seq<char> {
    if i == 0 {
        seq!['I', 'n', 'd', 'e', 'x']
    } else if i == 1 {
        seq!['A', 'p', 'p', 'I', 'd']
    } else if i == 2 {
        seq!['A', 'p', 'p', 'N', 'a', 'm', 'e']
    } else if i == 3 {
        seq!['E', 'x', 'e']
    } else if i == 4 {
        seq!['S', 't', 'a', 'r', 't', 'D', 'i', 'r']
    } else if i == 5 {
        seq!['I', 'c', 'o', 'n']
    } else if i == 6 {
        seq!['S', 'h', 'o', 'r', 't', 'c', 'u', 't', 'P', 'a', 't', 'h']
    } else if i == 7 {
        seq!['L', 'a', 'u', 'n', 'c', 'h', 'O', 'p', 't', 'i', 'o', 'n', 's']
    } else if i == 8 {
        seq!['I', 's', 'H', 'i', 'd', 'd', 'e', 'n']
    } else if i == 9 {
        seq!['A', 'l', 'l', 'o', 'w', 'D', 'e', 's', 'k', 't', 'o', 'p', 'C', 'o', 'n', 'f', 'i', 'g']
    } else if i == 10 {
        seq!['A', 'l', 'l', 'o', 'w', 'O', 'v', 'e', 'r', 'l', 'a', 'y']
    } else if i == 11 {
        seq!['O', 'p', 'e', 'n', 'V', 'R']
    } else if i == 12 {
        seq!['D', 'e', 'v', 'k', 'i', 't']
    } else if i == 13 {
        seq!['D', 'e', 'v', 'k', 'i', 't', 'G', 'a', 'm', 'e', 'I', 'D']
    } else if i == 14 {
        seq!['D', 'e', 'v', 'k', 'i', 't', 'O', 'v', 'e', 'r', 'r', 'i', 'd', 'e', 'A', 'p', 'p', 'I', 'D']
    } else if i == 15 {
        seq!['L', 'a', 's', 't', 'P', 'l', 'a', 'y', 'T', 'i', 'm', 'e']
    } else if i == 16 {
        seq!['F', 'l', 'a', 't', 'p', 'a', 'k', 'A', 'p', 'p', 'I', 'D']
    } else {
        seq!['T', 'a', 'g', 's']
    }
}

/// The lower-case, underscore-free name of the property at place `i`.
pub open spec fn spec_ident(i: int) -> Seq<char> {
    if i == 0 {
        seq!['i', 'n', 'd', 'e', 'x']
    } else if i == 1 {
        seq!['a', 'p', 'p', 'i', 'd']
    } else if i == 2 {
        seq!['a', 'p', 'p', 'n', 'a', 'm', 'e']
    } else if i == 3 {
        seq!['e', 'x', 'e']
    } else if i == 4 {
        seq!['s', 't', 'a', 'r', 't', 'd', 'i', 'r']
    } else if i == 5 {
        seq!['i', 'c', 'o', 'n']
    } else if i == 6 {
        seq!['s', 'h', 'o', 'r', 't', 'c', 'u', 't', 'p', 'a', 't', 'h']
    } else if i == 7 {
        seq!['l', 'a', 'u', 'n', 'c', 'h', 'o', 'p', 't', 'i', 'o', 'n', 's']
    } else if i == 8 {
        seq!['i', 's', 'h', 'i', 'd', 'd', 'e', 'n']
    } else if i == 9 {
        seq!['a', 'l', 'l', 'o', 'w', 'd', 'e', 's', 'k', 't', 'o', 'p', 'c', 'o', 'n', 'f', 'i', 'g']
    } else if i == 10 {
        seq!['a', 'l', 'l', 'o', 'w', 'o', 'v', 'e', 'r', 'l', 'a', 'y']
    } else if i == 11 {
        seq!['o', 'p', 'e', 'n', 'v', 'r']
    } else if i == 12 {
        seq!['d', 'e', 'v', 'k', 'i', 't']
    } else if i == 13 {
        seq!['d', 'e', 'v', 'k', 'i', 't', 'g', 'a', 'm', 'e', 'i', 'd']
    } else if i == 14 {
        seq!['d', 'e', 'v', 'k', 'i', 't', 'o', 'v', 'e', 'r', 'r', 'i', 'd', 'e', 'a', 'p', 'p', 'i', 'd']
    } else if i == 15 {
        seq!['l', 'a', 's', 't', 'p', 'l', 'a', 'y', 't', 'i', 'm', 'e']
    } else if i == 16 {
        seq!['f', 'l', 'a', 't', 'p', 'a', 'k', 'a', 'p', 'p', 'i', 'd']
    } else {
        seq!['t', 'a', 'g', 's']
    }
}

/// The default of the property at place `i`; its variant is the kind.
pub open spec fn spec_default(i: int) -> PropVal {
    if i == 0 {
        PropVal::UInt32(0)
    } else if i == 1 {
        PropVal::UInt32(0)
    } else if i == 2 {
        PropVal::Text(seq!['E', 'R', 'R', 'O', 'R'])
    } else if i == 3 {
        PropVal::Text(seq!['E', 'R', 'R', 'O', 'R'])
    } else if i == 4 {
        PropVal::Text(Seq::empty())
    } else if i == 5 {
        PropVal::Text(Seq::empty())
    } else if i == 6 {
        PropVal::Text(Seq::empty())
    } else if i == 7 {
        PropVal::Text(Seq::empty())
    } else if i == 8 {
        PropVal::UInt32(0)
    } else if i == 9 {
        PropVal::UInt32(0)
    } else if i == 10 {
        PropVal::UInt32(0)
    } else if i == 11 {
        PropVal::UInt32(0)
    } else if i == 12 {
        PropVal::UInt32(0)
    } else if i == 13 {
        PropVal::Text(seq!['E', 'R', 'R', 'O', 'R'])
    } else if i == 14 {
        PropVal::UInt32(0)
    } else if i == 15 {
        PropVal::UInt32(0)
    } else if i == 16 {
        PropVal::Text(Seq::empty())
    } else {
        PropVal::List(Seq::empty())
    }
}

/// The property at place `order` of the schema.
pub fn prop_info(order: usize) -> (r: ShortcutPropInfo)
    requires
        order < PROP_COUNT,
    ensures
        r.switchname@ == spec_switchname(order as int),
        r.pascalcase@ == spec_wire_name(order as int),
        r.type_default.model() == spec_default(order as int),
        r.order == order,
        r.name@ == ascii_lower(spec_wire_name(order as int)),
{
    if order == 0 {
        proof {
            reveal_strlit("index");
            reveal_strlit("Index");
            assert("index"@ =~= spec_switchname(0));
            assert("Index"@ =~= spec_wire_name(0));
        }
        ShortcutPropInfo::new("index", "Index", ShortcutProp::UInt32(0), 0)
    } else if order == 1 {
        proof {
            reveal_strlit("app_id");
            reveal_strlit("AppId");
            assert("app_id"@ =~= spec_switchname(1));
            assert("AppId"@ =~= spec_wire_name(1));
        }
        ShortcutPropInfo::new("app_id", "AppId", ShortcutProp::UInt32(0), 1)
    } else if order == 2 {
        proof {
            reveal_strlit("app_name");
            reveal_strlit("AppName");
            reveal_strlit("ERROR");
            assert("app_name"@ =~= spec_switchname(2));
            assert("AppName"@ =~= spec_wire_name(2));
            assert("ERROR"@ =~= seq!['E', 'R', 'R', 'O', 'R']);
        }
        ShortcutPropInfo::new("app_name", "AppName", ShortcutProp::String("ERROR".to_owned()), 2)
    } else if order == 3 {
        proof {
            reveal_strlit("exe");
            reveal_strlit("Exe");
            reveal_strlit("ERROR");
            assert("exe"@ =~= spec_switchname(3));
            assert("Exe"@ =~= spec_wire_name(3));
            assert("ERROR"@ =~= seq!['E', 'R', 'R', 'O', 'R']);
        }
        ShortcutPropInfo::new("exe", "Exe", ShortcutProp::String("ERROR".to_owned()), 3)
    } else if order == 4 {
        proof {
            reveal_strlit("start_dir");
            reveal_strlit("StartDir");
            assert("start_dir"@ =~= spec_switchname(4));
            assert("StartDir"@ =~= spec_wire_name(4));
        }
        ShortcutPropInfo::new("start_dir", "StartDir", ShortcutProp::String(String::new()), 4)
    } else if order == 5 {
        proof {
            reveal_strlit("icon");
            reveal_strlit("Icon");
            assert("icon"@ =~= spec_switchname(5));
            assert("Icon"@ =~= spec_wire_name(5));
        }
        ShortcutPropInfo::new("icon", "Icon", ShortcutProp::String(String::new()), 5)
    } else if order == 6 {
        proof {
            reveal_strlit("shortcut_path");
            reveal_strlit("ShortcutPath");
            assert("shortcut_path"@ =~= spec_switchname(6));
            assert("ShortcutPath"@ =~= spec_wire_name(6));
        }
        ShortcutPropInfo::new("shortcut_path", "ShortcutPath", ShortcutProp::String(String::new()), 6)
    } else if order == 7 {
        proof {
            reveal_strlit("launch_options");
            reveal_strlit("LaunchOptions");
            assert("launch_options"@ =~= spec_switchname(7));
            assert("LaunchOptions"@ =~= spec_wire_name(7));
        }
        ShortcutPropInfo::new("launch_options", "LaunchOptions", ShortcutProp::String(String::new()), 7)
    } else if order == 8 {
        proof {
            reveal_strlit("is_hidden");
            reveal_strlit("IsHidden");
            assert("is_hidden"@ =~= spec_switchname(8));
            assert("IsHidden"@ =~= spec_wire_name(8));
        }
        ShortcutPropInfo::new("is_hidden", "IsHidden", ShortcutProp::UInt32(0), 8)
    } else if order == 9 {
        proof {
            reveal_strlit("allow_desktop_config");
            reveal_strlit("AllowDesktopConfig");
            assert("allow_desktop_config"@ =~= spec_switchname(9));
            assert("AllowDesktopConfig"@ =~= spec_wire_name(9));
        }
        ShortcutPropInfo::new("allow_desktop_config", "AllowDesktopConfig", ShortcutProp::UInt32(0), 9)
    } else if order == 10 {
        proof {
            reveal_strlit("allow_overlay");
            reveal_strlit("AllowOverlay");
            assert("allow_overlay"@ =~= spec_switchname(10));
            assert("AllowOverlay"@ =~= spec_wire_name(10));
        }
        ShortcutPropInfo::new("allow_overlay", "AllowOverlay", ShortcutProp::UInt32(0), 10)
    } else if order == 11 {
        proof {
            reveal_strlit("open_vr");
            reveal_strlit("OpenVR");
            assert("open_vr"@ =~= spec_switchname(11));
            assert("OpenVR"@ =~= spec_wire_name(11));
        }
        ShortcutPropInfo::new("open_vr", "OpenVR", ShortcutProp::UInt32(0), 11)
    } else if order == 12 {
        proof {
            reveal_strlit("devkit");
            reveal_strlit("Devkit");
            assert("devkit"@ =~= spec_switchname(12));
            assert("Devkit"@ =~= spec_wire_name(12));
        }
        ShortcutPropInfo::new("devkit", "Devkit", ShortcutProp::UInt32(0), 12)
    } else if order == 13 {
        proof {
            reveal_strlit("devkit_game_id");
            reveal_strlit("DevkitGameID");
            reveal_strlit("ERROR");
            assert("devkit_game_id"@ =~= spec_switchname(13));
            assert("DevkitGameID"@ =~= spec_wire_name(13));
            assert("ERROR"@ =~= seq!['E', 'R', 'R', 'O', 'R']);
        }
        ShortcutPropInfo::new("devkit_game_id", "DevkitGameID", ShortcutProp::String("ERROR".to_owned()), 13)
    } else if order == 14 {
        proof {
            reveal_strlit("devkit_override_app_id");
            reveal_strlit("DevkitOverrideAppID");
            assert("devkit_override_app_id"@ =~= spec_switchname(14));
            assert("DevkitOverrideAppID"@ =~= spec_wire_name(14));
        }
        ShortcutPropInfo::new("devkit_override_app_id", "DevkitOverrideAppID", ShortcutProp::UInt32(0), 14)
    } else if order == 15 {
        proof {
            reveal_strlit("last_play_time");
            reveal_strlit("LastPlayTime");
            assert("last_play_time"@ =~= spec_switchname(15));
            assert("LastPlayTime"@ =~= spec_wire_name(15));
        }
        ShortcutPropInfo::new("last_play_time", "LastPlayTime", ShortcutProp::UInt32(0), 15)
    } else if order == 16 {
        proof {
            reveal_strlit("flatpak_app_id");
            reveal_strlit("FlatpakAppID");
            assert("flatpak_app_id"@ =~= spec_switchname(16));
            assert("FlatpakAppID"@ =~= spec_wire_name(16));
        }
        ShortcutPropInfo::new("flatpak_app_id", "FlatpakAppID", ShortcutProp::String(String::new()), 16)
    } else {
        proof {
            reveal_strlit("tags");
            reveal_strlit("Tags");
            assert("tags"@ =~= spec_switchname(17));
            assert("Tags"@ =~= spec_wire_name(17));
        }
        let tags: Vec<String> = Vec::new();
        assert(tags.deep_view() =~= Seq::<Seq<char>>::empty());
        ShortcutPropInfo::new("tags", "Tags", ShortcutProp::Strings(tags), 17)
    }
}


/// The name that a file's key is matched against is the lower-case,
/// underscore-free form of the switch name.
pub proof fn lemma_ident(i: int)
    requires
        0 <= i < PROP_COUNT,
    ensures
        ascii_lower(spec_wire_name(i)) == spec_ident(i),
{
    assert(ascii_lower(spec_wire_name(i)) =~= spec_ident(i));
}

/// The name that keys are matched against for the property at place `i`.
pub open spec fn spec_name(i: int) -> Seq<char> {
    ascii_lower(spec_wire_name(i))
}

/// The first place from `i` on whose name is `key`.
pub open spec fn slot_from(key: Seq<char>, i: int) -> Option<int>
    decreases PROP_COUNT - i,
{
    if i < 0 || i >= PROP_COUNT {
        None
    } else if spec_name(i) == key {
        Some(i)
    } else {
        slot_from(key, i + 1)
    }
}

/// The place of the property whose name is `key`, if any.
pub open spec fn slot_of_name(key: Seq<char>) -> Option<int> {
    slot_from(key, 0)
}

/// The first place from `i` on whose switch name is `key`.
pub open spec fn switch_slot_from(key: Seq<char>, i: int) -> Option<int>
    decreases PROP_COUNT - i,
{
    if i < 0 || i >= PROP_COUNT {
        None
    } else if spec_switchname(i) == key {
        Some(i)
    } else {
        switch_slot_from(key, i + 1)
    }
}

/// The place of the property whose switch name is `key`, if any.
pub open spec fn slot_of_switch(key: Seq<char>) -> Option<int> {
    switch_slot_from(key, 0)
}

pub proof fn lemma_idents_differ(i: int, j: int)
    requires
        0 <= j < i < PROP_COUNT,
    ensures
        spec_ident(i) != spec_ident(j),
{
    assert(spec_ident(i).len() != spec_ident(j).len() || spec_ident(i)[0] != spec_ident(j)[0]);
}

/// Each property is found under its own name.
pub proof fn lemma_slot_of_name(i: int)
    requires
        0 <= i < PROP_COUNT,
    ensures
        slot_of_name(spec_name(i)) == Some(i),
{
    assert forall|j: int| 0 <= j < i implies spec_name(j) != spec_name(i) by {
        lemma_ident(i);
        lemma_ident(j);
        lemma_idents_differ(i, j);
    }
    lemma_slot_from(spec_name(i), i, 0);
}

proof fn lemma_slot_from(key: Seq<char>, i: int, k: int)
    requires
        0 <= k <= i < PROP_COUNT,
        spec_name(i) == key,
        forall|j: int| 0 <= j < i ==> spec_name(j) != key,
    ensures
        slot_from(key, k) == Some(i),
    decreases i - k,
{
    if k < i {
        lemma_slot_from(key, i, k + 1);
    }
}

pub proof fn lemma_slot_range(key: Seq<char>, i: int)
    requires
        0 <= i,
    ensures
        slot_from(key, i) matches Some(j) ==> i <= j < PROP_COUNT,
        switch_slot_from(key, i) matches Some(j) ==> i <= j < PROP_COUNT,
    decreases PROP_COUNT - i,
{
    if i < PROP_COUNT {
        lemma_slot_range(key, i + 1);
    }
}

/// The place of the property whose name is `key` (see `slot_of_name`).
pub fn slot_by_name(key: &String) -> (r: Option<usize>)
    ensures
        match slot_of_name(key@) {
            Some(i) => 0 <= i < PROP_COUNT && r == Some(i as usize),
            None => r is None,
        },
        r matches Some(i) ==> i < PROP_COUNT,
{
    let mut i: usize = 0;
    while i < PROP_COUNT
        invariant
            i <= PROP_COUNT,
            slot_of_name(key@) == slot_from(key@, i as int),
        decreases PROP_COUNT - i,
    {
        proof {
            lemma_slot_range(key@, i as int);
        }
        let info = prop_info(i);
        if info.name == *key {
            return Some(i);
        }
        i += 1;
    }
    None
}

/// The place of the property whose switch name is `key` (see
/// `slot_of_switch`).
pub fn slot_by_switchname(key: &str) -> (r: Option<usize>)
    ensures
        match slot_of_switch(key@) {
            Some(i) => 0 <= i < PROP_COUNT && r == Some(i as usize),
            None => r is None,
        },
        r matches Some(i) ==> i < PROP_COUNT,
{
    let wanted = key.to_owned();
    let mut i: usize = 0;
    while i < PROP_COUNT
        invariant
            i <= PROP_COUNT,
            wanted@ == key@,
            slot_of_switch(key@) == switch_slot_from(key@, i as int),
        decreases PROP_COUNT - i,
    {
        proof {
            lemma_slot_range(key@, i as int);
        }
        let info = prop_info(i);
        if info.switchname.to_owned() == wanted {
            return Some(i);
        }
        i += 1;
    }
    None
}

/// Different properties have different names.
pub proof fn lemma_names_differ(i: int, j: int)
    requires
        0 <= i < PROP_COUNT,
        0 <= j < PROP_COUNT,
        i != j,
    ensures
        spec_name(i) != spec_name(j),
{
    lemma_ident(i);
    lemma_ident(j);
    if j < i {
        lemma_idents_differ(i, j);
    } else {
        lemma_idents_differ(j, i);
    }
}

/// Wire names hold no NUL.
pub proof fn lemma_wire_name_no_nul(i: int)
    requires
        0 <= i < PROP_COUNT,
    ensures
        forall|k: int| 0 <= k < spec_wire_name(i).len() ==> #[trigger] spec_wire_name(i)[k] != '\0',
{
}

} // verus!
