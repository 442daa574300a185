//! A parsed manifest, the snapshot of its profiles, and the application of a
//! template to one profile.
use vstd::prelude::*;
use toml_edit::{Document, Key, Table, TomlError};
use crate::section::{
    appended, field_has_key, field_keys_distinct, fields_view, inherits_key, inject_inherits, injected,
    lemma_merge_adds_only_field_keys, lemma_merge_appends_new_keys, lemma_merge_keeps_slots, merge_fields,
    merged, reapplied, section_applied, section_keys_kept, injected_keys, keys_prefix, slot_kept, lemma_section_applied_twice,
};
use crate::template::{builtin_name, is_builtin_name, is_builtin_profile, str_eq, BuiltinProfile, ProfileTemplate};
use crate::toml_doc::{
    document_root, document_text, reparsed_text, document_rest, root_is_table, toml_accepts, has_slot, keys_distinct, key_str, key_text, live, live_entries, new_table, parse_document,
    render_document, replace_slot, root_of, table_frame, table_keys, set_dotted, slot_at, swap_root, table_dotted, table_slots, value_datum, Datum,
    Node,
};

verus! {

/// The item that the slot with key `k` holds, if there is one.
pub open spec fn slot_of(s: Seq<(Seq<char>, Node)>, k: Seq<char>) -> Option<Node> {
    if has_slot(s, k) {
        Some(s[choose|i: int| slot_at(s, k, i)].1)
    } else {
        None
    }
}

/// `s` with the slot of key `k` set to `n` in place, or appended.
pub open spec fn set_slot(s: Seq<(Seq<char>, Node)>, k: Seq<char>, n: Node) -> Seq<(Seq<char>, Node)> {
    if has_slot(s, k) {
        s.update(choose|i: int| slot_at(s, k, i), (k, n))
    } else {
        s.push((k, n))
    }
}

/// Key `k` is free for a table (no slot, or one that is not read), or holds
/// one.
pub open spec fn table_or_absent(s: Seq<(Seq<char>, Node)>, k: Seq<char>) -> bool {
    match slot_of(s, k) {
        None => true,
        Some(n) => n is Table || n is Empty,
    }
}

/// The slots of the table under key `k`; none where there is no such table.
pub open spec fn table_under(s: Seq<(Seq<char>, Node)>, k: Seq<char>) -> Seq<(Seq<char>, Node)> {
    match slot_of(s, k) {
        Some(Node::Table(t)) => table_slots(t),
        _ => Seq::empty(),
    }
}

pub open spec fn profile_key() -> Seq<char> {
    "profile"@
}

/// `root2` is `root` with its `profile` table (created where absent) made
/// dotted, and the table `name` in it (created where absent) edited.
pub open spec fn profile_applied(
    root: Seq<(Seq<char>, Node)>,
    name: Seq<char>,
    base: BuiltinProfile,
    fields: Seq<(Seq<char>, Datum)>,
    root2: Seq<(Seq<char>, Node)>,
) -> bool {
    exists|p: Table, sec: Table| {
        &&& root2 == set_slot(root, profile_key(), Node::Table(p))
        &&& #[trigger] table_dotted(p)
        &&& table_slots(p) == set_slot(table_under(root, profile_key()), name, Node::Table(sec))
        &&& #[trigger] section_applied(
            table_under(table_under(root, profile_key()), name),
            name,
            base,
            fields,
            table_slots(sec),
        )
    }
}

/// What `replace_slot` does: `s1` is `s` with the slot of key `k` holding
/// `item`, and `r` what it held before.
pub open spec fn replaced(s: Seq<(Seq<char>, Node)>, k: Seq<char>, item: Node, r: Node, s1: Seq<(Seq<char>, Node)>) -> bool {
    &&& forall|i: int| #[trigger] slot_at(s, k, i) ==> r == s[i].1 && s1 == s.update(i, (k, item))
    &&& !has_slot(s, k) ==> r is Empty && s1 == s.push((k, item))
}

proof fn lemma_replaced(s: Seq<(Seq<char>, Node)>, k: Seq<char>, item: Node, r: Node, s1: Seq<(Seq<char>, Node)>)
    requires
        replaced(s, k, item, r, s1),
    ensures
        s1 == set_slot(s, k, item),
        r == match slot_of(s, k) {
            Some(n) => n,
            None => Node::Empty,
        },
{
    if has_slot(s, k) {
        let i = choose|i: int| slot_at(s, k, i);
        assert(slot_at(s, k, i));
    }
}

/// Two replacements of one slot leave it as the second one set it.
proof fn lemma_replaced_twice(
    s: Seq<(Seq<char>, Node)>,
    k: Seq<char>,
    a: Node,
    r: Node,
    s1: Seq<(Seq<char>, Node)>,
    b: Node,
    r2: Node,
    s2: Seq<(Seq<char>, Node)>,
)
    requires
        replaced(s, k, a, r, s1),
        replaced(s1, k, b, r2, s2),
    ensures
        s2 == set_slot(s, k, b),
{
    if has_slot(s, k) {
        let i = choose|i: int| slot_at(s, k, i);
        assert(slot_at(s, k, i));
        assert(slot_at(s1, k, i));
    } else {
        assert(slot_at(s1, k, s.len() as int));
        assert(s2 =~= s.push((k, b)));
    }
}

/// The index of the slot with key `k`.
pub open spec fn slot_index(s: Seq<(Seq<char>, Node)>, k: Seq<char>) -> int {
    choose|i: int| slot_at(s, k, i)
}

/// The formatting that an edit of profile `name` keeps in the `profile`
/// table `p0`, now `p`: its frame, its formatted keys, and those of the
/// profile's own table, where these tables were there before.
pub open spec fn profile_layout_kept(p0: Table, name: Seq<char>, p: Table) -> bool {
    let j = slot_index(table_slots(p0), name);
    &&& table_frame(p) == table_frame(p0)
    &&& keys_prefix(table_keys(p0), table_keys(p))
    &&& (has_slot(table_slots(p0), name) && table_slots(p0)[j].1 is Table) ==> {
        let s0 = table_slots(p0)[j].1->Table_0;
        let sec = table_slots(p)[j].1->Table_0;
        &&& table_slots(p)[j].1 is Table
        &&& table_frame(sec) == table_frame(s0)
        &&& section_keys_kept(table_keys(s0), table_slots(s0), name, table_keys(sec))
    }
}

/// The formatting that an edit of profile `name` keeps in the root table
/// `root0`, now `root`.
pub open spec fn layout_kept(root0: Table, name: Seq<char>, root: Table) -> bool {
    let i = slot_index(table_slots(root0), profile_key());
    &&& table_frame(root) == table_frame(root0)
    &&& keys_prefix(table_keys(root0), table_keys(root))
    &&& (has_slot(table_slots(root0), profile_key()) && table_slots(root0)[i].1 is Table) ==> {
        &&& table_slots(root)[i].1 is Table
        &&& profile_layout_kept(table_slots(root0)[i].1->Table_0, name, table_slots(root)[i].1->Table_0)
    }
}

/// What `replace_slot` does to the formatted keys.
pub open spec fn replaced_keys(s: Seq<(Seq<char>, Node)>, k: Seq<char>, k0: Seq<Key>, k1: Seq<Key>) -> bool {
    &&& forall|i: int| #[trigger] slot_at(s, k, i) ==> k1 == k0
    &&& !has_slot(s, k) ==> k1 == k0.push(k1.last())
}

proof fn lemma_keys_twice(
    s: Seq<(Seq<char>, Node)>,
    k: Seq<char>,
    a: Node,
    r: Node,
    s1: Seq<(Seq<char>, Node)>,
    k0: Seq<Key>,
    k1: Seq<Key>,
    k2: Seq<Key>,
)
    requires
        replaced(s, k, a, r, s1),
        replaced_keys(s, k, k0, k1),
        replaced_keys(s1, k, k1, k2),
    ensures
        keys_prefix(k0, k2),
{
    if has_slot(s, k) {
        let i = choose|i: int| slot_at(s, k, i);
        assert(slot_at(s, k, i));
        assert(slot_at(s1, k, i));
    } else {
        assert(slot_at(s1, k, s.len() as int));
    }
    assert(k2.subrange(0, k0.len() as int) =~= k0);
}

/// A profile table as it stood when the manifest was read.
pub struct ParsedProfile {
    pub name: String,
    pub items: Vec<(String, Node)>,
}

impl ParsedProfile {
    pub fn name(&self) -> (r: &str)
        ensures
            r@ == self.name@,
    {
        self.name.as_str()
    }

    pub fn items(&self) -> (r: &Vec<(String, Node)>)
        ensures
            r == &self.items,
    {
        &self.items
    }
}

/// The profile snapshot of a table's slots: one entry per slot that is read
/// and holds a table.
pub open spec fn profile_tables(s: Seq<(Seq<char>, Node)>) -> Seq<(Seq<char>, Table)>
    decreases s.len(),
{
    if s.len() == 0 {
        Seq::empty()
    } else {
        let rest = profile_tables(s.drop_last());
        match s.last().1 {
            Node::Table(t) => rest.push((s.last().0, t)),
            _ => rest,
        }
    }
}

/// The keys and items of a list of entries.
pub open spec fn entries_view(items: Seq<(String, Node)>) -> Seq<(Seq<char>, Node)> {
    items.map_values(|e: (String, Node)| (e.0@, e.1))
}

/// A profile snapshot that matches `tables`, entry by entry.
pub open spec fn snapshot_of(profiles: Seq<ParsedProfile>, tables: Seq<(Seq<char>, Table)>) -> bool {
    &&& profiles.len() == tables.len()
    &&& forall|i: int| 0 <= i < profiles.len() ==> {
        &&& (#[trigger] profiles[i]).name@ == tables[i].0
        &&& entries_view(profiles[i].items@) == live(table_slots(tables[i].1))
    }
}

/// No two profiles of a snapshot share a name, and no two items of a
/// profile share a key.
pub open spec fn profiles_distinct(ps: Seq<ParsedProfile>) -> bool {
    &&& forall|a: int, b: int| 0 <= a < ps.len() && 0 <= b < ps.len() && a != b ==> ps[a].name@ != ps[b].name@
    &&& forall|i: int| 0 <= i < ps.len() ==> keys_distinct(entries_view(#[trigger] ps[i].items@))
}

/// Why a template could not be applied.
#[derive(Debug, PartialEq, Eq)]
pub enum ApplyError {
    /// `profile` holds something other than a table.
    ProfileNotTable,
    /// `profile.<name>` holds something other than a table.
    NamedProfileNotTable(String),
}

/// Why a manifest could not be read.
#[derive(Debug)]
pub enum ManifestError {
    Parse(TomlError),
}

/// A manifest document and the profiles that it held when it was read.
pub struct ParsedManifest {
    document: Document,
    profiles: Vec<ParsedProfile>,
}

impl ParsedManifest {
    #[verifier::type_invariant]
    spec fn inv(&self) -> bool {
        root_is_table(self.document)
    }
}

/// The entries of a table that are read, with plain keys.
fn plain_entries(t: &Table) -> (r: Vec<(String, Node)>)
    ensures
        entries_view(r@) == live(table_slots(*t)),
        keys_distinct(entries_view(r@)),
{
    let mut entries = live_entries(t);
    let ghost orig = entries@;
    let ghost l = live(table_slots(*t));
    let n = entries.len();
    let mut out: Vec<(String, Node)> = Vec::new();
    let mut k: usize = 0;
    while k < n
        invariant
            n == orig.len(),
            n == l.len(),
            k <= n,
            entries@ == orig.subrange(k as int, n as int),
            forall|j: int| 0 <= j < n ==> key_text(#[trigger] orig[j].0) == l[j].0 && orig[j].1 == l[j].1,
            entries_view(out@) == l.subrange(0, k as int),
        decreases n - k,
    {
        let (key, node) = entries.remove(0);
        assert(key_text(orig[k as int].0) == l[k as int].0);
        let text = key_str(&key).to_owned();
        let ghost prev = out@;
        let ghost gnode = node;
        assert(gnode == l[k as int].1);
        out.push((text, node));
        assert(entries_view(out@) =~= entries_view(prev).push((text@, gnode)));
        assert(entries_view(out@) =~= l.subrange(0, k + 1));
        k = k + 1;
    }
    assert(l.subrange(0, n as int) =~= l);
    assert forall|a: int, b: int| 0 <= a < n && 0 <= b < n && a != b implies l[a].0 != l[b].0 by {
        assert(key_text(orig[a].0) == l[a].0);
        assert(key_text(orig[b].0) == l[b].0);
    }
    out
}

/// The snapshot of the profile tables in the slots that are read of `p`.
fn snapshot(p: &Table) -> (r: Vec<ParsedProfile>)
    ensures
        snapshot_of(r@, profile_tables(live(table_slots(*p)))),
        profiles_distinct(r@),
{
    let mut entries = live_entries(p);
    let ghost orig = entries@;
    let ghost l = live(table_slots(*p));
    let n = entries.len();
    let mut out: Vec<ParsedProfile> = Vec::new();
    let ghost mut idx: Seq<int> = Seq::empty();
    assert forall|a: int, b: int| 0 <= a < n && 0 <= b < n && a != b implies l[a].0 != l[b].0 by {
        assert(key_text(orig[a].0) == l[a].0);
        assert(key_text(orig[b].0) == l[b].0);
    }
    let mut k: usize = 0;
    while k < n
        invariant
            n == orig.len(),
            n == l.len(),
            k <= n,
            entries@ == orig.subrange(k as int, n as int),
            forall|j: int| 0 <= j < n ==> key_text(#[trigger] orig[j].0) == l[j].0 && orig[j].1 == l[j].1,
            snapshot_of(out@, profile_tables(l.subrange(0, k as int))),
            forall|a: int, b: int| 0 <= a < n && 0 <= b < n && a != b ==> l[a].0 != l[b].0,
            idx.len() == out@.len(),
            forall|a: int| 0 <= a < idx.len() ==> 0 <= #[trigger] idx[a] < k && out@[a].name@ == l[idx[a]].0,
            forall|a: int, b: int| 0 <= a < b < idx.len() ==> #[trigger] idx[a] < #[trigger] idx[b],
            forall|i: int| 0 <= i < out@.len() ==> keys_distinct(entries_view(#[trigger] out@[i].items@)),
        decreases n - k,
    {
        let (key, node) = entries.remove(0);
        assert(key_text(orig[k as int].0) == l[k as int].0);
        let ghost prev = out@;
        assert(l.subrange(0, k + 1).drop_last() =~= l.subrange(0, k as int));
        match node {
            Node::Table(t) => {
                let items = plain_entries(&t);
                let name = key_str(&key).to_owned();
                out.push(ParsedProfile { name, items });
                proof {
                    idx = idx.push(k as int);
                    assert forall|i: int| 0 <= i < out@.len() implies keys_distinct(entries_view(#[trigger] out@[i].items@)) by {
                        if i < prev.len() {
                            assert(out@[i] == prev[i]);
                        }
                    }
                    assert forall|a: int| 0 <= a < idx.len() implies 0 <= #[trigger] idx[a] < k + 1 && out@[a].name@ == l[idx[a]].0 by {
                        if a < prev.len() {
                            assert(out@[a] == prev[a]);
                        }
                    }
                }
                assert(snapshot_of(out@, profile_tables(l.subrange(0, k + 1)))) by {
                    let tables = profile_tables(l.subrange(0, k + 1));
                    assert(tables == profile_tables(l.subrange(0, k as int)).push((l[k as int].0, t)));
                    assert forall|i: int| 0 <= i < out@.len() implies {
                        &&& (#[trigger] out@[i]).name@ == tables[i].0
                        &&& entries_view(out@[i].items@) == live(table_slots(tables[i].1))
                    } by {
                        if i < prev.len() {
                            assert(out@[i] == prev[i]);
                        }
                    }
                }
            },
            _ => {
                assert(profile_tables(l.subrange(0, k + 1)) == profile_tables(l.subrange(0, k as int)));
            },
        }
        k = k + 1;
    }
    assert(l.subrange(0, n as int) =~= l);
    assert forall|a: int, b: int| 0 <= a < out@.len() && 0 <= b < out@.len() && a != b implies out@[a].name@ != out@[b].name@ by {
        if a < b {
            assert(idx[a] < idx[b]);
        } else {
            assert(idx[b] < idx[a]);
        }
    }
    out
}

/// The position of the entry with key `key`, if any.
fn find_entry(entries: &Vec<(Key, Node)>, key: &str) -> (r: Option<usize>)
    ensures
        match r {
            Some(i) => i < entries@.len() && key_text(entries@[i as int].0) == key@,
            None => forall|i: int| 0 <= i < entries@.len() ==> key_text(#[trigger] entries@[i].0) != key@,
        },
{
    let n = entries.len();
    let mut i: usize = 0;
    while i < n
        invariant
            n == entries@.len(),
            i <= n,
            forall|j: int| 0 <= j < i ==> key_text(#[trigger] entries@[j].0) != key@,
        decreases n - i,
    {
        if str_eq(key_str(&entries[i].0), key) {
            return Some(i);
        }
        i = i + 1;
    }
    None
}

impl ParsedManifest {
    /// The document.
    pub closed spec fn document(&self) -> Document {
        self.document
    }

    /// The root table of the document.
    pub open spec fn root_table(&self) -> Table {
        document_root(self.document())
    }

    /// The profiles that the manifest held when it was read.
    pub closed spec fn profiles_view(&self) -> Seq<ParsedProfile> {
        self.profiles@
    }

    /// Wraps a parsed document, taking the snapshot of its profiles: the
    /// entries of `profile` that hold tables, where `profile` is a table.
    pub fn from_document(document: Document) -> (r: ParsedManifest)
        requires
            root_is_table(document),
        ensures
            r.document() == document,
            profiles_distinct(r.profiles_view()),
            match slot_of(live(table_slots(document_root(document))), profile_key()) {
                Some(Node::Table(p)) => snapshot_of(r.profiles_view(), profile_tables(live(table_slots(p)))),
                _ => r.profiles_view().len() == 0,
            },
    {
        let root = root_of(&document);
        let entries = live_entries(root);
        let ghost l = live(table_slots(*root));
        let mut profiles: Vec<ParsedProfile> = Vec::new();
        match find_entry(&entries, "profile") {
            Some(i) => {
                proof {
                    reveal_strlit("profile");
                    assert(slot_at(l, profile_key(), i as int));
                    let j = choose|j: int| slot_at(l, profile_key(), j);
                    if j != i {
                        assert(key_text(entries@[j].0) != key_text(entries@[i as int].0));
                    }
                }
                match &entries[i].1 {
                    Node::Table(p) => {
                        profiles = snapshot(p);
                    },
                    _ => {},
                }
            },
            None => {
                proof {
                    reveal_strlit("profile");
                    assert forall|j: int| !slot_at(l, profile_key(), j) by {
                        if 0 <= j < l.len() {
                            assert(key_text(entries@[j].0) != profile_key());
                        }
                    }
                }
            },
        }
        ParsedManifest { document, profiles }
    }

    /// The profiles that the manifest held when it was read.
    pub fn profiles(&self) -> (r: &Vec<ParsedProfile>)
        ensures
            r@ == self.profiles_view(),
    {
        &self.profiles
    }

    /// The document as text.
    pub fn to_text(&self) -> (r: String)
        ensures
            r@ == document_text(self.document()),
    {
        proof {
            use_type_invariant(self);
        }
        render_document(&self.document)
    }

    /// Applies a template to the profile `name`, creating the `profile`
    /// table and the profile's own table where they are absent.
    pub fn apply_profile(self, name: &str, template: ProfileTemplate) -> (r: Result<ParsedManifest, ApplyError>)
        ensures
            ({
                let root = table_slots(self.root_table());
                let profiles = table_under(root, profile_key());
                match r {
                    Err(ApplyError::ProfileNotTable) => !table_or_absent(root, profile_key()),
                    Err(ApplyError::NamedProfileNotTable(n)) => {
                        &&& table_or_absent(root, profile_key())
                        &&& !table_or_absent(profiles, name@)
                        &&& n@ == name@
                    },
                    Ok(m) => {
                        &&& table_or_absent(root, profile_key())
                        &&& table_or_absent(profiles, name@)
                        &&& profile_applied(root, name@, template.inherits, fields_view(template.fields@), table_slots(m.root_table()))
                        &&& layout_kept(self.root_table(), name@, m.root_table())
                        &&& document_rest(m.document()) == document_rest(self.document())
                        &&& keys_distinct(root)
                        &&& keys_distinct(profiles)
                        &&& keys_distinct(table_under(profiles, name@))
                        &&& m.profiles_view() == self.profiles_view()
                    },
                }
            }),
    {
        proof {
            use_type_invariant(&self);
        }
        let mut document = self.document;
        let mut root = swap_root(&mut document, new_table());
        let ghost root0 = table_slots(root);
        let ghost root_t0 = root;
        proof {
            reveal_strlit("profile");
        }
        let placeholder = new_table();
        let ghost ph = placeholder;
        let prev = replace_slot(&mut root, "profile", Node::Table(placeholder));
        let ghost root1 = table_slots(root);
        let ghost rk1 = table_keys(root);
        let ghost gprev = prev;
        proof {
            assert(replaced(root0, profile_key(), Node::Table(ph), gprev, root1));
            lemma_replaced(root0, profile_key(), Node::Table(ph), gprev, root1);
        }
        let mut profiles = match prev {
            Node::Empty => new_table(),
            Node::Table(p) => p,
            _ => {
                return Err(ApplyError::ProfileNotTable);
            },
        };
        let ghost prof_t0 = profiles;
        set_dotted(&mut profiles, true);
        let ghost p0 = table_slots(profiles);
        assert(p0 == table_under(root0, profile_key()));
        let fresh = new_table();
        let ghost gfresh = fresh;
        let prev_named = replace_slot(&mut profiles, name, Node::Table(fresh));
        let ghost p1 = table_slots(profiles);
        let ghost pk1 = table_keys(profiles);
        let ghost gprev_named = prev_named;
        proof {
            assert(replaced(p0, name@, Node::Table(gfresh), gprev_named, p1));
            lemma_replaced(p0, name@, Node::Table(gfresh), gprev_named, p1);
        }
        let mut section = match prev_named {
            Node::Empty => new_table(),
            Node::Table(s) => s,
            _ => {
                return Err(ApplyError::NamedProfileNotTable(name.to_owned()));
            },
        };
        let ghost sec0 = table_slots(section);
        let ghost sec_t0 = section;
        assert(sec0 == table_under(p0, name@));
        let builtin = is_builtin_profile(name);
        if !builtin {
            inject_inherits(&mut section, template.inherits);
        }
        let ghost mid = table_slots(section);
        let ghost mid_keys = table_keys(section);
        merge_fields(&mut section, &template.fields);
        let ghost sec = section;
        let r2 = replace_slot(&mut profiles, name, Node::Table(section));
        let ghost p = profiles;
        proof {
            assert(replaced(p1, name@, Node::Table(sec), r2, table_slots(p)));
            lemma_replaced_twice(p0, name@, Node::Table(gfresh), gprev_named, p1, Node::Table(sec), r2, table_slots(p));
        }
        let r1 = replace_slot(&mut root, "profile", Node::Table(profiles));
        proof {
            assert(replaced(root1, profile_key(), Node::Table(p), r1, table_slots(root)));
            lemma_replaced_twice(root0, profile_key(), Node::Table(ph), gprev, root1, Node::Table(p), r1, table_slots(root));
            let fv = fields_view(template.fields@);
            if builtin {
                assert(sec0 == mid);
                assert(section_applied(sec0, name@, template.inherits, fv, table_slots(sec)));
            } else {
                assert(injected(sec0, template.inherits, mid));
                assert(section_applied(sec0, name@, template.inherits, fv, table_slots(sec)));
            }
            assert(table_dotted(p));
            assert(replaced_keys(root0, profile_key(), table_keys(root_t0), rk1));
            assert(replaced_keys(root1, profile_key(), rk1, table_keys(root)));
            lemma_keys_twice(root0, profile_key(), Node::Table(ph), gprev, root1, table_keys(root_t0), rk1, table_keys(root));
            assert(replaced_keys(p0, name@, table_keys(prof_t0), pk1));
            assert(replaced_keys(p1, name@, pk1, table_keys(p)));
            lemma_keys_twice(p0, name@, Node::Table(gfresh), gprev_named, p1, table_keys(prof_t0), pk1, table_keys(p));
            if builtin {
                assert(section_keys_kept(table_keys(sec_t0), sec0, name@, table_keys(sec)));
            } else {
                assert(injected_keys(table_keys(sec_t0), sec0, mid_keys));
                assert(section_keys_kept(table_keys(sec_t0), sec0, name@, table_keys(sec)));
            }
            let i = slot_index(root0, profile_key());
            if has_slot(root0, profile_key()) && root0[i].1 is Table {
                assert(slot_at(root0, profile_key(), i));
                assert(gprev == root0[i].1);
                assert(table_slots(root)[i].1 == Node::Table(p));
                let j = slot_index(p0, name@);
                if has_slot(p0, name@) && p0[j].1 is Table {
                    assert(slot_at(p0, name@, j));
                    assert(gprev_named == p0[j].1);
                    assert(table_slots(p)[j].1 == Node::Table(sec));
                }
                assert(profile_layout_kept(prof_t0, name@, p));
            }
            assert(layout_kept(root_t0, name@, root));
            assert(keys_distinct(root0));
            assert(keys_distinct(p0));
            assert(keys_distinct(sec0));
        }
        swap_root(&mut document, root);
        Ok(ParsedManifest { document, profiles: self.profiles })
    }
}

/// Parses manifest text and takes the snapshot of its profiles.
pub fn parse_manifest(text: &str) -> (r: Result<ParsedManifest, ManifestError>)
    ensures
        r is Ok == toml_accepts(text@),
        r is Ok ==> document_text(r->Ok_0.document()) == reparsed_text(text@),
        r is Ok ==> profiles_distinct(r->Ok_0.profiles_view()),
        r is Ok ==> match slot_of(live(table_slots(r->Ok_0.root_table())), profile_key()) {
            Some(Node::Table(p)) => snapshot_of(r->Ok_0.profiles_view(), profile_tables(live(table_slots(p)))),
            _ => r->Ok_0.profiles_view().len() == 0,
        },
{
    match parse_document(text) {
        Ok(document) => Ok(ParsedManifest::from_document(document)),
        Err(e) => Err(ManifestError::Parse(e)),
    }
}

/// A custom profile without an `inherits` key gets one, first, naming the
/// template's base (where no field of the template sets `inherits` itself).
pub proof fn lemma_custom_profile_inherits_first(
    s: Seq<(Seq<char>, Node)>,
    name: Seq<char>,
    base: BuiltinProfile,
    fields: Seq<(Seq<char>, Datum)>,
    s2: Seq<(Seq<char>, Node)>,
)
    requires
        !is_builtin_name(name),
        section_applied(s, name, base, fields, s2),
        !has_slot(live(s), inherits_key()),
        !field_has_key(fields, inherits_key()),
    ensures
        s2.len() > 0,
        s2[0].0 == inherits_key(),
        s2[0].1 is Value,
        value_datum(s2[0].1->Value_0) == Datum::Text(builtin_name(base)),
{
    let mid = choose|mid: Seq<(Seq<char>, Node)>| #[trigger] injected(s, base, mid) && merged(mid, fields, s2);
    lemma_merge_keeps_slots(mid, fields, s2);
    assert(slot_kept(mid, fields, s2, 0));
}

/// An `inherits` key that a custom profile already has keeps its position,
/// its value and its formatting (where no field of the template sets
/// `inherits`).
pub proof fn lemma_custom_profile_inherits_kept(
    s: Seq<(Seq<char>, Node)>,
    name: Seq<char>,
    base: BuiltinProfile,
    fields: Seq<(Seq<char>, Datum)>,
    s2: Seq<(Seq<char>, Node)>,
)
    requires
        !is_builtin_name(name),
        section_applied(s, name, base, fields, s2),
        has_slot(live(s), inherits_key()),
        !field_has_key(fields, inherits_key()),
    ensures
        forall|i: int| #[trigger] slot_at(s, inherits_key(), i) ==> i < s2.len() && s2[i] == s[i],
{
    let mid = choose|mid: Seq<(Seq<char>, Node)>| #[trigger] injected(s, base, mid) && merged(mid, fields, s2);
    lemma_merge_keeps_slots(s, fields, s2);
    assert forall|i: int| #[trigger] slot_at(s, inherits_key(), i) implies i < s2.len() && s2[i] == s[i] by {
        assert(slot_kept(s, fields, s2, i));
    }
}

/// A builtin profile never gets an `inherits` key that neither it nor the
/// template had.
pub proof fn lemma_builtin_profile_no_inherits(
    s: Seq<(Seq<char>, Node)>,
    name: Seq<char>,
    base: BuiltinProfile,
    fields: Seq<(Seq<char>, Datum)>,
    s2: Seq<(Seq<char>, Node)>,
)
    requires
        is_builtin_name(name),
        section_applied(s, name, base, fields, s2),
        !has_slot(s, inherits_key()),
        !field_has_key(fields, inherits_key()),
    ensures
        !has_slot(s2, inherits_key()),
{
    if has_slot(s2, inherits_key()) {
        lemma_merge_adds_only_field_keys(s, fields, s2, inherits_key());
    }
}

/// A manifest without a `profile` table gets one at its end, dotted, that
/// holds the requested profile alone: for a custom profile its `inherits`
/// key first, then the template's fields in their order.
pub proof fn lemma_profile_created(
    root: Seq<(Seq<char>, Node)>,
    name: Seq<char>,
    base: BuiltinProfile,
    fields: Seq<(Seq<char>, Datum)>,
    root2: Seq<(Seq<char>, Node)>,
)
    requires
        !has_slot(root, profile_key()),
        profile_applied(root, name, base, fields, root2),
        field_keys_distinct(fields),
        !field_has_key(fields, inherits_key()),
    ensures
        exists|p: Table, sec: Table| {
            &&& root2 == root.push((profile_key(), Node::Table(p)))
            &&& #[trigger] table_dotted(p)
            &&& table_slots(p) == seq![(name, Node::Table(sec))]
            &&& is_builtin_name(name) ==> appended(Seq::empty(), fields, #[trigger] table_slots(sec))
            &&& !is_builtin_name(name) ==> {
                &&& table_slots(sec).len() > 0
                &&& table_slots(sec)[0].0 == inherits_key()
                &&& value_datum(table_slots(sec)[0].1->Value_0) == Datum::Text(builtin_name(base))
                &&& appended(table_slots(sec).subrange(0, 1), fields, table_slots(sec))
            }
        },
{
    let (p, sec) = choose|p: Table, sec: Table| {
        &&& root2 == set_slot(root, profile_key(), Node::Table(p))
        &&& #[trigger] table_dotted(p)
        &&& table_slots(p) == set_slot(table_under(root, profile_key()), name, Node::Table(sec))
        &&& #[trigger] section_applied(
            table_under(table_under(root, profile_key()), name),
            name,
            base,
            fields,
            table_slots(sec),
        )
    };
    let empty = Seq::<(Seq<char>, Node)>::empty();
    assert(table_under(root, profile_key()) == empty);
    assert(!has_slot(empty, name));
    assert(table_slots(p) =~= seq![(name, Node::Table(sec))]);
    assert(table_under(empty, name) == empty);
    let s2 = table_slots(sec);
    assert forall|j: int| 0 <= j < fields.len() implies !has_slot(empty, #[trigger] fields[j].0) by {}
    if is_builtin_name(name) {
        lemma_merge_appends_new_keys(empty, fields, s2);
    } else {
        lemma_custom_profile_inherits_first(empty, name, base, fields, s2);
        let mid = choose|mid: Seq<(Seq<char>, Node)>| #[trigger] injected(empty, base, mid) && merged(mid, fields, s2);
        assert(live(empty) == empty);
        assert(mid.len() == 1);
        assert forall|j: int| 0 <= j < fields.len() implies !has_slot(mid, #[trigger] fields[j].0) by {
            if has_slot(mid, fields[j].0) {
                let i = choose|i: int| slot_at(mid, fields[j].0, i);
                assert(i == 0);
                assert(fields[j].0 == inherits_key());
            }
        }
        lemma_merge_appends_new_keys(mid, fields, s2);
        assert(s2.subrange(0, 1) == mid);
    }
}

proof fn lemma_set_slot_distinct(s: Seq<(Seq<char>, Node)>, k: Seq<char>, n: Node)
    requires
        keys_distinct(s),
    ensures
        keys_distinct(set_slot(s, k, n)),
        slot_of(set_slot(s, k, n), k) == Some(n),
        table_under(set_slot(s, k, n), k) == match n {
            Node::Table(t) => table_slots(t),
            _ => Seq::<(Seq<char>, Node)>::empty(),
        },
{
    let s2 = set_slot(s, k, n);
    let idx = if has_slot(s, k) { choose|i: int| slot_at(s, k, i) } else { s.len() as int };
    assert(slot_at(s2, k, idx));
    assert forall|i: int| #[trigger] slot_at(s2, k, i) implies i == idx by {
        if i != idx {
            assert(s2[i] == s[i]);
            if has_slot(s, k) {
                assert(s[idx].0 == k);
            } else {
                assert(slot_at(s, k, i));
            }
        }
    }
    assert(keys_distinct(s2)) by {
        assert forall|a: int, b: int| 0 <= a < s2.len() && 0 <= b < s2.len() && a != b implies s2[a].0 != s2[b].0 by {
            if a != idx && b != idx {
                assert(s2[a] == s[a] && s2[b] == s[b]);
            } else if a == idx {
                assert(!slot_at(s2, k, b));
            } else {
                assert(!slot_at(s2, k, a));
            }
        }
    }
}

/// Applying a template a second time, to what the first application gave,
/// replaces the `profile` table and the profile's table in their places by
/// tables that agree with the first result slot by slot (on tables whose
/// keys are distinct, as those of a parsed document are).
pub proof fn lemma_profile_applied_twice(
    root: Seq<(Seq<char>, Node)>,
    name: Seq<char>,
    base: BuiltinProfile,
    fields: Seq<(Seq<char>, Datum)>,
    root1: Seq<(Seq<char>, Node)>,
    root2: Seq<(Seq<char>, Node)>,
)
    requires
        keys_distinct(root),
        keys_distinct(table_under(root, profile_key())),
        keys_distinct(table_under(table_under(root, profile_key()), name)),
        profile_applied(root, name, base, fields, root1),
        profile_applied(root1, name, base, fields, root2),
    ensures
        exists|p1: Table, sec1: Table, p2: Table, sec2: Table| {
            &&& root1 == set_slot(root, profile_key(), Node::Table(p1))
            &&& root2 == set_slot(root1, profile_key(), Node::Table(p2))
            &&& #[trigger] table_slots(p1) == set_slot(table_under(root, profile_key()), name, Node::Table(sec1))
            &&& #[trigger] table_slots(p2) == set_slot(table_slots(p1), name, Node::Table(sec2))
            &&& #[trigger] reapplied(table_slots(sec1), fields, table_slots(sec2))
        },
{
    let pk = profile_key();
    let (p1, sec1) = choose|p: Table, sec: Table| {
        &&& root1 == set_slot(root, pk, Node::Table(p))
        &&& #[trigger] table_dotted(p)
        &&& table_slots(p) == set_slot(table_under(root, pk), name, Node::Table(sec))
        &&& #[trigger] section_applied(table_under(table_under(root, pk), name), name, base, fields, table_slots(sec))
    };
    let (p2, sec2) = choose|p: Table, sec: Table| {
        &&& root2 == set_slot(root1, pk, Node::Table(p))
        &&& #[trigger] table_dotted(p)
        &&& table_slots(p) == set_slot(table_under(root1, pk), name, Node::Table(sec))
        &&& #[trigger] section_applied(table_under(table_under(root1, pk), name), name, base, fields, table_slots(sec))
    };
    lemma_set_slot_distinct(root, pk, Node::Table(p1));
    assert(table_under(root1, pk) == table_slots(p1));
    lemma_set_slot_distinct(table_under(root, pk), name, Node::Table(sec1));
    assert(table_under(table_under(root1, pk), name) == table_slots(sec1));
    lemma_section_applied_twice(
        table_under(table_under(root, pk), name),
        name,
        base,
        fields,
        table_slots(sec1),
        table_slots(sec2),
    );
}

} // verus!
