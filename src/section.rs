//! Edits of one profile table: the `inherits` key of a custom profile, and
//! the merge of a template's fields.
use vstd::prelude::*;
use toml_edit::{Key, Table, Value};
use crate::template::{builtin_name, is_builtin_name, str_eq, BuiltinProfile, TemplateValue};
use crate::toml_doc::{
    bool_value, bool_toml, integer_toml, string_toml, redecorated, clear_table, has_slot, live_keys, table_frame, table_keys, insert_formatted, integer_value, key_str, key_text, keys_distinct, live,
    live_entries, replace_slot, slot_at, string_value, table_dotted, table_slots, value_datum,
    value_decor, with_decor_of, Datum, Node,
};

verus! {

/// `k0` is a prefix of `k`: no formatted key is changed or moved.
pub open spec fn keys_prefix(k0: Seq<Key>, k: Seq<Key>) -> bool {
    k0.len() <= k.len() && k.subrange(0, k0.len() as int) == k0
}

pub open spec fn inherits_key() -> Seq<char> {
    "inherits"@
}

/// What a template value holds, as a TOML datum.
pub open spec fn field_datum(v: TemplateValue) -> Datum {
    match v {
        TemplateValue::Bool(b) => Datum::Bool(b),
        TemplateValue::Integer(n) => Datum::Integer(n as int),
        TemplateValue::Text(s) => Datum::Text(s@),
    }
}

/// The fields of a template, as keys and data.
pub open spec fn fields_view(fields: Seq<(String, TemplateValue)>) -> Seq<(Seq<char>, Datum)> {
    fields.map_values(|f: (String, TemplateValue)| (f.0@, field_datum(f.1)))
}

/// `s2` is `s` with key `k` set to a fresh value holding `d`: in place, with
/// the formatting of the value that was there, or appended.
pub open spec fn merge_step(s: Seq<(Seq<char>, Node)>, k: Seq<char>, d: Datum, s2: Seq<(Seq<char>, Node)>) -> bool {
    exists|v: Value| {
        &&& #[trigger] value_datum(v) == d
        &&& if has_slot(s, k) {
            let i = choose|i: int| slot_at(s, k, i);
            &&& s2 == s.update(i, (k, Node::Value(v)))
            &&& (s[i].1 is Value ==> value_decor(v) == value_decor(s[i].1->Value_0))
            &&& (s[i].1 is Value ==> v == redecorated(toml_of(d), value_decor(s[i].1->Value_0)))
            &&& (!(s[i].1 is Value) ==> v == toml_of(d))
        } else {
            &&& s2 == s.push((k, Node::Value(v)))
            &&& v == toml_of(d)
        }
    }
}

/// The fresh TOML value that `toml_edit` makes for a datum of a template.
pub open spec fn toml_of(d: Datum) -> Value {
    match d {
        Datum::Bool(b) => bool_toml(b),
        Datum::Integer(n) => integer_toml(n),
        Datum::Text(t) => string_toml(t),
        Datum::Other => arbitrary(),
    }
}

/// `states` runs from `s` through one `merge_step` per field.
pub open spec fn merge_trace(s: Seq<(Seq<char>, Node)>, fields: Seq<(Seq<char>, Datum)>, states: Seq<Seq<(Seq<char>, Node)>>) -> bool {
    &&& states.len() == fields.len() + 1
    &&& states[0] == s
    &&& forall|i: int| 0 <= i < fields.len() ==> merge_step(#[trigger] states[i], fields[i].0, fields[i].1, states[i + 1])
}

/// `s2` is `s` after setting each field in turn.
pub open spec fn merged(s: Seq<(Seq<char>, Node)>, fields: Seq<(Seq<char>, Datum)>, s2: Seq<(Seq<char>, Node)>) -> bool {
    exists|states: Seq<Seq<(Seq<char>, Node)>>| #[trigger] merge_trace(s, fields, states) && states.last() == s2
}

/// `s2` is `s` with an `inherits` key naming `base` put first, unless a
/// slot that is read already has that key, in which case nothing changes.
pub open spec fn injected(s: Seq<(Seq<char>, Node)>, base: BuiltinProfile, s2: Seq<(Seq<char>, Node)>) -> bool {
    if has_slot(live(s), inherits_key()) {
        s2 == s
    } else {
        exists|v: Value| {
            &&& #[trigger] value_datum(v) == Datum::Text(builtin_name(base))
            &&& v == string_toml(builtin_name(base))
            &&& s2 == seq![(inherits_key(), Node::Value(v))] + live(s)
        }
    }
}

/// The edit of one profile table: for a custom profile the `inherits` key
/// first, then the fields.
pub open spec fn section_applied(
    s: Seq<(Seq<char>, Node)>,
    name: Seq<char>,
    base: BuiltinProfile,
    fields: Seq<(Seq<char>, Datum)>,
    s2: Seq<(Seq<char>, Node)>,
) -> bool {
    if is_builtin_name(name) {
        merged(s, fields, s2)
    } else {
        exists|mid: Seq<(Seq<char>, Node)>| #[trigger] injected(s, base, mid) && merged(mid, fields, s2)
    }
}

/// The formatted keys after `inject_inherits`: unchanged where a slot that
/// is read has the key `inherits`; else a key `inherits` first, then the
/// formatted keys of the slots that are read, as they were.
pub open spec fn injected_keys(k0: Seq<Key>, s0: Seq<(Seq<char>, Node)>, k: Seq<Key>) -> bool {
    if has_slot(live(s0), inherits_key()) {
        k == k0
    } else {
        &&& k.len() > 0
        &&& key_text(k[0]) == inherits_key()
        &&& k.drop_first() == live_keys(k0, s0)
    }
}

/// The formatted keys of a profile table after its edit: those of the
/// slots kept in place, behind a new `inherits` key where one is added.
pub open spec fn section_keys_kept(k0: Seq<Key>, s0: Seq<(Seq<char>, Node)>, name: Seq<char>, k: Seq<Key>) -> bool {
    if is_builtin_name(name) {
        keys_prefix(k0, k)
    } else {
        exists|mid: Seq<Key>| #[trigger] injected_keys(k0, s0, mid) && keys_prefix(mid, k)
    }
}

/// A fresh TOML value holding a template value.
pub fn field_value(v: &TemplateValue) -> (r: Value)
    ensures
        value_datum(r) == field_datum(*v),
        r == toml_of(field_datum(*v)),
{
    match v {
        TemplateValue::Bool(b) => bool_value(*b),
        TemplateValue::Integer(n) => integer_value(*n),
        TemplateValue::Text(s) => string_value(s.as_str()),
    }
}

/// Sets `key` to a fresh value holding `val`. An existing value keeps its
/// place and its formatting; a new key goes last.
pub fn set_field(t: &mut Table, key: &str, val: &TemplateValue)
    ensures
        merge_step(table_slots(*old(t)), key@, field_datum(*val), table_slots(*final(t))),
        table_dotted(*final(t)) == table_dotted(*old(t)),
        table_frame(*final(t)) == table_frame(*old(t)),
        keys_prefix(table_keys(*old(t)), table_keys(*final(t))),
{
    let ghost s = table_slots(*t);
    let prev = replace_slot(t, key, Node::Empty);
    let ghost s1 = table_slots(*t);
    let fresh = field_value(val);
    let v = match prev {
        Node::Value(old_value) => with_decor_of(fresh, &old_value),
        _ => fresh,
    };
    let ghost gv = v;
    proof {
        if has_slot(s, key@) {
            let i = choose|i: int| slot_at(s, key@, i);
            assert(slot_at(s, key@, i));
            assert(slot_at(s1, key@, i));
        } else {
            assert(slot_at(s1, key@, s.len() as int));
        }
    }
    let ghost k0 = table_keys(*t);
    replace_slot(t, key, Node::Value(v));
    proof {
        let s2 = table_slots(*t);
        if !has_slot(s, key@) {
            assert(table_keys(*t) == k0);
            assert(k0.drop_last() =~= table_keys(*old(t)));
            assert(k0.subrange(0, table_keys(*old(t)).len() as int) =~= table_keys(*old(t)));
        } else {
            assert(table_keys(*old(t)).subrange(0, table_keys(*old(t)).len() as int) =~= table_keys(*old(t)));
        }
        if has_slot(s, key@) {
            let i = choose|i: int| slot_at(s, key@, i);
            assert(s2 == s.update(i, (key@, Node::Value(gv))));
        } else {
            assert(s2 =~= s.push((key@, Node::Value(gv))));
        }
        assert(value_datum(gv) == field_datum(*val));
    }
}

/// Sets each field of a template in turn.
pub fn merge_fields(t: &mut Table, fields: &Vec<(String, TemplateValue)>)
    ensures
        merged(table_slots(*old(t)), fields_view(fields@), table_slots(*final(t))),
        table_dotted(*final(t)) == table_dotted(*old(t)),
        table_frame(*final(t)) == table_frame(*old(t)),
        keys_prefix(table_keys(*old(t)), table_keys(*final(t))),
{
    let ghost s0 = table_slots(*t);
    let ghost fv = fields_view(fields@);
    assert(table_keys(*t).subrange(0, table_keys(*t).len() as int) =~= table_keys(*t));
    let ghost mut states = seq![s0];
    let n = fields.len();
    let mut i: usize = 0;
    while i < n
        invariant
            n == fields@.len(),
            fv == fields_view(fields@),
            i <= n,
            states.len() == i + 1,
            states[0] == s0,
            states.last() == table_slots(*t),
            forall|j: int| 0 <= j < i ==> merge_step(#[trigger] states[j], fv[j].0, fv[j].1, states[j + 1]),
            table_dotted(*t) == table_dotted(*old(t)),
            table_frame(*t) == table_frame(*old(t)),
            keys_prefix(table_keys(*old(t)), table_keys(*t)),
        decreases n - i,
    {
        let ghost kprev = table_keys(*t);
        let key = fields[i].0.as_str();
        let val = &fields[i].1;
        set_field(t, key, val);
        proof {
            let k0 = table_keys(*old(t));
            assert(table_keys(*t).subrange(0, k0.len() as int) =~= kprev.subrange(0, k0.len() as int)) by {
                assert forall|j: int| 0 <= j < k0.len() implies table_keys(*t)[j] == kprev[j] by {
                    assert(table_keys(*t).subrange(0, kprev.len() as int)[j] == kprev[j]);
                }
            }
            assert(fv[i as int] == (key@, field_datum(*val)));
            let prev = states;
            states = states.push(table_slots(*t));
            assert forall|j: int| 0 <= j < i + 1 implies merge_step(#[trigger] states[j], fv[j].0, fv[j].1, states[j + 1]) by {
                if j < i {
                    assert(states[j] == prev[j]);
                    assert(states[j + 1] == prev[j + 1]);
                }
            }
        }
        i = i + 1;
    }
    assert(merge_trace(s0, fv, states));
}

/// Puts an `inherits` key naming `base` first in the table, unless the
/// table already has one.
pub fn inject_inherits(t: &mut Table, base: BuiltinProfile)
    ensures
        injected(table_slots(*old(t)), base, table_slots(*final(t))),
        injected_keys(table_keys(*old(t)), table_slots(*old(t)), table_keys(*final(t))),
        table_dotted(*final(t)) == table_dotted(*old(t)),
        table_frame(*final(t)) == table_frame(*old(t)),
{
    let ghost s0 = table_slots(*t);
    let ghost l0 = live(s0);
    let ghost lk = live_keys(table_keys(*t), s0);
    let mut entries = live_entries(t);
    let n = entries.len();
    assert forall|a: int, b: int| 0 <= a < n && 0 <= b < n && a != b implies #[trigger] l0[a].0 != #[trigger] l0[b].0 by {
        assert(key_text(entries@[a].0) == l0[a].0);
        assert(key_text(entries@[b].0) == l0[b].0);
    }
    let mut i: usize = 0;
    while i < n
        invariant
            n == entries@.len(),
            n == l0.len(),
            i <= n,
            forall|j: int| 0 <= j < n ==> key_text(#[trigger] entries@[j].0) == l0[j].0 && entries@[j].1 == l0[j].1,
            forall|j: int| 0 <= j < i ==> l0[j].0 != inherits_key(),
            table_slots(*t) == s0,
            l0 == live(s0),
            table_dotted(*t) == table_dotted(*old(t)),
            *t == *old(t),
        decreases n - i,
    {
        if str_eq(key_str(&entries[i].0), "inherits") {
            proof {
                reveal_strlit("inherits");
                assert(slot_at(l0, inherits_key(), i as int));
                assert(has_slot(l0, inherits_key()));
                assert(table_slots(*t) == s0);
            }
            return;
        }
        proof {
            reveal_strlit("inherits");
        }
        i = i + 1;
    }
    assert(!has_slot(l0, inherits_key()));
    clear_table(t);
    let v = string_value(base.name());
    let ghost gv = v;
    replace_slot(t, "inherits", Node::Value(v));
    let ghost kf = table_keys(*t).last();
    proof {
        reveal_strlit("inherits");
        assert(table_slots(*t) =~= seq![(inherits_key(), Node::Value(gv))]);
        assert(table_keys(*t) =~= seq![kf]);
    }
    let ghost orig = entries@;
    let mut k: usize = 0;
    while k < n
        invariant
            n == l0.len(),
            n == orig.len(),
            k <= n,
            entries@ == orig.subrange(k as int, n as int),
            forall|j: int| 0 <= j < n ==> key_text(#[trigger] orig[j].0) == l0[j].0 && orig[j].1 == l0[j].1,
            forall|a: int, b: int| 0 <= a < n && 0 <= b < n && a != b ==> #[trigger] l0[a].0 != #[trigger] l0[b].0,
            forall|j: int| 0 <= j < n ==> l0[j].0 != inherits_key(),
            table_slots(*t) == seq![(inherits_key(), Node::Value(gv))] + l0.subrange(0, k as int),
            table_dotted(*t) == table_dotted(*old(t)),
            table_frame(*t) == table_frame(*old(t)),
            forall|j: int| 0 <= j < n ==> #[trigger] orig[j].0 == lk[j],
            table_keys(*t) == seq![kf] + lk.subrange(0, k as int),
            key_text(kf) == inherits_key(),
            lk.len() == n,
        decreases n - k,
    {
        let (key, node) = entries.remove(0);
        assert(key_text(orig[k as int].0) == l0[k as int].0);
        proof {
            let s = table_slots(*t);
            if has_slot(s, key_text(key)) {
                let j = choose|j: int| slot_at(s, key_text(key), j);
                if j > 0 {
                    assert(s[j] == l0[j - 1]);
                    assert(l0[j - 1].0 != l0[k as int].0);
                }
            }
        }
        let ghost gkey = key;
        insert_formatted(t, &key, node);
        assert(gkey == lk[k as int]);
        assert(table_slots(*t) =~= seq![(inherits_key(), Node::Value(gv))] + l0.subrange(0, k + 1));
        assert(table_keys(*t) =~= seq![kf] + lk.subrange(0, k + 1));
        k = k + 1;
    }
    assert(l0.subrange(0, n as int) =~= l0);
    assert(lk.subrange(0, n as int) =~= lk);
    assert(table_keys(*t).drop_first() =~= lk);
    assert(table_keys(*t)[0] == kf);
}

/// Some field of the list has key `k`.
pub open spec fn field_has_key(fields: Seq<(Seq<char>, Datum)>, k: Seq<char>) -> bool {
    exists|j: int| 0 <= j < fields.len() && #[trigger] fields[j].0 == k
}

/// The slot at `i` is unchanged in key; its item is unchanged unless a
/// field has its key; a value there keeps its formatting.
pub open spec fn slot_kept(s: Seq<(Seq<char>, Node)>, fields: Seq<(Seq<char>, Datum)>, s2: Seq<(Seq<char>, Node)>, i: int) -> bool {
    &&& i < s2.len()
    &&& s2[i].0 == s[i].0
    &&& !field_has_key(fields, s[i].0) ==> s2[i].1 == s[i].1
    &&& s[i].1 is Value ==> {
        &&& s2[i].1 is Value
        &&& value_decor(s2[i].1->Value_0) == value_decor(s[i].1->Value_0)
    }
}

proof fn lemma_step_keeps(s: Seq<(Seq<char>, Node)>, k: Seq<char>, d: Datum, s2: Seq<(Seq<char>, Node)>, i: int)
    requires
        merge_step(s, k, d, s2),
        0 <= i < s.len(),
    ensures
        s.len() <= s2.len(),
        s2[i].0 == s[i].0,
        s[i].0 != k ==> s2[i].1 == s[i].1,
        s[i].1 is Value ==> s2[i].1 is Value && value_decor(s2[i].1->Value_0) == value_decor(s[i].1->Value_0),
{
    let v = choose|v: Value| {
        &&& #[trigger] value_datum(v) == d
        &&& if has_slot(s, k) {
            let i = choose|i: int| slot_at(s, k, i);
            &&& s2 == s.update(i, (k, Node::Value(v)))
            &&& (s[i].1 is Value ==> value_decor(v) == value_decor(s[i].1->Value_0))
        } else {
            s2 == s.push((k, Node::Value(v)))
        }
    };
    if has_slot(s, k) {
        let j = choose|j: int| slot_at(s, k, j);
        if j != i {
            assert(s2[i] == s[i]);
        }
    } else {
        assert(s2[i] == s[i]);
    }
}

proof fn lemma_trace_keeps(
    s: Seq<(Seq<char>, Node)>,
    fields: Seq<(Seq<char>, Datum)>,
    states: Seq<Seq<(Seq<char>, Node)>>,
    n: int,
    i: int,
)
    requires
        merge_trace(s, fields, states),
        0 <= n <= fields.len(),
        0 <= i < s.len(),
    ensures
        slot_kept(s, fields.subrange(0, n), states[n], i),
    decreases n,
{
    if n > 0 {
        lemma_trace_keeps(s, fields, states, n - 1, i);
        assert(merge_step(states[n - 1], fields[n - 1].0, fields[n - 1].1, states[n]));
        lemma_step_keeps(states[n - 1], fields[n - 1].0, fields[n - 1].1, states[n], i);
        if !field_has_key(fields.subrange(0, n), s[i].0) {
            assert(fields.subrange(0, n)[n - 1].0 == fields[n - 1].0);
            assert forall|j: int| 0 <= j < n - 1 implies #[trigger] fields.subrange(0, n - 1)[j].0 != s[i].0 by {
                assert(fields.subrange(0, n - 1)[j] == fields.subrange(0, n)[j]);
            }
        }
    } else {
        assert(states[0].subrange(0, s.len() as int) =~= s);
    }
}

/// Setting fields neither removes nor reorders the slots that were there:
/// each keeps its key and position, keeps its item where no field has its
/// key, and a value that is overwritten keeps its leading whitespace and
/// trailing comment.
pub proof fn lemma_merge_keeps_slots(s: Seq<(Seq<char>, Node)>, fields: Seq<(Seq<char>, Datum)>, s2: Seq<(Seq<char>, Node)>)
    requires
        merged(s, fields, s2),
    ensures
        s.len() <= s2.len(),
        forall|i: int| 0 <= i < s.len() ==> #[trigger] slot_kept(s, fields, s2, i),
{
    let states = choose|states: Seq<Seq<(Seq<char>, Node)>>| #[trigger] merge_trace(s, fields, states) && states.last() == s2;
    assert(fields.subrange(0, fields.len() as int) =~= fields);
    assert forall|i: int| 0 <= i < s.len() implies #[trigger] slot_kept(s, fields, s2, i) by {
        lemma_trace_keeps(s, fields, states, fields.len() as int, i);
    }
    if s.len() > 0 {
        assert(slot_kept(s, fields, s2, s.len() - 1));
    }
}

proof fn lemma_step_keys(s: Seq<(Seq<char>, Node)>, k: Seq<char>, d: Datum, s2: Seq<(Seq<char>, Node)>)
    requires
        merge_step(s, k, d, s2),
    ensures
        forall|i: int| 0 <= i < s2.len() ==> #[trigger] s2[i].0 == k || has_slot(s, s2[i].0),
        has_slot(s, k) ==> s2.len() == s.len(),
        !has_slot(s, k) ==> {
            &&& s2.len() == s.len() + 1
            &&& s2.subrange(0, s.len() as int) == s
            &&& s2.last().0 == k
            &&& s2.last().1 is Value
            &&& value_datum(s2.last().1->Value_0) == d
        },
{
    assert forall|i: int| 0 <= i < s2.len() implies #[trigger] s2[i].0 == k || has_slot(s, s2[i].0) by {
        if i < s.len() && s2[i].0 != k {
            lemma_step_keeps(s, k, d, s2, i);
            assert(slot_at(s, s2[i].0, i));
        }
    }
    if !has_slot(s, k) {
        assert(s2.subrange(0, s.len() as int) =~= s);
    }
}

proof fn lemma_trace_keys(
    s: Seq<(Seq<char>, Node)>,
    fields: Seq<(Seq<char>, Datum)>,
    states: Seq<Seq<(Seq<char>, Node)>>,
    n: int,
)
    requires
        merge_trace(s, fields, states),
        0 <= n <= fields.len(),
    ensures
        forall|i: int| 0 <= i < states[n].len() ==>
            has_slot(s, #[trigger] states[n][i].0) || field_has_key(fields.subrange(0, n), states[n][i].0),
    decreases n,
{
    if n > 0 {
        lemma_trace_keys(s, fields, states, n - 1);
        lemma_step_keys(states[n - 1], fields[n - 1].0, fields[n - 1].1, states[n]);
        let f = fields.subrange(0, n);
        assert forall|i: int| 0 <= i < states[n].len() implies
            has_slot(s, #[trigger] states[n][i].0) || field_has_key(f, states[n][i].0) by {
            let k = states[n][i].0;
            if k == fields[n - 1].0 {
                assert(f[n - 1].0 == k);
            } else {
                let i2 = choose|i2: int| #[trigger] slot_at(states[n - 1], k, i2);
                assert(states[n - 1][i2].0 == k);
                if !has_slot(s, k) {
                    let j = choose|j: int| 0 <= j < n - 1 && #[trigger] fields.subrange(0, n - 1)[j].0 == k;
                    assert(f[j] == fields.subrange(0, n - 1)[j]);
                }
            }
        }
    } else {
        assert forall|i: int| 0 <= i < states[n].len() implies
            has_slot(s, #[trigger] states[n][i].0) || field_has_key(fields.subrange(0, n), states[n][i].0) by {
            assert(slot_at(s, s[i].0, i));
        }
    }
}

/// Setting fields adds no key that neither the table nor the fields had.
pub proof fn lemma_merge_adds_only_field_keys(
    s: Seq<(Seq<char>, Node)>,
    fields: Seq<(Seq<char>, Datum)>,
    s2: Seq<(Seq<char>, Node)>,
    k: Seq<char>,
)
    requires
        merged(s, fields, s2),
        has_slot(s2, k),
    ensures
        has_slot(s, k) || field_has_key(fields, k),
{
    let states = choose|states: Seq<Seq<(Seq<char>, Node)>>| #[trigger] merge_trace(s, fields, states) && states.last() == s2;
    lemma_trace_keys(s, fields, states, fields.len() as int);
    assert(fields.subrange(0, fields.len() as int) =~= fields);
    let i = choose|i: int| slot_at(s2, k, i);
    assert(s2[i].0 == k);
}

/// No two fields share a key.
pub open spec fn field_keys_distinct(fields: Seq<(Seq<char>, Datum)>) -> bool {
    forall|a: int, b: int| 0 <= a < fields.len() && 0 <= b < fields.len() && a != b ==> fields[a].0 != fields[b].0
}

/// The slots `s2` are `s` followed by one fresh value per field, in order.
pub open spec fn appended(s: Seq<(Seq<char>, Node)>, fields: Seq<(Seq<char>, Datum)>, s2: Seq<(Seq<char>, Node)>) -> bool {
    &&& s2.len() == s.len() + fields.len()
    &&& s2.subrange(0, s.len() as int) == s
    &&& forall|j: int| 0 <= j < fields.len() ==> {
        &&& (#[trigger] s2[s.len() + j]).0 == fields[j].0
        &&& s2[s.len() + j].1 is Value
        &&& value_datum(s2[s.len() + j].1->Value_0) == fields[j].1
    }
}

#[verifier::rlimit(30)]
proof fn lemma_trace_appends(
    s: Seq<(Seq<char>, Node)>,
    fields: Seq<(Seq<char>, Datum)>,
    states: Seq<Seq<(Seq<char>, Node)>>,
    n: int,
)
    requires
        merge_trace(s, fields, states),
        0 <= n <= fields.len(),
        field_keys_distinct(fields),
        forall|j: int| 0 <= j < fields.len() ==> !has_slot(s, #[trigger] fields[j].0),
    ensures
        appended(s, fields.subrange(0, n), states[n]),
    decreases n,
{
    if n > 0 {
        lemma_trace_appends(s, fields, states, n - 1);
        let prev = states[n - 1];
        let k = fields[n - 1].0;
        assert forall|i: int| !slot_at(prev, k, i) by {
            if 0 <= i < prev.len() && prev[i].0 == k {
                if i < s.len() {
                    assert(prev.subrange(0, s.len() as int)[i] == s[i]);
                    assert(slot_at(s, k, i));
                } else {
                    let j = i - s.len();
                    assert(fields.subrange(0, n - 1)[j].0 == prev[s.len() + j].0);
                    assert(fields[j].0 == k);
                }
            }
        }
        lemma_step_keys(prev, k, fields[n - 1].1, states[n]);
        let s2 = states[n];
        assert(s2.subrange(0, s.len() as int) =~= prev.subrange(0, s.len() as int)) by {
            assert forall|i: int| 0 <= i < s.len() implies s2[i] == prev[i] by {
                assert(s2.subrange(0, prev.len() as int)[i] == prev[i]);
            }
        }
        assert forall|j: int| 0 <= j < n implies {
            &&& (#[trigger] s2[s.len() + j]).0 == fields.subrange(0, n)[j].0
            &&& s2[s.len() + j].1 is Value
            &&& value_datum(s2[s.len() + j].1->Value_0) == fields.subrange(0, n)[j].1
        } by {
            if j < n - 1 {
                assert(s2.subrange(0, prev.len() as int)[s.len() + j] == prev[s.len() + j]);
                assert(fields.subrange(0, n - 1)[j] == fields.subrange(0, n)[j]);
            }
        }
    } else {
        assert(states[0].subrange(0, s.len() as int) =~= s);
    }
}

/// Fields whose keys are new to the table, and distinct, are appended in
/// their order, each as a fresh value holding its datum.
pub proof fn lemma_merge_appends_new_keys(s: Seq<(Seq<char>, Node)>, fields: Seq<(Seq<char>, Datum)>, s2: Seq<(Seq<char>, Node)>)
    requires
        merged(s, fields, s2),
        field_keys_distinct(fields),
        forall|j: int| 0 <= j < fields.len() ==> !has_slot(s, #[trigger] fields[j].0),
    ensures
        appended(s, fields, s2),
{
    let states = choose|states: Seq<Seq<(Seq<char>, Node)>>| #[trigger] merge_trace(s, fields, states) && states.last() == s2;
    lemma_trace_appends(s, fields, states, fields.len() as int);
    assert(fields.subrange(0, fields.len() as int) =~= fields);
}

/// The datum of the last field with key `k`.
pub open spec fn last_datum(fields: Seq<(Seq<char>, Datum)>, k: Seq<char>) -> Datum
    decreases fields.len(),
{
    if fields.len() == 0 {
        Datum::Other
    } else if fields.last().0 == k {
        fields.last().1
    } else {
        last_datum(fields.drop_last(), k)
    }
}

/// Every slot whose key a field has holds a value with the datum of the
/// last such field.
pub open spec fn fields_set(s: Seq<(Seq<char>, Node)>, fields: Seq<(Seq<char>, Datum)>) -> bool {
    forall|i: int| 0 <= i < s.len() && field_has_key(fields, #[trigger] s[i].0) ==> {
        &&& s[i].1 is Value
        &&& value_datum(s[i].1->Value_0) == last_datum(fields, s[i].0)
    }
}

proof fn lemma_trace_sets(
    s: Seq<(Seq<char>, Node)>,
    fields: Seq<(Seq<char>, Datum)>,
    states: Seq<Seq<(Seq<char>, Node)>>,
    n: int,
)
    requires
        merge_trace(s, fields, states),
        0 <= n <= fields.len(),
        keys_distinct(s),
    ensures
        keys_distinct(states[n]),
        fields_set(states[n], fields.subrange(0, n)),
        forall|j: int| 0 <= j < n ==> has_slot(states[n], #[trigger] fields[j].0),
    decreases n,
{
    if n > 0 {
        lemma_trace_sets(s, fields, states, n - 1);
        let st = states[n - 1];
        let st2 = states[n];
        let k = fields[n - 1].0;
        let d = fields[n - 1].1;
        let f = fields.subrange(0, n);
        let f0 = fields.subrange(0, n - 1);
        assert(f.drop_last() =~= f0);
        assert(merge_step(st, k, d, st2));
        lemma_step_keys(st, k, d, st2);
        let v = choose|v: Value| {
            &&& #[trigger] value_datum(v) == d
            &&& if has_slot(st, k) {
                let i = choose|i: int| slot_at(st, k, i);
                &&& st2 == st.update(i, (k, Node::Value(v)))
                &&& (st[i].1 is Value ==> value_decor(v) == value_decor(st[i].1->Value_0))
            } else {
                st2 == st.push((k, Node::Value(v)))
            }
        };
        let idx = if has_slot(st, k) { choose|i: int| slot_at(st, k, i) } else { st.len() as int };
        assert(st2[idx] == (k, Node::Value(v)));
        assert forall|i: int| 0 <= i < st2.len() && i != idx implies st2[i] == st[i] by {}
        assert forall|i: int| 0 <= i < st2.len() && #[trigger] st2[i].0 == k implies i == idx by {
            if i != idx {
                assert(st2[i] == st[i]);
                if has_slot(st, k) {
                    assert(st[idx].0 == k);
                } else {
                    assert(slot_at(st, k, i));
                }
            }
        }
        assert(keys_distinct(st2)) by {
            assert forall|a: int, b: int| 0 <= a < st2.len() && 0 <= b < st2.len() && a != b implies st2[a].0 != st2[b].0 by {
                if st2[a].0 == k || st2[b].0 == k {
                } else {
                    assert(st2[a] == st[a]);
                    assert(st2[b] == st[b]);
                }
            }
        }
        assert forall|i: int| 0 <= i < st2.len() && field_has_key(f, #[trigger] st2[i].0) implies {
            &&& st2[i].1 is Value
            &&& value_datum(st2[i].1->Value_0) == last_datum(f, st2[i].0)
        } by {
            if st2[i].0 != k {
                assert(st2[i] == st[i]);
                let j = choose|j: int| 0 <= j < f.len() && #[trigger] f[j].0 == st2[i].0;
                assert(j != n - 1);
                assert(f0[j] == f[j]);
            }
        }
        assert forall|j: int| 0 <= j < n implies has_slot(st2, #[trigger] fields[j].0) by {
            if fields[j].0 == k {
                assert(slot_at(st2, k, idx));
            } else {
                let i = choose|i: int| slot_at(st, fields[j].0, i);
                assert(st2[i] == st[i]);
                assert(slot_at(st2, fields[j].0, i));
            }
        }
    } else {
        assert forall|i: int| 0 <= i < states[n].len() && field_has_key(fields.subrange(0, n), #[trigger] states[n][i].0) implies false by {
            let j = choose|j: int| 0 <= j < 0 && #[trigger] fields.subrange(0, n)[j].0 == states[n][i].0;
        }
    }
}

/// After setting fields on a table whose keys are distinct, its keys are
/// still distinct, each field's key has a slot, and that slot holds a
/// value with the datum of the last field with the key.
pub proof fn lemma_merge_sets_fields(s: Seq<(Seq<char>, Node)>, fields: Seq<(Seq<char>, Datum)>, s2: Seq<(Seq<char>, Node)>)
    requires
        keys_distinct(s),
        merged(s, fields, s2),
    ensures
        keys_distinct(s2),
        fields_set(s2, fields),
        forall|j: int| 0 <= j < fields.len() ==> has_slot(s2, #[trigger] fields[j].0),
{
    let states = choose|states: Seq<Seq<(Seq<char>, Node)>>| #[trigger] merge_trace(s, fields, states) && states.last() == s2;
    lemma_trace_sets(s, fields, states, fields.len() as int);
    assert(fields.subrange(0, fields.len() as int) =~= fields);
}

proof fn lemma_trace_no_growth(
    s: Seq<(Seq<char>, Node)>,
    fields: Seq<(Seq<char>, Datum)>,
    states: Seq<Seq<(Seq<char>, Node)>>,
    n: int,
)
    requires
        merge_trace(s, fields, states),
        0 <= n <= fields.len(),
        forall|j: int| 0 <= j < fields.len() ==> has_slot(s, #[trigger] fields[j].0),
    ensures
        states[n].len() == s.len(),
        forall|i: int| 0 <= i < s.len() ==> #[trigger] states[n][i].0 == s[i].0,
    decreases n,
{
    if n > 0 {
        lemma_trace_no_growth(s, fields, states, n - 1);
        let st = states[n - 1];
        let k = fields[n - 1].0;
        let i0 = choose|i: int| slot_at(s, k, i);
        assert(slot_at(st, k, i0));
        lemma_step_keys(st, k, fields[n - 1].1, states[n]);
        assert forall|i: int| 0 <= i < s.len() implies #[trigger] states[n][i].0 == s[i].0 by {
            lemma_step_keeps(st, k, fields[n - 1].1, states[n], i);
        }
    }
}

/// `s2` agrees with `s1` slot by slot: same length, same keys in the same
/// places, the same items where no field has the key, and otherwise values
/// with the same datum and the same formatting.
pub open spec fn reapplied(s1: Seq<(Seq<char>, Node)>, fields: Seq<(Seq<char>, Datum)>, s2: Seq<(Seq<char>, Node)>) -> bool {
    &&& s2.len() == s1.len()
    &&& forall|i: int| 0 <= i < s1.len() ==> {
        &&& (#[trigger] s2[i]).0 == s1[i].0
        &&& !field_has_key(fields, s1[i].0) ==> s2[i].1 == s1[i].1
        &&& field_has_key(fields, s1[i].0) ==> {
            &&& s1[i].1 is Value
            &&& s2[i].1 is Value
            &&& value_datum(s2[i].1->Value_0) == value_datum(s1[i].1->Value_0)
            &&& value_decor(s2[i].1->Value_0) == value_decor(s1[i].1->Value_0)
        }
    }
}

/// Setting the same fields a second time adds no slot and changes no key,
/// no position, no datum and no formatting: slot by slot, the second
/// result agrees with the first (on a table whose keys are distinct).
pub proof fn lemma_merge_twice(
    s: Seq<(Seq<char>, Node)>,
    fields: Seq<(Seq<char>, Datum)>,
    s1: Seq<(Seq<char>, Node)>,
    s2: Seq<(Seq<char>, Node)>,
)
    requires
        keys_distinct(s),
        merged(s, fields, s1),
        merged(s1, fields, s2),
    ensures
        reapplied(s1, fields, s2),
{
    lemma_merge_sets_fields(s, fields, s1);
    lemma_merge_sets_fields(s1, fields, s2);
    lemma_merge_keeps_slots(s1, fields, s2);
    let states = choose|states: Seq<Seq<(Seq<char>, Node)>>| #[trigger] merge_trace(s1, fields, states) && states.last() == s2;
    lemma_trace_no_growth(s1, fields, states, fields.len() as int);
    assert forall|i: int| 0 <= i < s1.len() implies {
        &&& (#[trigger] s2[i]).0 == s1[i].0
        &&& !field_has_key(fields, s1[i].0) ==> s2[i].1 == s1[i].1
        &&& field_has_key(fields, s1[i].0) ==> {
            &&& s1[i].1 is Value
            &&& s2[i].1 is Value
            &&& value_datum(s2[i].1->Value_0) == value_datum(s1[i].1->Value_0)
            &&& value_decor(s2[i].1->Value_0) == value_decor(s1[i].1->Value_0)
        }
    } by {
        assert(slot_kept(s1, fields, s2, i));
    }
}

proof fn lemma_live_from(s: Seq<(Seq<char>, Node)>)
    ensures
        forall|j: int| 0 <= j < live(s).len() ==> exists|i: int| 0 <= i < s.len() && s[i] == #[trigger] live(s)[j],
        forall|j: int| 0 <= j < live(s).len() ==> !(#[trigger] live(s)[j].1 is Empty),
        forall|i: int| 0 <= i < s.len() && !(#[trigger] s[i].1 is Empty) ==> exists|j: int| 0 <= j < live(s).len() && live(s)[j] == s[i],
        keys_distinct(s) ==> keys_distinct(live(s)),
    decreases s.len(),
{
    if s.len() > 0 {
        let p = s.drop_last();
        lemma_live_from(p);
        let lp = live(p);
        assert forall|i: int| 0 <= i < p.len() implies #[trigger] p[i] == s[i] by {}
        if s.last().1 is Empty {
            assert(live(s) == lp);
            assert forall|i: int| 0 <= i < s.len() && !(#[trigger] s[i].1 is Empty) implies exists|j: int| 0 <= j < live(s).len() && live(s)[j] == s[i] by {
                assert(p[i] == s[i]);
            }
            assert forall|j: int| 0 <= j < live(s).len() implies exists|i: int| 0 <= i < s.len() && s[i] == #[trigger] live(s)[j] by {
                let i = choose|i: int| 0 <= i < p.len() && p[i] == lp[j];
                assert(s[i] == p[i]);
            }
        } else {
            let l = live(s);
            assert(l == lp.push(s.last()));
            assert forall|j: int| 0 <= j < l.len() implies exists|i: int| 0 <= i < s.len() && s[i] == #[trigger] l[j] by {
                if j < lp.len() {
                    assert(l[j] == lp[j]);
                    let i = choose|i: int| 0 <= i < p.len() && p[i] == lp[j];
                    assert(s[i] == p[i]);
                } else {
                    assert(s[s.len() - 1] == l[j]);
                }
            }
            assert forall|j: int| 0 <= j < l.len() implies !(#[trigger] l[j].1 is Empty) by {
                if j < lp.len() {
                    assert(l[j] == lp[j]);
                }
            }
            assert forall|i: int| 0 <= i < s.len() && !(#[trigger] s[i].1 is Empty) implies exists|j: int| 0 <= j < l.len() && l[j] == s[i] by {
                if i < p.len() {
                    assert(p[i] == s[i]);
                    let j = choose|j: int| 0 <= j < lp.len() && lp[j] == p[i];
                    assert(l[j] == lp[j]);
                } else {
                    assert(l[l.len() - 1] == s[i]);
                }
            }
            if keys_distinct(s) {
                assert(keys_distinct(p));
                assert forall|a: int, b: int| 0 <= a < l.len() && 0 <= b < l.len() && a != b implies l[a].0 != l[b].0 by {
                    if a < lp.len() && b < lp.len() {
                        assert(l[a] == lp[a] && l[b] == lp[b]);
                    } else if a < lp.len() {
                        assert(l[a] == lp[a]);
                        let i = choose|i: int| 0 <= i < p.len() && p[i] == lp[a];
                        assert(s[i] == p[i]);
                        assert(s[s.len() - 1] == l[b]);
                    } else if b < lp.len() {
                        assert(l[b] == lp[b]);
                        let i = choose|i: int| 0 <= i < p.len() && p[i] == lp[b];
                        assert(s[i] == p[i]);
                        assert(s[s.len() - 1] == l[a]);
                    }
                }
            }
        }
    }
}

/// The edit of one profile table, applied a second time with the same
/// template, adds no slot and changes no key, no position, no datum and no
/// formatting (on a table whose keys are distinct).
pub proof fn lemma_section_applied_twice(
    s: Seq<(Seq<char>, Node)>,
    name: Seq<char>,
    base: BuiltinProfile,
    fields: Seq<(Seq<char>, Datum)>,
    s1: Seq<(Seq<char>, Node)>,
    s2: Seq<(Seq<char>, Node)>,
)
    requires
        keys_distinct(s),
        section_applied(s, name, base, fields, s1),
        section_applied(s1, name, base, fields, s2),
    ensures
        reapplied(s1, fields, s2),
{
    if is_builtin_name(name) {
        lemma_merge_twice(s, fields, s1, s2);
    } else {
        let mid1 = choose|mid: Seq<(Seq<char>, Node)>| #[trigger] injected(s, base, mid) && merged(mid, fields, s1);
        let mid2 = choose|mid: Seq<(Seq<char>, Node)>| #[trigger] injected(s1, base, mid) && merged(mid, fields, s2);
        lemma_live_from(s);
        let ik = inherits_key();
        // an `inherits` slot that is read, in `mid1`
        let i0: int = if has_slot(live(s), ik) {
            let j = choose|j: int| slot_at(live(s), ik, j);
            let i = choose|i: int| 0 <= i < s.len() && s[i] == #[trigger] live(s)[j];
            i
        } else {
            0
        };
        if !has_slot(live(s), ik) {
            let l = live(s);
            assert(keys_distinct(mid1)) by {
                assert forall|a: int, b: int| 0 <= a < mid1.len() && 0 <= b < mid1.len() && a != b implies mid1[a].0 != mid1[b].0 by {
                    if a > 0 && b > 0 {
                        assert(mid1[a] == l[a - 1] && mid1[b] == l[b - 1]);
                    } else if a > 0 {
                        assert(mid1[a] == l[a - 1]);
                        assert(!slot_at(l, ik, a - 1));
                    } else {
                        assert(mid1[b] == l[b - 1]);
                        assert(!slot_at(l, ik, b - 1));
                    }
                }
            }
        }
        assert(slot_at(mid1, ik, i0) && !(mid1[i0].1 is Empty));
        lemma_merge_keeps_slots(mid1, fields, s1);
        lemma_merge_sets_fields(mid1, fields, s1);
        assert(slot_kept(mid1, fields, s1, i0));
        assert(!(s1[i0].1 is Empty));
        lemma_live_from(s1);
        let j1 = choose|j: int| 0 <= j < live(s1).len() && live(s1)[j] == s1[i0];
        assert(slot_at(live(s1), ik, j1));
        assert(mid2 == s1);
        lemma_merge_twice(mid1, fields, s1, s2);
    }
}

/// Whether the edit of a profile table puts a new `inherits` key first.
pub open spec fn adds_inherits(s: Seq<(Seq<char>, Node)>, name: Seq<char>) -> bool {
    !is_builtin_name(name) && !has_slot(live(s), inherits_key())
}

/// The slots that an edit of a profile table starts from: the slots that
/// are read, where an `inherits` key is put before them; else all of them.
pub open spec fn kept_slots(s: Seq<(Seq<char>, Node)>, name: Seq<char>) -> Seq<(Seq<char>, Node)> {
    if adds_inherits(s, name) {
        live(s)
    } else {
        s
    }
}

/// The edit of a profile table removes and reorders nothing: each slot it
/// starts from keeps its key and its order, shifted by one behind a new
/// `inherits` key, and keeps its item where no field has its key.
pub proof fn lemma_section_keeps_slots(
    s: Seq<(Seq<char>, Node)>,
    name: Seq<char>,
    base: BuiltinProfile,
    fields: Seq<(Seq<char>, Datum)>,
    s2: Seq<(Seq<char>, Node)>,
)
    requires
        section_applied(s, name, base, fields, s2),
    ensures
        ({
            let b = kept_slots(s, name);
            let off: int = if adds_inherits(s, name) { 1 } else { 0 };
            forall|i: int| 0 <= i < b.len() ==> {
                &&& i + off < s2.len()
                &&& (#[trigger] b[i]).0 == s2[i + off].0
                &&& !field_has_key(fields, b[i].0) ==> s2[i + off].1 == b[i].1
            }
        }),
{
    let b = kept_slots(s, name);
    let off: int = if adds_inherits(s, name) { 1 } else { 0 };
    let mid = if is_builtin_name(name) {
        s
    } else {
        choose|mid: Seq<(Seq<char>, Node)>| #[trigger] injected(s, base, mid) && merged(mid, fields, s2)
    };
    assert(merged(mid, fields, s2));
    lemma_merge_keeps_slots(mid, fields, s2);
    assert forall|i: int| 0 <= i < b.len() implies {
        &&& i + off < s2.len()
        &&& (#[trigger] b[i]).0 == s2[i + off].0
        &&& !field_has_key(fields, b[i].0) ==> s2[i + off].1 == b[i].1
    } by {
        assert(mid[i + off] == b[i]);
        assert(slot_kept(mid, fields, s2, i + off));
    }
}

proof fn lemma_injected_distinct(s: Seq<(Seq<char>, Node)>, base: BuiltinProfile, mid: Seq<(Seq<char>, Node)>)
    requires
        keys_distinct(s),
        injected(s, base, mid),
    ensures
        keys_distinct(mid),
{
    lemma_live_from(s);
    let ik = inherits_key();
    if !has_slot(live(s), ik) {
        let l = live(s);
        assert forall|a: int, b: int| 0 <= a < mid.len() && 0 <= b < mid.len() && a != b implies mid[a].0 != mid[b].0 by {
            if a > 0 && b > 0 {
                assert(mid[a] == l[a - 1] && mid[b] == l[b - 1]);
            } else if a > 0 {
                assert(mid[a] == l[a - 1]);
                assert(!slot_at(l, ik, a - 1));
            } else {
                assert(mid[b] == l[b - 1]);
                assert(!slot_at(l, ik, b - 1));
            }
        }
    }
}

/// The edit of a profile table whose keys are distinct keeps them distinct;
/// every field's key has a slot, holding a value with the datum of the last
/// field with that key; and every key is an old one, `inherits`, or a
/// field's. With `lemma_section_keeps_slots` (the old slots keep their
/// order and, where no field has their key, their items) this is the whole
/// result.
#[verifier::rlimit(40)]
pub proof fn lemma_section_result(
    s: Seq<(Seq<char>, Node)>,
    name: Seq<char>,
    base: BuiltinProfile,
    fields: Seq<(Seq<char>, Datum)>,
    s2: Seq<(Seq<char>, Node)>,
)
    requires
        keys_distinct(s),
        section_applied(s, name, base, fields, s2),
    ensures
        keys_distinct(s2),
        fields_set(s2, fields),
        forall|j: int| 0 <= j < fields.len() ==> has_slot(s2, #[trigger] fields[j].0),
        forall|k: Seq<char>| #[trigger] has_slot(s2, k) ==>
            has_slot(s, k) || k == inherits_key() || field_has_key(fields, k),
{
    if is_builtin_name(name) {
        lemma_merge_sets_fields(s, fields, s2);
        lemma_section_key_origin(s, name, base, s, fields, s2);
    } else {
        let mid = choose|mid: Seq<(Seq<char>, Node)>| #[trigger] injected(s, base, mid) && merged(mid, fields, s2);
        lemma_injected_distinct(s, base, mid);
        lemma_merge_sets_fields(mid, fields, s2);
        lemma_section_key_origin(s, name, base, mid, fields, s2);
    }
}

proof fn lemma_section_key_origin(
    s: Seq<(Seq<char>, Node)>,
    name: Seq<char>,
    base: BuiltinProfile,
    mid: Seq<(Seq<char>, Node)>,
    fields: Seq<(Seq<char>, Datum)>,
    s2: Seq<(Seq<char>, Node)>,
)
    requires
        is_builtin_name(name) ==> mid == s,
        !is_builtin_name(name) ==> injected(s, base, mid),
        merged(mid, fields, s2),
    ensures
        forall|k: Seq<char>| #[trigger] has_slot(s2, k) ==>
            has_slot(s, k) || k == inherits_key() || field_has_key(fields, k),
{
    lemma_live_from(s);
    assert forall|k: Seq<char>| #[trigger] has_slot(s2, k) implies
        has_slot(s, k) || k == inherits_key() || field_has_key(fields, k) by {
        lemma_merge_adds_only_field_keys(mid, fields, s2, k);
        if has_slot(mid, k) && k != inherits_key() && !is_builtin_name(name) && !has_slot(live(s), inherits_key()) {
            let i = choose|i: int| slot_at(mid, k, i);
            assert(i > 0);
            assert(mid[i] == live(s)[i - 1]);
            let i2 = choose|i2: int| 0 <= i2 < s.len() && s[i2] == live(s)[i - 1];
            assert(slot_at(s, k, i2));
        }
    }
}

} // verus!
