//! The document model: a recursive tagged tree of named fields, and its
//! deterministic, restartable flattening traversal.
//!
//! A document is a map from field names to values; a value is a string
//! leaf, an ordered list of values, or a nested document. Map fields
//! are kept sorted by key, so traversal descends lexicographically by
//! key at every map level and in stored order through lists.
//!
//! Flattening yields (path, leaf-value) pairs. The path collects the
//! field names of the maps descended into: descending from a map into
//! a map-valued field appends that field name, while list traversal
//! leaves the path unchanged, so list elements share their parent
//! map's path.

use vstd::prelude::*;

verus! {

broadcast use vstd::std_specs::vec::axiom_vec_index_decreases;

/// A document: named fields, kept sorted by field name.
pub struct Item {
    fields: Vec<(String, KeyValue)>,
}

/// A field value: a leaf string, an ordered list, or a nested document.
pub enum KeyValue {
    Array(Vec<KeyValue>),
    Dict(Item),
    Value(String),
}

/// The mathematical shape of a field value.
pub enum KvModel {
    Array(Seq<KvModel>),
    Dict(Seq<(Seq<char>, KvModel)>),
    Value(Seq<char>),
}

impl KeyValue {
    /// The mathematical shape of this value.
    pub open spec fn model(self) -> KvModel
        decreases self, 1int,
    {
        match self {
            KeyValue::Value(s) => KvModel::Value(s@),
            KeyValue::Array(a) => KvModel::Array(model_list(a@)),
            KeyValue::Dict(m) => KvModel::Dict(m.entries_model()),
        }
    }

    /// Well-formedness of this value.
    pub open spec fn wf(self) -> bool {
        wf_model(self.model())
    }
}

impl Item {
    /// The mathematical shape of this document: its (key, value) entries
    /// in stored order.
    pub closed spec fn entries_model(self) -> Seq<(Seq<char>, KvModel)>
        decreases self, 1int,
    {
        model_entries(self.fields@)
    }

    /// Well-formedness: keys strictly sorted at every map level.
    pub open spec fn wf(self) -> bool {
        wf_entries(self.entries_model())
    }
}

/// The shapes of a sequence of values, in order.
pub open spec fn model_list(a: Seq<KeyValue>) -> Seq<KvModel>
    decreases a, 2int, a.len(),
{
    if a.len() == 0 {
        Seq::empty()
    } else {
        seq![a[0].model()] + model_list(a.drop_first())
    }
}

/// The shapes of a sequence of (key, value) fields, in order.
pub open spec fn model_entries(fields: Seq<(String, KeyValue)>) -> Seq<(Seq<char>, KvModel)>
    decreases fields, 2int, fields.len(),
{
    if fields.len() == 0 {
        Seq::empty()
    } else {
        seq![(fields[0].0@, fields[0].1.model())] + model_entries(fields.drop_first())
    }
}

/// Strict lexicographic order on character sequences, by code point.
pub open spec fn lex_lt(a: Seq<char>, b: Seq<char>) -> bool
    decreases a.len(),
{
    if b.len() == 0 {
        false
    } else if a.len() == 0 {
        true
    } else if (a[0] as u32) < (b[0] as u32) {
        true
    } else if (b[0] as u32) < (a[0] as u32) {
        false
    } else {
        lex_lt(a.drop_first(), b.drop_first())
    }
}

/// Adjacent entries are in strictly increasing key order.
pub open spec fn sorted_keys(entries: Seq<(Seq<char>, KvModel)>) -> bool {
    forall|i: int| 0 <= i && i + 1 < entries.len() ==> lex_lt(entries[i].0, #[trigger] entries[i + 1].0)
}

/// Well-formedness of a value shape: every map level has strictly
/// sorted keys.
pub open spec fn wf_model(m: KvModel) -> bool
    decreases m,
{
    match m {
        KvModel::Value(_) => true,
        KvModel::Array(elems) => forall|i: int| 0 <= i < elems.len() ==> wf_model(#[trigger] elems[i]),
        KvModel::Dict(entries) => wf_entries(entries),
    }
}

/// Well-formedness of a map level: sorted keys, well-formed values.
pub open spec fn wf_entries(entries: Seq<(Seq<char>, KvModel)>) -> bool
    decreases entries,
{
    sorted_keys(entries) && forall|i: int|
        0 <= i < entries.len() ==> wf_model((#[trigger] entries[i]).1)
}

/// A flattened (path, leaf-value) pair.
pub type FlatPair = (Seq<Seq<char>>, Seq<char>);

/// Flatten a value shape under path `p`.
pub open spec fn flat_model(p: Seq<Seq<char>>, m: KvModel) -> Seq<FlatPair>
    decreases m, 0int,
{
    match m {
        KvModel::Value(s) => seq![(p, s)],
        KvModel::Array(elems) => flat_list(p, elems, 0),
        KvModel::Dict(entries) => flat_entries(p, entries, 0),
    }
}

/// Flatten the elements of a list from index `i` on; elements share
/// the path of their parent map.
pub open spec fn flat_list(p: Seq<Seq<char>>, elems: Seq<KvModel>, i: int) -> Seq<FlatPair>
    decreases elems, elems.len() - i + 1,
{
    if 0 <= i < elems.len() {
        flat_model(p, elems[i]) + flat_list(p, elems, i + 1)
    } else {
        Seq::empty()
    }
}

/// Flatten the entries of a map level from index `i` on: a leaf yields
/// the map's own path, a map-valued field extends the path with its
/// field name, a list keeps the map's path.
pub open spec fn flat_entries(
    p: Seq<Seq<char>>,
    entries: Seq<(Seq<char>, KvModel)>,
    i: int,
) -> Seq<FlatPair>
    decreases entries, entries.len() - i,
{
    if 0 <= i < entries.len() {
        (match entries[i].1 {
            KvModel::Value(s) => seq![(p, s)],
            KvModel::Array(elems) => flat_list(p, elems, 0),
            KvModel::Dict(sub) => flat_entries(p.push(entries[i].0), sub, 0),
        }) + flat_entries(p, entries, i + 1)
    } else {
        Seq::empty()
    }
}

/// The full flattening of a document, starting from the empty path.
pub open spec fn item_flat(it: Item) -> Seq<FlatPair> {
    flat_entries(Seq::empty(), it.entries_model(), 0)
}

/// The path a stack frame for this entry carries.
pub open spec fn entry_path(p: Seq<Seq<char>>, e: (Seq<char>, KvModel)) -> Seq<Seq<char>> {
    match e.1 {
        KvModel::Dict(_) => p.push(e.0),
        _ => p,
    }
}

/// One step of `flat_entries` is the flattening of the entry's value
/// under its frame path, followed by the rest.
pub proof fn lemma_flat_entries_step(p: Seq<Seq<char>>, entries: Seq<(Seq<char>, KvModel)>, i: int)
    requires
        0 <= i < entries.len(),
    ensures
        flat_entries(p, entries, i) == flat_model(entry_path(p, entries[i]), entries[i].1)
            + flat_entries(p, entries, i + 1),
{
}


/// Indexing view of `model_list`.
pub proof fn lemma_model_list_index(a: Seq<KeyValue>)
    ensures
        model_list(a).len() == a.len(),
        forall|i: int| 0 <= i < a.len() ==> #[trigger] model_list(a)[i] == a[i].model(),
    decreases a.len(),
{
    if a.len() > 0 {
        lemma_model_list_index(a.drop_first());
        assert forall|i: int| 0 <= i < a.len() implies #[trigger] model_list(a)[i]
            == a[i].model() by {
            if i > 0 {
                assert(model_list(a)[i] == model_list(a.drop_first())[i - 1]);
                assert(a.drop_first()[i - 1] == a[i]);
            }
        }
    }
}

/// Indexing view of `model_entries`.
pub proof fn lemma_model_entries_index(fields: Seq<(String, KeyValue)>)
    ensures
        model_entries(fields).len() == fields.len(),
        forall|i: int|
            0 <= i < fields.len() ==> #[trigger] model_entries(fields)[i] == (fields[i].0@,
            fields[i].1.model()),
    decreases fields.len(),
{
    if fields.len() > 0 {
        lemma_model_entries_index(fields.drop_first());
        assert forall|i: int|
            0 <= i < fields.len() implies #[trigger] model_entries(fields)[i] == (fields[i].0@,
        fields[i].1.model()) by {
            if i > 0 {
                assert(model_entries(fields)[i] == model_entries(fields.drop_first())[i - 1]);
                assert(fields.drop_first()[i - 1] == fields[i]);
            }
        }
    }
}

/// The lexicographic order is irreflexive.
pub proof fn lemma_lex_irrefl(s: Seq<char>)
    ensures
        !lex_lt(s, s),
    decreases s.len(),
{
    if s.len() > 0 {
        lemma_lex_irrefl(s.drop_first());
    }
}

/// The lexicographic order is asymmetric, and strictly ordered
/// sequences differ.
pub proof fn lemma_lex_asym(a: Seq<char>, b: Seq<char>)
    requires
        lex_lt(a, b),
    ensures
        !lex_lt(b, a),
        a != b,
    decreases a.len(),
{
    if a.len() > 0 && b.len() > 0 {
        if !((a[0] as u32) < (b[0] as u32)) && !((b[0] as u32) < (a[0] as u32)) {
            lemma_lex_asym(a.drop_first(), b.drop_first());
            if a == b {
                assert(a.drop_first() =~= b.drop_first());
            }
        } else {
            if a == b {
                assert(a[0] == b[0]);
            }
        }
    }
}

/// One comparison step: with equal characters at position `i`, the
/// order of the suffixes from `i` is the order of the suffixes from
/// `i + 1`.
proof fn lemma_lex_step(a: Seq<char>, b: Seq<char>, i: int)
    requires
        0 <= i < a.len(),
        i < b.len(),
        a[i] == b[i],
    ensures
        lex_lt(a.skip(i), b.skip(i)) == lex_lt(a.skip(i + 1), b.skip(i + 1)),
        lex_lt(b.skip(i), a.skip(i)) == lex_lt(b.skip(i + 1), a.skip(i + 1)),
{
    assert(a.skip(i).drop_first() =~= a.skip(i + 1));
    assert(b.skip(i).drop_first() =~= b.skip(i + 1));
    assert(a.skip(i)[0] == a[i]);
    assert(b.skip(i)[0] == b[i]);
}

/// Three-way lexicographic comparison of two keys.
fn cmp_keys(a: &String, b: &String) -> (r: i8)
    ensures
        r == -1 || r == 0 || r == 1,
        (r == -1) == lex_lt(a@, b@),
        (r == 0) == (a@ == b@),
        (r == 1) == lex_lt(b@, a@),
{
    let av = crate::text::chars_of(a.as_str());
    let bv = crate::text::chars_of(b.as_str());
    let al = av.len();
    let bl = bv.len();
    proof {
        assert(a@.skip(0) =~= a@);
        assert(b@.skip(0) =~= b@);
        lemma_lex_irrefl(a@);
    }
    let mut i: usize = 0;
    loop
        invariant
            i <= al,
            i <= bl,
            al == a@.len(),
            bl == b@.len(),
            av@ == a@,
            bv@ == b@,
            forall|k: int| 0 <= k < i ==> a@[k] == #[trigger] b@[k],
            lex_lt(a@, b@) == lex_lt(a@.skip(i as int), b@.skip(i as int)),
            lex_lt(b@, a@) == lex_lt(b@.skip(i as int), a@.skip(i as int)),
        decreases al - i,
    {
        if i == al && i == bl {
            proof {
                assert(a@ =~= b@);
                lemma_lex_irrefl(a@);
            }
            return 0;
        }
        if i == bl {
            proof {
                assert(b@.skip(i as int).len() == 0);
                assert(a@.skip(i as int).len() > 0);
                if a@ == b@ {
                    assert(a@.len() == b@.len());
                }
            }
            return 1;
        }
        if i == al {
            proof {
                assert(a@.skip(i as int).len() == 0);
                assert(b@.skip(i as int).len() > 0);
                if a@ == b@ {
                    assert(a@.len() == b@.len());
                }
            }
            return -1;
        }
        let ca = av[i] as u32;
        let cb = bv[i] as u32;
        proof {
            assert(a@.skip(i as int)[0] == a@[i as int]);
            assert(b@.skip(i as int)[0] == b@[i as int]);
        }
        if ca < cb {
            proof {
                if a@ == b@ {
                    assert(a@[i as int] == b@[i as int]);
                }
            }
            return -1;
        }
        if cb < ca {
            proof {
                if a@ == b@ {
                    assert(a@[i as int] == b@[i as int]);
                }
            }
            return 1;
        }
        proof {
            vstd::utf8::char_u32_cast(a@[i as int], ca);
            vstd::utf8::char_u32_cast(b@[i as int], ca);
            lemma_lex_step(a@, b@, i as int);
        }
        i += 1;
    }
}

/// Insert a (key, value) pair into sorted entries: before the first
/// larger key, replacing an entry with an equal key.
pub open spec fn spec_insert(
    entries: Seq<(Seq<char>, KvModel)>,
    k: Seq<char>,
    v: KvModel,
) -> Seq<(Seq<char>, KvModel)>
    decreases entries.len(),
{
    if entries.len() == 0 {
        seq![(k, v)]
    } else if lex_lt(k, entries[0].0) {
        seq![(k, v)] + entries
    } else if k == entries[0].0 {
        seq![(k, v)] + entries.drop_first()
    } else {
        seq![entries[0]] + spec_insert(entries.drop_first(), k, v)
    }
}

impl Item {
    /// A fresh document with no fields.
    pub fn new() -> (r: Item)
        ensures
            r.wf(),
            r.entries_model() == Seq::<(Seq<char>, KvModel)>::empty(),
    {
        let r = Item { fields: Vec::new() };
        proof {
            assert(r.entries_model() =~= Seq::<(Seq<char>, KvModel)>::empty());
        }
        r
    }

    /// Set a field: the entry is placed in key order, and replaces any
    /// entry with the same key.
    #[verifier::rlimit(60)]
    pub fn insert(&mut self, key: String, value: KeyValue)
        requires
            old(self).wf(),
            value.wf(),
        ensures
            final(self).wf(),
            final(self).entries_model() == spec_insert(
                old(self).entries_model(),
                key@,
                value.model(),
            ),
    {
        let ghost em = old(self).entries_model();
        let ghost kv = (key@, value.model());
        proof {
            lemma_model_entries_index(self.fields@);
            assert(em.skip(0) =~= em);
            assert(em.take(0) + spec_insert(em, key@, value.model()) =~= spec_insert(
                em,
                key@,
                value.model(),
            ));
        }
        let mut idx: usize = 0;
        loop
            invariant
                idx <= self.fields@.len(),
                *self == *old(self),
                kv == (key@, value.model()),
                wf_entries(em),
                wf_model(value.model()),
                em == self.entries_model(),
                em.len() == self.fields@.len(),
                forall|j: int|
                    0 <= j < em.len() ==> #[trigger] em[j] == (self.fields@[j].0@,
                    self.fields@[j].1.model()),
                forall|j: int| 0 <= j < idx ==> lex_lt((#[trigger] em[j]).0, key@),
                spec_insert(em, key@, value.model()) == em.take(idx as int) + spec_insert(
                    em.skip(idx as int),
                    key@,
                    value.model(),
                ),
            decreases self.fields@.len() - idx,
        {
            if idx == self.fields.len() {
                proof {
                    assert(em.skip(idx as int).len() == 0);
                }
                self.fields.push((key, value));
                proof {
                    lemma_model_entries_index(self.fields@);
                    assert(self.entries_model() =~= em.take(em.len() as int) + seq![kv]);
                    assert(em.take(em.len() as int) =~= em);
                    assert(self.entries_model() == spec_insert(em, key@, value.model()));
                    let nm = self.entries_model();
                    assert forall|j: int| 0 <= j && j + 1 < nm.len() implies lex_lt(
                        nm[j].0,
                        #[trigger] nm[j + 1].0,
                    ) by {
                        if j + 1 < em.len() {
                            assert(lex_lt(em[j].0, em[j + 1].0));
                        } else {
                            assert(lex_lt(em[j].0, key@));
                        }
                    }
                    assert(wf_entries(self.entries_model()));
                }
                return ;
            }
            let c = cmp_keys(&key, &self.fields[idx].0);
            proof {
                let ghost fidx = self.fields@[idx as int];
                assert(em[idx as int] == (fidx.0@, fidx.1.model()));
            }
            if c == -1 {
                proof {
                    assert(em.skip(idx as int)[0] == em[idx as int]);
                    assert(spec_insert(em.skip(idx as int), key@, value.model()) == seq![kv]
                        + em.skip(idx as int));
                }
                self.fields.insert(idx, (key, value));
                proof {
                    lemma_model_entries_index(self.fields@);
                    assert(self.entries_model() =~= em.take(idx as int) + (seq![kv] + em.skip(
                        idx as int,
                    )));
                    assert(self.entries_model() == spec_insert(em, key@, value.model()));
                    let nm = self.entries_model();
                    assert forall|j: int| 0 <= j && j + 1 < nm.len() implies lex_lt(
                        nm[j].0,
                        #[trigger] nm[j + 1].0,
                    ) by {
                        if j + 1 < idx {
                            assert(nm[j] == em[j]);
                            assert(nm[j + 1] == em[j + 1]);
                            assert(lex_lt(em[j].0, em[j + 1].0));
                        } else if j + 1 == idx {
                            assert(nm[j] == em[j]);
                            assert(lex_lt(em[j].0, key@));
                        } else if j == idx {
                            assert(nm[j + 1] == em[idx as int]);
                        } else {
                            assert(nm[j] == em[j - 1]);
                            assert(nm[j + 1] == em[j]);
                            assert(lex_lt(em[j - 1].0, em[(j - 1) + 1].0));
                        }
                    }
                    assert forall|j: int| 0 <= j < nm.len() implies wf_model(
                        (#[trigger] nm[j]).1,
                    ) by {
                        if j < idx {
                            assert(nm[j] == em[j]);
                        } else if j > idx {
                            assert(nm[j] == em[j - 1]);
                        }
                    }
                    assert(wf_entries(self.entries_model()));
                }
                return ;
            } else if c == 0 {
                proof {
                    lemma_lex_irrefl(key@);
                    assert(em.skip(idx as int)[0] == em[idx as int]);
                    assert(em.skip(idx as int).drop_first() =~= em.skip(idx + 1));
                    assert(spec_insert(em.skip(idx as int), key@, value.model()) == seq![kv]
                        + em.skip(idx + 1));
                }
                self.fields.set(idx, (key, value));
                proof {
                    lemma_model_entries_index(self.fields@);
                    assert(self.entries_model() =~= em.take(idx as int) + (seq![kv] + em.skip(
                        idx + 1,
                    )));
                    assert(self.entries_model() == spec_insert(em, key@, value.model()));
                    let nm = self.entries_model();
                    assert forall|j: int| 0 <= j && j + 1 < nm.len() implies lex_lt(
                        nm[j].0,
                        #[trigger] nm[j + 1].0,
                    ) by {
                        assert(nm[j].0 == em[j].0);
                        assert(nm[j + 1].0 == em[j + 1].0);
                        assert(lex_lt(em[j].0, em[j + 1].0));
                    }
                    assert forall|j: int| 0 <= j < nm.len() implies wf_model(
                        (#[trigger] nm[j]).1,
                    ) by {
                        if j != idx {
                            assert(nm[j] == em[j]);
                        }
                    }
                    assert(wf_entries(self.entries_model()));
                }
                return ;
            } else {
                proof {
                    lemma_lex_asym(em[idx as int].0, key@);
                    assert(em.skip(idx as int)[0] == em[idx as int]);
                    assert(em.skip(idx as int).drop_first() =~= em.skip(idx + 1));
                    assert(spec_insert(em.skip(idx as int), key@, value.model()) == seq![
                        em[idx as int],
                    ] + spec_insert(em.skip(idx + 1), key@, value.model()));
                    assert(em.take(idx as int) + (seq![em[idx as int]] + spec_insert(
                        em.skip(idx + 1),
                        key@,
                        value.model(),
                    )) =~= em.take(idx + 1) + spec_insert(em.skip(idx + 1), key@, value.model()));
                }
                idx += 1;
            }
        }
    }

    /// Read access to the document's fields: the (name, value) pairs
    /// in stored (key-sorted) order.
    pub fn entries(&self) -> (r: &Vec<(String, KeyValue)>)
        ensures
            model_entries(r@) == self.entries_model(),
    {
        &self.fields
    }

    /// A copy of this document, with the same entries.
    pub fn duplicate(&self) -> (r: Item)
        ensures
            r.entries_model() == self.entries_model(),
    {
        copy_item(self)
    }

    /// A small example document: a `foo` map holding two string fields.
    pub fn mock() -> (r: Item)
        ensures
            r.wf(),
            r.entries_model() == seq![
                ("foo"@, KvModel::Dict(
                    seq![
                        ("bar"@, KvModel::Value("hello"@)),
                        ("baz"@, KvModel::Value("world"@)),
                    ],
                )),
            ],
    {
        let mut inner = Item::new();
        inner.insert("bar".to_owned(), KeyValue::Value("hello".to_owned()));
        proof {
            assert(inner.entries_model() =~= seq![("bar"@, KvModel::Value("hello"@))]);
        }
        inner.insert("baz".to_owned(), KeyValue::Value("world".to_owned()));
        proof {
            let b1 = "baz"@;
            let b2 = "bar"@;
            reveal_strlit("baz");
            reveal_strlit("bar");
            assert(!lex_lt(b1, b2) && b1 != b2) by {
                let t1 = b1.drop_first();
                let t2 = b2.drop_first();
                let u1 = t1.drop_first();
                let u2 = t2.drop_first();
                assert(b1[0] == 'b' && b2[0] == 'b');
                assert(t1[0] == b1[1] && t2[0] == b2[1]);
                assert(u1[0] == b1[2] && u2[0] == b2[2]);
                assert(u1.len() == 1 && u2.len() == 1);
                assert(!lex_lt(u1, u2));
                assert(lex_lt(t1, t2) == lex_lt(u1, u2));
                assert(lex_lt(b1, b2) == lex_lt(t1, t2));
                assert(b1[2] != b2[2]);
            }
            let em1 = seq![("bar"@, KvModel::Value("hello"@))];
            assert(em1.drop_first() =~= Seq::<(Seq<char>, KvModel)>::empty());
            assert(spec_insert(em1.drop_first(), "baz"@, KvModel::Value("world"@)) == seq![
                ("baz"@, KvModel::Value("world"@)),
            ]);
            assert(inner.entries_model() =~= seq![
                ("bar"@, KvModel::Value("hello"@)),
                ("baz"@, KvModel::Value("world"@)),
            ]);
        }
        let mut root = Item::new();
        root.insert("foo".to_owned(), KeyValue::Dict(inner));
        proof {
            assert(root.entries_model() =~= seq![
                ("foo"@, KvModel::Dict(
                    seq![
                        ("bar"@, KvModel::Value("hello"@)),
                        ("baz"@, KvModel::Value("world"@)),
                    ],
                )),
            ]);
        }
        root
    }
}


/// Node count of a value shape, the traversal's termination measure.
pub open spec fn size_model(m: KvModel) -> nat
    decreases m, 0int,
{
    match m {
        KvModel::Value(_) => 1,
        KvModel::Array(elems) => 1 + size_list(elems, 0),
        KvModel::Dict(entries) => 1 + size_entries(entries, 0),
    }
}

/// Node count of the elements of a list from index `i` on.
pub open spec fn size_list(elems: Seq<KvModel>, i: int) -> nat
    decreases elems, elems.len() - i + 1,
{
    if 0 <= i < elems.len() {
        size_model(elems[i]) + size_list(elems, i + 1)
    } else {
        0
    }
}

/// Node count of the values of a map level from index `i` on.
pub open spec fn size_entries(entries: Seq<(Seq<char>, KvModel)>, i: int) -> nat
    decreases entries, entries.len() - i,
{
    if 0 <= i < entries.len() {
        size_model(entries[i].1) + size_entries(entries, i + 1)
    } else {
        0
    }
}

/// What one traversal stack frame still yields.
pub open spec fn frame_flat(f: (Vec<String>, KeyValue)) -> Seq<FlatPair> {
    flat_model(f.0.deep_view(), f.1.model())
}

/// What a traversal stack still yields, top frame first.
pub open spec fn iter_rem(st: Seq<(Vec<String>, KeyValue)>) -> Seq<FlatPair>
    decreases st.len(),
{
    if st.len() == 0 {
        Seq::empty()
    } else {
        frame_flat(st.last()) + iter_rem(st.drop_last())
    }
}

/// Node count of a traversal stack.
pub open spec fn iter_size(st: Seq<(Vec<String>, KeyValue)>) -> nat
    decreases st.len(),
{
    if st.len() == 0 {
        0
    } else {
        size_model(st.last().1.model()) + iter_size(st.drop_last())
    }
}

/// Copy a field path.
fn copy_path(p: &Vec<String>) -> (r: Vec<String>)
    ensures
        r@ == p@,
{
    let mut r: Vec<String> = Vec::new();
    let mut i: usize = 0;
    while i < p.len()
        invariant
            i <= p@.len(),
            r@ == p@.take(i as int),
        decreases p@.len() - i,
    {
        r.push(p[i].clone());
        proof {
            assert(r@ =~= p@.take(i + 1));
        }
        i += 1;
    }
    proof {
        assert(p@.take(p@.len() as int) =~= p@);
    }
    r
}

/// The list measure dominates each element's measure.
proof fn lemma_size_list_ge(elems: Seq<KvModel>, i: int, j: int)
    requires
        0 <= i <= j < elems.len(),
    ensures
        size_list(elems, i) >= size_model(elems[j]),
    decreases j - i,
{
    if i < j {
        lemma_size_list_ge(elems, i + 1, j);
    }
}

/// The map-level measure dominates each value's measure.
proof fn lemma_size_entries_ge(entries: Seq<(Seq<char>, KvModel)>, i: int, j: int)
    requires
        0 <= i <= j < entries.len(),
    ensures
        size_entries(entries, i) >= size_model(entries[j].1),
    decreases j - i,
{
    if i < j {
        lemma_size_entries_ge(entries, i + 1, j);
    }
}

/// Copy a field value; the copy has the same shape.
fn copy_kv(kv: &KeyValue) -> (r: KeyValue)
    ensures
        r.model() == kv.model(),
    decreases size_model(kv.model()), 0int,
{
    match kv {
        KeyValue::Value(s) => KeyValue::Value(s.clone()),
        KeyValue::Dict(m) => KeyValue::Dict(copy_item(m)),
        KeyValue::Array(a) => {
            let mut out: Vec<KeyValue> = Vec::new();
            let mut i: usize = 0;
            while i < a.len()
                invariant
                    i <= a@.len(),
                    out@.len() == i,
                    kv.model() == KvModel::Array(model_list(a@)),
                    forall|k: int|
                        0 <= k < i ==> (#[trigger] out@[k]).model() == a@[k].model(),
                decreases a@.len() - i,
            {
                proof {
                    lemma_model_list_index(a@);
                    lemma_size_list_ge(model_list(a@), 0, i as int);
                }
                let c = copy_kv(&a[i]);
                out.push(c);
                i += 1;
            }
            proof {
                lemma_model_list_index(out@);
                lemma_model_list_index(a@);
                assert(model_list(out@) =~= model_list(a@));
            }
            KeyValue::Array(out)
        },
    }
}

/// Copy a document; the copy has the same entries.
fn copy_item(it: &Item) -> (r: Item)
    ensures
        r.entries_model() == it.entries_model(),
    decreases size_entries(it.entries_model(), 0), 1int,
{
    let mut out: Vec<(String, KeyValue)> = Vec::new();
    let mut i: usize = 0;
    while i < it.fields.len()
        invariant
            i <= it.fields@.len(),
            out@.len() == i,
            it.entries_model() == model_entries(it.fields@),
            forall|k: int|
                0 <= k < i ==> (#[trigger] out@[k]).0@ == it.fields@[k].0@ && out@[k].1.model()
                    == it.fields@[k].1.model(),
        decreases it.fields@.len() - i,
    {
        proof {
            lemma_model_entries_index(it.fields@);
            lemma_size_entries_ge(it.entries_model(), 0, i as int);
        }
        let key = it.fields[i].0.clone();
        let val = copy_kv(&it.fields[i].1);
        out.push((key, val));
        i += 1;
    }
    let r = Item { fields: out };
    proof {
        lemma_model_entries_index(r.fields@);
        lemma_model_entries_index(it.fields@);
        assert(r.entries_model() =~= it.entries_model());
    }
    r
}

/// A restartable flattening traversal over a document, driven by an
/// explicit stack of (path, value) frames.
pub struct ItemIterator {
    stack: Vec<(Vec<String>, KeyValue)>,
}

impl ItemIterator {
    /// The (path, leaf-value) pairs this traversal has yet to yield.
    pub closed spec fn remaining(self) -> Seq<FlatPair> {
        iter_rem(self.stack@)
    }
}

impl Item {
    /// Begin a fresh flattening traversal of this document. Each
    /// traversal is independent: it works on its own copy and always
    /// yields the full flattening in order.
    pub fn iter(&self) -> (it: ItemIterator)
        ensures
            it.remaining() == item_flat(*self),
    {
        let copy = copy_item(self);
        let mut stack: Vec<(Vec<String>, KeyValue)> = Vec::new();
        let path: Vec<String> = Vec::new();
        stack.push((path, KeyValue::Dict(copy)));
        let it = ItemIterator { stack };
        proof {
            let st = it.stack@;
            assert(st.drop_last() =~= Seq::<(Vec<String>, KeyValue)>::empty());
            assert(st.last().0.deep_view() =~= Seq::<Seq<char>>::empty());
            assert(frame_flat(st.last()) == flat_entries(
                Seq::empty(),
                self.entries_model(),
                0,
            ));
            assert(iter_rem(st.drop_last()) =~= Seq::<FlatPair>::empty());
            assert(iter_rem(st) =~= frame_flat(st.last()));
        }
        it
    }
}


impl ItemIterator {
    /// Yield the next (path, leaf-value) pair, or `None` when the
    /// traversal is finished.
    #[verifier::rlimit(60)]
    pub fn get(&mut self) -> (r: Option<(Vec<String>, String)>)
        ensures
            match r {
                Option::Some(pair) => old(self).remaining().len() > 0 && (
                pair.0.deep_view(),
                pair.1@,
                ) == old(self).remaining()[0] && final(self).remaining() == old(
                    self,
                ).remaining().drop_first(),
                Option::None => old(self).remaining().len() == 0 && final(self).remaining()
                    == old(self).remaining(),
            },
    {
        loop
            invariant
                iter_rem(self.stack@) == iter_rem(old(self).stack@),
            decreases iter_size(self.stack@),
        {
            let ghost st_pre = self.stack@;
            let frame_opt = self.stack.pop();
            match frame_opt {
                Option::None => {
                    proof {
                        assert(st_pre.len() == 0);
                    }
                    return Option::None;
                },
                Option::Some((path, kv)) => {
                    let ghost pd = path.deep_view();
                    let ghost km = kv.model();
                    let ghost st0 = self.stack@;
                    proof {
                        assert(st_pre.drop_last() =~= st0);
                        assert(st_pre.last() == (path, kv));
                        assert(frame_flat(st_pre.last()) == flat_model(pd, km));
                        assert(iter_rem(st_pre) == flat_model(pd, km) + iter_rem(st0));
                        assert(iter_size(st_pre) == size_model(km) + iter_size(st0));
                    }
                    match kv {
                        KeyValue::Value(s) => {
                            proof {
                                assert(flat_model(pd, km) == seq![(pd, s@)]);
                                assert(iter_rem(st_pre)[0] == (pd, s@));
                                assert(iter_rem(st_pre).drop_first() =~= iter_rem(st0));
                            }
                            return Option::Some((path, s));
                        },
                        KeyValue::Array(mut elems) => {
                            let ghost elems0 = elems@;
                            let ghost models = model_list(elems0);
                            proof {
                                lemma_model_list_index(elems0);
                                assert(km == KvModel::Array(models));
                                assert(flat_model(pd, km) == flat_list(pd, models, 0));
                                assert(size_model(km) == 1 + size_list(models, 0));
                                assert(elems0.take(elems0.len() as int) =~= elems0);
                            }
                            while elems.len() > 0
                                invariant
                                    elems@.len() <= elems0.len(),
                                    elems@ == elems0.take(elems@.len() as int),
                                    models == model_list(elems0),
                                    models.len() == elems0.len(),
                                    forall|j: int|
                                        0 <= j < elems0.len() ==> #[trigger] models[j]
                                            == elems0[j].model(),
                                    pd == path.deep_view(),
                                    iter_rem(self.stack@) == flat_list(
                                        pd,
                                        models,
                                        elems@.len() as int,
                                    ) + iter_rem(st0),
                                    iter_size(self.stack@) == size_list(
                                        models,
                                        elems@.len() as int,
                                    ) + iter_size(st0),
                                decreases elems@.len(),
                            {
                                let ghost j = elems@.len() - 1;
                                let v = elems.pop().unwrap();
                                let p2 = copy_path(&path);
                                proof {
                                    assert(elems0.take(j + 1).last() == elems0[j]);
                                    assert(v == elems0[j]);
                                    assert(elems@ =~= elems0.take(elems@.len() as int));
                                    assert(p2.deep_view() =~= pd);
                                }
                                let ghost st_in = self.stack@;
                                self.stack.push((p2, v));
                                proof {
                                    let stp = self.stack@;
                                    assert(stp.drop_last() =~= st_in);
                                    assert(stp.last() == (p2, v));
                                    assert(frame_flat((p2, v)) == flat_model(pd, models[j]));
                                    assert(flat_list(pd, models, j) == flat_model(pd, models[j])
                                        + flat_list(pd, models, j + 1));
                                    assert(flat_model(pd, models[j]) + (flat_list(
                                        pd,
                                        models,
                                        j + 1,
                                    ) + iter_rem(st0)) =~= (flat_model(pd, models[j]) + flat_list(
                                        pd,
                                        models,
                                        j + 1,
                                    )) + iter_rem(st0));
                                    assert(size_list(models, j) == size_model(models[j])
                                        + size_list(models, j + 1));
                                }
                            }
                            proof {
                                assert(elems@.len() == 0);
                                assert(iter_rem(self.stack@) == iter_rem(st_pre));
                                assert(iter_size(self.stack@) < iter_size(st_pre));
                            }
                        },
                        KeyValue::Dict(item) => {
                            let Item { fields: mut fields } = item;
                            let ghost forig = fields@;
                            let ghost ems = model_entries(forig);
                            proof {
                                lemma_model_entries_index(forig);
                                assert(km == KvModel::Dict(ems));
                                assert(flat_model(pd, km) == flat_entries(pd, ems, 0));
                                assert(size_model(km) == 1 + size_entries(ems, 0));
                                assert(forig.take(forig.len() as int) =~= forig);
                            }
                            while fields.len() > 0
                                invariant
                                    fields@.len() <= forig.len(),
                                    fields@ == forig.take(fields@.len() as int),
                                    ems == model_entries(forig),
                                    ems.len() == forig.len(),
                                    forall|j: int|
                                        0 <= j < forig.len() ==> #[trigger] ems[j] == (
                                        forig[j].0@,
                                        forig[j].1.model(),
                                        ),
                                    pd == path.deep_view(),
                                    iter_rem(self.stack@) == flat_entries(
                                        pd,
                                        ems,
                                        fields@.len() as int,
                                    ) + iter_rem(st0),
                                    iter_size(self.stack@) == size_entries(
                                        ems,
                                        fields@.len() as int,
                                    ) + iter_size(st0),
                                decreases fields@.len(),
                            {
                                let ghost j = fields@.len() - 1;
                                let (k, v) = fields.pop().unwrap();
                                let ghost vm = v.model();
                                let p2 = copy_path(&path);
                                proof {
                                    assert(forig.take(j + 1).last() == forig[j]);
                                    assert(k == forig[j].0 && v == forig[j].1);
                                    assert(fields@ =~= forig.take(fields@.len() as int));
                                    assert(p2.deep_view() =~= pd);
                                }
                                let is_dict = matches!(v, KeyValue::Dict(_));
                                let fp: Vec<String> = if is_dict {
                                    let mut p3 = p2;
                                    p3.push(k);
                                    proof {
                                        assert(p3.deep_view() =~~= pd.push(k@));
                                    }
                                    p3
                                } else {
                                    p2
                                };
                                proof {
                                    assert(fp.deep_view() == entry_path(pd, ems[j]));
                                }
                                let ghost st_in = self.stack@;
                                self.stack.push((fp, v));
                                proof {
                                    let stp = self.stack@;
                                    assert(stp.drop_last() =~= st_in);
                                    assert(stp.last() == (fp, v));
                                    assert(frame_flat((fp, v)) == flat_model(
                                        entry_path(pd, ems[j]),
                                        ems[j].1,
                                    ));
                                    lemma_flat_entries_step(pd, ems, j);
                                    assert(flat_model(entry_path(pd, ems[j]), ems[j].1) + (
                                    flat_entries(pd, ems, j + 1) + iter_rem(st0)) =~= (flat_model(
                                        entry_path(pd, ems[j]),
                                        ems[j].1,
                                    ) + flat_entries(pd, ems, j + 1)) + iter_rem(st0));
                                    assert(size_entries(ems, j) == size_model(ems[j].1)
                                        + size_entries(ems, j + 1));
                                }
                            }
                            proof {
                                assert(fields@.len() == 0);
                                assert(iter_rem(self.stack@) == iter_rem(st_pre));
                                assert(iter_size(self.stack@) < iter_size(st_pre));
                            }
                        },
                    }
                },
            }
        }
    }
}

} // verus!
