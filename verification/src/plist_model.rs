use vstd::prelude::*;

verus! {

/// The bit pattern of a property-list real, in the width that OPACK carries it.
#[derive(Clone, Copy, Debug, PartialEq, Eq, Structural)]
pub enum RealBits {
    /// A value that an `f32` holds exactly, as the `f32` bit pattern.
    Single(u32),
    /// Any other value, as the `f64` bit pattern.
    Double(u64),
}

/// A property-list value.
#[derive(Debug)]
pub enum PlistValue {
    Array(Vec<PlistValue>),
    /// Entries in insertion order; keys are expected to be distinct.
    Dictionary(Vec<(String, PlistValue)>),
    Boolean(bool),
    Data(Vec<u8>),
    Real(RealBits),
    /// Property-list integers span the `i64` and `u64` ranges.
    Integer(i128),
    String(String),
    /// A date or a UID: kinds that OPACK has no encoding for.
    Unencodable,
}

/// The mathematical value of a [`PlistValue`].
pub enum PlistModel {
    Array(Seq<PlistModel>),
    Dictionary(Seq<(Seq<char>, PlistModel)>),
    Boolean(bool),
    Data(Seq<u8>),
    Real(RealBits),
    Integer(int),
    String(Seq<char>),
    Unencodable,
}

pub open spec fn value_model(v: PlistValue) -> PlistModel
    decreases v,
{
    match v {
        PlistValue::Array(items) => PlistModel::Array(
            Seq::new(
                items.len() as nat,
                |i: int|
                    if 0 <= i < items.len() {
                        value_model(items@[i])
                    } else {
                        PlistModel::Unencodable
                    },
            ),
        ),
        PlistValue::Dictionary(entries) => PlistModel::Dictionary(
            Seq::new(
                entries.len() as nat,
                |i: int|
                    if 0 <= i < entries.len() {
                        (entries@[i].0@, value_model(entries@[i].1))
                    } else {
                        (Seq::empty(), PlistModel::Unencodable)
                    },
            ),
        ),
        PlistValue::Boolean(b) => PlistModel::Boolean(b),
        PlistValue::Data(d) => PlistModel::Data(d@),
        PlistValue::Real(r) => PlistModel::Real(r),
        PlistValue::Integer(n) => PlistModel::Integer(n as int),
        PlistValue::String(s) => PlistModel::String(s@),
        PlistValue::Unencodable => PlistModel::Unencodable,
    }
}

impl View for PlistValue {
    type V = PlistModel;

    open spec fn view(&self) -> PlistModel {
        value_model(*self)
    }
}

/// Whether some entry of `entries` has the key `k`.
pub open spec fn has_key(entries: Seq<(Seq<char>, PlistModel)>, k: Seq<char>) -> bool {
    exists|i: int| 0 <= i < entries.len() && entries[i].0 == k
}

/// No two entries share a key.
pub open spec fn keys_distinct(entries: Seq<(Seq<char>, PlistModel)>) -> bool {
    forall|i: int, j: int|
        0 <= i < entries.len() && 0 <= j < entries.len() && i != j ==> entries[i].0 != entries[j].0
}

/// Inserting into an ordered dictionary: a present key keeps its place and takes the new value;
/// a new key goes at the end.
pub open spec fn dict_insert(entries: Seq<(Seq<char>, PlistModel)>, k: Seq<char>, v: PlistModel) -> Seq<
    (Seq<char>, PlistModel),
> {
    if has_key(entries, k) {
        let i = choose|i: int| 0 <= i < entries.len() && entries[i].0 == k;
        entries.update(i, (k, v))
    } else {
        entries.push((k, v))
    }
}

/// The models of a sequence of values.
pub open spec fn items_model(s: Seq<PlistValue>) -> Seq<PlistModel> {
    Seq::new(s.len(), |i: int| s[i]@)
}

/// The models of a sequence of dictionary entries.
pub open spec fn entries_model(s: Seq<(String, PlistValue)>) -> Seq<(Seq<char>, PlistModel)> {
    Seq::new(s.len(), |i: int| (s[i].0@, s[i].1@))
}

/// The model of an array is the sequence of its items' models.
pub proof fn lemma_array_model(items: Vec<PlistValue>)
    ensures
        PlistValue::Array(items)@ == PlistModel::Array(items_model(items@)),
{
    assert(PlistValue::Array(items)@ == PlistModel::Array(items_model(items@))) by {
        if let PlistModel::Array(m) = value_model(PlistValue::Array(items)) {
            assert(m =~= items_model(items@));
        }
    }
}

/// The model of a dictionary is the sequence of its entries' models.
pub proof fn lemma_dictionary_model(entries: Vec<(String, PlistValue)>)
    ensures
        PlistValue::Dictionary(entries)@ == PlistModel::Dictionary(entries_model(entries@)),
{
    assert(PlistValue::Dictionary(entries)@ == PlistModel::Dictionary(entries_model(entries@))) by {
        if let PlistModel::Dictionary(m) = value_model(PlistValue::Dictionary(entries)) {
            assert(m =~= entries_model(entries@));
        }
    }
}

/// Inserting into a dictionary whose keys are distinct keeps them distinct.
pub proof fn lemma_dict_insert_distinct(entries: Seq<(Seq<char>, PlistModel)>, k: Seq<char>, v: PlistModel)
    requires
        keys_distinct(entries),
    ensures
        keys_distinct(dict_insert(entries, k, v)),
{
}

/// Inserts `value` under `key`: a present key keeps its place and takes the new value, a new
/// key goes at the end.
pub fn dictionary_insert(entries: &mut Vec<(String, PlistValue)>, key: String, value: PlistValue)
    requires
        keys_distinct(entries_model(old(entries)@)),
    ensures
        entries_model(final(entries)@) == dict_insert(entries_model(old(entries)@), key@, value@),
        keys_distinct(entries_model(final(entries)@)),
{
    let ghost m = entries_model(entries@);
    let mut i: usize = 0;
    while i < entries.len()
        invariant
            i <= entries.len(),
            entries_model(entries@) == m,
            m == entries_model(old(entries)@),
            keys_distinct(m),
            forall|j: int| 0 <= j < i ==> m[j].0 != key@,
        decreases entries.len() - i,
    {
        if entries[i].0 == key {
            proof {
                assert(m[i as int].0 == key@);
                assert(has_key(m, key@));
                let c = choose|c: int| 0 <= c < m.len() && m[c].0 == key@;
                assert(c == i);
            }
            let ghost km = key@;
            let ghost vm = value@;
            entries.set(i, (key, value));
            proof {
                assert(entries_model(entries@) =~= m.update(i as int, (km, vm)));
                assert(dict_insert(m, km, vm) == m.update(i as int, (km, vm)));
                lemma_dict_insert_distinct(m, km, vm);
            }
            return;
        }
        i += 1;
    }
    let ghost km = key@;
    let ghost vm = value@;
    entries.push((key, value));
    proof {
        assert(!has_key(m, km));
        assert(entries_model(entries@) =~= m.push((km, vm)));
        lemma_dict_insert_distinct(m, km, vm);
    }
}

/// Whether two values are equal: the same kind, holding equal contents.
pub fn values_equal(a: &PlistValue, b: &PlistValue) -> (r: bool)
    ensures
        r == (a@ == b@),
    decreases a,
{
    match (a, b) {
        (PlistValue::Array(x), PlistValue::Array(y)) => {
            proof {
                lemma_array_model(*x);
                lemma_array_model(*y);
            }
            if x.len() != y.len() {
                proof {
                    assert(items_model(x@).len() != items_model(y@).len());
                }
                return false;
            }
            let mut i: usize = 0;
            while i < x.len()
                invariant
                    x@.len() == y@.len(),
                    i <= x@.len(),
                    *a == PlistValue::Array(*x),
                    a@ == PlistModel::Array(items_model(x@)),
                    b@ == PlistModel::Array(items_model(y@)),
                    forall|j: int| 0 <= j < i ==> x@[j]@ == y@[j]@,
                decreases x@.len() - i,
            {
                proof {
                    assert(decreases_to!(*a => x@[i as int])) by {
                        broadcast use vstd::std_specs::vec::axiom_vec_index_decreases;

                        assert(decreases_to!(*x => x[i as int]));
                        assert(decreases_to!(*a => (*a)->Array_0));
                    }
                }
                if !values_equal(&x[i], &y[i]) {
                    proof {
                        assert(items_model(x@)[i as int] != items_model(y@)[i as int]);
                    }
                    return false;
                }
                i += 1;
            }
            proof {
                assert(items_model(x@) =~= items_model(y@));
            }
            true
        },
        (PlistValue::Dictionary(x), PlistValue::Dictionary(y)) => {
            proof {
                lemma_dictionary_model(*x);
                lemma_dictionary_model(*y);
            }
            if x.len() != y.len() {
                proof {
                    assert(entries_model(x@).len() != entries_model(y@).len());
                }
                return false;
            }
            let mut i: usize = 0;
            while i < x.len()
                invariant
                    x@.len() == y@.len(),
                    i <= x@.len(),
                    *a == PlistValue::Dictionary(*x),
                    a@ == PlistModel::Dictionary(entries_model(x@)),
                    b@ == PlistModel::Dictionary(entries_model(y@)),
                    forall|j: int| 0 <= j < i ==> x@[j].0@ == y@[j].0@ && x@[j].1@ == y@[j].1@,
                decreases x@.len() - i,
            {
                proof {
                    assert(decreases_to!(*a => x@[i as int].1)) by {
                        broadcast use vstd::std_specs::vec::axiom_vec_index_decreases;

                        assert(decreases_to!(*x => x[i as int]));
                        assert(decreases_to!(*a => (*a)->Dictionary_0));
                        assert(decreases_to!(x[i as int] => x[i as int].1));
                    }
                }
                if x[i].0 != y[i].0 || !values_equal(&x[i].1, &y[i].1) {
                    proof {
                        assert(entries_model(x@)[i as int] != entries_model(y@)[i as int]);
                    }
                    return false;
                }
                i += 1;
            }
            proof {
                assert(entries_model(x@) =~= entries_model(y@));
            }
            true
        },
        (PlistValue::Boolean(x), PlistValue::Boolean(y)) => *x == *y,
        (PlistValue::Data(x), PlistValue::Data(y)) => {
            if x.len() != y.len() {
                return false;
            }
            let mut i: usize = 0;
            while i < x.len()
                invariant
                    x@.len() == y@.len(),
                    i <= x@.len(),
                    forall|j: int| 0 <= j < i ==> x@[j] == y@[j],
                    *a == PlistValue::Data(*x),
                    *b == PlistValue::Data(*y),
                decreases x@.len() - i,
            {
                if x[i] != y[i] {
                    return false;
                }
                i += 1;
            }
            proof {
                assert(x@ =~= y@);
            }
            true
        },
        (PlistValue::Real(x), PlistValue::Real(y)) => *x == *y,
        (PlistValue::Integer(x), PlistValue::Integer(y)) => *x == *y,
        (PlistValue::String(x), PlistValue::String(y)) => *x == *y,
        (PlistValue::Unencodable, PlistValue::Unencodable) => true,
        _ => false,
    }
}

impl PartialEq for PlistValue {
    fn eq(&self, other: &PlistValue) -> (r: bool) {
        values_equal(self, other)
    }
}

impl vstd::std_specs::cmp::PartialEqSpecImpl for PlistValue {
    open spec fn obeys_eq_spec() -> bool {
        true
    }

    open spec fn eq_spec(&self, other: &PlistValue) -> bool {
        self@ == other@
    }
}

/// The value of the first entry with key `k`.
pub open spec fn dict_get(es: Seq<(Seq<char>, PlistModel)>, k: Seq<char>) -> Option<PlistModel>
    decreases es.len(),
{
    if es.len() == 0 {
        None
    } else if es[0].0 == k {
        Some(es[0].1)
    } else {
        dict_get(es.drop_first(), k)
    }
}

/// The value of the first entry with key `key`.
pub fn dictionary_get<'a>(entries: &'a [(String, PlistValue)], key: &str) -> (r: Option<
    &'a PlistValue,
>)
    ensures
        match dict_get(entries_model(entries@), key@) {
            Some(v) => r matches Some(x) && x@ == v,
            None => r is None,
        },
{
    let ghost es = entries_model(entries@);
    let wanted = key.to_owned();
    let mut i: usize = 0;
    proof {
        assert(es.subrange(0, es.len() as int) =~= es);
    }
    while i < entries.len()
        invariant
            i <= entries@.len(),
            es == entries_model(entries@),
            wanted@ == key@,
            dict_get(es, key@) == dict_get(es.subrange(i as int, es.len() as int), key@),
        decreases entries@.len() - i,
    {
        proof {
            let rest = es.subrange(i as int, es.len() as int);
            assert(rest.drop_first() =~= es.subrange(i + 1, es.len() as int));
        }
        if entries[i].0 == wanted {
            return Some(&entries[i].1);
        }
        i += 1;
    }
    proof {
        assert(es.subrange(i as int, es.len() as int) =~= Seq::<(Seq<char>, PlistModel)>::empty());
    }
    None
}


/// Looking a key up gives the value of its first entry, and nothing when no entry has it.
pub proof fn lemma_dict_get_first(es: Seq<(Seq<char>, PlistModel)>, k: Seq<char>)
    ensures
        dict_get(es, k) matches Some(v) ==> exists|i: int|
            0 <= i < es.len() && #[trigger] es[i] == (k, v) && forall|j: int|
                0 <= j < i ==> #[trigger] es[j].0 != k,
        dict_get(es, k) is None <==> !has_key(es, k),
    decreases es.len(),
{
    if es.len() > 0 {
        let rest = es.drop_first();
        lemma_dict_get_first(rest, k);
        if es[0].0 == k {
            assert(es[0] == (k, es[0].1));
        } else {
            if let Some(v) = dict_get(rest, k) {
                let i = choose|i: int|
                    0 <= i < rest.len() && #[trigger] rest[i] == (k, v) && forall|j: int|
                        0 <= j < i ==> #[trigger] rest[j].0 != k;
                assert(es[i + 1] == (k, v));
                assert forall|j: int| 0 <= j < i + 1 implies #[trigger] es[j].0 != k by {
                    if j > 0 {
                        assert(es[j] == rest[j - 1]);
                    }
                }
            }
            if has_key(es, k) {
                let i = choose|i: int| 0 <= i < es.len() && es[i].0 == k;
                assert(rest[i - 1].0 == k);
            }
            if has_key(rest, k) {
                let i = choose|i: int| 0 <= i < rest.len() && rest[i].0 == k;
                assert(es[i + 1].0 == k);
            }
        }
    }
}

/// After inserting `v` under `k` into a dictionary with distinct keys, `k` looks up as `v` and
/// every other key as before; an existing key keeps its place and the other entries stay as they
/// were, and a new key is added after all the others.
pub proof fn lemma_dict_insert_lookup(
    es: Seq<(Seq<char>, PlistModel)>,
    k: Seq<char>,
    v: PlistModel,
    other: Seq<char>,
)
    requires
        keys_distinct(es),
    ensures
        dict_get(dict_insert(es, k, v), k) == Some(v),
        other != k ==> dict_get(dict_insert(es, k, v), other) == dict_get(es, other),
        has_key(es, k) ==> dict_insert(es, k, v).len() == es.len() && forall|i: int|
            0 <= i < es.len() && es[i].0 != k ==> #[trigger] dict_insert(es, k, v)[i] == es[i],
        !has_key(es, k) ==> dict_insert(es, k, v).len() == es.len() + 1 && dict_insert(
            es,
            k,
            v,
        ).last() == (k, v) && dict_insert(es, k, v).subrange(0, es.len() as int) == es,
{
    let r = dict_insert(es, k, v);
    lemma_dict_insert_distinct(es, k, v);
    lemma_dict_get_first(r, k);
    lemma_dict_get_first(r, other);
    lemma_dict_get_first(es, other);
    if has_key(es, k) {
        let i = choose|i: int| 0 <= i < es.len() && es[i].0 == k;
        assert(r[i] == (k, v));
        assert(has_key(r, k));
        if let Some(w) = dict_get(r, k) {
            let a = choose|a: int|
                0 <= a < r.len() && #[trigger] r[a] == (k, w) && forall|j: int|
                    0 <= j < a ==> #[trigger] r[j].0 != k;
            assert(a == i);
        }
    } else {
        assert(r.subrange(0, es.len() as int) =~= es);
        assert(r[es.len() as int] == (k, v));
        assert(has_key(r, k));
        if let Some(w) = dict_get(r, k) {
            let a = choose|a: int|
                0 <= a < r.len() && #[trigger] r[a] == (k, w) && forall|j: int|
                    0 <= j < a ==> #[trigger] r[j].0 != k;
            assert(a == es.len());
        }
    }
    if other != k {
        match dict_get(es, other) {
            Some(w) => {
                let a = choose|a: int|
                    0 <= a < es.len() && #[trigger] es[a] == (other, w) && forall|j: int|
                        0 <= j < a ==> #[trigger] es[j].0 != other;
                assert(r[a] == es[a]);
                assert(has_key(r, other));
                if let Some(x) = dict_get(r, other) {
                    let b = choose|b: int|
                        0 <= b < r.len() && #[trigger] r[b] == (other, x) && forall|j: int|
                            0 <= j < b ==> #[trigger] r[j].0 != other;
                    assert(r[a].0 == other);
                    assert(b == a);
                }
            },
            None => {
                if has_key(r, other) {
                    let b = choose|b: int| 0 <= b < r.len() && r[b].0 == other;
                    assert(es[b].0 == other);
                }
            },
        }
    }
}

} // verus!
