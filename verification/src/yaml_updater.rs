//! The mapping merger: folds discovered types into a table of
//! type mappings (name to target representation) and yields a
//! deterministic, key-sorted view of it for persistence.
use crate::schema_parser::EnumType;
use crate::schema_parser::EnumV;
use crate::text::str_lt;
use crate::text::str_lt_x;
use vstd::prelude::*;

verus! {

broadcast use vstd::seq_lib::group_to_multiset_ensures;

/// How a custom source type is rendered in the target type system.
#[derive(Debug, Clone)]
pub struct TypeMapping {
    pub null_type: String,
    pub base_type: String,
    pub pkg: Option<String>,
}

/// A `TypeMapping`, mathematically.
#[verifier::ext_equal]
pub struct TypeMappingV {
    pub null_type: Seq<char>,
    pub base_type: Seq<char>,
    pub pkg: Option<Seq<char>>,
}

impl View for TypeMapping {
    type V = TypeMappingV;

    open spec fn view(&self) -> TypeMappingV {
        TypeMappingV {
            null_type: self.null_type@,
            base_type: self.base_type@,
            pkg: self.pkg.deep_view(),
        }
    }
}

impl DeepView for TypeMapping {
    type V = TypeMappingV;

    open spec fn deep_view(&self) -> TypeMappingV {
        self.view()
    }
}

/// The model section of the configuration: the type-mapping table,
/// keyed by type name.
#[derive(Debug, Clone)]
pub struct ModelConfig {
    pub types_map: Vec<(String, TypeMapping)>,
}

/// The configuration document, as far as this system reads it.
#[derive(Debug, Clone)]
pub struct Config {
    pub model: ModelConfig,
}

/// The entry the first occurrence of `k` holds.
pub open spec fn tbl_get(t: Seq<(Seq<char>, TypeMappingV)>, k: Seq<char>) -> Option<TypeMappingV>
    decreases t.len(),
{
    if t.len() == 0 {
        None
    } else if t[0].0 == k {
        Some(t[0].1)
    } else {
        tbl_get(t.skip(1), k)
    }
}

/// Insertion with overwrite: the first entry for `k` is replaced in
/// place, and a missing key goes to the end.
pub open spec fn tbl_insert(
    t: Seq<(Seq<char>, TypeMappingV)>,
    k: Seq<char>,
    v: TypeMappingV,
) -> Seq<(Seq<char>, TypeMappingV)>
    decreases t.len(),
{
    if t.len() == 0 {
        seq![(k, v)]
    } else if t[0].0 == k {
        seq![(k, v)] + t.skip(1)
    } else {
        seq![t[0]] + tbl_insert(t.skip(1), k, v)
    }
}

/// The table's keys, in order.
pub open spec fn tbl_keys(t: Seq<(Seq<char>, TypeMappingV)>) -> Seq<Seq<char>> {
    t.map_values(|p: (Seq<char>, TypeMappingV)| p.0)
}

/// No key occurs twice.
pub open spec fn tbl_keys_unique(t: Seq<(Seq<char>, TypeMappingV)>) -> bool {
    forall|i: int, j: int| 0 <= i < j < t.len() ==> t[i].0 != t[j].0
}

/// The representation every discovered enumeration maps to: a nullable
/// string, from no package.
pub open spec fn enum_mapping_v() -> TypeMappingV {
    TypeMappingV { null_type: "sql.NullString"@, base_type: "string"@, pkg: None }
}

/// The representation the vector type maps to: a nullable string
/// backed by the vector extension's support library.
pub open spec fn vector_mapping_v() -> TypeMappingV {
    TypeMappingV {
        null_type: "sql.NullString"@,
        base_type: "string"@,
        pkg: Some("github.com/pgvector/pgvector-go"@),
    }
}

proof fn lemma_tbl_insert_found(
    t: Seq<(Seq<char>, TypeMappingV)>,
    k: Seq<char>,
    v: TypeMappingV,
    j: int,
)
    requires
        0 <= j < t.len(),
        t[j].0 == k,
        forall|q: int| 0 <= q < j ==> t[q].0 != k,
    ensures
        tbl_insert(t, k, v) =~= t.update(j, (k, v)),
    decreases j,
{
    if j == 0 {
        assert(tbl_insert(t, k, v) =~= t.update(0, (k, v)));
    } else {
        lemma_tbl_insert_found(t.skip(1), k, v, j - 1);
        assert(tbl_insert(t, k, v) =~= seq![t[0]] + t.skip(1).update(j - 1, (k, v)));
        assert(seq![t[0]] + t.skip(1).update(j - 1, (k, v)) =~= t.update(j, (k, v)));
    }
}

proof fn lemma_tbl_insert_missing(t: Seq<(Seq<char>, TypeMappingV)>, k: Seq<char>, v: TypeMappingV)
    requires
        forall|q: int| 0 <= q < t.len() ==> t[q].0 != k,
    ensures
        tbl_insert(t, k, v) =~= t.push((k, v)),
    decreases t.len(),
{
    if t.len() > 0 {
        lemma_tbl_insert_missing(t.skip(1), k, v);
        assert(tbl_insert(t, k, v) =~= seq![t[0]] + t.skip(1).push((k, v)));
        assert(seq![t[0]] + t.skip(1).push((k, v)) =~= t.push((k, v)));
    }
}

/// The table stands in ascending lexicographic key order.
pub open spec fn tbl_sorted(t: Seq<(Seq<char>, TypeMappingV)>) -> bool {
    forall|i: int, j: int| 0 <= i < j < t.len() ==> !str_lt(t[j].0, t[i].0)
}

/// The names of a sequence of discovered enumerations, in order.
pub open spec fn enum_names(es: Seq<EnumV>) -> Seq<Seq<char>> {
    es.map_values(|e: EnumV| e.name)
}

/// The table after every discovered enumeration is folded in.
pub open spec fn spec_add_enums(
    t: Seq<(Seq<char>, TypeMappingV)>,
    names: Seq<Seq<char>>,
) -> Seq<(Seq<char>, TypeMappingV)>
    decreases names.len(),
{
    if names.len() == 0 {
        t
    } else {
        spec_add_enums(tbl_insert(t, names[0], enum_mapping_v()), names.skip(1))
    }
}

/// The whole merge: one entry per discovered enumeration, then the
/// vector entry if a vector reference was seen.
pub open spec fn spec_merge(
    t: Seq<(Seq<char>, TypeMappingV)>,
    names: Seq<Seq<char>>,
    has_vector: bool,
) -> Seq<(Seq<char>, TypeMappingV)> {
    if has_vector {
        tbl_insert(spec_add_enums(t, names), "vector"@, vector_mapping_v())
    } else {
        spec_add_enums(t, names)
    }
}

/// A field-for-field copy, with its contract (a derived clone says
/// nothing to the verifier).
fn copy_mapping(m: &TypeMapping) -> (r: TypeMapping)
    ensures
        r@ == m@,
{
    let pkg: Option<String> = match &m.pkg {
        Some(s) => Some(s.clone()),
        None => None,
    };
    TypeMapping { null_type: m.null_type.clone(), base_type: m.base_type.clone(), pkg }
}

proof fn lemma_insert_get(t: Seq<(Seq<char>, TypeMappingV)>, k: Seq<char>, v: TypeMappingV, k2: Seq<
    char,
>)
    ensures
        tbl_get(tbl_insert(t, k, v), k2) == if k2 == k {
            Some(v)
        } else {
            tbl_get(t, k2)
        },
    decreases t.len(),
{
    if t.len() == 0 {
        let r = tbl_insert(t, k, v);
        assert(r == seq![(k, v)]);
        assert(r[0] == (k, v));
        assert(r.skip(1) =~= Seq::<(Seq<char>, TypeMappingV)>::empty());
        assert(tbl_get(r.skip(1), k2) is None);
    } else if t[0].0 == k {
        let r = tbl_insert(t, k, v);
        assert(r == seq![(k, v)] + t.skip(1));
        assert(r[0] == (k, v));
        assert(r.skip(1) =~= t.skip(1));
        if k2 != k {
            assert(tbl_get(r, k2) == tbl_get(t.skip(1), k2));
            assert(tbl_get(t, k2) == tbl_get(t.skip(1), k2));
        }
    } else {
        lemma_insert_get(t.skip(1), k, v, k2);
        let r = tbl_insert(t, k, v);
        assert(r == seq![t[0]] + tbl_insert(t.skip(1), k, v));
        assert(r[0] == t[0]);
        assert(r.skip(1) =~= tbl_insert(t.skip(1), k, v));
        assert(r.len() > 0);
        if k2 == t[0].0 {
            assert(tbl_get(r, k2) == Some(t[0].1));
            assert(tbl_get(t, k2) == Some(t[0].1));
        } else {
            assert(tbl_get(r, k2) == tbl_get(tbl_insert(t.skip(1), k, v), k2));
            assert(tbl_get(t, k2) == tbl_get(t.skip(1), k2));
        }
    }
}

proof fn lemma_get_keys(t: Seq<(Seq<char>, TypeMappingV)>, k: Seq<char>)
    ensures
        (tbl_get(t, k) is Some) <==> tbl_keys(t).contains(k),
    decreases t.len(),
{
    if t.len() == 0 {
        assert(tbl_keys(t).len() == 0);
    } else {
        lemma_get_keys(t.skip(1), k);
        assert(tbl_keys(t.skip(1)) =~= tbl_keys(t).skip(1));
        if t[0].0 == k {
            assert(tbl_keys(t)[0] == k);
            assert(tbl_keys(t).contains(k));
        } else {
            if tbl_keys(t).contains(k) {
                let i = choose|i: int| 0 <= i < tbl_keys(t).len() && tbl_keys(t)[i] == k;
                assert(i != 0);
                assert(tbl_keys(t).skip(1)[i - 1] == k);
                assert(tbl_keys(t.skip(1)).contains(k));
            }
            if tbl_keys(t.skip(1)).contains(k) {
                let i = choose|i: int|
                    0 <= i < tbl_keys(t.skip(1)).len() && tbl_keys(t.skip(1))[i] == k;
                assert(tbl_keys(t)[i + 1] == k);
                assert(tbl_keys(t).contains(k));
            }
        }
    }
}

proof fn lemma_insert_keys(t: Seq<(Seq<char>, TypeMappingV)>, k: Seq<char>, v: TypeMappingV)
    ensures
        tbl_get(t, k) is Some ==> tbl_keys(tbl_insert(t, k, v)) =~= tbl_keys(t),
        tbl_get(t, k) is None ==> tbl_keys(tbl_insert(t, k, v)) =~= tbl_keys(t).push(k),
    decreases t.len(),
{
    if t.len() == 0 {
        assert(tbl_keys(tbl_insert(t, k, v)) =~= tbl_keys(t).push(k));
    } else if t[0].0 == k {
        assert(tbl_insert(t, k, v) == seq![(k, v)] + t.skip(1));
        assert(tbl_keys(seq![(k, v)] + t.skip(1)) =~= tbl_keys(t));
    } else {
        lemma_insert_keys(t.skip(1), k, v);
        assert(tbl_keys(t.skip(1)) =~= tbl_keys(t).skip(1));
        let ins = tbl_insert(t.skip(1), k, v);
        assert(tbl_insert(t, k, v) == seq![t[0]] + ins);
        assert(tbl_get(t, k) == tbl_get(t.skip(1), k));
        if tbl_get(t.skip(1), k) is Some {
            assert forall|i: int|
                0 <= i < tbl_keys(seq![t[0]] + ins).len() implies tbl_keys(seq![t[0]] + ins)[i]
                == tbl_keys(t)[i] by {
                if i > 0 {
                    assert(tbl_keys(seq![t[0]] + ins)[i] == ins[i - 1].0);
                    assert(tbl_keys(ins)[i - 1] == ins[i - 1].0);
                }
            }
            assert(tbl_keys(seq![t[0]] + ins) =~= tbl_keys(t));
        } else {
            assert forall|i: int|
                0 <= i < tbl_keys(seq![t[0]] + ins).len() implies tbl_keys(seq![t[0]] + ins)[i]
                == tbl_keys(t).push(k)[i] by {
                if i > 0 {
                    assert(tbl_keys(seq![t[0]] + ins)[i] == ins[i - 1].0);
                    assert(tbl_keys(ins)[i - 1] == ins[i - 1].0);
                }
            }
            assert(tbl_keys(seq![t[0]] + ins) =~= tbl_keys(t).push(k));
        }
    }
}

proof fn lemma_insert_unique(t: Seq<(Seq<char>, TypeMappingV)>, k: Seq<char>, v: TypeMappingV)
    requires
        tbl_keys_unique(t),
    ensures
        tbl_keys_unique(tbl_insert(t, k, v)),
    decreases t.len(),
{
    if t.len() == 0 {
    } else if t[0].0 == k {
        let r = seq![(k, v)] + t.skip(1);
        assert forall|i: int, j: int| 0 <= i < j < r.len() implies r[i].0 != r[j].0 by {
            assert(r[i].0 == t[i].0 && r[j].0 == t[j].0);
        }
    } else {
        assert(tbl_keys_unique(t.skip(1)));
        lemma_insert_unique(t.skip(1), k, v);
        lemma_insert_keys(t.skip(1), k, v);
        lemma_get_keys(t.skip(1), t[0].0);
        let ins = tbl_insert(t.skip(1), k, v);
        let r = seq![t[0]] + ins;
        assert(tbl_get(t.skip(1), t[0].0) is None);
        assert(!tbl_keys(t.skip(1)).contains(t[0].0));
        assert forall|i: int, j: int| 0 <= i < j < r.len() implies r[i].0 != r[j].0 by {
            if i == 0 {
                if tbl_get(t.skip(1), k) is Some {
                    assert(tbl_keys(ins)[j - 1] == r[j].0);
                    assert(tbl_keys(t.skip(1))[j - 1] == r[j].0);
                    assert(tbl_keys(t.skip(1)).contains(r[j].0));
                } else {
                    assert(tbl_keys(ins)[j - 1] == r[j].0);
                    if j - 1 < tbl_keys(t.skip(1)).len() {
                        assert(tbl_keys(t.skip(1)).contains(r[j].0));
                    } else {
                        assert(r[j].0 == k);
                    }
                }
            }
        }
    }
}

proof fn lemma_add_enums_unique(t: Seq<(Seq<char>, TypeMappingV)>, names: Seq<Seq<char>>)
    requires
        tbl_keys_unique(t),
    ensures
        tbl_keys_unique(spec_add_enums(t, names)),
    decreases names.len(),
{
    if names.len() > 0 {
        lemma_insert_unique(t, names[0], enum_mapping_v());
        lemma_add_enums_unique(tbl_insert(t, names[0], enum_mapping_v()), names.skip(1));
    }
}

proof fn lemma_add_enums_get(t: Seq<(Seq<char>, TypeMappingV)>, names: Seq<Seq<char>>, k: Seq<char>)
    ensures
        tbl_get(spec_add_enums(t, names), k) == if names.contains(k) {
            Some(enum_mapping_v())
        } else {
            tbl_get(t, k)
        },
    decreases names.len(),
{
    if names.len() == 0 {
        assert(!names.contains(k));
    } else {
        let t1 = tbl_insert(t, names[0], enum_mapping_v());
        lemma_add_enums_get(t1, names.skip(1), k);
        lemma_insert_get(t, names[0], enum_mapping_v(), k);
        if names.skip(1).contains(k) {
            let i = choose|i: int| 0 <= i < names.skip(1).len() && names.skip(1)[i] == k;
            assert(names[i + 1] == k);
            assert(names.contains(k));
        } else if k == names[0] {
            assert(names.contains(k));
        } else {
            if names.contains(k) {
                let i = choose|i: int| 0 <= i < names.len() && names[i] == k;
                assert(i != 0);
                assert(names.skip(1)[i - 1] == k);
                assert(names.skip(1).contains(k));
            }
        }
    }
}

proof fn lemma_add_enums_keys(t: Seq<(Seq<char>, TypeMappingV)>, names: Seq<Seq<char>>)
    requires
        forall|i: int| 0 <= i < names.len() ==> tbl_get(t, names[i]) is Some,
    ensures
        tbl_keys(spec_add_enums(t, names)) =~= tbl_keys(t),
    decreases names.len(),
{
    if names.len() > 0 {
        let t1 = tbl_insert(t, names[0], enum_mapping_v());
        lemma_insert_keys(t, names[0], enum_mapping_v());
        assert forall|i: int| 0 <= i < names.skip(1).len() implies tbl_get(
            t1,
            names.skip(1)[i],
        ) is Some by {
            lemma_insert_get(t, names[0], enum_mapping_v(), names.skip(1)[i]);
            assert(names.skip(1)[i] == names[i + 1]);
        }
        lemma_add_enums_keys(t1, names.skip(1));
    }
}

proof fn lemma_tbl_eq(t1: Seq<(Seq<char>, TypeMappingV)>, t2: Seq<(Seq<char>, TypeMappingV)>)
    requires
        tbl_keys_unique(t1),
        tbl_keys(t1) =~= tbl_keys(t2),
        forall|k: Seq<char>| #[trigger] tbl_get(t1, k) == tbl_get(t2, k),
    ensures
        t1 =~= t2,
    decreases t1.len(),
{
    assert(tbl_keys(t1).len() == t1.len());
    assert(tbl_keys(t2).len() == t2.len());
    if t1.len() > 0 {
        let k = t1[0].0;
        assert(tbl_keys(t1)[0] == k);
        assert(t2[0].0 == k);
        assert(tbl_get(t1, k) == Some(t1[0].1));
        assert(tbl_get(t2, k) == Some(t2[0].1));
        assert(t1[0] == t2[0]);
        assert(tbl_keys(t1.skip(1)) =~= tbl_keys(t1).skip(1));
        assert(tbl_keys(t2.skip(1)) =~= tbl_keys(t2).skip(1));
        assert(tbl_keys_unique(t1.skip(1)));
        assert forall|k2: Seq<char>| #[trigger] tbl_get(t1.skip(1), k2) == tbl_get(
            t2.skip(1),
            k2,
        ) by {
            if k2 == k {
                lemma_get_keys(t1.skip(1), k2);
                lemma_get_keys(t2.skip(1), k2);
                if tbl_keys(t1.skip(1)).contains(k2) {
                    let i = choose|i: int|
                        0 <= i < tbl_keys(t1.skip(1)).len() && tbl_keys(t1.skip(1))[i] == k2;
                    assert(t1[i + 1].0 == k2);
                    assert(t1[0].0 == k2);
                }
                if tbl_keys(t2.skip(1)).contains(k2) {
                    assert(tbl_keys(t1.skip(1)) =~= tbl_keys(t2.skip(1)));
                }
                assert(tbl_get(t1.skip(1), k2) is None);
                assert(tbl_get(t2.skip(1), k2) is None);
            } else {
                assert(tbl_get(t1, k2) == tbl_get(t1.skip(1), k2));
                assert(tbl_get(t2, k2) == tbl_get(t2.skip(1), k2));
            }
        }
        lemma_tbl_eq(t1.skip(1), t2.skip(1));
        assert(t1 =~= seq![t1[0]] + t1.skip(1));
        assert(t2 =~= seq![t2[0]] + t2.skip(1));
    }
}

/// Merging is idempotent: folding the same scan results into the table
/// a second time changes nothing.
pub proof fn lemma_merge_idempotent(
    t: Seq<(Seq<char>, TypeMappingV)>,
    names: Seq<Seq<char>>,
    has_vector: bool,
)
    requires
        tbl_keys_unique(t),
    ensures
        spec_merge(spec_merge(t, names, has_vector), names, has_vector) =~= spec_merge(
            t,
            names,
            has_vector,
        ),
{
    let veck = "vector"@;
    let vv = vector_mapping_v();
    let ev = enum_mapping_v();
    let a1 = spec_add_enums(t, names);
    let m1 = spec_merge(t, names, has_vector);
    let a2 = spec_add_enums(m1, names);
    let m2 = spec_merge(m1, names, has_vector);

    lemma_add_enums_unique(t, names);
    if has_vector {
        lemma_insert_unique(a1, veck, vv);
    }
    assert(tbl_keys_unique(m1));

    // every inserted key is already present in the first merge's result
    assert forall|i: int| 0 <= i < names.len() implies tbl_get(m1, names[i]) is Some by {
        lemma_add_enums_get(t, names, names[i]);
        assert(names.contains(names[i]));
        assert(tbl_get(a1, names[i]) is Some);
        if has_vector {
            lemma_insert_get(a1, veck, vv, names[i]);
        }
    }
    lemma_add_enums_keys(m1, names);
    if has_vector {
        lemma_add_enums_get(m1, names, veck);
        lemma_insert_get(a1, veck, vv, veck);
        assert(tbl_get(a2, veck) is Some);
        lemma_insert_keys(a2, veck, vv);
    }
    assert(tbl_keys(m2) =~= tbl_keys(m1));

    // looking any key up gives the same entry after either merge
    assert forall|k: Seq<char>| #[trigger] tbl_get(m1, k) == tbl_get(m2, k) by {
        lemma_add_enums_get(t, names, k);
        lemma_add_enums_get(m1, names, k);
        if has_vector {
            lemma_insert_get(a1, veck, vv, k);
            lemma_insert_get(a2, veck, vv, k);
        }
    }
    lemma_tbl_eq(m1, m2);
}

/// The updater: holds the configuration while mappings are folded in.
pub struct YamlUpdater {
    config: Config,
}

/// The first position whose key equals `key`.
fn find_key(t: &Vec<(String, TypeMapping)>, key: &str) -> (r: Option<usize>)
    ensures
        match r {
            Some(j) => 0 <= j < t@.len() && t.deep_view()[j as int].0 == key@ && (forall|q: int|
                0 <= q < j ==> t.deep_view()[q].0 != key@),
            None => forall|q: int| 0 <= q < t@.len() ==> t.deep_view()[q].0 != key@,
        },
{
    let n = t.len();
    let mut j: usize = 0;
    while j < n
        invariant
            j <= n,
            n == t@.len(),
            forall|q: int| 0 <= q < j ==> t.deep_view()[q].0 != key@,
        decreases n - j,
    {
        if crate::text::str_eq_x(t[j].0.as_str(), key) {
            assert(t.deep_view()[j as int].0 == key@);
            return Some(j);
        }
        j += 1;
    }
    None
}

impl YamlUpdater {
    /// The configuration as it stands.
    pub closed spec fn spec_config(&self) -> Config {
        self.config
    }

    /// The mapping table as an association sequence of views.
    pub open spec fn table(&self) -> Seq<(Seq<char>, TypeMappingV)> {
        self.spec_config().model.types_map.deep_view()
    }

    /// An updater over a given configuration.
    pub fn with_config(config: Config) -> (u: YamlUpdater)
        ensures
            u.spec_config() == config,
    {
        YamlUpdater { config }
    }

    /// A reference to the configuration.
    pub fn config(&self) -> (r: &Config)
        ensures
            *r == self.spec_config(),
    {
        &self.config
    }

    /// Inserts an entry, overwriting the first entry of that key.
    fn upsert(&mut self, key: &str, value: TypeMapping)
        ensures
            final(self).table() == tbl_insert(old(self).table(), key@, value@),
    {
        let ghost t0 = self.table();
        match find_key(&self.config.model.types_map, key) {
            Some(j) => {
                let ghost m0 = self.config.model.types_map@;
                self.config.model.types_map.remove(j);
                self.config.model.types_map.insert(j, (key.to_owned(), value));
                proof {
                    assert(self.config.model.types_map@ =~= m0.update(
                        j as int,
                        self.config.model.types_map@[j as int],
                    ));
                    assert(self.table() =~= t0.update(j as int, (key@, value@)));
                    lemma_tbl_insert_found(t0, key@, value@, j as int);
                }
            },
            None => {
                self.config.model.types_map.push((key.to_owned(), value));
                proof {
                    assert(self.table() =~= t0.push((key@, value@)));
                    lemma_tbl_insert_missing(t0, key@, value@);
                }
            },
        }
    }

    /// Maps a discovered enumeration to the nullable-string
    /// representation, overwriting any prior entry for that name.
    pub fn add_enum_mapping(&mut self, enum_name: &str)
        ensures
            final(self).table() == tbl_insert(old(self).table(), enum_name@, enum_mapping_v()),
    {
        let value = TypeMapping {
            null_type: "sql.NullString".to_owned(),
            base_type: "string".to_owned(),
            pkg: None,
        };
        proof {
            assert(value@ =~= enum_mapping_v());
        }
        self.upsert(enum_name, value);
    }

    /// Maps the vector type to the nullable-string representation
    /// backed by the vector extension's support library.
    pub fn add_vector_mapping(&mut self)
        ensures
            final(self).table() == tbl_insert(old(self).table(), "vector"@, vector_mapping_v()),
    {
        let value = TypeMapping {
            null_type: "sql.NullString".to_owned(),
            base_type: "string".to_owned(),
            pkg: Some("github.com/pgvector/pgvector-go".to_owned()),
        };
        proof {
            assert(value@ =~= vector_mapping_v());
        }
        self.upsert("vector", value);
    }

    /// Folds a whole scan result into the table: one entry per
    /// discovered enumeration, then the vector entry if asked.
    pub fn merge_types(&mut self, enum_types: &Vec<EnumType>, has_vector: bool)
        ensures
            final(self).table() == spec_merge(
                old(self).table(),
                enum_names(enum_types.deep_view()),
                has_vector,
            ),
    {
        let ghost names = enum_names(enum_types.deep_view());
        let n = enum_types.len();
        let mut i: usize = 0;
        proof {
            assert(names.skip(0) =~= names);
        }
        while i < n
            invariant
                i <= n,
                n == enum_types@.len(),
                names == enum_names(enum_types.deep_view()),
                spec_add_enums(old(self).table(), names) == spec_add_enums(
                    self.table(),
                    names.skip(i as int),
                ),
            decreases n - i,
        {
            let ghost pre = self.table();
            self.add_enum_mapping(enum_types[i].name.as_str());
            proof {
                assert(names.skip(i as int)[0] == names[i as int]);
                assert(names[i as int] == enum_types.deep_view()[i as int].name);
                assert(names.skip(i as int).skip(1) =~= names.skip(i + 1));
                assert(spec_add_enums(pre, names.skip(i as int)) == spec_add_enums(
                    self.table(),
                    names.skip(i + 1),
                ));
            }
            i += 1;
        }
        proof {
            assert(names.skip(n as int) =~= Seq::<Seq<char>>::empty());
            assert(spec_add_enums(self.table(), names.skip(n as int)) == self.table());
        }
        if has_vector {
            self.add_vector_mapping();
        }
    }

    /// The table's entries in ascending lexicographic key order: the
    /// deterministic view that is persisted.
    pub fn get_sorted_types_map(&self) -> (r: Vec<(String, TypeMapping)>)
        ensures
            tbl_sorted(r.deep_view()),
            r.deep_view().to_multiset() == self.table().to_multiset(),
            r@.len() == self.table().len(),
    {
        let t = &self.config.model.types_map;
        let n = t.len();
        let mut out: Vec<(String, TypeMapping)> = Vec::new();
        let mut idx: usize = 0;
        proof {
            assert(out.deep_view() =~= Seq::<(Seq<char>, TypeMappingV)>::empty());
            assert(self.table().subrange(0, 0) =~= Seq::<(Seq<char>, TypeMappingV)>::empty());
            assert(out.deep_view().to_multiset() =~= self.table().subrange(0, 0).to_multiset());
        }
        while idx < n
            invariant
                idx <= n,
                n == self.table().len(),
                t == &self.spec_config().model.types_map,
                tbl_sorted(out.deep_view()),
                out.deep_view().to_multiset() == self.table().subrange(0, idx as int).to_multiset(),
                out@.len() == idx,
            decreases n - idx,
        {
            let key = t[idx].0.clone();
            let val = copy_mapping(&t[idx].1);
            let ghost x = (key@, val@);
            proof {
                assert(x == self.table()[idx as int]);
            }
            let m = out.len();
            let mut p: usize = m;
            while p > 0 && str_lt_x(key.as_str(), out[p - 1].0.as_str())
                invariant
                    p <= m,
                    m == out@.len(),
                    forall|q: int| p <= q < m ==> str_lt(key@, out.deep_view()[q].0),
                decreases p,
            {
                p -= 1;
            }
            let ghost ov = out.deep_view();
            out.insert(p, (key, val));
            proof {
                assert(out.deep_view() =~= ov.insert(p as int, x));
                assert forall|i: int, j: int|
                    0 <= i < j < out.deep_view().len() implies !str_lt(
                    out.deep_view()[j].0,
                    out.deep_view()[i].0,
                ) by {
                    let nv = out.deep_view();
                    if j < p {
                        assert(nv[i] == ov[i] && nv[j] == ov[j]);
                    } else if i < p && j == p {
                        assert(nv[j].0 == key@);
                        if i == p - 1 {
                            assert(!str_lt(key@, ov[p - 1].0));
                        } else {
                            crate::text::lemma_str_le_trans(ov[i].0, ov[p - 1].0, key@);
                        }
                    } else if i == p {
                        assert(nv[j] == ov[j - 1]);
                        assert(str_lt(key@, ov[j - 1].0));
                        crate::text::lemma_str_lt_asym(key@, ov[j - 1].0);
                    } else if i < p {
                        assert(nv[i] == ov[i] && nv[j] == ov[j - 1]);
                    } else {
                        assert(nv[i] == ov[i - 1] && nv[j] == ov[j - 1]);
                    }
                }
                assert(self.table().subrange(0, idx + 1) =~= self.table().subrange(
                    0,
                    idx as int,
                ).push(x));
                assert(out.deep_view().to_multiset() =~= self.table().subrange(
                    0,
                    idx + 1,
                ).to_multiset());
            }
            idx += 1;
        }
        proof {
            assert(self.table().subrange(0, n as int) =~= self.table());
        }
        out
    }
}

} // verus!
