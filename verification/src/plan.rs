//! The typed shape of a dataflow plan's edges: what key and value a plan
//! node hands on, and the struct definitions those types are built from.

use vstd::prelude::*;

verus! {

/// One field of a struct definition.
pub struct StructField {
    pub name: String,
    pub data_type: String,
    pub nullable: bool,
}

/// A struct definition of the plan: its name, if it has one, and its
/// fields.
pub struct StructDef {
    pub name: Option<String>,
    pub fields: Vec<StructField>,
}

/// How a join treats rows without a match on the other side.
#[derive(Clone, Copy, Debug, PartialEq, Eq, Structural)]
pub enum JoinType {
    Inner,
    Left,
    Right,
    Full,
}

/// The type a plan edge carries.
pub enum PlanType {
    Unkeyed(StructDef),
    UnkeyedList(StructDef),
    Keyed { key: StructDef, value: StructDef },
    KeyedPair { key: StructDef, left_value: StructDef, right_value: StructDef, join_type: JoinType },
    KeyedListPair { key: StructDef, left_value: StructDef, right_value: StructDef },
    KeyedLiteralTypeValue { key: Option<StructDef>, value: String },
    Updating(Box<PlanType>),
}

/// Two fields that define the same thing.
pub open spec fn field_like(a: StructField, b: StructField) -> bool {
    &&& a.name@ == b.name@
    &&& a.data_type@ == b.data_type@
    &&& a.nullable == b.nullable
}

/// Two struct definitions that define the same thing.
pub open spec fn sd_like(a: StructDef, b: StructDef) -> bool {
    &&& match (a.name, b.name) {
        (Some(x), Some(y)) => x@ == y@,
        (None, None) => true,
        _ => false,
    }
    &&& a.fields@.len() == b.fields@.len()
    &&& forall|i: int|
        0 <= i < a.fields@.len() ==> field_like(#[trigger] a.fields@[i], b.fields@[i])
}

/// Whether two keys (or their absence) define the same thing.
pub open spec fn key_like(a: Option<StructDef>, b: Option<StructDef>) -> bool {
    match (a, b) {
        (Some(x), Some(y)) => sd_like(x, y),
        (None, None) => true,
        _ => false,
    }
}

/// Two plan types that describe the same shape.
pub open spec fn pt_like(a: PlanType, b: PlanType) -> bool
    decreases a,
{
    match (a, b) {
        (PlanType::Unkeyed(x), PlanType::Unkeyed(y)) => sd_like(x, y),
        (PlanType::UnkeyedList(x), PlanType::UnkeyedList(y)) => sd_like(x, y),
        (
            PlanType::Keyed { key: k1, value: v1 },
            PlanType::Keyed { key: k2, value: v2 },
        ) => sd_like(k1, k2) && sd_like(v1, v2),
        (
            PlanType::KeyedPair { key: k1, left_value: l1, right_value: r1, join_type: j1 },
            PlanType::KeyedPair { key: k2, left_value: l2, right_value: r2, join_type: j2 },
        ) => sd_like(k1, k2) && sd_like(l1, l2) && sd_like(r1, r2) && j1 == j2,
        (
            PlanType::KeyedListPair { key: k1, left_value: l1, right_value: r1 },
            PlanType::KeyedListPair { key: k2, left_value: l2, right_value: r2 },
        ) => sd_like(k1, k2) && sd_like(l1, l2) && sd_like(r1, r2),
        (
            PlanType::KeyedLiteralTypeValue { key: k1, value: v1 },
            PlanType::KeyedLiteralTypeValue { key: k2, value: v2 },
        ) => key_like(k1, k2) && v1@ == v2@,
        (PlanType::Updating(x), PlanType::Updating(y)) => pt_like(*x, *y),
        _ => false,
    }
}

impl StructDef {
    /// The names this definition contributes to a plan's name set: its own,
    /// if it has one.
    pub open spec fn spec_names(self) -> Seq<Seq<char>> {
        match self.name {
            Some(n) => seq![n@],
            None => Seq::empty(),
        }
    }
}

/// An exact copy of a field.
fn dup_field(f: &StructField) -> (r: StructField)
    ensures
        field_like(*f, r),
{
    StructField { name: f.name.clone(), data_type: f.data_type.clone(), nullable: f.nullable }
}

/// An exact copy of a struct definition.
fn dup_struct_def(d: &StructDef) -> (r: StructDef)
    ensures
        sd_like(*d, r),
        sd_like(r, *d),
{
    let name = match &d.name {
        Option::Some(n) => Some(n.clone()),
        Option::None => None,
    };
    let mut fields: Vec<StructField> = Vec::new();
    let mut i: usize = 0;
    let n = d.fields.len();
    while i < n
        invariant
            i <= n,
            n == d.fields@.len(),
            fields@.len() == i,
            forall|j: int|
                0 <= j < i ==> field_like(#[trigger] d.fields@[j], fields@[j]) && field_like(
                    fields@[j],
                    d.fields@[j],
                ),
        decreases n - i,
    {
        fields.push(dup_field(&d.fields[i]));
        i = i + 1;
    }
    StructDef { name, fields }
}

/// Whether two fields define the same thing.
fn field_eq(a: &StructField, b: &StructField) -> (r: bool)
    ensures
        r == field_like(*a, *b),
{
    a.name.eq(&b.name) && a.data_type.eq(&b.data_type) && a.nullable == b.nullable
}

/// Whether two struct definitions define the same thing.
fn struct_def_eq(a: &StructDef, b: &StructDef) -> (r: bool)
    ensures
        r == sd_like(*a, *b),
{
    let names_match = match (&a.name, &b.name) {
        (Option::Some(x), Option::Some(y)) => x.eq(y),
        (Option::None, Option::None) => true,
        _ => false,
    };
    if !names_match {
        return false;
    }
    if a.fields.len() != b.fields.len() {
        return false;
    }
    let mut i: usize = 0;
    let n = a.fields.len();
    while i < n
        invariant
            i <= n,
            n == a.fields@.len(),
            n == b.fields@.len(),
            forall|j: int| 0 <= j < i ==> field_like(#[trigger] a.fields@[j], b.fields@[j]),
        decreases n - i,
    {
        if !field_eq(&a.fields[i], &b.fields[i]) {
            return false;
        }
        i = i + 1;
    }
    true
}

/// Whether the list already holds a definition of the same thing.
pub open spec fn defs_contain_like(s: Seq<StructDef>, d: StructDef) -> bool {
    exists|i: int| 0 <= i < s.len() && sd_like(s[i], d)
}

/// Adds a copy of the definition unless an equal one is already there.
fn push_unique(acc: &mut Vec<StructDef>, d: &StructDef)
    ensures
        if defs_contain_like(old(acc)@, *d) {
            final(acc)@ == old(acc)@
        } else {
            &&& final(acc)@.len() == old(acc)@.len() + 1
            &&& final(acc)@.drop_last() == old(acc)@
            &&& sd_like(final(acc)@.last(), *d)
            &&& sd_like(*d, final(acc)@.last())
        },
{
    let mut i: usize = 0;
    let n = acc.len();
    while i < n
        invariant
            i <= n,
            n == acc@.len(),
            *acc == *old(acc),
            forall|j: int| 0 <= j < i ==> !sd_like(acc@[j], *d),
        decreases n - i,
    {
        if struct_def_eq(&acc[i], d) {
            return ;
        }
        i = i + 1;
    }
    let copy = dup_struct_def(d);
    proof {
        assert(acc@.push(copy).drop_last() =~= acc@);
    }
    acc.push(copy);
}

impl PlanType {
    /// The struct definitions this plan type is built from, as written.
    pub open spec fn spec_type_defs(self) -> Seq<StructDef>
        decreases self,
    {
        match self {
            PlanType::Unkeyed(v) => seq![v],
            PlanType::UnkeyedList(v) => seq![v],
            PlanType::Keyed { key, value } => seq![key, value],
            PlanType::KeyedPair { key, left_value, right_value, .. } => seq![
                key,
                left_value,
                right_value,
            ],
            PlanType::KeyedListPair { key, left_value, right_value } => seq![
                key,
                left_value,
                right_value,
            ],
            PlanType::KeyedLiteralTypeValue { key: Some(k), .. } => seq![k],
            PlanType::KeyedLiteralTypeValue { key: None, .. } => Seq::empty(),
            PlanType::Updating(inner) => inner.spec_type_defs(),
        }
    }

    /// The names of the key's struct definitions, if the type is keyed.
    pub open spec fn spec_key_struct_names(self) -> Seq<Seq<char>>
        decreases self,
    {
        match self {
            PlanType::Unkeyed(_) => Seq::empty(),
            PlanType::UnkeyedList(_) => Seq::empty(),
            PlanType::Keyed { key, .. } => key.spec_names(),
            PlanType::KeyedPair { key, .. } => key.spec_names(),
            PlanType::KeyedListPair { key, .. } => key.spec_names(),
            PlanType::KeyedLiteralTypeValue { key: Some(k), .. } => k.spec_names(),
            PlanType::KeyedLiteralTypeValue { key: None, .. } => Seq::empty(),
            PlanType::Updating(inner) => inner.spec_key_struct_names(),
        }
    }

    /// Whether a key can be put on this type: a list without a key cannot
    /// be rekeyed.
    pub open spec fn spec_can_rekey(self) -> bool
        decreases self,
    {
        match self {
            PlanType::UnkeyedList(_) => false,
            PlanType::Updating(inner) => inner.spec_can_rekey(),
            _ => true,
        }
    }

    /// What this type becomes under a new key.
    pub open spec fn spec_with_key(self, key: StructDef) -> PlanType
        decreases self,
    {
        match self {
            PlanType::Unkeyed(value) => PlanType::Keyed { key, value },
            PlanType::Keyed { value, .. } => PlanType::Keyed { key, value },
            PlanType::KeyedPair { left_value, right_value, join_type, .. } => PlanType::KeyedPair {
                key,
                left_value,
                right_value,
                join_type,
            },
            PlanType::KeyedListPair { left_value, right_value, .. } => PlanType::KeyedListPair {
                key,
                left_value,
                right_value,
            },
            PlanType::KeyedLiteralTypeValue { value, .. } => PlanType::KeyedLiteralTypeValue {
                key: Some(key),
                value,
            },
            PlanType::Updating(inner) => PlanType::Updating(
                Box::new(inner.spec_with_key(key)),
            ),
            PlanType::UnkeyedList(_) => self,
        }
    }

    /// Whether a new value can be put on this type: only a single-valued
    /// type can be revalued.
    pub open spec fn spec_can_revalue(self) -> bool
        decreases self,
    {
        match self {
            PlanType::Unkeyed(_) => true,
            PlanType::UnkeyedList(_) => true,
            PlanType::Keyed { .. } => true,
            PlanType::Updating(inner) => inner.spec_can_revalue(),
            _ => false,
        }
    }

    /// What this type becomes under a new value; a keyed type loses its
    /// key.
    pub open spec fn spec_with_value(self, value: StructDef) -> PlanType
        decreases self,
    {
        match self {
            PlanType::Unkeyed(_) => PlanType::Unkeyed(value),
            PlanType::UnkeyedList(_) => PlanType::UnkeyedList(value),
            PlanType::Keyed { .. } => PlanType::Unkeyed(value),
            PlanType::Updating(inner) => PlanType::Updating(
                Box::new(inner.spec_with_value(value)),
            ),
            _ => self,
        }
    }

    /// Whether the type carries updates rather than appends.
    pub fn is_updating(&self) -> (r: bool)
        ensures
            r == (self matches PlanType::Updating(_)),
    {
        match self {
            PlanType::Updating(_) => true,
            _ => false,
        }
    }

    /// The names of the key's struct definitions, if the type is keyed.
    pub fn get_key_struct_names(&self) -> (r: Vec<String>)
        ensures
            r.deep_view() == self.spec_key_struct_names(),
        decreases *self,
    {
        match self {
            PlanType::Unkeyed(_) | PlanType::UnkeyedList(_) => {
                let r: Vec<String> = Vec::new();
                proof {
                    assert(r.deep_view() =~= self.spec_key_struct_names());
                }
                r
            },
            PlanType::KeyedLiteralTypeValue { key: Option::None, .. } => {
                let r: Vec<String> = Vec::new();
                proof {
                    assert(r.deep_view() =~= self.spec_key_struct_names());
                }
                r
            },
            PlanType::Keyed { key, .. }
            | PlanType::KeyedPair { key, .. }
            | PlanType::KeyedListPair { key, .. }
            | PlanType::KeyedLiteralTypeValue { key: Option::Some(key), .. } => {
                let mut r: Vec<String> = Vec::new();
                match &key.name {
                    Option::Some(n) => {
                        r.push(n.clone());
                    },
                    Option::None => {},
                }
                proof {
                    assert(r.deep_view() =~= self.spec_key_struct_names());
                }
                r
            },
            PlanType::Updating(inner) => inner.get_key_struct_names(),
        }
    }

    /// The distinct struct definitions this plan type is built from.
    pub fn get_all_types(&self) -> (r: Vec<StructDef>)
        ensures
            forall|i: int, j: int| 0 <= i < j < r@.len() ==> !sd_like(r@[i], r@[j]),
            forall|i: int|
                0 <= i < r@.len() ==> defs_contain_like(
                    self.spec_type_defs(),
                    #[trigger] r@[i],
                ),
            forall|k: int|
                0 <= k < self.spec_type_defs().len() ==> defs_contain_like(
                    r@,
                    #[trigger] self.spec_type_defs()[k],
                ),
        decreases *self,
    {
        match self {
            PlanType::Updating(inner) => inner.get_all_types(),
            _ => {
                let ghost defs = self.spec_type_defs();
                let mut sources: Vec<&StructDef> = Vec::new();
                match self {
                    PlanType::Unkeyed(v) | PlanType::UnkeyedList(v) => {
                        sources.push(v);
                    },
                    PlanType::Keyed { key, value } => {
                        sources.push(key);
                        sources.push(value);
                    },
                    PlanType::KeyedPair { key, left_value, right_value, .. }
                    | PlanType::KeyedListPair { key, left_value, right_value } => {
                        sources.push(key);
                        sources.push(left_value);
                        sources.push(right_value);
                    },
                    PlanType::KeyedLiteralTypeValue { key: Option::Some(k), .. } => {
                        sources.push(k);
                    },
                    PlanType::KeyedLiteralTypeValue { key: Option::None, .. } => {},
                    PlanType::Updating(_) => {},
                }
                proof {
                    assert(sources@.len() == defs.len());
                    assert(forall|k: int|
                        0 <= k < defs.len() ==> *(#[trigger] sources@[k]) == defs[k]);
                }
                let mut r: Vec<StructDef> = Vec::new();
                let n = sources.len();
                let mut k: usize = 0;
                while k < n
                    invariant
                        k <= n,
                        n == sources@.len(),
                        n == defs.len(),
                        forall|q: int| 0 <= q < n ==> *(#[trigger] sources@[q]) == defs[q],
                        forall|i: int, j: int| 0 <= i < j < r@.len() ==> !sd_like(r@[i], r@[j]),
                        forall|i: int|
                            0 <= i < r@.len() ==> defs_contain_like(defs, #[trigger] r@[i]),
                        forall|q: int|
                            0 <= q < k ==> defs_contain_like(r@, #[trigger] defs[q]),
                    decreases n - k,
                {
                    let ghost before = r@;
                    let d = sources[k];
                    push_unique(&mut r, d);
                    proof {
                        let kk = k as int;
                        if defs_contain_like(before, defs[kk]) {
                        } else {
                            assert(r@.drop_last() == before);
                            assert forall|i: int, j: int|
                                0 <= i < j < r@.len() implies !sd_like(r@[i], r@[j]) by {
                                if j == r@.len() - 1 {
                                    assert(r@[i] == before[i]);
                                    if sd_like(r@[i], r@[j]) {
                                        lemma_sd_like_trans(before[i], r@[j], defs[kk]);
                                    }
                                } else {
                                    assert(r@[i] == before[i]);
                                    assert(r@[j] == before[j]);
                                }
                            }
                            assert forall|i: int| 0 <= i < r@.len() implies defs_contain_like(
                                defs,
                                #[trigger] r@[i],
                            ) by {
                                if i < r@.len() - 1 {
                                    assert(r@[i] == before[i]);
                                } else {
                                    assert(sd_like(defs[kk], r@[i]));
                                }
                            }
                        }
                        assert forall|q: int| 0 <= q < k + 1 implies defs_contain_like(
                            r@,
                            #[trigger] defs[q],
                        ) by {
                            if q < kk {
                                let w = choose|w: int|
                                    0 <= w < before.len() && sd_like(before[w], defs[q]);
                                assert(r@[w] == before[w]);
                            } else {
                                if defs_contain_like(before, defs[kk]) {
                                    let w = choose|w: int|
                                        0 <= w < before.len() && sd_like(before[w], defs[kk]);
                                    assert(r@[w] == before[w]);
                                } else {
                                    assert(sd_like(r@[r@.len() - 1], defs[kk]));
                                }
                            }
                        }
                    }
                    k = k + 1;
                }
                r
            },
        }
    }

    /// Puts a new key on this type; everything else it carries stays as it
    /// is. A list without a key cannot be rekeyed.
    pub fn with_key(&self, key: StructDef) -> (r: PlanType)
        requires
            self.spec_can_rekey(),
        ensures
            pt_like(r, self.spec_with_key(key)),
        decreases *self,
    {
        match self {
            PlanType::Unkeyed(value) => PlanType::Keyed { key, value: dup_struct_def(value) },
            PlanType::Keyed { value, .. } => PlanType::Keyed {
                key,
                value: dup_struct_def(value),
            },
            PlanType::KeyedPair { left_value, right_value, join_type, .. } => {
                PlanType::KeyedPair {
                    key,
                    left_value: dup_struct_def(left_value),
                    right_value: dup_struct_def(right_value),
                    join_type: *join_type,
                }
            },
            PlanType::KeyedListPair { left_value, right_value, .. } => PlanType::KeyedListPair {
                key,
                left_value: dup_struct_def(left_value),
                right_value: dup_struct_def(right_value),
            },
            PlanType::KeyedLiteralTypeValue { value, .. } => PlanType::KeyedLiteralTypeValue {
                key: Some(key),
                value: value.clone(),
            },
            PlanType::Updating(inner) => PlanType::Updating(Box::new(inner.with_key(key))),
            PlanType::UnkeyedList(_) => {
                proof {
                    assert(false);
                }
                PlanType::UnkeyedList(dup_struct_def(&StructDef { name: None, fields: Vec::new() }))
            },
        }
    }

    /// Puts a new value on this type; a keyed type loses its key. Only a
    /// single-valued type can be revalued.
    pub fn with_value(&self, value: StructDef) -> (r: PlanType)
        requires
            self.spec_can_revalue(),
        ensures
            pt_like(r, self.spec_with_value(value)),
        decreases *self,
    {
        match self {
            PlanType::Unkeyed(_) => PlanType::Unkeyed(value),
            PlanType::UnkeyedList(_) => PlanType::UnkeyedList(value),
            PlanType::Keyed { .. } => PlanType::Unkeyed(value),
            PlanType::Updating(inner) => PlanType::Updating(Box::new(inner.with_value(value))),
            _ => {
                proof {
                    assert(false);
                }
                PlanType::Unkeyed(value)
            },
        }
    }
}

/// Like-equality between struct definitions carries over a middle one.
proof fn lemma_sd_like_trans(a: StructDef, b: StructDef, c: StructDef)
    requires
        sd_like(a, b),
        sd_like(b, c),
    ensures
        sd_like(a, c),
{
    assert forall|i: int| 0 <= i < a.fields@.len() implies field_like(
        #[trigger] a.fields@[i],
        c.fields@[i],
    ) by {
        assert(field_like(a.fields@[i], b.fields@[i]));
        assert(field_like(b.fields@[i], c.fields@[i]));
    }
}

} // verus!
