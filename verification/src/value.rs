//! JSON-like values and objects, with a mathematical model.
//!
//! An [`Object`] is an unordered collection of named fields; its model is a
//! finite map from field name to [`Val`].  A [`Value`] is null, a boolean, an
//! integer, a string, an array of values, or a nested object.  Equality
//! between values is structural: arrays compare elementwise, objects compare
//! as maps, so the order in which fields were inserted does not matter.

use vstd::prelude::*;

verus! {

/// The model of a value: objects are finite maps, arrays are sequences.
#[verifier::ext_equal]
pub ghost enum Val {
    Null,
    Bool(bool),
    Num(int),
    Str(Seq<char>),
    Arr(Seq<Val>),
    Obj(Map<Seq<char>, Val>),
}

/// A JSON-like value.  Nested objects are association lists of fields;
/// a well-formed value (see [`value_wf`]) has no repeated field name.
#[derive(Debug)]
pub enum Value {
    Null,
    Bool(bool),
    Num(i64),
    Str(String),
    Arr(Vec<Value>),
    Obj(Vec<(String, Value)>),
}

/// The model of a value.  Repeated field names resolve as repeated map
/// insertion does: the last occurrence wins.
pub open spec fn value_view(v: Value) -> Val
    decreases v,
{
    match v {
        Value::Null => Val::Null,
        Value::Bool(b) => Val::Bool(b),
        Value::Num(n) => Val::Num(n as int),
        Value::Str(s) => Val::Str(s@),
        Value::Arr(xs) => Val::Arr(arr_view(xs@)),
        Value::Obj(fs) => Val::Obj(fields_view(fs@)),
    }
}

/// The models of the elements of an array, in order.
pub open spec fn arr_view(xs: Seq<Value>) -> Seq<Val>
    decreases xs,
{
    if xs.len() == 0 {
        Seq::empty()
    } else {
        arr_view(xs.drop_last()).push(value_view(xs.last()))
    }
}

/// The map modelled by an association list of fields: each field is
/// inserted in order, so a later occurrence of a name overrides an
/// earlier one.
pub open spec fn fields_view(fs: Seq<(String, Value)>) -> Map<Seq<char>, Val>
    decreases fs,
{
    if fs.len() == 0 {
        Map::empty()
    } else {
        fields_view(fs.drop_last()).insert(fs.last().0@, value_view(fs.last().1))
    }
}

/// No two fields of the list share a name.
pub open spec fn keys_unique(fs: Seq<(String, Value)>) -> bool {
    forall|i: int, j: int|
        0 <= i < j < fs.len() ==> (#[trigger] fs[i]).0@ != (#[trigger] fs[j]).0@
}

/// Well-formedness of a value: every object nested in it, at any depth,
/// has pairwise distinct field names.
pub open spec fn value_wf(v: Value) -> bool
    decreases v,
{
    match v {
        Value::Null => true,
        Value::Bool(_) => true,
        Value::Num(_) => true,
        Value::Str(_) => true,
        Value::Arr(xs) => forall|i: int| 0 <= i < xs@.len() ==> value_wf(#[trigger] xs@[i]),
        Value::Obj(fs) => fields_wf(fs@),
    }
}

/// Well-formedness of a field list: distinct names, well-formed values.
pub open spec fn fields_wf(fs: Seq<(String, Value)>) -> bool
    decreases fs,
{
    keys_unique(fs) && forall|i: int| 0 <= i < fs.len() ==> value_wf((#[trigger] fs[i]).1)
}

impl View for Value {
    type V = Val;

    open spec fn view(&self) -> Val {
        value_view(*self)
    }
}

/// Relies on `str`'s `PartialEq`: two string slices are equal exactly when
/// their character sequences are.
#[verifier::external_body]
pub(crate) fn str_eq(a: &str, b: &str) -> (r: bool)
    ensures
        r == (a@ == b@),
{
    a == b
}

/// The name of a field together with its position, related to the modelled
/// map: a name is in the map's domain exactly when some field carries it,
/// and under distinct names the field's value is the map's value.
pub proof fn lemma_fields_view_get(fs: Seq<(String, Value)>, k: Seq<char>)
    ensures
        fields_view(fs).contains_key(k) <==> (exists|i: int|
            0 <= i < fs.len() && (#[trigger] fs[i]).0@ == k),
        keys_unique(fs) ==> forall|i: int|
            0 <= i < fs.len() && (#[trigger] fs[i]).0@ == k ==> fields_view(fs)[k]
                == value_view(fs[i].1),
    decreases fs.len(),
{
    if fs.len() > 0 {
        lemma_fields_view_get(fs.drop_last(), k);
        if fields_view(fs).contains_key(k) {
            if fs.last().0@ != k {
                let i = choose|i: int| 0 <= i < fs.drop_last().len() && (#[trigger] fs.drop_last()[i]).0@ == k;
                assert(fs[i].0@ == k);
            }
        }
        if exists|i: int| 0 <= i < fs.len() && (#[trigger] fs[i]).0@ == k {
            let i = choose|i: int| 0 <= i < fs.len() && (#[trigger] fs[i]).0@ == k;
            if i < fs.len() - 1 {
                assert(fs.drop_last()[i].0@ == k);
            }
        }
        if keys_unique(fs) {
            assert forall|i: int|
                0 <= i < fs.len() && (#[trigger] fs[i]).0@ == k implies fields_view(fs)[k]
                == value_view(fs[i].1) by {
                assert(keys_unique(fs.drop_last()));
                if i == fs.len() - 1 {
                } else {
                    assert(fs[i].0@ != fs[fs.len() - 1].0@);
                    assert(fs.drop_last()[i].0@ == k);
                }
            }
        }
    }
}

/// Looks a name up in a field list with distinct names.
#[verifier::loop_isolation(false)]
fn fields_get<'a>(fs: &'a Vec<(String, Value)>, key: &str) -> (r: Option<&'a Value>)
    requires
        keys_unique(fs@),
    ensures
        match r {
            Some(v) => fields_view(fs@).contains_key(key@) && v@ == fields_view(fs@)[key@]
                && exists|j: int| 0 <= j < fs@.len() && *v == (#[trigger] fs@[j]).1,
            None => !fields_view(fs@).contains_key(key@),
        },
{
    proof {
        lemma_fields_view_get(fs@, key@);
    }
    let n = fs.len();
    let mut i: usize = 0;
    while i < n
        invariant
            n == fs@.len(),
            keys_unique(fs@),
            forall|j: int| 0 <= j < i ==> (#[trigger] fs@[j]).0@ != key@,
            fields_view(fs@).contains_key(key@) <==> (exists|j: int|
                0 <= j < fs@.len() && (#[trigger] fs@[j]).0@ == key@),
            keys_unique(fs@) ==> forall|j: int|
                0 <= j < fs@.len() && (#[trigger] fs@[j]).0@ == key@ ==> fields_view(fs@)[key@]
                    == value_view(fs@[j].1),
        decreases n - i,
    {
        if str_eq(fs[i].0.as_str(), key) {
            return Some(&fs[i].1);
        }
        i += 1;
    }
    None
}

/// Pointwise facts about an array's model: same length, elementwise views.
pub proof fn lemma_arr_view(xs: Seq<Value>)
    ensures
        arr_view(xs).len() == xs.len(),
        forall|i: int| 0 <= i < xs.len() ==> arr_view(xs)[i] == value_view(#[trigger] xs[i]),
    decreases xs.len(),
{
    if xs.len() > 0 {
        lemma_arr_view(xs.drop_last());
        assert forall|i: int| 0 <= i < xs.len() implies arr_view(xs)[i] == value_view(
            #[trigger] xs[i],
        ) by {
            if i < xs.len() - 1 {
                assert(arr_view(xs.drop_last())[i] == value_view(xs.drop_last()[i]));
                assert(xs.drop_last()[i] == xs[i]);
            }
        }
    }
}

/// Field lists with pointwise equal names and value models model the
/// same map.
pub proof fn lemma_fields_view_congruence(fa: Seq<(String, Value)>, fb: Seq<(String, Value)>)
    requires
        fa.len() == fb.len(),
        forall|i: int|
            0 <= i < fa.len() ==> (#[trigger] fa[i]).0@ == (#[trigger] fb[i]).0@ && value_view(
                fa[i].1,
            ) == value_view(fb[i].1),
    ensures
        fields_view(fa) == fields_view(fb),
    decreases fa.len(),
{
    if fa.len() > 0 {
        lemma_fields_view_congruence(fa.drop_last(), fb.drop_last());
    }
}

/// Structural equality of two well-formed values: arrays compare
/// elementwise and objects compare as maps, whatever the order of their
/// fields.
#[verifier::loop_isolation(false)]
pub fn value_eq(a: &Value, b: &Value) -> (r: bool)
    requires
        value_wf(*a),
        value_wf(*b),
    ensures
        r == (a@ == b@),
    decreases *a,
{
    match (a, b) {
        (Value::Null, Value::Null) => true,
        (Value::Bool(x), Value::Bool(y)) => x == y,
        (Value::Num(x), Value::Num(y)) => x == y,
        (Value::Str(x), Value::Str(y)) => *x == *y,
        (Value::Arr(xs), Value::Arr(ys)) => {
            proof {
                lemma_arr_view(xs@);
                lemma_arr_view(ys@);
            }
            if xs.len() != ys.len() {
                return false;
            }
            let n = xs.len();
            let mut i: usize = 0;
            while i < n
                invariant
                    n == xs@.len() == ys@.len(),
                    value_wf(Value::Arr(*xs)),
                    value_wf(Value::Arr(*ys)),
                    arr_view(xs@).len() == n && arr_view(ys@).len() == n,
                    forall|j: int| 0 <= j < n ==> arr_view(xs@)[j] == value_view(#[trigger] xs@[j]),
                    forall|j: int| 0 <= j < n ==> arr_view(ys@)[j] == value_view(#[trigger] ys@[j]),
                    forall|j: int| 0 <= j < i ==> arr_view(xs@)[j] == arr_view(ys@)[j],
                decreases n - i,
            {
                if !value_eq(&xs[i], &ys[i]) {
                    assert(arr_view(xs@)[i as int] != arr_view(ys@)[i as int]);
                    return false;
                }
                i += 1;
            }
            proof {
                assert(arr_view(xs@) =~= arr_view(ys@));
            }
            true
        },
        (Value::Obj(fa), Value::Obj(fb)) => fields_eq(fa, fb),
        _ => false,
    }
}

/// Map equality of two well-formed field lists, decided by two inclusion
/// passes.
#[verifier::loop_isolation(false)]
fn fields_eq(fa: &Vec<(String, Value)>, fb: &Vec<(String, Value)>) -> (r: bool)
    requires
        fields_wf(fa@),
        fields_wf(fb@),
    ensures
        r == (fields_view(fa@) == fields_view(fb@)),
    decreases fa,
{
    let na = fa.len();
    let mut i: usize = 0;
    while i < na
        invariant
            na == fa@.len(),
            fields_wf(fa@),
            fields_wf(fb@),
            forall|j: int|
                0 <= j < i ==> fields_view(fb@).contains_key((#[trigger] fa@[j]).0@)
                    && fields_view(fb@)[fa@[j].0@] == value_view(fa@[j].1),
        decreases na - i,
    {
        proof {
            lemma_fields_view_get(fa@, fa@[i as int].0@);
        }
        let found = fields_get(fb, fa[i].0.as_str());
        match found {
            None => {
                proof {
                    assert(fields_view(fa@).contains_key(fa@[i as int].0@));
                }
                return false;
            },
            Some(w) => {
                proof {
                    let wj = choose|j: int| 0 <= j < fb@.len() && *w == (#[trigger] fb@[j]).1;
                    assert(value_wf(fb@[wj].1));
                }
                if !value_eq(&fa[i].1, w) {
                    proof {
                        let k = fa@[i as int].0@;
                        assert(fields_view(fa@)[k] == value_view(fa@[i as int].1));
                    }
                    return false;
                }
            },
        }
        i += 1;
    }
    let nb = fb.len();
    let mut j: usize = 0;
    while j < nb
        invariant
            nb == fb@.len(),
            fields_wf(fa@),
            fields_wf(fb@),
            forall|l: int|
                0 <= l < fa@.len() ==> fields_view(fb@).contains_key((#[trigger] fa@[l]).0@)
                    && fields_view(fb@)[fa@[l].0@] == value_view(fa@[l].1),
            forall|l: int| 0 <= l < j ==> fields_view(fa@).contains_key((#[trigger] fb@[l]).0@),
        decreases nb - j,
    {
        proof {
            lemma_fields_view_get(fb@, fb@[j as int].0@);
        }
        if fields_get(fa, fb[j].0.as_str()).is_none() {
            proof {
                assert(fields_view(fb@).contains_key(fb@[j as int].0@));
            }
            return false;
        }
        j += 1;
    }
    proof {
        let ma = fields_view(fa@);
        let mb = fields_view(fb@);
        assert forall|k: Seq<char>| #[trigger] ma.contains_key(k) implies mb.contains_key(k)
            && ma[k] == mb[k] by {
            lemma_fields_view_get(fa@, k);
            let l = choose|l: int| 0 <= l < fa@.len() && (#[trigger] fa@[l]).0@ == k;
            assert(ma[k] == value_view(fa@[l].1));
        }
        assert forall|k: Seq<char>| #[trigger] mb.contains_key(k) implies ma.contains_key(k) by {
            lemma_fields_view_get(fb@, k);
            let l = choose|l: int| 0 <= l < fb@.len() && (#[trigger] fb@[l]).0@ == k;
        }
        assert(ma =~= mb);
    }
    true
}

/// Well-formedness carries over to a field list with pointwise equal
/// names and well-formed values.
proof fn lemma_fields_wf_congruence(fa: Seq<(String, Value)>, fb: Seq<(String, Value)>)
    requires
        fields_wf(fa),
        fa.len() == fb.len(),
        forall|i: int|
            0 <= i < fa.len() ==> (#[trigger] fa[i]).0@ == (#[trigger] fb[i]).0@ && (value_wf(
                fa[i].1,
            ) ==> value_wf(fb[i].1)),
    ensures
        fields_wf(fb),
{
    assert forall|a: int, b: int| 0 <= a < b < fb.len() implies (#[trigger] fb[a]).0@ != (
    #[trigger] fb[b]).0@ by {
        assert(fa[a].0@ != fa[b].0@);
    }
    assert forall|i: int| 0 <= i < fb.len() implies value_wf((#[trigger] fb[i]).1) by {
        assert(value_wf(fa[i].1));
    }
}

/// Structural copies of a field list: same names, same value models.
#[verifier::loop_isolation(false)]
fn clone_fields(fs: &Vec<(String, Value)>) -> (r: Vec<(String, Value)>)
    ensures
        r@.len() == fs@.len(),
        forall|i: int|
            0 <= i < fs@.len() ==> (#[trigger] r@[i]).0@ == fs@[i].0@ && value_view(r@[i].1)
                == value_view(fs@[i].1) && (value_wf(fs@[i].1) ==> value_wf(r@[i].1)),
    decreases fs,
{
    let n = fs.len();
    let mut out: Vec<(String, Value)> = Vec::new();
    let mut i: usize = 0;
    while i < n
        invariant
            i <= n,
            n == fs@.len(),
            out@.len() == i,
            forall|j: int|
                0 <= j < i ==> (#[trigger] out@[j]).0@ == fs@[j].0@ && value_view(out@[j].1)
                    == value_view(fs@[j].1) && (value_wf(fs@[j].1) ==> value_wf(out@[j].1)),
        decreases n - i,
    {
        let key = fs[i].0.clone();
        let v = fs[i].1.deep_clone();
        out.push((key, v));
        i += 1;
    }
    out
}

impl Value {
    /// A structural copy: an independent value with the same model.
    pub fn deep_clone(&self) -> (r: Value)
        ensures
            r@ == self@,
            value_wf(*self) ==> value_wf(r),
        decreases *self,
    {
        match self {
            Value::Null => Value::Null,
            Value::Bool(b) => Value::Bool(*b),
            Value::Num(n) => Value::Num(*n),
            Value::Str(s) => Value::Str(s.clone()),
            Value::Arr(xs) => {
                let n = xs.len();
                let mut out: Vec<Value> = Vec::new();
                let mut i: usize = 0;
                #[verifier::loop_isolation(false)]
                while i < n
                    invariant
                        i <= n,
                        n == xs@.len(),
                        out@.len() == i,
                        forall|j: int|
                            0 <= j < i ==> value_view(#[trigger] out@[j]) == value_view(xs@[j]) && (
                            value_wf(xs@[j]) ==> value_wf(out@[j])),
                    decreases n - i,
                {
                    out.push(xs[i].deep_clone());
                    i += 1;
                }
                proof {
                    lemma_arr_view(xs@);
                    lemma_arr_view(out@);
                    assert forall|j: int| 0 <= j < xs@.len() implies arr_view(out@)[j] == arr_view(
                        xs@,
                    )[j] by {
                        assert(value_view(out@[j]) == value_view(xs@[j]));
                    }
                    assert(arr_view(out@) =~= arr_view(xs@));
                    if value_wf(*self) {
                        assert forall|j: int| 0 <= j < out@.len() implies value_wf(
                            #[trigger] out@[j],
                        ) by {
                            assert(value_wf(xs@[j]));
                        }
                    }
                }
                Value::Arr(out)
            },
            Value::Obj(fs) => {
                let out = clone_fields(fs);
                proof {
                    lemma_fields_view_congruence(out@, fs@);
                    if value_wf(*self) {
                        lemma_fields_wf_congruence(fs@, out@);
                    }
                }
                Value::Obj(out)
            },
        }
    }
}

/// An object: an unordered collection of named fields.  Its model is the
/// finite map from field name to value model; a well-formed object has
/// pairwise distinct field names.
#[derive(Debug)]
pub struct Object {
    fields: Vec<(String, Value)>,
}

impl View for Object {
    type V = Map<Seq<char>, Val>;

    closed spec fn view(&self) -> Map<Seq<char>, Val> {
        fields_view(self.fields@)
    }
}

/// An object matches a filter when every field of the filter is present
/// in the object with a structurally equal value; extra fields of the
/// object do not matter, and an empty filter matches everything.
pub open spec fn spec_matches(obj: Map<Seq<char>, Val>, params: Map<Seq<char>, Val>) -> bool {
    forall|k: Seq<char>| #[trigger]
        params.contains_key(k) ==> obj.contains_key(k) && obj[k] == params[k]
}

/// Updating a field in place, name unchanged, models a map insertion.
proof fn lemma_fields_view_update(fs: Seq<(String, Value)>, i: int, p: (String, Value))
    requires
        keys_unique(fs),
        0 <= i < fs.len(),
        p.0@ == fs[i].0@,
    ensures
        fields_view(fs.update(i, p)) == fields_view(fs).insert(p.0@, value_view(p.1)),
    decreases fs.len(),
{
    let fs2 = fs.update(i, p);
    if i == fs.len() - 1 {
        assert(fs2.drop_last() =~= fs.drop_last());
        assert(fs2.last() == p);
        assert(fields_view(fs.drop_last()).insert(p.0@, value_view(p.1)) =~= fields_view(
            fs,
        ).insert(p.0@, value_view(p.1)));
    } else {
        assert(fs2.drop_last() =~= fs.drop_last().update(i, p));
        assert(keys_unique(fs.drop_last()));
        lemma_fields_view_update(fs.drop_last(), i, p);
        assert(fs2.last() == fs.last());
        assert(fs[i].0@ != fs.last().0@);
        assert(fields_view(fs.drop_last()).insert(p.0@, value_view(p.1)).insert(
            fs.last().0@,
            value_view(fs.last().1),
        ) =~= fields_view(fs).insert(p.0@, value_view(p.1)));
    }
}

/// Taking one more field folds one more insertion into the model.
proof fn lemma_fields_view_take_step(fs: Seq<(String, Value)>, i: int)
    requires
        0 <= i < fs.len(),
    ensures
        fields_view(fs.take(i + 1)) == fields_view(fs.take(i)).insert(
            fs[i].0@,
            value_view(fs[i].1),
        ),
{
    assert(fs.take(i + 1).drop_last() =~= fs.take(i));
    assert(fs.take(i + 1).last() == fs[i]);
}

/// Merging distributes over an insertion on the right.
proof fn lemma_union_insert_right(m1: Map<Seq<char>, Val>, m2: Map<Seq<char>, Val>, k: Seq<char>, v: Val)
    ensures
        m1.union_prefer_right(m2.insert(k, v)) == m1.union_prefer_right(m2).insert(k, v),
{
    assert(m1.union_prefer_right(m2.insert(k, v)) =~= m1.union_prefer_right(m2).insert(k, v));
}

impl Object {
    /// Distinct field names, well-formed field values.
    pub closed spec fn wf(self) -> bool {
        fields_wf(self.fields@)
    }

    /// The empty object.
    pub fn new() -> (o: Object)
        ensures
            o@ == Map::<Seq<char>, Val>::empty(),
            o.wf(),
    {
        Object { fields: Vec::new() }
    }

    /// The value of the named field, if the object has it.
    pub fn get<'a>(&'a self, key: &str) -> (r: Option<&'a Value>)
        requires
            self.wf(),
        ensures
            match r {
                Some(v) => self@.contains_key(key@) && v@ == self@[key@],
                None => !self@.contains_key(key@),
            },
    {
        fields_get(&self.fields, key)
    }

    /// Sets the named field, overwriting an existing value of the same
    /// name.
    #[verifier::loop_isolation(false)]
    pub fn set(&mut self, key: &str, v: Value)
        requires
            old(self).wf(),
            value_wf(v),
        ensures
            final(self)@ == old(self)@.insert(key@, v@),
            final(self).wf(),
    {
        let n = self.fields.len();
        let mut i: usize = 0;
        while i < n
            invariant
                i <= n,
                n == self.fields@.len(),
                self == old(self),
                forall|j: int| 0 <= j < i ==> (#[trigger] self.fields@[j]).0@ != key@,
            decreases n - i,
        {
            if str_eq(self.fields[i].0.as_str(), key) {
                proof {
                    lemma_fields_view_update(
                        self.fields@,
                        i as int,
                        (self.fields@[i as int].0, v),
                    );
                }
                let ghost fs_old = self.fields@;
                self.fields[i].1 = v;
                proof {
                    assert(self.fields@ =~= fs_old.update(i as int, (fs_old[i as int].0, v)));
                    assert forall|a: int, b: int| 0 <= a < b < self.fields@.len() implies (
                    #[trigger] self.fields@[a]).0@ != (#[trigger] self.fields@[b]).0@ by {
                        assert(fs_old[a].0@ != fs_old[b].0@);
                    }
                }
                return ;
            }
            i += 1;
        }
        let ghost fs_old = self.fields@;
        self.fields.push((key.to_owned(), v));
        proof {
            assert(self.fields@.drop_last() =~= fs_old);
            assert forall|a: int, b: int| 0 <= a < b < self.fields@.len() implies (
            #[trigger] self.fields@[a]).0@ != (#[trigger] self.fields@[b]).0@ by {
                if b < fs_old.len() {
                    assert(fs_old[a].0@ != fs_old[b].0@);
                } else {
                    assert(fs_old[a].0@ != key@);
                }
            }
        }
    }

    /// Whether this object matches the filter: every filter field is
    /// present here with a structurally equal value.
    #[verifier::loop_isolation(false)]
    pub fn matches(&self, params: &Object) -> (r: bool)
        requires
            self.wf(),
            params.wf(),
        ensures
            r == spec_matches(self@, params@),
    {
        let n = params.fields.len();
        let mut i: usize = 0;
        while i < n
            invariant
                i <= n,
                n == params.fields@.len(),
                forall|j: int|
                    0 <= j < i ==> self@.contains_key((#[trigger] params.fields@[j]).0@) && self@[(
                    #[trigger] params.fields@[j]).0@] == value_view(params.fields@[j].1),
            decreases n - i,
        {
            let ghost k = params.fields@[i as int].0@;
            proof {
                lemma_fields_view_get(params.fields@, k);
            }
            match fields_get(&self.fields, params.fields[i].0.as_str()) {
                None => {
                    proof {
                        assert(params@.contains_key(k));
                        assert(!self@.contains_key(k));
                    }
                    return false;
                },
                Some(w) => {
                    proof {
                        let wj = choose|j: int|
                            0 <= j < self.fields@.len() && *w == (#[trigger] self.fields@[j]).1;
                        assert(value_wf(self.fields@[wj].1));
                        assert(value_wf(params.fields@[i as int].1));
                    }
                    if !value_eq(&params.fields[i].1, w) {
                        proof {
                            assert(params@.contains_key(k));
                            assert(params@[k] == value_view(params.fields@[i as int].1));
                            assert(self@[k] == w@);
                        }
                        return false;
                    }
                },
            }
            i += 1;
        }
        proof {
            assert forall|k: Seq<char>| #[trigger]
                params@.contains_key(k) implies self@.contains_key(k) && self@[k] == params@[k] by {
                lemma_fields_view_get(params.fields@, k);
                let j = choose|j: int|
                    0 <= j < params.fields@.len() && (#[trigger] params.fields@[j]).0@ == k;
            }
        }
        true
    }

    /// Sets every field of `data` on this object, overwriting existing
    /// values of the same name and leaving the other fields untouched.
    /// The merge is shallow: a nested object or array is replaced
    /// wholesale, never merged recursively.
    #[verifier::loop_isolation(false)]
    pub fn merge_from(&mut self, data: &Object)
        requires
            old(self).wf(),
            data.wf(),
        ensures
            final(self)@ == old(self)@.union_prefer_right(data@),
            final(self).wf(),
    {
        let n = data.fields.len();
        let mut i: usize = 0;
        proof {
            assert(data.fields@.take(0) =~= Seq::<(String, Value)>::empty());
            assert(old(self)@.union_prefer_right(Map::empty()) =~= old(self)@);
        }
        while i < n
            invariant
                i <= n,
                n == data.fields@.len(),
                self.wf(),
                self@ == old(self)@.union_prefer_right(fields_view(data.fields@.take(i as int))),
            decreases n - i,
        {
            proof {
                assert(value_wf(data.fields@[i as int].1));
            }
            let v = data.fields[i].1.deep_clone();
            self.set(data.fields[i].0.as_str(), v);
            proof {
                lemma_fields_view_take_step(data.fields@, i as int);
                lemma_union_insert_right(
                    old(self)@,
                    fields_view(data.fields@.take(i as int)),
                    data.fields@[i as int].0@,
                    value_view(data.fields@[i as int].1),
                );
            }
            i += 1;
        }
        proof {
            assert(data.fields@.take(n as int) =~= data.fields@);
        }
    }

    /// This object as a value, by structural copy.
    pub fn to_value(&self) -> (v: Value)
        requires
            self.wf(),
        ensures
            v@ == Val::Obj(self@),
            value_wf(v),
    {
        let out = clone_fields(&self.fields);
        proof {
            lemma_fields_view_congruence(out@, self.fields@);
            lemma_fields_wf_congruence(self.fields@, out@);
        }
        Value::Obj(out)
    }

    /// A structural copy: an independent object with the same model.
    pub fn deep_clone(&self) -> (r: Object)
        requires
            self.wf(),
        ensures
            r@ == self@,
            r.wf(),
    {
        let out = clone_fields(&self.fields);
        proof {
            lemma_fields_view_congruence(out@, self.fields@);
            lemma_fields_wf_congruence(self.fields@, out@);
        }
        Object { fields: out }
    }
}

} // verus!
