//! The in-memory object store.
//!
//! A [`Store`] owns a table from identifier to object and a monotonic
//! counter.  Five operations — [`Store::list`], [`Store::get`],
//! [`Store::post`], [`Store::patch`], [`Store::delete`] — give a uniform
//! CRUD contract: creation assigns the next decimal identifier and
//! overwrites any caller-supplied `"id"` field, updates merge shallowly
//! and never touch `"id"`, deletion is idempotent, and listing filters by
//! structural equality on fields.  Every operation hands back independent
//! copies, never references into the table.

use vstd::prelude::*;

use crate::ids::dec_of;
use crate::ids::dec_val;
use crate::ids::lemma_dec_roundtrip;
use crate::ids::u64_to_dec;
use crate::value::str_eq;
use crate::value::spec_matches;
use crate::value::value_wf;
use crate::value::Object;
use crate::value::Val;
use crate::value::Value;

verus! {

/// The kind of a failure: a missing identifier, or a request the store
/// rejects outright.
#[derive(Clone, Copy, Debug, PartialEq, Eq, Structural)]
pub enum ErrorKind {
    NotFound,
    BadRequest,
}

/// The name of an error kind, as it appears in error payloads.
pub open spec fn kind_str(k: ErrorKind) -> Seq<char> {
    match k {
        ErrorKind::NotFound => "NotFound"@,
        ErrorKind::BadRequest => "BadRequest"@,
    }
}

impl ErrorKind {
    /// The kind's name.
    pub fn as_string(&self) -> (s: String)
        ensures
            s@ == kind_str(*self),
    {
        match self {
            ErrorKind::NotFound => "NotFound".to_owned(),
            ErrorKind::BadRequest => "BadRequest".to_owned(),
        }
    }
}

/// The error payload: `{"error": {"type": <kind>, "message": <msg>}}`.
pub open spec fn error_val(k: ErrorKind, msg: Seq<char>) -> Val {
    Val::Obj(
        Map::empty().insert(
            "error"@,
            Val::Obj(
                Map::empty().insert("type"@, Val::Str(kind_str(k))).insert(
                    "message"@,
                    Val::Str(msg),
                ),
            ),
        ),
    )
}

/// Builds the typed failure for an error kind and message.
pub fn std_error(kind: ErrorKind, err_str: &str) -> (r: (ErrorKind, Value))
    ensures
        r.0 == kind,
        r.1@ == error_val(kind, err_str@),
        value_wf(r.1),
{
    let mut inner = Object::new();
    inner.set("type", Value::Str(kind.as_string()));
    inner.set("message", Value::Str(err_str.to_owned()));
    let mut outer = Object::new();
    outer.set("error", inner.to_value());
    (kind, outer.to_value())
}

/// The map modelled by a sequence of rows: each row is inserted in
/// order.
pub open spec fn rows_map(rs: Seq<(Seq<char>, Map<Seq<char>, Val>)>) -> Map<
    Seq<char>,
    Map<Seq<char>, Val>,
>
    decreases rs.len(),
{
    if rs.len() == 0 {
        Map::empty()
    } else {
        rows_map(rs.drop_last()).insert(rs.last().0, rs.last().1)
    }
}

/// No two rows share an identifier.
pub open spec fn row_keys_unique(rs: Seq<(Seq<char>, Map<Seq<char>, Val>)>) -> bool {
    forall|i: int, j: int|
        0 <= i < j < rs.len() ==> (#[trigger] rs[i]).0 != (#[trigger] rs[j]).0
}

/// A row's identifier and the modelled map: an identifier is in the
/// map's domain exactly when some row carries it, and under distinct
/// identifiers the row's object is the map's value.
pub proof fn lemma_rows_map_get(rs: Seq<(Seq<char>, Map<Seq<char>, Val>)>, k: Seq<char>)
    ensures
        rows_map(rs).contains_key(k) <==> (exists|i: int|
            0 <= i < rs.len() && (#[trigger] rs[i]).0 == k),
        row_keys_unique(rs) ==> forall|i: int|
            0 <= i < rs.len() && (#[trigger] rs[i]).0 == k ==> rows_map(rs)[k] == rs[i].1,
    decreases rs.len(),
{
    if rs.len() > 0 {
        lemma_rows_map_get(rs.drop_last(), k);
        if rows_map(rs).contains_key(k) {
            if rs.last().0 != k {
                let i = choose|i: int|
                    0 <= i < rs.drop_last().len() && (#[trigger] rs.drop_last()[i]).0 == k;
                assert(rs[i].0 == k);
            }
        }
        if exists|i: int| 0 <= i < rs.len() && (#[trigger] rs[i]).0 == k {
            let i = choose|i: int| 0 <= i < rs.len() && (#[trigger] rs[i]).0 == k;
            if i < rs.len() - 1 {
                assert(rs.drop_last()[i].0 == k);
            }
        }
        if row_keys_unique(rs) {
            assert forall|i: int|
                0 <= i < rs.len() && (#[trigger] rs[i]).0 == k implies rows_map(rs)[k]
                == rs[i].1 by {
                assert(row_keys_unique(rs.drop_last()));
                if i == rs.len() - 1 {
                } else {
                    assert(rs[i].0 != rs[rs.len() - 1].0);
                    assert(rs.drop_last()[i].0 == k);
                }
            }
        }
    }
}

/// Replacing a row in place, identifier unchanged, models a map
/// insertion.
proof fn lemma_rows_map_update(
    rs: Seq<(Seq<char>, Map<Seq<char>, Val>)>,
    i: int,
    p: (Seq<char>, Map<Seq<char>, Val>),
)
    requires
        row_keys_unique(rs),
        0 <= i < rs.len(),
        p.0 == rs[i].0,
    ensures
        rows_map(rs.update(i, p)) == rows_map(rs).insert(p.0, p.1),
    decreases rs.len(),
{
    let rs2 = rs.update(i, p);
    if i == rs.len() - 1 {
        assert(rs2.drop_last() =~= rs.drop_last());
        assert(rs2.last() == p);
        assert(rows_map(rs.drop_last()).insert(p.0, p.1) =~= rows_map(rs).insert(p.0, p.1));
    } else {
        assert(rs2.drop_last() =~= rs.drop_last().update(i, p));
        assert(row_keys_unique(rs.drop_last()));
        lemma_rows_map_update(rs.drop_last(), i, p);
        assert(rs2.last() == rs.last());
        assert(rs[i].0 != rs.last().0);
        assert(rows_map(rs.drop_last()).insert(p.0, p.1).insert(rs.last().0, rs.last().1)
            =~= rows_map(rs).insert(p.0, p.1));
    }
}

/// Removing a row models a map removal, under distinct identifiers.
proof fn lemma_rows_map_remove(rs: Seq<(Seq<char>, Map<Seq<char>, Val>)>, i: int)
    requires
        row_keys_unique(rs),
        0 <= i < rs.len(),
    ensures
        rows_map(rs.remove(i)) == rows_map(rs).remove(rs[i].0),
    decreases rs.len(),
{
    let rs2 = rs.remove(i);
    if i == rs.len() - 1 {
        assert(rs2 =~= rs.drop_last());
        lemma_rows_map_get(rs.drop_last(), rs[i].0);
        assert(!rows_map(rs.drop_last()).contains_key(rs[i].0));
        assert(rows_map(rs.drop_last()) =~= rows_map(rs).remove(rs[i].0));
    } else {
        assert(rs2.drop_last() =~= rs.drop_last().remove(i));
        assert(row_keys_unique(rs.drop_last()));
        lemma_rows_map_remove(rs.drop_last(), i);
        assert(rs2.last() == rs.last());
        assert(rs[i].0 != rs.last().0);
        assert(rows_map(rs.drop_last()).remove(rs[i].0).insert(rs.last().0, rs.last().1)
            =~= rows_map(rs).remove(rs[i].0));
    }
}

/// The models of the rows matching a filter, in table order.
pub open spec fn matching_rows(
    rs: Seq<(Seq<char>, Map<Seq<char>, Val>)>,
    p: Map<Seq<char>, Val>,
) -> Seq<Val>
    decreases rs.len(),
{
    if rs.len() == 0 {
        Seq::empty()
    } else {
        matching_rows(rs.drop_last(), p) + (if spec_matches(rs.last().1, p) {
            seq![Val::Obj(rs.last().1)]
        } else {
            Seq::empty()
        })
    }
}

/// The in-memory store: a table from identifier to object, and the
/// number of the last identifier handed out.
pub struct Store {
    table: Vec<(String, Object)>,
    last_num: u64,
}

impl Store {
    /// The rows of the table, in insertion order: identifier and object
    /// model.
    pub closed spec fn rows(self) -> Seq<(Seq<char>, Map<Seq<char>, Val>)> {
        self.table@.map_values(|e: (String, Object)| (e.0@, e.1@))
    }

    /// The table as a map from identifier to object model.
    pub open spec fn table(self) -> Map<Seq<char>, Map<Seq<char>, Val>> {
        rows_map(self.rows())
    }

    /// The value of the identifier counter: the number of the last
    /// identifier handed out, zero initially.
    pub closed spec fn count(self) -> nat {
        self.last_num as nat
    }

    /// The store's invariant: identifiers are pairwise distinct decimal
    /// strings of numbers between one and the counter, and every stored
    /// object is well formed and carries an `"id"` field equal to its
    /// identifier.
    pub closed spec fn wf(self) -> bool {
        &&& forall|i: int, j: int|
            0 <= i < j < self.table@.len() ==> (#[trigger] self.table@[i]).0@ != (
            #[trigger] self.table@[j]).0@
        &&& forall|i: int| 0 <= i < self.table@.len() ==> (#[trigger] self.table@[i]).1.wf()
        &&& forall|i: int|
            0 <= i < self.table@.len() ==> (#[trigger] self.table@[i]).1@.contains_key("id"@)
                && self.table@[i].1@["id"@] == Val::Str(self.table@[i].0@)
        &&& forall|i: int|
            0 <= i < self.table@.len() ==> 1 <= dec_val((#[trigger] self.table@[i]).0@)
                <= self.last_num && self.table@[i].0@ == dec_of(dec_val(self.table@[i].0@))
    }

    /// The store's standing invariant, spelled over its map model: every
    /// stored object carries an `"id"` field equal to its identifier, and
    /// every identifier is the decimal string of a number between one and
    /// the counter — so no identifier outlives the counter values already
    /// spent, and none is ever reused.
    pub proof fn lemma_table_invariant(self)
        requires
            self.wf(),
        ensures
            forall|k: Seq<char>| #[trigger]
                self.table().contains_key(k) ==> self.table()[k].contains_key("id"@)
                    && self.table()[k]["id"@] == Val::Str(k),
            forall|k: Seq<char>| #[trigger]
                self.table().contains_key(k) ==> 1 <= dec_val(k) <= self.count() && k == dec_of(
                    dec_val(k),
                ),
    {
        assert forall|k: Seq<char>| #[trigger] self.table().contains_key(k) implies self.table()[k].contains_key("id"@)
            && self.table()[k]["id"@] == Val::Str(k) && 1 <= dec_val(k) <= self.count() && k
            == dec_of(dec_val(k)) by {
            lemma_rows_map_get(self.rows(), k);
            let i = choose|i: int| 0 <= i < self.rows().len() && (#[trigger] self.rows()[i]).0 == k;
            assert(self.table@[i].0@ == k);
            assert(self.table()[k] == self.rows()[i].1);
        }
    }

    /// An empty store: no rows, counter at zero.
    pub fn new() -> (s: Store)
        ensures
            s.wf(),
            s.rows() == Seq::<(Seq<char>, Map<Seq<char>, Val>)>::empty(),
            s.table() == Map::<Seq<char>, Map<Seq<char>, Val>>::empty(),
            s.count() == 0,
    {
        let s = Store { table: Vec::new(), last_num: 0 };
        proof {
            assert(s.rows() =~= Seq::<(Seq<char>, Map<Seq<char>, Val>)>::empty());
        }
        s
    }

    /// The counter's value, for callers that must guard against its
    /// machine limit before creating.
    pub fn last_num(&self) -> (n: u64)
        ensures
            n == self.count(),
    {
        self.last_num
    }

    /// The index of the row with the given identifier.
    #[verifier::loop_isolation(false)]
    fn find_row(&self, id: &str) -> (r: Option<usize>)
        requires
            self.wf(),
        ensures
            match r {
                Some(i) => i < self.table@.len() && self.table@[i as int].0@ == id@,
                None => forall|j: int|
                    0 <= j < self.table@.len() ==> (#[trigger] self.table@[j]).0@ != id@,
            },
    {
        let n = self.table.len();
        let mut i: usize = 0;
        while i < n
            invariant
                i <= n,
                n == self.table@.len(),
                forall|j: int| 0 <= j < i ==> (#[trigger] self.table@[j]).0@ != id@,
            decreases n - i,
        {
            if str_eq(self.table[i].0.as_str(), id) {
                return Some(i);
            }
            i += 1;
        }
        None
    }

    /// Lists the objects matching the filter: those carrying every field
    /// of `params` with a structurally equal value.  The result is an
    /// object with one field, `"data"`, holding copies of the matches in
    /// table order; an empty filter lists the whole table.
    #[verifier::loop_isolation(false)]
    pub fn list(&self, params: &Object) -> (r: Object)
        requires
            self.wf(),
            params.wf(),
        ensures
            r@ == Map::<Seq<char>, Val>::empty().insert(
                "data"@,
                Val::Arr(matching_rows(self.rows(), params@)),
            ),
            r.wf(),
    {
        let n = self.table.len();
        let mut arr: Vec<Value> = Vec::new();
        proof {
            assert(self.rows().take(0) =~= Seq::<(Seq<char>, Map<Seq<char>, Val>)>::empty());
        }
        let mut i: usize = 0;
        while i < n
            invariant
                i <= n,
                n == self.table@.len(),
                crate::value::arr_view(arr@) == matching_rows(self.rows().take(i as int), params@),
                forall|j: int| 0 <= j < arr@.len() ==> value_wf(#[trigger] arr@[j]),
            decreases n - i,
        {
            let ghost rows_i = self.rows().take(i as int);
            proof {
                assert(self.rows().take(i + 1).drop_last() =~= self.rows().take(i as int));
                assert(self.rows().take(i + 1).last() == self.rows()[i as int]);
            }
            if self.table[i].1.matches(params) {
                let ghost arr_old = arr@;
                arr.push(self.table[i].1.to_value());
                proof {
                    assert(arr@.drop_last() =~= arr_old);
                    assert(crate::value::arr_view(arr@) == crate::value::arr_view(arr_old).push(
                        Val::Obj(self.rows()[i as int].1),
                    ));
                    assert(matching_rows(rows_i, params@) + seq![Val::Obj(self.rows()[i as int].1)]
                        =~= matching_rows(rows_i, params@).push(Val::Obj(self.rows()[i as int].1)));
                }
            } else {
                proof {
                    assert(matching_rows(rows_i, params@) + Seq::<Val>::empty() =~= matching_rows(
                        rows_i,
                        params@,
                    ));
                }
            }
            i += 1;
        }
        proof {
            assert(self.rows().take(n as int) =~= self.rows());
        }
        let mut out = Object::new();
        out.set("data", Value::Arr(arr));
        out
    }

    /// Looks an identifier up: a copy of the stored object, or NotFound.
    pub fn get(&self, id: &str, _params: &Object) -> (r: Result<Object, (ErrorKind, Value)>)
        requires
            self.wf(),
        ensures
            match r {
                Ok(o) => self.table().contains_key(id@) && o@ == self.table()[id@] && o.wf(),
                Err(e) => !self.table().contains_key(id@) && e.0 == ErrorKind::NotFound && e.1@
                    == error_val(ErrorKind::NotFound, "couldn't find object with that id"@)
                    && value_wf(e.1),
            },
    {
        proof {
            lemma_rows_map_get(self.rows(), id@);
        }
        match self.find_row(id) {
            Some(i) => {
                proof {
                    assert(self.rows()[i as int].0 == id@);
                }
                Ok(self.table[i].1.deep_clone())
            },
            None => {
                proof {
                    assert forall|j: int| 0 <= j < self.rows().len() implies (
                    #[trigger] self.rows()[j]).0 != id@ by {
                        assert(self.table@[j].0@ != id@);
                    }
                }
                Err(std_error(ErrorKind::NotFound, "couldn't find object with that id"))
            },
        }
    }

    /// Creates an object: assigns the next identifier, sets it as the
    /// `"id"` field of a copy of `data` — overwriting any `"id"` the
    /// caller supplied — stores the result, and returns a copy of it.
    /// The new identifier was never in the table before.
    pub fn post(&mut self, data: &Object, _params: &Object) -> (r: Object)
        requires
            old(self).wf(),
            data.wf(),
            old(self).count() < u64::MAX,
        ensures
            final(self).wf(),
            final(self).count() == old(self).count() + 1,
            r@ == data@.insert("id"@, Val::Str(dec_of(final(self).count()))),
            r.wf(),
            !old(self).table().contains_key(dec_of(final(self).count())),
            final(self).rows() == old(self).rows().push((dec_of(final(self).count()), r@)),
            final(self).table() == old(self).table().insert(dec_of(final(self).count()), r@),
    {
        self.last_num = self.last_num + 1;
        let id_str = u64_to_dec(self.last_num);
        let mut obj = data.deep_clone();
        obj.set("id", Value::Str(id_str.clone()));
        let stored = obj.deep_clone();
        proof {
            lemma_dec_roundtrip(self.last_num as nat);
            assert forall|j: int| 0 <= j < old(self).rows().len() implies (
            #[trigger] old(self).rows()[j]).0 != id_str@ by {
                assert(dec_val(old(self).table@[j].0@) <= old(self).last_num);
            }
            lemma_rows_map_get(old(self).rows(), id_str@);
        }
        let ghost table_old = self.table@;
        self.table.push((id_str, stored));
        proof {
            assert(self.rows().drop_last() =~= old(self).rows());
            assert(self.rows() =~= old(self).rows().push(
                (dec_of(self.count()), obj@),
            ));
        }
        obj
    }

    /// Partially updates the object under an identifier.  An update
    /// carrying an `"id"` field is rejected outright with BadRequest;
    /// a missing identifier is NotFound; otherwise every field of `data`
    /// overwrites the stored field of the same name, the other stored
    /// fields stay untouched, and a copy of the merged object is
    /// returned.  The merge is shallow: nested values are replaced
    /// wholesale.  On any failure the store is unchanged.
    pub fn patch(&mut self, id: &str, data: &Object, _params: &Object) -> (r: Result<
        Object,
        (ErrorKind, Value),
    >)
        requires
            old(self).wf(),
            data.wf(),
        ensures
            final(self).wf(),
            final(self).count() == old(self).count(),
            match r {
                Ok(o) => {
                    &&& !data@.contains_key("id"@)
                    &&& old(self).table().contains_key(id@)
                    &&& o@ == old(self).table()[id@].union_prefer_right(data@)
                    &&& o.wf()
                    &&& final(self).table() == old(self).table().insert(id@, o@)
                    &&& exists|i: int|
                        0 <= i < old(self).rows().len() && (#[trigger] old(self).rows()[i]).0 == id@
                            && final(self).rows() == old(self).rows().update(i, (id@, o@))
                },
                Err(e) => {
                    &&& *final(self) == *old(self)
                    &&& (e.0 == ErrorKind::BadRequest <==> data@.contains_key("id"@))
                    &&& (e.0 == ErrorKind::NotFound <==> !data@.contains_key("id"@) && !old(
                        self,
                    ).table().contains_key(id@))
                    &&& (e.0 == ErrorKind::BadRequest ==> e.1@ == error_val(
                        ErrorKind::BadRequest,
                        "can't update id"@,
                    ))
                    &&& (e.0 == ErrorKind::NotFound ==> e.1@ == error_val(
                        ErrorKind::NotFound,
                        "couldn't find object with that id"@,
                    ))
                    &&& value_wf(e.1)
                },
            },
    {
        proof {
            lemma_rows_map_get(self.rows(), id@);
        }
        if data.get("id").is_some() {
            return Err(std_error(ErrorKind::BadRequest, "can't update id"));
        }
        match self.find_row(id) {
            None => {
                proof {
                    assert forall|j: int| 0 <= j < self.rows().len() implies (
                    #[trigger] self.rows()[j]).0 != id@ by {
                        assert(self.table@[j].0@ != id@);
                    }
                }
                Err(std_error(ErrorKind::NotFound, "couldn't find object with that id"))
            },
            Some(i) => {
                proof {
                    assert(self.rows()[i as int].0 == id@);
                }
                let mut merged = self.table[i].1.deep_clone();
                merged.merge_from(data);
                let result = merged.deep_clone();
                let ghost rows_old = self.rows();
                let ghost key_old = self.table@[i as int].0;
                self.table[i].1 = merged;
                proof {
                    assert(self.table@ =~= old(self).table@.update(
                        i as int,
                        (key_old, self.table@[i as int].1),
                    ));
                    assert(self.rows() =~= rows_old.update(
                        i as int,
                        (id@, old(self).table()[id@].union_prefer_right(data@)),
                    ));
                    lemma_rows_map_update(
                        rows_old,
                        i as int,
                        (id@, old(self).table()[id@].union_prefer_right(data@)),
                    );
                }
                Ok(result)
            },
        }
    }

    /// Deletes the object under an identifier, if the table has one:
    /// absence is not an error.  Either way the result is an object
    /// holding only the echoed identifier, `{"id": id}`.
    pub fn delete(&mut self, id: &str, _params: &Object) -> (r: Object)
        requires
            old(self).wf(),
        ensures
            final(self).wf(),
            final(self).count() == old(self).count(),
            r@ == Map::<Seq<char>, Val>::empty().insert("id"@, Val::Str(id@)),
            r.wf(),
            final(self).table() == old(self).table().remove(id@),
            !old(self).table().contains_key(id@) ==> final(self).rows() == old(self).rows(),
            old(self).table().contains_key(id@) ==> exists|i: int|
                0 <= i < old(self).rows().len() && (#[trigger] old(self).rows()[i]).0 == id@
                    && final(self).rows() == old(self).rows().remove(i),
    {
        proof {
            lemma_rows_map_get(self.rows(), id@);
        }
        match self.find_row(id) {
            Some(i) => {
                let ghost rows_old = self.rows();
                self.table.remove(i);
                proof {
                    assert(self.rows() =~= rows_old.remove(i as int));
                    lemma_rows_map_remove(rows_old, i as int);
                }
            },
            None => {
                proof {
                    assert forall|j: int| 0 <= j < self.rows().len() implies (
                    #[trigger] self.rows()[j]).0 != id@ by {
                        assert(self.table@[j].0@ != id@);
                    }
                    assert(self.table().remove(id@) =~= self.table());
                }
            },
        }
        let mut out = Object::new();
        out.set("id", Value::Str(id.to_owned()));
        out
    }
}

} // verus!
