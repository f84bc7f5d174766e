//! Laws of the store, proved once and for all over the models that the
//! operations' contracts are stated in.

use vstd::prelude::*;

use crate::ids::dec_of;
use crate::ids::lemma_dec_roundtrip;
use crate::store::matching_rows;
use crate::store::rows_map;
use crate::value::spec_matches;
use crate::value::Val;

verus! {

/// Round trip: a lookup of the identifier a create assigned returns
/// exactly the object the create stored and returned — `data` with its
/// `"id"` field set to the new identifier.
pub proof fn lemma_round_trip(
    t: Map<Seq<char>, Map<Seq<char>, Val>>,
    c: nat,
    d: Map<Seq<char>, Val>,
)
    ensures
        ({
            let id = dec_of(c + 1);
            let stored = d.insert("id"@, Val::Str(id));
            &&& t.insert(id, stored).contains_key(id)
            &&& t.insert(id, stored)[id] == stored
        }),
{
}

/// Partial update: a merged object takes the update's value wherever the
/// update names a field, keeps the stored value everywhere else, and its
/// fields are the union of both objects' fields.
pub proof fn lemma_merge_semantics(
    base: Map<Seq<char>, Val>,
    d: Map<Seq<char>, Val>,
    k: Seq<char>,
)
    ensures
        d.contains_key(k) ==> base.union_prefer_right(d).contains_key(k)
            && base.union_prefer_right(d)[k] == d[k],
        !d.contains_key(k) && base.contains_key(k) ==> base.union_prefer_right(d).contains_key(k)
            && base.union_prefer_right(d)[k] == base[k],
        base.union_prefer_right(d).dom() == base.dom() + d.dom(),
{
    assert(base.union_prefer_right(d).dom() =~= base.dom() + d.dom());
}

/// Idempotent delete: after a removal the identifier is absent, so a
/// subsequent lookup misses, whether or not the identifier was present
/// before.
pub proof fn lemma_delete_then_get(t: Map<Seq<char>, Map<Seq<char>, Val>>, id: Seq<char>)
    ensures
        !t.remove(id).contains_key(id),
{
}

/// Filter soundness: everything a listing returns is the model of some
/// row that matches the filter.
pub proof fn lemma_list_sound(rs: Seq<(Seq<char>, Map<Seq<char>, Val>)>, p: Map<Seq<char>, Val>)
    ensures
        forall|j: int|
            0 <= j < matching_rows(rs, p).len() ==> exists|i: int|
                0 <= i < rs.len() && spec_matches((#[trigger] rs[i]).1, p) && (#[trigger] matching_rows(
                    rs,
                    p,
                )[j]) == Val::Obj(rs[i].1),
    decreases rs.len(),
{
    if rs.len() > 0 {
        lemma_list_sound(rs.drop_last(), p);
        let sub = matching_rows(rs.drop_last(), p);
        assert forall|j: int| 0 <= j < matching_rows(rs, p).len() implies exists|i: int|
            0 <= i < rs.len() && spec_matches((#[trigger] rs[i]).1, p) && (#[trigger] matching_rows(
                rs,
                p,
            )[j]) == Val::Obj(rs[i].1) by {
            if j < sub.len() {
                let i = choose|i: int|
                    0 <= i < rs.drop_last().len() && spec_matches(
                        (#[trigger] rs.drop_last()[i]).1,
                        p,
                    ) && sub[j] == Val::Obj(rs.drop_last()[i].1);
                assert(rs[i] == rs.drop_last()[i]);
                assert(spec_matches(rs[i].1, p) && matching_rows(rs, p)[j] == Val::Obj(rs[i].1));
            } else {
                assert(spec_matches(rs.last().1, p));
                assert(matching_rows(rs, p)[j] == Val::Obj(rs[rs.len() - 1].1));
            }
        }
    }
}

/// Filter completeness: every row matching the filter appears in the
/// listing.
pub proof fn lemma_list_complete(rs: Seq<(Seq<char>, Map<Seq<char>, Val>)>, p: Map<Seq<char>, Val>)
    ensures
        forall|i: int|
            0 <= i < rs.len() && spec_matches((#[trigger] rs[i]).1, p) ==> matching_rows(
                rs,
                p,
            ).contains(Val::Obj(rs[i].1)),
    decreases rs.len(),
{
    if rs.len() > 0 {
        lemma_list_complete(rs.drop_last(), p);
        let sub = matching_rows(rs.drop_last(), p);
        assert forall|i: int|
            0 <= i < rs.len() && spec_matches((#[trigger] rs[i]).1, p) implies matching_rows(
            rs,
            p,
        ).contains(Val::Obj(rs[i].1)) by {
            if i < rs.len() - 1 {
                assert(rs.drop_last()[i] == rs[i]);
                assert(sub.contains(Val::Obj(rs[i].1)));
                let j = choose|j: int| 0 <= j < sub.len() && sub[j] == Val::Obj(rs[i].1);
                assert(matching_rows(rs, p)[j] == Val::Obj(rs[i].1));
            } else {
                let m = matching_rows(rs, p);
                assert(m[m.len() - 1] == Val::Obj(rs[i].1));
            }
        }
    }
}

/// An empty filter matches every object, so listing with it returns the
/// whole table.
pub proof fn lemma_empty_filter_lists_all(rs: Seq<(Seq<char>, Map<Seq<char>, Val>)>)
    ensures
        matching_rows(rs, Map::empty()).len() == rs.len(),
    decreases rs.len(),
{
    if rs.len() > 0 {
        lemma_empty_filter_lists_all(rs.drop_last());
    }
}

/// No lost writes: creating under a fresh identifier grows the table by
/// exactly one row, so a series of creates — in whatever order they were
/// accepted — leaves one row per create.
pub proof fn lemma_fresh_insert_grows(
    t: Map<Seq<char>, Map<Seq<char>, Val>>,
    id: Seq<char>,
    o: Map<Seq<char>, Val>,
)
    requires
        t.dom().finite(),
        !t.contains_key(id),
    ensures
        t.insert(id, o).dom().finite(),
        t.insert(id, o).dom().len() == t.dom().len() + 1,
{
    assert(t.insert(id, o).dom() =~= t.dom().insert(id));
}

/// A table modelled from finitely many rows is a finite map.
pub proof fn lemma_rows_map_finite(rs: Seq<(Seq<char>, Map<Seq<char>, Val>)>)
    ensures
        rows_map(rs).dom().finite(),
    decreases rs.len(),
{
    if rs.len() > 0 {
        lemma_rows_map_finite(rs.drop_last());
    }
}

/// Identifiers of successive creates, spelled against the counter: each
/// create returns the decimal string of its counter value, read back as
/// that very number, so identifiers never repeat and grow with the
/// counter.  The string-level statement is
/// [`crate::ids::lemma_ids_unique_and_monotonic`]; this form ties it to
/// the stored `"id"` field.
pub proof fn lemma_posted_id_field(c: nat, d: Map<Seq<char>, Val>)
    ensures
        d.insert("id"@, Val::Str(dec_of(c + 1)))["id"@] == Val::Str(dec_of(c + 1)),
        crate::ids::dec_val(dec_of(c + 1)) == c + 1,
{
    lemma_dec_roundtrip(c + 1);
}

} // verus!
