//! Laws of merging: how merging field by field adds up to the merge of two
//! lists, and what merging a selection set into a copy of itself gives.

use crate::directive::DirectiveView;
use crate::plan::{
    appended_fields, fields_accept, fields_wf, has_key, key_index, keys_distinct, merged_field,
    merged_fields, with_field, FieldView, SelectionSetView,
};
use vstd::prelude::*;

verus! {

/// In a list without repeated keys, a field is found by its key.
pub proof fn lemma_key_index(fields: Seq<FieldView>, key: Seq<char>, j: int)
    requires
        keys_distinct(fields),
        0 <= j < fields.len(),
        fields[j].response_key() == key,
    ensures
        has_key(fields, key),
        key_index(fields, key) == j,
{
    let found = key_index(fields, key);
    assert(fields[found].response_key() == key);
    if found < j {
        assert(fields[found].response_key() != fields[j].response_key());
    } else if j < found {
        assert(fields[j].response_key() != fields[found].response_key());
    }
}

/// Every appended field comes from an incoming field whose key is new.
pub proof fn lemma_appended_origin(
    fields: Seq<FieldView>,
    incoming: Seq<FieldView>,
    directives: Seq<DirectiveView>,
)
    ensures
        forall|m: int|
            0 <= m < appended_fields(fields, incoming, directives).len() ==> exists|k: int|
                0 <= k < incoming.len() && !has_key(fields, incoming[k].response_key())
                    && #[trigger] appended_fields(fields, incoming, directives)[m]
                    == (#[trigger] incoming[k]).with_directives_first(directives),
    decreases incoming.len(),
{
    if incoming.len() > 0 {
        let shorter = incoming.drop_last();
        lemma_appended_origin(fields, shorter, directives);
        let whole = appended_fields(fields, incoming, directives);
        let before = appended_fields(fields, shorter, directives);
        assert forall|m: int| 0 <= m < whole.len() implies exists|k: int|
            0 <= k < incoming.len() && !has_key(fields, incoming[k].response_key())
                && #[trigger] whole[m] == (#[trigger] incoming[k]).with_directives_first(
                directives,
            ) by {
            if m < before.len() {
                let k = choose|k: int|
                    0 <= k < shorter.len() && !has_key(fields, shorter[k].response_key())
                        && #[trigger] before[m] == (#[trigger] shorter[k]).with_directives_first(
                        directives,
                    );
                assert(shorter[k] == incoming[k]);
            } else {
                let k = incoming.len() - 1;
                assert(whole[m] == incoming[k].with_directives_first(directives));
            }
        }
    }
}

/// Merging a list of fields one incoming field at a time: what the list
/// holds after the first `k` incoming fields is untouched at the key of the
/// next one, and taking that one in gives what the list holds after
/// `k + 1`.
pub proof fn lemma_merge_step(
    fields: Seq<FieldView>,
    incoming: Seq<FieldView>,
    directives: Seq<DirectiveView>,
    k: int,
)
    requires
        keys_distinct(fields),
        keys_distinct(incoming),
        0 <= k < incoming.len(),
    ensures
        ({
            let so_far = merged_fields(fields, incoming.take(k), directives);
            let key = incoming[k].response_key();
            &&& has_key(so_far, key) == has_key(fields, key)
            &&& has_key(fields, key) ==> key_index(so_far, key) == key_index(fields, key)
                && so_far[key_index(fields, key)] == fields[key_index(fields, key)]
            &&& merged_fields(fields, incoming.take(k + 1), directives) == with_field(
                so_far,
                incoming[k].with_directives_first(directives),
            )
        }),
{
    let before = incoming.take(k);
    let after = incoming.take(k + 1);
    let so_far = merged_fields(fields, before, directives);
    let next = incoming[k].with_directives_first(directives);
    let key = incoming[k].response_key();
    let tail = appended_fields(fields, before, directives);
    assert(after.drop_last() =~= before);
    assert(after.last() == incoming[k]);
    assert(next.response_key() == key);
    lemma_appended_origin(fields, before, directives);
    // No incoming field before the next one has its key.
    assert(!has_key(before, key)) by {
        if has_key(before, key) {
            let m = key_index(before, key);
            assert(incoming[m].response_key() != incoming[k].response_key());
        }
    }
    // A field of the list so far with that key is one that the list had at first.
    assert forall|m: int| 0 <= m < so_far.len() && so_far[m].response_key() == key implies 0 <= m
        < fields.len() && fields[m].response_key() == key && so_far[m] == fields[m] by {
        if m >= fields.len() {
            let t = m - fields.len();
            let o = choose|o: int|
                0 <= o < before.len() && !has_key(fields, before[o].response_key())
                    && #[trigger] tail[t] == (#[trigger] before[o]).with_directives_first(
                    directives,
                );
            assert(incoming[o].response_key() != incoming[k].response_key());
        }
    }
    if has_key(fields, key) {
        let j = key_index(fields, key);
        assert(so_far[j].response_key() == key);
        assert(so_far[j] == fields[j]);
        assert(has_key(so_far, key));
        let found = key_index(so_far, key);
        assert(so_far[found].response_key() == key);
        assert(fields[found].response_key() == key);
        lemma_key_index(fields, key, found);
    } else {
        if has_key(so_far, key) {
            let found = key_index(so_far, key);
            assert(fields[found].response_key() == key);
        }
    }
    let target = merged_fields(fields, after, directives);
    let stepped = with_field(so_far, next);
    assert(target.len() == stepped.len());
    assert forall|m: int| 0 <= m < target.len() implies target[m] == stepped[m] by {
        if m < fields.len() {
            let own = fields[m].response_key();
            if own == key {
                lemma_key_index(after, key, k);
                lemma_key_index(fields, key, m);
            } else {
                if has_key(after, own) {
                    let o = key_index(after, own);
                    assert(after[o].response_key() == own);
                    assert(o < k);
                    assert(before[o].response_key() == own);
                    lemma_key_index(before, own, o);
                    lemma_key_index(after, own, o);
                } else if has_key(before, own) {
                    let o = key_index(before, own);
                    assert(after[o].response_key() == own);
                }
            }
        }
    }
    assert(target =~= stepped);
}

/// Where `fields` has the key of every incoming field, merging appends
/// nothing.
pub proof fn lemma_nothing_appended(
    fields: Seq<FieldView>,
    incoming: Seq<FieldView>,
    directives: Seq<DirectiveView>,
)
    requires
        forall|k: int|
            0 <= k < incoming.len() ==> has_key(fields, (#[trigger] incoming[k]).response_key()),
    ensures
        appended_fields(fields, incoming, directives) == Seq::<FieldView>::empty(),
    decreases incoming.len(),
{
    if incoming.len() > 0 {
        let shorter = incoming.drop_last();
        assert forall|k: int| 0 <= k < shorter.len() implies has_key(
            fields,
            (#[trigger] shorter[k]).response_key(),
        ) by {
            assert(shorter[k] == incoming[k]);
        }
        lemma_nothing_appended(fields, shorter, directives);
        assert(has_key(fields, incoming[incoming.len() - 1].response_key()));
    }
}

/// Merging a list of fields into an exact copy of itself changes nothing.
pub proof fn lemma_merge_fields_into_themselves(
    fields: Seq<FieldView>,
    directives: Seq<DirectiveView>,
)
    requires
        fields_wf(fields),
    ensures
        fields_accept(fields, fields),
        merged_fields(fields, fields, directives) == fields,
    decreases fields,
{
    assert forall|j: int, k: int|
        0 <= j < fields.len() && 0 <= k < fields.len() && (#[trigger] fields[j]).response_key() == (
        #[trigger] fields[k]).response_key() implies fields[j].selection_set.accepts(
        fields[k].selection_set,
    ) by {
        if j < k {
            assert(fields[j].response_key() != fields[k].response_key());
        } else if k < j {
            assert(fields[k].response_key() != fields[j].response_key());
        }
        lemma_merge_into_itself(fields[j].selection_set, Seq::empty());
    }
    assert forall|j: int| 0 <= j < fields.len() implies merged_field(#[trigger] fields[j], fields)
        == fields[j] by {
        lemma_key_index(fields, fields[j].response_key(), j);
        lemma_merge_into_itself(fields[j].selection_set, Seq::empty());
    }
    assert forall|k: int| 0 <= k < fields.len() implies has_key(
        fields,
        (#[trigger] fields[k]).response_key(),
    ) by {
        lemma_key_index(fields, fields[k].response_key(), k);
    }
    lemma_nothing_appended(fields, fields, directives);
    assert(merged_fields(fields, fields, directives) =~= fields);
}

/// Merging a selection set into an exact copy of itself is always possible
/// and changes nothing, whatever the directives: no field is added to any
/// type, and none is changed.
pub proof fn lemma_merge_into_itself(set: SelectionSetView, directives: Seq<DirectiveView>)
    requires
        set.wf(),
    ensures
        set.accepts(set),
        set.merged(set, directives) == set,
    decreases set,
{
    assert forall|i: int| 0 <= i < set.items.len() implies set.has_type(
        (#[trigger] set.items[i]).0,
    ) && set.fields_of(set.items[i].0) == set.items[i].1 by {
        let name = set.items[i].0;
        assert(set.has_type(name));
        let chosen = set.type_index(name);
        if chosen < i {
            assert(set.items[chosen].0 != set.items[i].0);
        } else if i < chosen {
            assert(set.items[i].0 != set.items[chosen].0);
        }
    }
    assert forall|i: int| 0 <= i < set.items.len() implies fields_accept(
        set.fields_of((#[trigger] set.items[i]).0),
        set.items[i].1,
    ) && merged_fields(set.items[i].1, set.fields_of(set.items[i].0), directives)
        == set.items[i].1 by {
        lemma_merge_fields_into_themselves(set.items[i].1, directives);
    }
    assert(set.merged(set, directives).items =~= set.items);
}

} // verus!
