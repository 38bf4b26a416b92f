//! Laws of the checks: the texts of their messages, the forms of a UUID,
//! and where an object's keys go.
use crate::numtext::decimal_chars;
use crate::object_load::{EndAction, FieldRoute, Route, end_from, key_bytes, route_spec};
use crate::validators::{
    discriminator_message, fewer_items_message, hyphenated_uuid, is_hex_digit, lower_bound_message,
    missing_dict_key_message, more_items_message, not_of_type_message, not_one_of_message, quoted_list,
    required_message, upper_bound_message, uuid_text_ok,
};
use vstd::prelude::*;

verus! {

/// The messages of the checks, letter for letter.
pub proof fn law_check_messages(v: int, bound: int, t: Seq<char>, items: Seq<char>, keys: Seq<Seq<char>>)
    ensures
        lower_bound_message(v, bound) == decimal_chars(v) + " is less than the minimum of "@ + decimal_chars(bound),
        upper_bound_message(v, bound) == decimal_chars(v) + " is greater than the maximum of "@ + decimal_chars(bound),
        required_message(t) == "\""@ + t + "\""@ + " is a required property"@,
        not_of_type_message(t, items) == t + " is not of type "@ + "\""@ + items + "\""@,
        not_one_of_message(t, items) == t + " is not one of "@ + items,
        fewer_items_message(t, bound) == t + " has less than "@ + decimal_chars(bound) + " items"@,
        more_items_message(t, bound) == t + " has more than "@ + decimal_chars(bound) + " items"@,
        missing_dict_key_message(t) == "data dictionary is missing required parameter "@ + t,
        discriminator_message(t, keys) == "\""@ + t + "\""@ + " is not one of ["@ + quoted_list(keys)
            + "] discriminator values"@,
        quoted_list(Seq::<Seq<char>>::empty()) == Seq::<char>::empty(),
        keys.len() > 1 ==> quoted_list(keys) == quoted_list(keys.drop_last()) + ", "@ + "\""@ + keys.last() + "\""@,
{
}

/// The UUID texts: 32 hexadecimal digits, or the hyphenated form (also in
/// braces); a text of another length is none.
pub proof fn law_uuid_forms(b: Seq<u8>)
    ensures
        b.len() == 32 && (forall|i: int| 0 <= i < 32 ==> is_hex_digit(#[trigger] b[i])) ==> uuid_text_ok(b),
        hyphenated_uuid(b) ==> uuid_text_ok(b) && b.len() == 36,
        b.len() == 38 && b[0] == 0x7b && b[37] == 0x7d && hyphenated_uuid(b.subrange(1, 37)) ==> uuid_text_ok(b),
        b.len() != 32 && b.len() != 36 && b.len() != 38 && b.len() != 45 ==> !uuid_text_ok(b),
        (b.len() == 32 && exists|i: int| 0 <= i < 32 && !is_hex_digit(#[trigger] b[i])) ==> !uuid_text_ok(b),
{
}

/// Where an object's key goes: to a field with that key, or nowhere when
/// no field (not flattened) has it; only the end of the object ends it.
pub proof fn law_routes(fields: Seq<FieldRoute>, has_flatten: bool, expect: int, k: Seq<u8>)
    requires
        fields.len() <= usize::MAX,
    ensures
        route_spec(fields, has_flatten, expect, None) == Route::End,
        route_spec(fields, has_flatten, expect, Some(k)) matches Route::Field(i) ==> 0 <= i < fields.len() && key_bytes(
            fields[i as int],
        ) == k,
        !has_flatten && (forall|i: int| 0 <= i < fields.len() ==> key_bytes(#[trigger] fields[i]) != k) ==> route_spec(
            fields,
            has_flatten,
            expect,
            Some(k),
        ) == Route::Skip,
        has_flatten && (forall|i: int| 0 <= i < fields.len() ==> key_bytes(#[trigger] fields[i]) != k) ==> route_spec(
            fields,
            has_flatten,
            expect,
            Some(k),
        ) == Route::Collect,
{
    lemma_routed(fields, k, fields.len() as int);
}

proof fn lemma_routed(fields: Seq<FieldRoute>, k: Seq<u8>, n: int)
    requires
        n <= fields.len(),
    ensures
        crate::object_load::routed_below(fields, k, n) matches Some(i) ==> 0 <= i < n && key_bytes(fields[i]) == k
            && !fields[i].flattened,
        (forall|i: int| 0 <= i < n ==> key_bytes(#[trigger] fields[i]) != k) ==> crate::object_load::routed_below(fields, k, n)
            is None,
    decreases n,
{
    if n > 0 {
        lemma_routed(fields, k, n - 1);
    }
}

/// When an object ends: a field that was not read takes its default if it
/// has one, and one without a default ends the actions as missing; no
/// field that was read is acted on, unless it is flattened.
pub proof fn law_end_actions(fields: Seq<FieldRoute>, seen: Seq<bool>, has_flatten: bool, i: int)
    requires
        seen.len() == fields.len(),
        fields.len() <= usize::MAX,
        0 <= i,
    ensures
        forall|j: int| 0 <= j < end_from(fields, seen, has_flatten, i).len() ==> match #[trigger] end_from(
            fields,
            seen,
            has_flatten,
            i,
        )[j] {
            EndAction::Default(f) => i <= f < fields.len() && !seen[f as int] && fields[f as int].has_default,
            EndAction::Missing(f) => i <= f < fields.len() && !seen[f as int] && !fields[f as int].has_default && j
                == end_from(fields, seen, has_flatten, i).len() - 1,
            EndAction::Flatten(f) => i <= f < fields.len() && has_flatten && fields[f as int].flattened,
        },
        (forall|j: int| 0 <= j < end_from(fields, seen, has_flatten, i).len() ==> !(#[trigger] end_from(
            fields,
            seen,
            has_flatten,
            i,
        )[j] is Missing)) ==> forall|f: int|
            i <= f < fields.len() && !seen[f] && !(has_flatten && fields[f].flattened) ==> #[trigger] fields[f].has_default,
    decreases fields.len() - i,
{
    if i < fields.len() {
        law_end_actions(fields, seen, has_flatten, i + 1);
        let rest = end_from(fields, seen, has_flatten, i + 1);
        let all = end_from(fields, seen, has_flatten, i);
        if has_flatten && fields[i].flattened {
            assert forall|j: int| 0 < j < all.len() implies all[j] == rest[j - 1] by {}
            if forall|j: int| 0 <= j < all.len() ==> !(#[trigger] all[j] is Missing) {
                assert forall|j: int| 0 <= j < rest.len() implies !(#[trigger] rest[j] is Missing) by {
                    assert(all[j + 1] == rest[j]);
                }
            }
        } else if seen[i] {
        } else if fields[i].has_default {
            assert forall|j: int| 0 < j < all.len() implies all[j] == rest[j - 1] by {}
            if forall|j: int| 0 <= j < all.len() ==> !(#[trigger] all[j] is Missing) {
                assert forall|j: int| 0 <= j < rest.len() implies !(#[trigger] rest[j] is Missing) by {
                    assert(all[j + 1] == rest[j]);
                }
            }
        } else {
            assert(all[0] is Missing);
        }
    }
}

} // verus!
