//! The decisions of loading an object from a stream of keys: which field a
//! key fills, what is skipped or kept for the flattened fields, and, at the
//! end of the object, which fields take their defaults and which required
//! field is missing. The caller reads the values and builds the object.
use crate::context::InstancePath;
use crate::errors::SchemaError;
use crate::text::bytes_eq;
use crate::validators::{error_at, missing_required_property, required_message};
use vstd::prelude::*;
use vstd::utf8::encode_utf8;

verus! {

/// A field of an object as the loader routes keys to it.
pub struct FieldRoute {
    /// The key the field is read from.
    pub key: String,
    /// The field takes the keys no other field claims.
    pub flattened: bool,
    /// The field has a default value or a default factory.
    pub has_default: bool,
}

/// The bytes of a field's key.
pub open spec fn key_bytes(f: FieldRoute) -> Seq<u8> {
    encode_utf8(f.key@)
}

/// The last field among the first `n` that is not flattened and has key
/// `k`: the routing table maps each key to the last such field.
pub open spec fn routed_below(fields: Seq<FieldRoute>, k: Seq<u8>, n: int) -> Option<int>
    decreases n,
{
    if n <= 0 {
        None
    } else if !fields[n - 1].flattened && key_bytes(fields[n - 1]) == k {
        Some(n - 1)
    } else {
        routed_below(fields, k, n - 1)
    }
}

pub open spec fn routed(fields: Seq<FieldRoute>, k: Seq<u8>) -> Option<int> {
    routed_below(fields, k, fields.len() as int)
}

/// Whether some field is flattened.
pub open spec fn any_flattened(fields: Seq<FieldRoute>) -> bool {
    exists|i: int| 0 <= i < fields.len() && #[trigger] fields[i].flattened
}

/// What to do with the value under a key.
#[derive(Debug, Clone, Copy, PartialEq, Eq, Structural)]
pub enum Route {
    /// Load it into the field with this index.
    Field(usize),
    /// Skip it: no field takes it.
    Skip,
    /// Keep it, with its key, for the flattened fields.
    Collect,
    /// The object has ended.
    End,
}

/// Where a key goes. With flattened fields, an unknown key is kept for them;
/// without, the field after the last one filled is tried first (documents
/// usually list keys in schema order), then the routing table.
pub open spec fn route_spec(fields: Seq<FieldRoute>, has_flatten: bool, expect: int, key: Option<Seq<u8>>) -> Route {
    match key {
        None => Route::End,
        Some(k) => if has_flatten {
            match routed(fields, k) {
                Some(i) => Route::Field(i as usize),
                None => Route::Collect,
            }
        } else if 0 <= expect < fields.len() && key_bytes(fields[expect]) == k {
            Route::Field(expect as usize)
        } else {
            match routed(fields, k) {
                Some(i) => Route::Field(i as usize),
                None => Route::Skip,
            }
        },
    }
}

/// What to do for a field once the object has ended.
#[derive(Debug, Clone, Copy, PartialEq, Eq, Structural)]
pub enum EndAction {
    /// Load the flattened field from the collected keys.
    Flatten(usize),
    /// Set the field to its default.
    Default(usize),
    /// The field is required and absent: loading fails.
    Missing(usize),
}

/// The actions for the fields from `i` on, in field order, up to and
/// including the first missing one.
pub open spec fn end_from(fields: Seq<FieldRoute>, seen: Seq<bool>, has_flatten: bool, i: int) -> Seq<EndAction>
    decreases fields.len() - i,
{
    if i < 0 || i >= fields.len() {
        Seq::empty()
    } else if has_flatten && fields[i].flattened {
        seq![EndAction::Flatten(i as usize)] + end_from(fields, seen, has_flatten, i + 1)
    } else if seen[i] {
        end_from(fields, seen, has_flatten, i + 1)
    } else if fields[i].has_default {
        seq![EndAction::Default(i as usize)] + end_from(fields, seen, has_flatten, i + 1)
    } else {
        seq![EndAction::Missing(i as usize)]
    }
}

/// The routing state of one object being loaded.
pub struct ObjectRouter {
    fields: Vec<FieldRoute>,
    seen: Vec<bool>,
    expect: usize,
    has_flatten: bool,
}

impl ObjectRouter {
    pub closed spec fn fields(&self) -> Seq<FieldRoute> {
        self.fields@
    }

    /// Which fields have been filled from the stream.
    pub closed spec fn seen(&self) -> Seq<bool> {
        self.seen@
    }

    /// The field tried first for the next key.
    pub closed spec fn expect(&self) -> int {
        self.expect as int
    }

    pub closed spec fn has_flatten(&self) -> bool {
        self.has_flatten
    }

    pub open spec fn wf(&self) -> bool {
        &&& self.seen().len() == self.fields().len()
        &&& 0 <= self.expect() <= self.fields().len()
        &&& self.has_flatten() == any_flattened(self.fields())
    }

    /// A router for an object with these fields, before its first key.
    pub fn new(fields: Vec<FieldRoute>) -> (r: Self)
        ensures
            r.wf(),
            r.fields() == fields@,
            r.seen() == Seq::new(fields@.len(), |i: int| false),
            r.expect() == 0,
    {
        let n = fields.len();
        let mut seen: Vec<bool> = Vec::new();
        let mut has_flatten = false;
        let mut i: usize = 0;
        while i < n
            invariant
                n == fields@.len(),
                i <= n,
                seen@ == Seq::new(i as nat, |j: int| false),
                has_flatten == exists|j: int| 0 <= j < i && #[trigger] fields@[j].flattened,
            decreases n - i,
        {
            if fields[i].flattened {
                has_flatten = true;
            }
            seen.push(false);
            i += 1;
            assert(seen@ =~= Seq::new(i as nat, |j: int| false));
        }
        ObjectRouter { fields, seen, expect: 0, has_flatten }
    }

    /// The field the routing table gives `k`.
    fn lookup(&self, k: &[u8]) -> (r: Option<usize>)
        requires
            self.wf(),
        ensures
            r matches Some(i) ==> routed(self.fields(), k@) == Some(i as int),
            r is None ==> routed(self.fields(), k@) is None,
    {
        let mut n = self.fields.len();
        while n > 0
            invariant
                n <= self.fields@.len(),
                routed(self.fields(), k@) == routed_below(self.fields(), k@, n as int),
            decreases n,
        {
            let f = &self.fields[n - 1];
            if !f.flattened && bytes_eq(f.key.as_str().as_bytes(), k) {
                return Some(n - 1);
            }
            n -= 1;
        }
        None
    }

    /// Routes the next key of the object (`None` at its end) and records a
    /// field it fills.
    pub fn route(&mut self, key: Option<&[u8]>) -> (r: Route)
        requires
            old(self).wf(),
        ensures
            final(self).wf(),
            final(self).fields() == old(self).fields(),
            final(self).has_flatten() == old(self).has_flatten(),
            r == route_spec(
                old(self).fields(),
                old(self).has_flatten(),
                old(self).expect(),
                match key {
                    Some(k) => Some(k@),
                    None => None,
                },
            ),
            match r {
                Route::Field(i) => {
                    &&& i < old(self).fields().len()
                    &&& final(self).seen() == old(self).seen().update(i as int, true)
                    &&& final(self).expect() == if old(self).has_flatten() {
                        old(self).expect()
                    } else {
                        i + 1
                    }
                },
                _ => final(self).seen() == old(self).seen() && final(self).expect() == old(self).expect(),
            },
    {
        let k = match key {
            None => return Route::End,
            Some(k) => k,
        };
        let idx = if self.has_flatten {
            match self.lookup(k) {
                Some(i) => i,
                None => return Route::Collect,
            }
        } else if self.expect < self.fields.len() && bytes_eq(self.fields[self.expect].key.as_str().as_bytes(), k) {
            self.expect
        } else {
            match self.lookup(k) {
                Some(i) => i,
                None => return Route::Skip,
            }
        };
        proof {
            lemma_routed_bound(self.fields(), k@, self.fields().len() as int);
        }
        self.seen.set(idx, true);
        if !self.has_flatten {
            self.expect = idx + 1;
        }
        Route::Field(idx)
    }

    /// What to do for each field once the object has ended, in field order:
    /// flattened fields load from the collected keys, fields not filled take
    /// their defaults, and the first required field not filled ends the list.
    pub fn end_actions(&self) -> (r: Vec<EndAction>)
        requires
            self.wf(),
        ensures
            r@ == end_from(self.fields(), self.seen(), self.has_flatten(), 0),
    {
        let n = self.fields.len();
        let mut out: Vec<EndAction> = Vec::new();
        let mut i: usize = 0;
        while i < n
            invariant
                n == self.fields@.len(),
                self.wf(),
                i <= n,
                end_from(self.fields(), self.seen(), self.has_flatten(), 0) == out@ + end_from(
                    self.fields(),
                    self.seen(),
                    self.has_flatten(),
                    i as int,
                ),
            decreases n - i,
        {
            let f = &self.fields[i];
            let ghost rest = end_from(self.fields(), self.seen(), self.has_flatten(), i + 1);
            if self.has_flatten && f.flattened {
                out.push(EndAction::Flatten(i));
                assert(out@ + rest =~= (out@.drop_last() + seq![EndAction::Flatten(i)]) + rest);
            } else if self.seen[i] {
            } else if f.has_default {
                out.push(EndAction::Default(i));
                assert(out@ + rest =~= (out@.drop_last() + seq![EndAction::Default(i)]) + rest);
            } else {
                out.push(EndAction::Missing(i));
                assert(end_from(self.fields(), self.seen(), self.has_flatten(), i as int) == seq![EndAction::Missing(i)]);
                assert(end_from(self.fields(), self.seen(), self.has_flatten(), 0) =~= out@);
                return out;
            }
            i += 1;
        }
        assert(out@ + Seq::<EndAction>::empty() =~= out@);
        out
    }

    /// The error for field `idx`, required and absent, at the object's path.
    pub fn missing_error(&self, idx: usize, instance_path: &InstancePath) -> (e: SchemaError)
        requires
            self.wf(),
            idx < self.fields().len(),
        ensures
            error_at(e, required_message(self.fields()[idx as int].key@), instance_path.chunks()),
    {
        missing_required_property(self.fields[idx].key.as_str(), instance_path)
    }
}

proof fn lemma_routed_bound(fields: Seq<FieldRoute>, k: Seq<u8>, n: int)
    requires
        n <= fields.len(),
    ensures
        routed_below(fields, k, n) matches Some(i) ==> 0 <= i < n,
    decreases n,
{
    if n > 0 {
        lemma_routed_bound(fields, k, n - 1);
    }
}

} // verus!
