//! What an importer brings: a register of operator builders by name.

use vstd::hash_map::StringHashMap;
use vstd::prelude::*;
use crate::errors::TractError;
use crate::ops::Op;

verus! {

/// The builders of an importer, by operator name. A builder, of type `B`,
/// makes an operator from its definition in the source format. The register
/// is an ordinary value that each importer owns: a hash map from the names
/// to the builders, and the names in the order in which they came.
#[verifier::reject_recursive_types(B)]
pub struct OpRegister<B> {
    builders: StringHashMap<B>,
    names: Vec<String>,
}

impl<B> Default for OpRegister<B> {
    /// A register without builders.
    fn default() -> (r: OpRegister<B>)
        ensures
            r.wf(),
            r.name_seq().len() == 0,
            r.entries() == Map::<Seq<char>, B>::empty(),
    {
        OpRegister::new()
    }
}

impl<B> OpRegister<B> {
    /// The names, in the order in which they were first registered.
    pub closed spec fn name_seq(&self) -> Seq<Seq<char>> {
        Seq::new(self.names@.len(), |i: int| self.names@[i]@)
    }

    /// The register as a map from names to builders.
    pub closed spec fn entries(&self) -> Map<Seq<char>, B> {
        self.builders@
    }

    /// The names are the names that have a builder, and none stands twice.
    pub open spec fn wf(&self) -> bool {
        &&& self.name_seq().no_duplicates()
        &&& forall|name: Seq<char>| self.name_seq().contains(name) <==> #[trigger] self.entries().contains_key(name)
    }

    /// A register without builders.
    pub fn new() -> (r: Self)
        ensures
            r.wf(),
            r.name_seq().len() == 0,
            r.entries() == Map::<Seq<char>, B>::empty(),
    {
        OpRegister { builders: StringHashMap::new(), names: Vec::new() }
    }

    /// The builder registered under `name`.
    pub fn get(&self, name: &str) -> (r: Option<&B>)
        ensures
            self.entries().contains_key(name@) ==> r == Some(&self.entries()[name@]),
            !self.entries().contains_key(name@) ==> r is None,
    {
        self.builders.get(name)
    }

    /// Registers `b` under `name`, in place of the builder that was there.
    pub fn insert(&mut self, name: &str, b: B)
        requires
            old(self).wf(),
        ensures
            final(self).wf(),
            final(self).entries() == old(self).entries().insert(name@, b),
            final(self).name_seq() == if old(self).entries().contains_key(name@) {
                old(self).name_seq()
            } else {
                old(self).name_seq().push(name@)
            },
    {
        let ghost names0 = self.name_seq();
        let ghost entries0 = self.entries();
        let known = self.builders.contains_key(name);
        proof {
            assert(names0.contains(name@) <==> entries0.contains_key(name@));
        }
        self.builders.insert(name.to_owned(), b);
        if !known {
            self.names.push(name.to_owned());
            proof {
                assert(self.name_seq() =~= names0.push(name@));
                assert forall|i: int, j: int|
                    0 <= i < self.name_seq().len() && 0 <= j < self.name_seq().len() && i != j implies self.name_seq()[i]
                    != self.name_seq()[j] by {
                    if i < names0.len() {
                        assert(names0.contains(names0[i]));
                    }
                    if j < names0.len() {
                        assert(names0.contains(names0[j]));
                    }
                }
            }
        } else {
            proof {
                assert(self.name_seq() =~= names0);
            }
        }
        proof {
            assert forall|k: Seq<char>| self.name_seq().contains(k) <==> #[trigger] self.entries().contains_key(k) by {
                assert(names0.contains(k) <==> entries0.contains_key(k));
                assert(self.entries().contains_key(k) <==> (k == name@ || entries0.contains_key(k)));
                if names0.contains(k) {
                    let j = choose|j: int| 0 <= j < names0.len() && names0[j] == k;
                    assert(self.name_seq()[j] == k);
                }
                if k == name@ && !known {
                    assert(self.name_seq()[names0.len() as int] == k);
                }
                if self.name_seq().contains(k) {
                    let j = choose|j: int| 0 <= j < self.name_seq().len() && self.name_seq()[j] == k;
                    if j < names0.len() {
                        assert(names0[j] == k);
                        assert(names0.contains(k));
                    }
                }
            }
        }
    }

    /// The registered names, each once, in the order in which they were
    /// first registered.
    pub fn names(&self) -> (r: Vec<String>)
        requires
            self.wf(),
        ensures
            r@.len() == self.name_seq().len(),
            forall|i: int| 0 <= i < r@.len() ==> (#[trigger] r@[i])@ == self.name_seq()[i],
            forall|i: int| 0 <= i < r@.len() ==> self.entries().contains_key((#[trigger] r@[i])@),
            forall|name: Seq<char>|
                self.entries().contains_key(name) ==> exists|i: int| 0 <= i < r@.len() && (#[trigger] r@[i])@ == name,
    {
        let mut out: Vec<String> = Vec::new();
        let mut i: usize = 0;
        while i < self.names.len()
            invariant
                i <= self.names.len(),
                out@.len() == i,
                forall|k: int| 0 <= k < i ==> (#[trigger] out@[k])@ == self.names@[k]@,
            decreases self.names.len() - i,
        {
            out.push(self.names[i].clone());
            i += 1;
        }
        proof {
            assert forall|i: int| 0 <= i < out@.len() implies self.entries().contains_key((#[trigger] out@[i])@) by {
                assert(self.name_seq()[i] == out@[i]@);
                assert(self.name_seq().contains(out@[i]@));
            }
            assert forall|name: Seq<char>| self.entries().contains_key(name) implies exists|i: int|
                0 <= i < out@.len() && (#[trigger] out@[i])@ == name by {
                assert(self.name_seq().contains(name));
                let j = choose|j: int| 0 <= j < self.name_seq().len() && self.name_seq()[j] == name;
                assert(out@[j]@ == name);
            }
        }
        out
    }
}

/// Builds the operator named `name` from its definition `payload`: with
/// the builder registered under the name, where there is one; else the
/// operator is kept as one that the library does not know, with its name
/// and with `raw`, the definition as text.
pub fn build_op<P, B: Fn(&P) -> Result<Op, TractError>>(
    register: &OpRegister<B>,
    name: &str,
    payload: &P,
    raw: String,
) -> (r: Result<Op, TractError>)
    requires
        register.entries().contains_key(name@) ==> call_requires(register.entries()[name@], (payload,)),
    ensures
        register.entries().contains_key(name@) ==> call_ensures(register.entries()[name@], (payload,), r),
        !register.entries().contains_key(name@) ==> (r matches Ok(Op::Unimplemented { name: n, payload: p }) && n@
            == name@ && p == raw),
{
    match register.get(name) {
        Some(builder) => builder(payload),
        None => Ok(Op::Unimplemented { name: name.to_owned(), payload: raw }),
    }
}

} // verus!
